//! The delta engine: a store of relations that takes the relations to insert
//! and to delete after each change of the program, and says whether the
//! program that the store then describes is well typed.

use crate::ast::{get_initial_relation_set, Tree, TreeView};
use crate::definitions::{AstRelation, RelationKind, RelationView};
use crate::differ::{pairs_up, same_program};
use crate::facts::{lemma_store_tree, store_tree, tree_from_relations};
use crate::relation_set::{views_of, RelationSet};
use crate::standard_type_checker::type_check;
use crate::term::lemma_term_unique;
use crate::type_rules::{is_pairing, lemma_program_ok_pairing, program_ok};
use vstd::prelude::*;

verus! {

/// The tag under which the engine files a value.
pub trait EquivRelId {
    /// The tag that the engine knows this value by.
    spec fn relid(&self) -> RelationKind;

    /// The tag, computed.
    fn get_equiv_relid(&self) -> (kind: RelationKind)
        ensures
            kind == self.relid(),
    ;
}

impl EquivRelId for AstRelation {
    open spec fn relid(&self) -> RelationKind {
        self@.kind
    }

    fn get_equiv_relid(&self) -> (kind: RelationKind) {
        self.kind()
    }
}

/// The program is well typed, as far as a store of relations says: the
/// store holds one translation unit, the relations that the unit reaches
/// describe a tree, and the program of the tree is well typed. Relations
/// that the unit does not reach take nothing from that.
pub open spec fn store_ok(store: Set<RelationView>) -> bool {
    match store_tree(store) {
        Some(t) => program_ok(t.shape()),
        None => false,
    }
}

/// The first `i + 1` relations of a list are, as a set, the first `i` and the
/// one at place `i`.
proof fn lemma_prefix_set(list: Seq<RelationView>, i: int)
    requires
        0 <= i < list.len(),
    ensures
        list.subrange(0, i + 1).to_set() == list.subrange(0, i).to_set().insert(list[i]),
{
    let front = list.subrange(0, i);
    let more = list.subrange(0, i + 1);
    assert(more =~= front.push(list[i]));
    assert forall|r: RelationView| more.to_set().contains(r) implies front.to_set().insert(
        list[i],
    ).contains(r) by {
        let k = choose|k: int| 0 <= k < more.len() && more[k] == r;
        if k < i {
            assert(front[k] == r);
        }
    }
    assert forall|r: RelationView| front.to_set().insert(list[i]).contains(
        r,
    ) implies more.to_set().contains(r) by {
        if front.to_set().contains(r) {
            let k = choose|k: int| 0 <= k < front.len() && front[k] == r;
            assert(more[k] == r);
        } else {
            assert(more[i] == r);
        }
    }
    assert(more.to_set() =~= front.to_set().insert(list[i]));
}

/// The store of the engine.
#[derive(Debug)]
pub struct DeltaEngine {
    facts: RelationSet,
}

impl View for DeltaEngine {
    type V = Set<RelationView>;

    closed spec fn view(&self) -> Set<RelationView> {
        self.facts@
    }
}

impl DeltaEngine {
    /// An engine that knows no relation.
    pub fn new() -> (engine: Self)
        ensures
            engine@ == Set::<RelationView>::empty(),
    {
        DeltaEngine { facts: RelationSet::new() }
    }

    /// The number of relations in the store.
    pub fn len(&self) -> (n: usize)
        ensures
            n == self@.len(),
    {
        self.facts.len()
    }

    /// Whether the program that the store describes is well typed.
    pub fn verdict(&self) -> (ok: bool)
        ensures
            ok == store_ok(self@),
    {
        match tree_from_relations(&self.facts) {
            Some(tree) => {
                proof {
                    lemma_term_unique(tree@, store_tree(self@).unwrap());
                }
                type_check(&tree)
            },
            None => false,
        }
    }

    /// Whether the store holds the relations of the tree and no others.
    pub fn holds_relations_of(&self, tree: &Tree) -> (same: bool)
        ensures
            same == (self@ == tree@.relation_set()),
    {
        let relations = get_initial_relation_set(tree);
        if self.facts.len() != relations.len() {
            return false;
        }
        let items = relations.items();
        let mut i: usize = 0;
        while i < items.len()
            invariant
                0 <= i <= items.len(),
                views_of(items@).to_set() == relations@,
                relations@ == tree@.relation_set(),
                relations@.finite(),
                self@.finite(),
                self@.len() == relations@.len(),
                forall|k: int| 0 <= k < i ==> self@.contains((#[trigger] items@[k])@),
            decreases items.len() - i,
        {
            if !self.facts.contains(&items[i]) {
                proof {
                    assert(views_of(items@)[i as int] == items@[i as int]@);
                    assert(relations@.contains(items@[i as int]@));
                }
                return false;
            }
            i += 1;
        }
        proof {
            assert(relations@.subset_of(self@)) by {
                assert forall|r: RelationView| relations@.contains(r) implies self@.contains(r) by {
                    let k = choose|k: int|
                        0 <= k < views_of(items@).len() && views_of(items@)[k] == r;
                    assert(items@[k]@ == r);
                }
            }
            vstd::set_lib::lemma_subset_equality(relations@, self@);
        }
        true
    }

    /// Takes the relations of one change: puts in those to insert, takes out
    /// those to delete, and says whether the program that the store then
    /// describes is well typed. The verdict is found from the store alone,
    /// whatever the verdict before was.
    pub fn step(&mut self, prev_ok: bool, insert_set: &RelationSet, delete_set: &RelationSet) -> (ok:
        bool)
        ensures
            final(self)@ == old(self)@.union(insert_set@).difference(delete_set@),
            ok == store_ok(final(self)@),
    {
        let inserts = insert_set.items();
        let mut i: usize = 0;
        while i < inserts.len()
            invariant
                0 <= i <= inserts.len(),
                views_of(inserts@).to_set() == insert_set@,
                self@ == old(self)@.union(views_of(inserts@).subrange(0, i as int).to_set()),
            decreases inserts.len() - i,
        {
            let ghost before = self@;
            self.facts.insert(inserts[i].clone());
            proof {
                lemma_prefix_set(views_of(inserts@), i as int);
                let more = views_of(inserts@).subrange(0, i + 1);
                assert(views_of(inserts@)[i as int] == inserts@[i as int]@);
                assert(self@ =~= old(self)@.union(more.to_set()));
            }
            i += 1;
        }
        proof {
            assert(views_of(inserts@).subrange(0, i as int) =~= views_of(inserts@));
        }
        let ghost grown = self@;
        let deletes = delete_set.items();
        let mut k: usize = 0;
        while k < deletes.len()
            invariant
                0 <= k <= deletes.len(),
                views_of(deletes@).to_set() == delete_set@,
                self@ == grown.difference(views_of(deletes@).subrange(0, k as int).to_set()),
            decreases deletes.len() - k,
        {
            self.facts.remove(&deletes[k]);
            proof {
                lemma_prefix_set(views_of(deletes@), k as int);
                let more = views_of(deletes@).subrange(0, k + 1);
                assert(views_of(deletes@)[k as int] == deletes@[k as int]@);
                assert(self@ =~= grown.difference(more.to_set()));
            }
            k += 1;
        }
        proof {
            assert(views_of(deletes@).subrange(0, k as int) =~= views_of(deletes@));
        }
        self.verdict()
    }
}

/// The verdict after a change, read from how the fact that the program is
/// well typed changed: each entry of `weights` is `1` where the fact came
/// and `-1` where it went. A program that was well typed stays so where the
/// fact did not change; one that was not becomes so where the fact came.
pub fn verdict_after_changes(prev_result: bool, weights: &Vec<isize>) -> (new_result: bool)
    ensures
        new_result == if prev_result {
            weights@.len() == 0
        } else {
            exists|k: int| 0 <= k < weights@.len() && weights@[k] == 1
        },
{
    if prev_result {
        return weights.len() == 0;
    }
    let mut i: usize = 0;
    while i < weights.len()
        invariant
            !prev_result,
            0 <= i <= weights.len(),
            forall|k: int| 0 <= k < i ==> weights@[k] != 1,
        decreases weights.len() - i,
    {
        if weights[i] == 1 {
            assert(weights@[i as int] == 1);
            return true;
        }
        i += 1;
    }
    false
}

/// Hands the relations of one change to the engine and gives its verdict.
pub fn run_ddlog_type_checker(
    hddlog: &mut DeltaEngine,
    insert_set: RelationSet,
    delete_set: RelationSet,
    prev_result: bool,
) -> (new_result: bool)
    ensures
        final(hddlog)@ == old(hddlog)@.union(insert_set@).difference(delete_set@),
        new_result == store_ok(final(hddlog)@),
{
    hddlog.step(prev_result, &insert_set, &delete_set)
}

/// The engine and the baseline checker agree: where the store holds the
/// relations of the maintained tree, and the maintained tree holds the
/// functions of the new tree in whatever order, the verdict of the engine is
/// the verdict of the baseline checker on the new tree.
pub proof fn lemma_incremental_equivalence(
    store: Set<RelationView>,
    updated: TreeView,
    new: TreeView,
)
    requires
        updated.wf(),
        new.wf(),
        store == updated.relation_set(),
        same_program(updated.term(), new.term()),
    ensures
        store_ok(store) == program_ok(new.term().shape()),
{
    lemma_store_tree(updated);
    let ours = updated.term();
    let theirs = new.term();
    let pairing = choose|pairing: Seq<int>| pairs_up(ours.kids, theirs.kids, pairing);
    assert(is_pairing(pairing, ours.kids.len() as int));
    assert forall|k: int| 0 <= k < ours.shape().kids.len() implies ours.shape().kids[k]
        == theirs.shape().kids[#[trigger] pairing[k]] by {
        assert(ours.kids[k].shape() == theirs.kids[pairing[k]].shape());
    }
    lemma_program_ok_pairing(ours.shape(), theirs.shape(), pairing);
}

} // verus!
