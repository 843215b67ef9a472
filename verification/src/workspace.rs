//! The tree under reconstruction, with an exact record of how its relations
//! differ from those of the tree it started as.

use crate::ast::{NodeView, Tree, TreeView};
use crate::definitions::{AstRelation, RelationView, ID};
use crate::relation_set::RelationSet;
use std::collections::HashMap;
use vstd::prelude::*;
use vstd::std_specs::iter::IteratorSpec;

verus! {

broadcast use vstd::std_specs::hash::group_hash_axioms;

/// What is known of one identity that was touched: the relation it had at the
/// start and the one it has now, each `None` where the identity is not in use.
pub(crate) struct Change {
    pub(crate) before: Option<AstRelation>,
    pub(crate) after: Option<AstRelation>,
}

/// The relation stored under an identity, if any.
pub open spec fn relation_at(nodes: Map<ID, NodeView>, id: ID) -> Option<RelationView> {
    if nodes.contains_key(id) {
        Some(nodes[id].relation)
    } else {
        None
    }
}

/// The view of a relation that may be absent.
pub(crate) open spec fn view_of(relation: Option<AstRelation>) -> Option<RelationView> {
    match relation {
        Some(r) => Some(r@),
        None => None,
    }
}

/// A tree that is being changed, and the record of the changes.
pub(crate) struct Workspace {
    pub(crate) tree: Tree,
    pub(crate) log: HashMap<ID, Change>,
    pub(crate) base: Ghost<TreeView>,
}

/// Whether two relations that may be absent are equal.
fn same_relation(a: &Option<AstRelation>, b: &Option<AstRelation>) -> (same: bool)
    ensures
        same == (view_of(*a) == view_of(*b)),
{
    match (a, b) {
        (Some(x), Some(y)) => *x == *y,
        (None, None) => true,
        (_, _) => false,
    }
}

impl Workspace {
    /// The record is exact: a touched identity is recorded with the relation
    /// it had at the start and the one it has now, and an untouched one has
    /// the relation it had.
    #[verifier::opaque]
    pub(crate) open spec fn tracks(&self) -> bool {
        &&& forall|id: ID| #[trigger]
            self.log@.contains_key(id) ==> view_of(self.log@[id].before) == relation_at(
                self.base@.nodes,
                id,
            ) && view_of(self.log@[id].after) == relation_at(self.tree@.nodes, id)
        &&& forall|id: ID|
            !self.log@.contains_key(id) ==> #[trigger] relation_at(self.tree@.nodes, id)
                == relation_at(self.base@.nodes, id)
    }

    /// The trees at the start and now are sound stores, and the record is
    /// exact.
    pub(crate) open spec fn inv(&self) -> bool {
        &&& self.base@.store_inv()
        &&& self.tree@.store_inv()
        &&& self.tracks()
    }

    /// Starts from a copy of a tree, with nothing changed.
    pub(crate) fn new(tree: &Tree) -> (ws: Self)
        ensures
            ws.inv(),
            ws.tree@ == tree@,
            ws.base@ == tree@,
    {
        reveal(Workspace::tracks);
        tree.store_invariant();
        Workspace { tree: tree.clone(), log: HashMap::new(), base: Ghost(tree@) }
    }

    /// Starts from a tree, with nothing changed.
    pub(crate) fn adopt(tree: Tree) -> (ws: Self)
        ensures
            ws.inv(),
            ws.tree@ == tree@,
            ws.base@ == tree@,
    {
        reveal(Workspace::tracks);
        tree.store_invariant();
        let ghost base = tree@;
        Workspace { tree, log: HashMap::new(), base: Ghost(base) }
    }

    /// Notes the relation that an identity is about to have.
    fn record(&mut self, id: ID, after: Option<AstRelation>)
        requires
            old(self).inv(),
        ensures
            final(self).tree == old(self).tree,
            final(self).base == old(self).base,
            final(self).log@.dom() == old(self).log@.dom().insert(id),
            forall|k: ID|
                k != id && old(self).log@.contains_key(k) ==> #[trigger] final(self).log@[k]
                    == old(self).log@[k],
            view_of(final(self).log@[id].after) == view_of(after),
            view_of(final(self).log@[id].before) == relation_at(old(self).base@.nodes, id),
    {
        reveal(Workspace::tracks);
        proof {
            if self.log@.contains_key(id) {
                assert(view_of(self.log@[id].before) == relation_at(self.base@.nodes, id));
            } else {
                assert(relation_at(self.tree@.nodes, id) == relation_at(self.base@.nodes, id));
            }
        }
        let before = match self.log.remove(&id) {
            Some(change) => change.before,
            None => {
                if self.tree.contains(id) {
                    Some(self.tree.relation(id).clone())
                } else {
                    None
                }
            },
        };
        self.log.insert(id, Change { before, after });
        assert(self.log@.dom() =~= old(self).log@.dom().insert(id));
    }

    /// Stores a node under an identity, new or in use, and records it.
    pub(crate) fn put(&mut self, id: ID, relation: AstRelation, children: Vec<ID>)
        requires
            old(self).inv(),
            relation@.id == id,
        ensures
            final(self).inv(),
            final(self).base == old(self).base,
            final(self).tree@.nodes == old(self).tree@.nodes.insert(
                id,
                NodeView { relation: relation@, children: children@ },
            ),
            final(self).tree@.root_id == old(self).tree@.root_id,
            final(self).tree@.max_id == if id > old(self).tree@.max_id {
                id
            } else {
                old(self).tree@.max_id
            },
    {
        reveal(Workspace::tracks);
        self.record(id, Some(relation.clone()));
        let ghost nodes = self.tree@.nodes;
        if self.tree.contains(id) {
            let done = self.tree.update_relation(id, relation);
            assert(done is Ok);
        } else {
            let done = self.tree.add_node(id, relation);
            assert(done is Ok);
        }
        let done = self.tree.replace_children(id, children);
        assert(done is Ok);
        proof {
            assert(self.tree@.nodes =~= nodes.insert(
                id,
                NodeView { relation: relation@, children: children@ },
            ));
            assert forall|k: ID| #[trigger] self.log@.contains_key(k) implies view_of(
                self.log@[k].before,
            ) == relation_at(self.base@.nodes, k) && view_of(self.log@[k].after) == relation_at(
                self.tree@.nodes,
                k,
            ) by {
                if k != id {
                    assert(old(self).log@.contains_key(k));
                }
            }
            assert forall|k: ID| !self.log@.contains_key(k) implies #[trigger] relation_at(
                self.tree@.nodes,
                k,
            ) == relation_at(self.base@.nodes, k) by {
                assert(!old(self).log@.contains_key(k));
                assert(relation_at(old(self).tree@.nodes, k) == relation_at(
                    old(self).base@.nodes,
                    k,
                ));
            }
        }
    }

    /// Removes the node under an identity in use, and records it.
    pub(crate) fn discard(&mut self, id: ID)
        requires
            old(self).inv(),
            old(self).tree@.nodes.contains_key(id),
        ensures
            final(self).inv(),
            final(self).base == old(self).base,
            final(self).tree@.nodes == old(self).tree@.nodes.remove(id),
            final(self).tree@.root_id == old(self).tree@.root_id,
            final(self).tree@.seated(),
            forall|w: ID| #[trigger]
                final(self).tree@.nodes.contains_key(w) ==> final(self).tree@.max_id <= old(
                    self,
                ).tree@.max_id,
    {
        reveal(Workspace::tracks);
        self.record(id, None);
        let done = self.tree.delete_node(id);
        assert(done is Ok);
        proof {
            assert forall|k: ID| #[trigger] self.log@.contains_key(k) implies view_of(
                self.log@[k].before,
            ) == relation_at(self.base@.nodes, k) && view_of(self.log@[k].after) == relation_at(
                self.tree@.nodes,
                k,
            ) by {
                if k != id {
                    assert(old(self).log@.contains_key(k));
                }
            }
            assert forall|k: ID| !self.log@.contains_key(k) implies #[trigger] relation_at(
                self.tree@.nodes,
                k,
            ) == relation_at(self.base@.nodes, k) by {
                assert(!old(self).log@.contains_key(k));
                assert(relation_at(old(self).tree@.nodes, k) == relation_at(
                    old(self).base@.nodes,
                    k,
                ));
            }
            assert forall|w: ID| #[trigger] self.tree@.nodes.contains_key(w) implies self.tree@.max_id
                <= old(self).tree@.max_id by {
                assert(self.tree@.nodes.dom().contains(w));
                assert(self.tree@.nodes.dom().contains(self.tree@.max_id));
                assert(old(self).tree@.nodes.dom().contains(self.tree@.max_id));
            }
        }
    }

    /// An identity above all that are in use.
    pub(crate) fn fresh_id(&self) -> (id: ID)
        requires
            self.inv(),
            self.tree@.max_id < i32::MAX,
        ensures
            id == self.tree@.max_id + 1,
            !self.tree@.nodes.contains_key(id),
    {
        let top = self.tree.max_id();
        proof {
            if self.tree@.nodes.contains_key((top + 1) as ID) {
                assert(self.tree@.nodes.dom().contains((top + 1) as ID));
            }
        }
        top + 1
    }

    /// Ends the reconstruction: the relations that the tree has and did not
    /// have at the start, those that it had and has no more, and the tree.
    pub(crate) fn finish(self) -> (out: (RelationSet, RelationSet, Tree))
        requires
            self.inv(),
        ensures
            out.0@ == self.tree@.relation_set().difference(self.base@.relation_set()),
            out.1@ == self.base@.relation_set().difference(self.tree@.relation_set()),
            out.2@ == self.tree@,
    {
        reveal(Workspace::tracks);
        let mut inserts = RelationSet::new();
        let mut deletes = RelationSet::new();
        let ghost entries = self.log.iter().remaining();
        let ghost base = self.base@.nodes;
        let ghost cur = self.tree@.nodes;
        for entry in it: self.log.iter()
            invariant
                self.inv(),
                base == self.base@.nodes,
                cur == self.tree@.nodes,
                it.seq() == entries,
                entries == self.log.iter().remaining(),
                entries.no_duplicates(),
                forall|r: RelationView|
                    inserts@.contains(r) <==> exists|j: int|
                        0 <= j < it.index() && view_of((#[trigger] entries[j]).1.after) == Some(r)
                            && view_of(entries[j].1.before) != Some(r),
                forall|r: RelationView|
                    deletes@.contains(r) <==> exists|j: int|
                        0 <= j < it.index() && view_of((#[trigger] entries[j]).1.before) == Some(
                            r,
                        ) && view_of(entries[j].1.after) != Some(r),
        {
            let ghost at = it.index();
            proof {
                reveal(Workspace::tracks);
            }
            assert(entry == entries[at]);
            assert(self.log@.contains_key(*entries[at].0));
            let ghost old_inserts = inserts@;
            let ghost old_deletes = deletes@;
            if !same_relation(&entry.1.before, &entry.1.after) {
                match &entry.1.after {
                    Some(r) => {
                        proof {
                            if inserts@.contains(r@) {
                                let j = choose|j: int|
                                    0 <= j < at && view_of((#[trigger] entries[j]).1.after) == Some(
                                        r@,
                                    ) && view_of(entries[j].1.before) != Some(r@);
                                assert(self.log@.contains_key(*entries[j].0));
                                assert(*entries[j].0 == *entries[at].0);
                                assert(entries[j] == entries[at]);
                            }
                        }
                        inserts.insert_new(r.clone());
                    },
                    None => {},
                }
                match &entry.1.before {
                    Some(r) => {
                        proof {
                            if deletes@.contains(r@) {
                                let j = choose|j: int|
                                    0 <= j < at && view_of((#[trigger] entries[j]).1.before)
                                        == Some(r@) && view_of(entries[j].1.after) != Some(r@);
                                assert(self.log@.contains_key(*entries[j].0));
                                assert(*entries[j].0 == *entries[at].0);
                                assert(entries[j] == entries[at]);
                            }
                        }
                        deletes.insert_new(r.clone());
                    },
                    None => {},
                }
            }
            proof {
                assert forall|r: RelationView|
                    inserts@.contains(r) <==> exists|j: int|
                        0 <= j < at + 1 && view_of((#[trigger] entries[j]).1.after) == Some(r)
                            && view_of(entries[j].1.before) != Some(r) by {
                    if old_inserts.contains(r) {
                        let j = choose|j: int|
                            0 <= j < at && view_of((#[trigger] entries[j]).1.after) == Some(r)
                                && view_of(entries[j].1.before) != Some(r);
                        assert(0 <= j < at + 1);
                    }
                    if inserts@.contains(r) && !old_inserts.contains(r) {
                        assert(view_of(entries[at].1.after) == Some(r));
                    }
                }
                assert forall|r: RelationView|
                    deletes@.contains(r) <==> exists|j: int|
                        0 <= j < at + 1 && view_of((#[trigger] entries[j]).1.before) == Some(r)
                            && view_of(entries[j].1.after) != Some(r) by {
                    if old_deletes.contains(r) {
                        let j = choose|j: int|
                            0 <= j < at && view_of((#[trigger] entries[j]).1.before) == Some(r)
                                && view_of(entries[j].1.after) != Some(r);
                        assert(0 <= j < at + 1);
                    }
                    if deletes@.contains(r) && !old_deletes.contains(r) {
                        assert(view_of(entries[at].1.before) == Some(r));
                    }
                }
            }
        }
        proof {
            reveal(Workspace::tracks);
            let want_in = self.tree@.relation_set().difference(self.base@.relation_set());
            let want_out = self.base@.relation_set().difference(self.tree@.relation_set());
            assert forall|r: RelationView| inserts@.contains(r) <==> want_in.contains(r) by {
                if inserts@.contains(r) {
                    let j = choose|j: int|
                        0 <= j < entries.len() && view_of((#[trigger] entries[j]).1.after) == Some(
                            r,
                        ) && view_of(entries[j].1.before) != Some(r);
                    assert(self.log@.contains_key(*entries[j].0));
                }
                if want_in.contains(r) {
                    let k = r.id;
                    if self.log@.contains_key(k) {
                        assert(entries.contains((&k, &self.log@[k])));
                        let j = choose|j: int|
                            0 <= j < entries.len() && entries[j] == (&k, &self.log@[k]);
                        assert(view_of(entries[j].1.after) == Some(r));
                    } else {
                        assert(relation_at(cur, k) == relation_at(base, k));
                    }
                }
            }
            assert forall|r: RelationView| deletes@.contains(r) <==> want_out.contains(r) by {
                if deletes@.contains(r) {
                    let j = choose|j: int|
                        0 <= j < entries.len() && view_of((#[trigger] entries[j]).1.before)
                            == Some(r) && view_of(entries[j].1.after) != Some(r);
                    assert(self.log@.contains_key(*entries[j].0));
                }
                if want_out.contains(r) {
                    let k = r.id;
                    if self.log@.contains_key(k) {
                        assert(entries.contains((&k, &self.log@[k])));
                        let j = choose|j: int|
                            0 <= j < entries.len() && entries[j] == (&k, &self.log@[k]);
                        assert(view_of(entries[j].1.before) == Some(r));
                    } else {
                        assert(relation_at(cur, k) == relation_at(base, k));
                    }
                }
            }
            assert(inserts@ =~= want_in);
            assert(deletes@ =~= want_out);
        }
        (inserts, deletes, self.tree)
    }
}

} // verus!
