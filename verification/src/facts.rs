//! A flat store of relations read as a program: the tree that the relations
//! of a store describe, where they describe one.

use crate::ast::{NodeView, Tree, TreeView};
use crate::definitions::{
    is_cell_kind, is_statement_kind, is_type_kind, AstRelation, RelationKind, RelationView, ID,
};
use crate::relation_set::{views_of, RelationSet};
use crate::term::{
    lemma_embeds_dom, lemma_embeds_frame, lemma_size_count, lemma_sizes_prefix,
    lemma_term_unique, Term,
};
use std::collections::HashMap;
use vstd::prelude::*;

verus! {

broadcast use vstd::std_specs::hash::group_hash_axioms;

/// The relation is in the store, and no other of its identity is.
pub open spec fn is_fact(store: Set<RelationView>, r: RelationView) -> bool {
    &&& store.contains(r)
    &&& forall|other: RelationView| #[trigger]
        store.contains(other) && other.id == r.id ==> other == r
}

/// The store holds exactly one relation of this identity.
pub open spec fn has_fact(store: Set<RelationView>, id: ID) -> bool {
    exists|r: RelationView| #[trigger] is_fact(store, r) && r.id == id
}

/// The relation of this identity in the store.
pub open spec fn fact(store: Set<RelationView>, id: ID) -> RelationView {
    choose|r: RelationView| #[trigger] is_fact(store, r) && r.id == id
}

/// The term that the store describes under an identity, as far as it can be
/// followed in `fuel` steps downwards: `None` where an identity on the way
/// has no relation or more than one, or the steps do not suffice.
pub open spec fn term_in(store: Set<RelationView>, id: ID, fuel: nat) -> Option<Term>
    decreases fuel, 0nat,
{
    if fuel == 0 || !has_fact(store, id) {
        None
    } else {
        let r = fact(store, id);
        match terms_in(store, r.children, (fuel - 1) as nat) {
            Some(kids) => Some(Term { kind: r.kind, id, name: r.name, kids }),
            None => None,
        }
    }
}

/// The terms that the store describes under a list of identities: `None`
/// where it describes none under one of them.
pub open spec fn terms_in(store: Set<RelationView>, ids: Seq<ID>, fuel: nat) -> Option<Seq<Term>>
    decreases fuel, ids.len() + 1,
{
    if ids.len() == 0 {
        Some(Seq::empty())
    } else {
        match (terms_in(store, ids.drop_last(), fuel), term_in(store, ids.last(), fuel)) {
            (Some(front), Some(last)) => Some(front.push(last)),
            _ => None,
        }
    }
}

/// The terms under a list of identities are the terms under each of them.
pub proof fn lemma_terms_in(store: Set<RelationView>, ids: Seq<ID>, fuel: nat)
    ensures
        terms_in(store, ids, fuel) is Some <==> forall|i: int|
            0 <= i < ids.len() ==> (#[trigger] term_in(store, ids[i], fuel)) is Some,
        terms_in(store, ids, fuel) matches Some(terms) ==> terms.len() == ids.len() && forall|
            i: int,
        |
            0 <= i < ids.len() ==> (#[trigger] term_in(store, ids[i], fuel)) == Some(terms[i]),
    decreases ids.len(),
{
    if ids.len() > 0 {
        let front = ids.drop_last();
        lemma_terms_in(store, front, fuel);
        if terms_in(store, ids, fuel) is Some {
            let terms = terms_in(store, ids, fuel).unwrap();
            assert forall|i: int| 0 <= i < ids.len() implies (#[trigger] term_in(
                store,
                ids[i],
                fuel,
            )) == Some(terms[i]) by {
                if i < front.len() {
                    assert(front[i] == ids[i]);
                    assert(term_in(store, front[i], fuel) is Some);
                }
            }
        }
        if forall|i: int| 0 <= i < ids.len() ==> (#[trigger] term_in(store, ids[i], fuel)) is Some {
            assert forall|i: int| 0 <= i < front.len() implies (#[trigger] term_in(
                store,
                front[i],
                fuel,
            )) is Some by {
                assert(front[i] == ids[i]);
                assert(term_in(store, ids[i], fuel) is Some);
            }
            assert(term_in(store, ids[ids.len() - 1], fuel) is Some);
        }
    }
}

/// The relation is the one translation unit of the store.
pub open spec fn is_unit(store: Set<RelationView>, unit: RelationView) -> bool {
    &&& store.contains(unit)
    &&& unit.kind == RelationKind::TransUnit
    &&& forall|other: RelationView| #[trigger]
        store.contains(other) && other.kind == RelationKind::TransUnit ==> other == unit
}

/// The tree that the store describes: the term under its one translation
/// unit, where every identity on the way leads to exactly one relation, no
/// identity is met twice, and the term is built as the language allows.
/// Relations that the translation unit does not reach do not count. `None`
/// where the store describes no tree.
pub open spec fn store_tree(store: Set<RelationView>) -> Option<Term> {
    if store.finite() && exists|unit: RelationView| is_unit(store, unit) {
        let unit = choose|unit: RelationView| is_unit(store, unit);
        match term_in(store, unit.id, store.len()) {
            Some(t) => if t.sound() && t.conforms() {
                Some(t)
            } else {
                None
            },
            None => None,
        }
    } else {
        None
    }
}

/// Why no tree grows under an identity on top of what is already there: the
/// store describes no term, or a term that is not sound or not built as the
/// language allows, or one with an identity that is taken.
pub open spec fn fails(store: Set<RelationView>, id: ID, fuel: nat, taken: Set<ID>) -> bool {
    match term_in(store, id, fuel) {
        Some(t) => !t.sound() || !t.conforms() || exists|x: ID| #[trigger] t.has(x) && taken.contains(x),
        None => true,
    }
}

/// Where the index and the list hold the store: the index gives the place of
/// each relation whose identity no other relation of the list has, and of no
/// other.
pub open spec fn indexed(
    store: Set<RelationView>,
    items: Seq<AstRelation>,
    index: Map<ID, usize>,
) -> bool {
    &&& views_of(items).no_duplicates()
    &&& views_of(items).to_set() == store
    &&& forall|id: ID| #[trigger]
        index.contains_key(id) ==> index[id] < items.len() && items[index[id] as int]@.id == id
    &&& exact(items, index)
}

/// Another relation of the list has the identity of the one at place `i`.
#[verifier::opaque]
pub open spec fn twin(items: Seq<AstRelation>, i: int) -> bool {
    exists|j: int| 0 <= j < items.len() && j != i && (#[trigger] items[j])@.id == items[i]@.id
}

/// The index has an entry for an identity exactly where one relation of the
/// list has it and no other.
#[verifier::opaque]
pub open spec fn exact(items: Seq<AstRelation>, index: Map<ID, usize>) -> bool {
    &&& forall|k: int|
        0 <= k < items.len() && index.contains_key((#[trigger] items[k])@.id)
            ==> index[items[k]@.id] == k
    &&& forall|i: int|
        0 <= i < items.len() && !index.contains_key((#[trigger] items[i])@.id) ==> twin(items, i)
}

/// The index says which relation the store holds under an identity.
proof fn lemma_indexed_fact(
    store: Set<RelationView>,
    items: Seq<AstRelation>,
    index: Map<ID, usize>,
    id: ID,
)
    requires
        indexed(store, items, index),
    ensures
        has_fact(store, id) == index.contains_key(id),
        index.contains_key(id) ==> fact(store, id) == items[index[id] as int]@,
{
    reveal(exact);
    if index.contains_key(id) {
        let at = index[id] as int;
        let r = items[at]@;
        assert(views_of(items)[at] == r);
        assert(store.contains(r));
        assert forall|a: RelationView| #[trigger] store.contains(a) && a.id == id implies a
            == r by {
            assert(views_of(items).to_set().contains(a));
            let k = choose|k: int| 0 <= k < views_of(items).len() && views_of(items)[k] == a;
            assert(items[k]@ == a);
            assert(index[id] == k);
        }
        assert(is_fact(store, r));
        assert(is_fact(store, fact(store, id)));
    }
    if has_fact(store, id) {
        let r = fact(store, id);
        assert(is_fact(store, r));
        assert(views_of(items).to_set().contains(r));
        let i = choose|i: int| 0 <= i < views_of(items).len() && views_of(items)[i] == r;
        assert(items[i]@ == r);
        if !index.contains_key(id) {
            assert(twin(items, i));
            assert(exists|j: int|
                0 <= j < items.len() && j != i && (#[trigger] items[j])@.id == items[i]@.id) by {
                reveal(twin);
            }
            let j = choose|j: int|
                0 <= j < items.len() && j != i && (#[trigger] items[j])@.id == items[i]@.id;
            assert(views_of(items)[j] == items[j]@);
            assert(views_of(items)[i] == items[i]@);
            assert(store.contains(items[j]@));
            assert(items[j]@ == r);
        }
    }
}

/// Whether the children from `from` up to `to` all have the wanted kind.
fn all_of_kind(
    tree: &Tree,
    children: &Vec<ID>,
    from: usize,
    to: usize,
    wanted: RelationKind,
    Ghost(kids): Ghost<Seq<Term>>,
) -> (ok: bool)
    requires
        from <= to <= children.len(),
        kids.len() == children.len(),
        forall|i: int|
            0 <= i < kids.len() ==> tree@.nodes.contains_key(#[trigger] children@[i])
                && tree@.nodes[children@[i]].relation.kind == kids[i].kind,
    ensures
        ok == forall|j: int| from <= j < to ==> (#[trigger] kids[j]).kind == wanted,
{
    let mut i: usize = from;
    while i < to
        invariant
            from <= i <= to <= children.len(),
            kids.len() == children.len(),
            forall|i: int|
                0 <= i < kids.len() ==> tree@.nodes.contains_key(#[trigger] children@[i])
                    && tree@.nodes[children@[i]].relation.kind == kids[i].kind,
            forall|j: int| from <= j < i ==> (#[trigger] kids[j]).kind == wanted,
        decreases to - i,
    {
        assert(tree@.nodes.contains_key(children@[i as int]));
        if tree.relation(children[i]).kind() != wanted {
            assert(kids[i as int].kind != wanted);
            return false;
        }
        i += 1;
    }
    true
}

/// Whether all children may stand where a statement is expected.
fn all_statements(tree: &Tree, children: &Vec<ID>, Ghost(kids): Ghost<Seq<Term>>) -> (ok: bool)
    requires
        kids.len() == children.len(),
        forall|i: int|
            0 <= i < kids.len() ==> tree@.nodes.contains_key(#[trigger] children@[i])
                && tree@.nodes[children@[i]].relation.kind == kids[i].kind,
    ensures
        ok == forall|j: int| 0 <= j < kids.len() ==> is_statement_kind((#[trigger] kids[j]).kind),
{
    let mut i: usize = 0;
    while i < children.len()
        invariant
            0 <= i <= children.len(),
            kids.len() == children.len(),
            forall|i: int|
                0 <= i < kids.len() ==> tree@.nodes.contains_key(#[trigger] children@[i])
                    && tree@.nodes[children@[i]].relation.kind == kids[i].kind,
            forall|j: int| 0 <= j < i ==> is_statement_kind((#[trigger] kids[j]).kind),
        decreases children.len() - i,
    {
        assert(tree@.nodes.contains_key(children@[i as int]));
        if !is_statement(tree.relation(children[i]).kind()) {
            assert(!is_statement_kind(kids[i as int].kind));
            return false;
        }
        i += 1;
    }
    true
}

/// Whether the kinds of the children, as the tree has them, fit the kind of
/// a node.
fn kinds_fit(tree: &Tree, kind: RelationKind, children: &Vec<ID>, Ghost(kids): Ghost<Seq<Term>>) -> (ok:
    bool)
    requires
        kids.len() == children.len(),
        forall|i: int|
            0 <= i < kids.len() ==> tree@.nodes.contains_key(#[trigger] children@[i])
                && tree@.nodes[children@[i]].relation.kind == kids[i].kind,
    ensures
        ok == (Term { kind, id: 0, name: Seq::empty(), kids }).kids_fit(),
{
    let ghost probe = Term { kind, id: 0, name: Seq::empty(), kids };
    let n = children.len();
    match kind {
        RelationKind::TransUnit => all_of_kind(
            tree,
            children,
            0,
            n,
            RelationKind::FunDef,
            Ghost(kids),
        ),
        RelationKind::FunDef => {
            if n < 2 {
                return false;
            }
            assert(tree@.nodes.contains_key(children@[0]));
            assert(tree@.nodes.contains_key(children@[n - 1]));
            is_type(tree.relation(children[0]).kind()) && tree.relation(children[n - 1]).kind()
                == RelationKind::Compound && all_of_kind(
                tree,
                children,
                1,
                n - 1,
                RelationKind::Arg,
                Ghost(kids),
            )
        },
        RelationKind::Arg => {
            if n != 1 {
                return false;
            }
            assert(tree@.nodes.contains_key(children@[0]));
            is_type(tree.relation(children[0]).kind())
        },
        RelationKind::Assign => {
            if n != 2 {
                return false;
            }
            assert(tree@.nodes.contains_key(children@[0]));
            assert(tree@.nodes.contains_key(children@[1]));
            is_type(tree.relation(children[0]).kind()) && is_statement(
                tree.relation(children[1]).kind(),
            )
        },
        RelationKind::Compound => {
            if n != 1 {
                return false;
            }
            assert(tree@.nodes.contains_key(children@[0]));
            is_cell(tree.relation(children[0]).kind())
        },
        RelationKind::Item => {
            if n != 2 {
                return false;
            }
            assert(tree@.nodes.contains_key(children@[0]));
            assert(tree@.nodes.contains_key(children@[1]));
            is_statement(tree.relation(children[0]).kind()) && is_cell(
                tree.relation(children[1]).kind(),
            )
        },
        RelationKind::EndItem => {
            if n != 1 {
                return false;
            }
            assert(tree@.nodes.contains_key(children@[0]));
            is_statement(tree.relation(children[0]).kind())
        },
        _ => all_statements(tree, children, Ghost(kids)),
    }
}

/// Whether the kind is a leaf type.
fn is_type(kind: RelationKind) -> (yes: bool)
    ensures
        yes == is_type_kind(kind),
{
    kind == RelationKind::Void || kind == RelationKind::Int || kind == RelationKind::Float || kind
        == RelationKind::Char
}

/// Whether the kind is a cell of a statement list.
fn is_cell(kind: RelationKind) -> (yes: bool)
    ensures
        yes == is_cell_kind(kind),
{
    kind == RelationKind::Item || kind == RelationKind::EndItem
}

/// Whether the kind may stand where a statement is expected.
fn is_statement(kind: RelationKind) -> (yes: bool)
    ensures
        yes == is_statement_kind(kind),
{
    kind != RelationKind::TransUnit && kind != RelationKind::FunDef && kind != RelationKind::Arg
        && !is_cell(kind)
}

/// Every node of the arena holds a relation of the store, and the children
/// that the relation names.
pub open spec fn faithful(store: Set<RelationView>, nodes: Map<ID, NodeView>) -> bool {
    forall|x: ID| #[trigger]
        nodes.contains_key(x) ==> store.contains(nodes[x].relation) && nodes[x].children
            == nodes[x].relation.children
}

/// The term under an identity, from the terms under the children of its
/// relation.
proof fn lemma_term_in_step(store: Set<RelationView>, id: ID, fuel: nat, kids: Seq<Term>)
    requires
        fuel > 0,
        has_fact(store, id),
        kids.len() == fact(store, id).children.len(),
        forall|i: int|
            0 <= i < kids.len() ==> term_in(store, fact(store, id).children[i], (fuel - 1) as nat)
                == Some(#[trigger] kids[i]),
    ensures
        term_in(store, id, fuel) == Some(
            Term { kind: fact(store, id).kind, id, name: fact(store, id).name, kids },
        ),
{
    let r = fact(store, id);
    let lower = (fuel - 1) as nat;
    lemma_terms_in(store, r.children, lower);
    assert forall|i: int| 0 <= i < r.children.len() implies (#[trigger] term_in(
        store,
        r.children[i],
        lower,
    )) is Some by {
        assert(term_in(store, r.children[i], lower) == Some(kids[i]));
    }
    let terms = terms_in(store, r.children, lower).unwrap();
    assert forall|i: int| 0 <= i < kids.len() implies kids[i] == terms[i] by {
        assert(term_in(store, r.children[i], lower) == Some(kids[i]));
        assert(term_in(store, r.children[i], lower) == Some(terms[i]));
    }
    assert(kids =~= terms);
}

/// The children of the term under an identity are the terms under the
/// children of its relation.
proof fn lemma_term_in_kids(store: Set<RelationView>, id: ID, fuel: nat, i: int)
    requires
        term_in(store, id, fuel) is Some,
        0 <= i < fact(store, id).children.len(),
    ensures
        fuel > 0,
        has_fact(store, id),
        term_in(store, id, fuel).unwrap().kids.len() == fact(store, id).children.len(),
        term_in(store, fact(store, id).children[i], (fuel - 1) as nat) == Some(
            term_in(store, id, fuel).unwrap().kids[i],
        ),
        term_in(store, id, fuel).unwrap().id == id,
        term_in(store, id, fuel).unwrap().kind == fact(store, id).kind,
        term_in(store, id, fuel).unwrap().name == fact(store, id).name,
{
    let r = fact(store, id);
    lemma_terms_in(store, r.children, (fuel - 1) as nat);
    assert(term_in(store, r.children[i], (fuel - 1) as nat) is Some);
}

/// Grows in the tree the subtree that the store describes under `id`,
/// children first, as far as `fuel` steps downwards reach. Gives up where a
/// relation is missing, an identity is met twice, or a node has children of
/// kinds that do not fit it.
#[verifier::spinoff_prover]
fn grow(
    items: &Vec<AstRelation>,
    index: &HashMap<ID, usize>,
    id: ID,
    fuel: usize,
    tree: &mut Tree,
    root: bool,
    Ghost(store): Ghost<Set<RelationView>>,
) -> (out: Option<Ghost<Term>>)
    requires
        indexed(store, items@, index@),
        faithful(store, old(tree)@.nodes),
    ensures
        match out {
            Some(t) => {
                &&& term_in(store, id, fuel as nat) == Some(t@)
                &&& t@.sound()
                &&& t@.conforms()
                &&& t@.embeds(final(tree)@.nodes)
                &&& faithful(store, final(tree)@.nodes)
                &&& forall|x: ID| #[trigger] t@.has(x) ==> !old(tree)@.nodes.contains_key(x)
                &&& forall|x: ID| #[trigger]
                    old(tree)@.nodes.contains_key(x) ==> final(tree)@.nodes.contains_key(x)
                        && final(tree)@.nodes[x] == old(tree)@.nodes[x]
                &&& forall|x: ID| #[trigger]
                    final(tree)@.nodes.contains_key(x) ==> old(tree)@.nodes.contains_key(x)
                        || t@.has(x)
                &&& root ==> final(tree)@.root_id == id
            },
            None => fails(store, id, fuel as nat, old(tree)@.nodes.dom()),
        },
    decreases fuel,
{
    let ghost start = tree@.nodes;
    proof {
        lemma_indexed_fact(store, items@, index@, id);
    }
    if fuel == 0 {
        return None;
    }
    let at = match index.get(&id) {
        Some(at) => *at,
        None => {
            return None;
        },
    };
    let relation = &items[at];
    let ghost r = relation@;
    proof {
        relation.lemma_view_well_formed();
    }
    if tree.contains(id) {
        proof {
            if term_in(store, id, fuel as nat) is Some {
                let t = term_in(store, id, fuel as nat).unwrap();
                assert(t.has(id) && start.dom().contains(id));
            }
        }
        return None;
    }
    let children = relation.child_ids();
    let ghost mut kids: Seq<Term> = Seq::empty();
    let mut i: usize = 0;
    while i < children.len()
        invariant
            0 <= i <= children.len(),
            indexed(store, items@, index@),
            faithful(store, tree@.nodes),
            fuel > 0,
            has_fact(store, id),
            r == fact(store, id),
            children@ == r.children,
            start == old(tree)@.nodes,
            kids.len() == i,
            forall|j: int|
                0 <= j < i ==> term_in(store, children@[j], (fuel - 1) as nat) == Some(
                    #[trigger] kids[j],
                ) && kids[j].sound() && kids[j].conforms() && kids[j].embeds(tree@.nodes)
                    && kids[j].id == children@[j],
            forall|j: int, k: int|
                0 <= j < k < i ==> (#[trigger] kids[j]).apart(#[trigger] kids[k]),
            forall|j: int, x: ID|
                0 <= j < i && (#[trigger] kids[j].has(x)) ==> !start.contains_key(x),
            forall|x: ID| #[trigger]
                start.contains_key(x) ==> tree@.nodes.contains_key(x) && tree@.nodes[x]
                    == start[x],
            forall|x: ID| #[trigger]
                tree@.nodes.contains_key(x) ==> start.contains_key(x) || crate::rebuild::among(
                    kids,
                    x,
                ),
        decreases children.len() - i,
    {
        let ghost mid = tree@.nodes;
        match grow(items, index, children[i], fuel - 1, tree, false, Ghost(store)) {
            Some(made) => {
                proof {
                    let kid = made@;
                    let grown = kids.push(kid);
                    assert forall|j: int| 0 <= j < i + 1 implies term_in(
                        store,
                        children@[j],
                        (fuel - 1) as nat,
                    ) == Some(#[trigger] grown[j]) && grown[j].sound() && grown[j].conforms()
                        && grown[j].embeds(tree@.nodes) && grown[j].id == children@[j] by {
                        if j < i {
                            assert(grown[j] == kids[j]);
                            lemma_embeds_dom(kids[j], mid);
                            lemma_embeds_frame(kids[j], mid, tree@.nodes);
                        }
                    }
                    assert forall|j: int, k: int| 0 <= j < k < i + 1 implies (
                    #[trigger] grown[j]).apart(#[trigger] grown[k]) by {
                        if k == i {
                            assert(grown[j] == kids[j]);
                            lemma_embeds_dom(kids[j], mid);
                        } else {
                            assert(grown[j] == kids[j] && grown[k] == kids[k]);
                        }
                    }
                    assert forall|j: int, x: ID|
                        0 <= j < i + 1 && (#[trigger] grown[j].has(x)) implies !start.contains_key(
                        x,
                    ) by {
                        if j < i {
                            assert(grown[j] == kids[j]);
                            assert(kids[j].has(x));
                        } else {
                            assert(kid.has(x));
                            if start.contains_key(x) {
                                assert(mid.contains_key(x));
                            }
                        }
                    }
                    assert forall|x: ID| #[trigger]
                        tree@.nodes.contains_key(x) implies start.contains_key(x)
                        || crate::rebuild::among(grown, x) by {
                        if mid.contains_key(x) {
                            if !start.contains_key(x) {
                                let j = choose|j: int|
                                    0 <= j < kids.len() && (#[trigger] kids[j]).has(x);
                                assert(grown[j].has(x));
                            }
                        } else {
                            assert(grown[i as int].has(x));
                        }
                    }
                    kids = grown;
                }
            },
            None => {
                proof {
                    if term_in(store, id, fuel as nat) is Some {
                        let t = term_in(store, id, fuel as nat).unwrap();
                        lemma_term_in_kids(store, id, fuel as nat, i as int);
                        assert(((fuel as nat) - 1) as nat == (fuel - 1) as nat);
                        let kt = term_in(store, children@[i as int], (fuel - 1) as nat).unwrap();
                        assert(t.kids[i as int] == kt);
                        if kt.sound() && kt.conforms() {
                            let x = choose|x: ID| #[trigger] kt.has(x) && mid.dom().contains(x);
                            assert(t.kids[i as int].has(x));
                            if start.contains_key(x) {
                                assert(t.has(x) && start.dom().contains(x));
                            } else {
                                let j = choose|j: int|
                                    0 <= j < kids.len() && (#[trigger] kids[j]).has(x);
                                lemma_term_in_kids(store, id, fuel as nat, j);
                                assert(t.kids[j] == kids[j]);
                                assert(!t.kids[j].apart(t.kids[i as int]));
                            }
                        }
                    }
                }
                return None;
            },
        }
        i += 1;
    }
    let ghost t = Term { kind: r.kind, id, name: r.name, kids };
    proof {
        assert(term_in(store, id, fuel as nat) == Some(t)) by {
            assert forall|i: int| 0 <= i < kids.len() implies term_in(
                store,
                fact(store, id).children[i],
                ((fuel as nat) - 1) as nat,
            ) == Some(#[trigger] kids[i]) by {
                assert(kids[i].id == children@[i]);
                assert(((fuel as nat) - 1) as nat == (fuel - 1) as nat);
            }
            lemma_term_in_step(store, id, fuel as nat, kids);
        }
        assert forall|j: int| 0 <= j < kids.len() implies tree@.nodes.contains_key(
            #[trigger] children@[j],
        ) && tree@.nodes[children@[j]].relation.kind == kids[j].kind by {
            assert(kids[j].embeds(tree@.nodes));
        }
    }
    if tree.contains(id) {
        proof {
            let j = choose|j: int| 0 <= j < kids.len() && (#[trigger] kids[j]).has(id);
            assert(t.kids[j].has(t.id));
        }
        return None;
    }
    if !kinds_fit(tree, relation.kind(), &children, Ghost(kids)) {
        proof {
            assert(!t.kids_fit());
        }
        return None;
    }
    let ghost before = tree@.nodes;
    let done = if root {
        tree.add_root_node(id, relation.clone())
    } else {
        tree.add_node(id, relation.clone())
    };
    assert(done is Ok);
    let done = tree.replace_children(id, children);
    assert(done is Ok);
    proof {
        assert(views_of(items@)[at as int] == r);
        assert(store.contains(r));
        assert(t.kid_ids() =~= r.children);
        assert forall|j: int| 0 <= j < kids.len() implies (#[trigger] t.kids[j]).embeds(
            tree@.nodes,
        ) && !t.kids[j].has(id) by {
            lemma_embeds_dom(kids[j], before);
            lemma_embeds_frame(kids[j], before, tree@.nodes);
        }
        assert(t.embeds(tree@.nodes));
        assert(t.sound());
        assert(t.kids_fit());
        assert(t.conforms());
        assert forall|x: ID| #[trigger] t.has(x) implies !start.contains_key(x) by {
            if x != id {
                let j = choose|j: int| 0 <= j < t.kids.len() && (#[trigger] t.kids[j]).has(x);
                assert(kids[j].has(x));
            }
        }
        assert forall|x: ID| #[trigger] tree@.nodes.contains_key(x) implies start.contains_key(x)
            || t.has(x) by {
            if x != id && !start.contains_key(x) {
                assert(before.contains_key(x));
                let j = choose|j: int| 0 <= j < kids.len() && (#[trigger] kids[j]).has(x);
                assert(t.kids[j].has(x));
            }
        }
    }
    Some(Ghost(t))
}

/// The top of the term under an identity is what the relation of the
/// identity says.
proof fn lemma_term_in_top(store: Set<RelationView>, id: ID, fuel: nat)
    requires
        term_in(store, id, fuel) is Some,
    ensures
        fuel > 0,
        has_fact(store, id),
        term_in(store, id, fuel).unwrap().id == id,
        term_in(store, id, fuel).unwrap().kind == fact(store, id).kind,
        term_in(store, id, fuel).unwrap().name == fact(store, id).name,
{
}

/// The index of a list of relations by identity. An identity that two
/// relations of the list have gets no entry.
fn index_by_id(items: &Vec<AstRelation>, Ghost(store): Ghost<Set<RelationView>>) -> (index: HashMap<
    ID,
    usize,
>)
    requires
        views_of(items@).no_duplicates(),
        views_of(items@).to_set() == store,
    ensures
        indexed(store, items@, index@),
{
    let mut index: HashMap<ID, usize> = HashMap::new();
    let mut twice: HashMap<ID, (usize, usize)> = HashMap::new();
    let mut i: usize = 0;
    while i < items.len()
        invariant
            0 <= i <= items.len(),
            forall|id: ID| #[trigger]
                index@.contains_key(id) ==> index@[id] < i && items@[index@[id] as int]@.id == id
                    && !twice@.contains_key(id),
            forall|k: int|
                0 <= k < i && index@.contains_key((#[trigger] items@[k])@.id)
                    ==> index@[items@[k]@.id] == k,
            forall|id: ID| #[trigger]
                twice@.contains_key(id) ==> twice@[id].0 < i && twice@[id].1 < i && twice@[id].0
                    != twice@[id].1 && items@[twice@[id].0 as int]@.id == id
                    && items@[twice@[id].1 as int]@.id == id,
            forall|k: int|
                0 <= k < i ==> index@.contains_key((#[trigger] items@[k])@.id)
                    || twice@.contains_key(items@[k]@.id),
        decreases items.len() - i,
    {
        let id = crate::ast::get_relation_id(&items[i]);
        let first = match index.get(&id) {
            Some(at) => Some(*at),
            None => None,
        };
        match first {
            Some(at) => {
                index.remove(&id);
                twice.insert(id, (at, i));
            },
            None => {
                if !twice.contains_key(&id) {
                    index.insert(id, i);
                }
            },
        }
        i += 1;
    }
    proof {
        reveal(exact);
        assert forall|p: int|
            0 <= p < items.len() && !index@.contains_key(
                (#[trigger] items@[p])@.id,
            ) implies twin(items@, p) by {
            reveal(twin);
            let pair = twice@[items@[p]@.id];
            if pair.0 != p {
                assert(items@[pair.0 as int]@.id == items@[p]@.id);
            } else {
                assert(items@[pair.1 as int]@.id == items@[p]@.id);
            }
        }
    }
    index
}

/// The place of the one translation unit in a list of relations.
fn find_unit(items: &Vec<AstRelation>, Ghost(store): Ghost<Set<RelationView>>) -> (out: Option<
    usize,
>)
    requires
        views_of(items@).no_duplicates(),
        views_of(items@).to_set() == store,
    ensures
        match out {
            Some(at) => at < items.len() && is_unit(store, items@[at as int]@),
            None => !exists|unit: RelationView| is_unit(store, unit),
        },
{
    let mut found: Option<usize> = None;
    let mut i: usize = 0;
    while i < items.len()
        invariant
            0 <= i <= items.len(),
            views_of(items@).no_duplicates(),
            views_of(items@).to_set() == store,
            match found {
                Some(at) => at < i && items@[at as int]@.kind == RelationKind::TransUnit
                    && forall|k: int|
                    0 <= k < i && k != at ==> (#[trigger] items@[k])@.kind
                        != RelationKind::TransUnit,
                None => forall|k: int|
                    0 <= k < i ==> (#[trigger] items@[k])@.kind != RelationKind::TransUnit,
            },
        decreases items.len() - i,
    {
        if items[i].kind() == RelationKind::TransUnit {
            match found {
                Some(at) => {
                    proof {
                        let a = items@[at as int]@;
                        let b = items@[i as int]@;
                        assert(views_of(items@)[at as int] == a);
                        assert(views_of(items@)[i as int] == b);
                        assert(store.contains(a) && store.contains(b) && a != b);
                        assert forall|unit: RelationView| !is_unit(store, unit) by {
                            if is_unit(store, unit) {
                                assert(a == unit && b == unit);
                            }
                        }
                    }
                    return None;
                },
                None => {
                    found = Some(i);
                },
            }
        }
        i += 1;
    }
    proof {
        match found {
            Some(at) => {
                let unit = items@[at as int]@;
                assert(views_of(items@)[at as int] == unit);
                assert forall|other: RelationView| #[trigger]
                    store.contains(other) && other.kind
                        == RelationKind::TransUnit implies other == unit by {
                    let k = choose|k: int|
                        0 <= k < views_of(items@).len() && views_of(items@)[k] == other;
                    assert(items@[k]@ == other);
                }
            },
            None => {
                assert forall|unit: RelationView| !is_unit(store, unit) by {
                    if is_unit(store, unit) {
                        let k = choose|k: int|
                            0 <= k < views_of(items@).len() && views_of(items@)[k] == unit;
                        assert(items@[k]@ == unit);
                    }
                }
            },
        }
    }
    found
}

/// Builds the tree that a set of relations describes. There is one where
/// exactly one relation is a translation unit, the identities in the
/// relations that it reaches lead each to one relation of a kind that fits,
/// and none of them is reached twice. Relations that the translation unit
/// does not reach are left out of the tree.
#[verifier::spinoff_prover]
pub fn tree_from_relations(relations: &RelationSet) -> (out: Option<Tree>)
    ensures
        match store_tree(relations@) {
            Some(t) => out matches Some(tree) && tree@.represents(t)
                && tree@.relation_set().subset_of(relations@),
            None => out is None,
        },
{
    let ghost store = relations@;
    let items = relations.items();
    let index = index_by_id(items, Ghost(store));
    let at = match find_unit(items, Ghost(store)) {
        Some(at) => at,
        None => {
            return None;
        },
    };
    let root_id = crate::ast::get_relation_id(&items[at]);
    let ghost unit = items@[at as int]@;
    proof {
        let chosen = choose|unit: RelationView| is_unit(store, unit);
        assert(is_unit(store, unit));
        assert(chosen == unit);
    }
    let mut tree = Tree::new();
    let grown = grow(items, &index, root_id, items.len(), &mut tree, true, Ghost(store));
    let made = match grown {
        Some(made) => made,
        None => {
            return None;
        },
    };
    let ghost t = made@;
    tree.store_invariant();
    proof {
        lemma_term_in_top(store, root_id, items.len() as nat);
        lemma_embeds_dom(t, tree@.nodes);
        assert(t.ids() =~= tree@.nodes.dom());
        assert(tree@.represents(t));
        assert forall|r: RelationView| tree@.relation_set().contains(r) implies store.contains(
            r,
        ) by {
            assert(tree@.nodes.contains_key(r.id));
        }
    }
    Some(tree)
}

/// The term under an identity of a tree, read from the relations of the
/// tree.
pub proof fn lemma_term_in_tree(tree: TreeView, s: Term, fuel: nat)
    requires
        tree.store_inv(),
        s.embeds(tree.nodes),
        fuel >= s.size(),
    ensures
        term_in(tree.relation_set(), s.id, fuel) == Some(s),
    decreases s,
{
    let store = tree.relation_set();
    let r = tree.nodes[s.id].relation;
    assert(is_fact(store, r));
    assert(has_fact(store, s.id));
    assert(is_fact(store, fact(store, s.id)));
    assert(fact(store, s.id) == r);
    assert(r.children == s.kid_ids());
    assert forall|i: int| 0 <= i < s.kids.len() implies term_in(
        store,
        fact(store, s.id).children[i],
        (fuel - 1) as nat,
    ) == Some(#[trigger] s.kids[i]) by {
        assert(s.kid_ids()[i] == s.kids[i].id);
        lemma_sizes_prefix(s.kids, i);
        lemma_term_in_tree(tree, s.kids[i], (fuel - 1) as nat);
    }
    lemma_term_in_step(store, s.id, fuel, s.kids);
}

/// Below the top of a term that is built as the language allows, no
/// translation unit stands.
pub proof fn lemma_one_unit(t: Term, x: ID)
    requires
        t.conforms(),
        t.has(x),
        x != t.id,
    ensures
        t.at(x).kind != RelationKind::TransUnit,
    decreases t,
{
    let i = choose|i: int| 0 <= i < t.kids.len() && (#[trigger] t.kids[i]).has(x);
    assert(t.kids[i].conforms());
    assert(t.kids[i].kind != RelationKind::TransUnit);
    if x != t.kids[i].id {
        lemma_one_unit(t.kids[i], x);
    } else {
        assert(t.kids[i].at(x) == t.kids[i]);
    }
}

/// The relations of a well-formed tree describe the tree.
#[verifier::spinoff_prover]
pub proof fn lemma_store_tree(tree: TreeView)
    requires
        tree.wf(),
    ensures
        store_tree(tree.relation_set()) == Some(tree.term()),
        tree.relation_set().finite(),
        tree.relation_set().len() == tree.nodes.len(),
{
    let store = tree.relation_set();
    let t = tree.term();
    let f = |k: ID| tree.nodes[k].relation;
    assert(tree.nodes.dom().map(f) =~= store) by {
        assert forall|r: RelationView| store.contains(r) implies tree.nodes.dom().map(f).contains(
            r,
        ) by {
            assert(tree.nodes.dom().contains(r.id) && f(r.id) == r);
        }
    }
    assert(vstd::relations::injective_on(f, tree.nodes.dom())) by {
        assert forall|a: ID, b: ID|
            tree.nodes.dom().contains(a) && tree.nodes.dom().contains(b) && #[trigger] f(a)
                == #[trigger] f(b) implies a == b by {
            assert(tree.nodes.contains_key(a) && tree.nodes.contains_key(b));
        }
    }
    vstd::set_lib::lemma_map_size(tree.nodes.dom(), store, f);
    lemma_size_count(t);
    let unit = tree.nodes[tree.root_id].relation;
    assert(is_unit(store, unit)) by {
        assert forall|other: RelationView| #[trigger]
            store.contains(other) && other.kind == RelationKind::TransUnit implies other
            == unit by {
            if other.id != t.id {
                assert(t.has(other.id));
                lemma_one_unit(t, other.id);
                crate::term::lemma_at(t, other.id, tree.nodes);
            }
        }
    }
    let chosen = choose|unit: RelationView| is_unit(store, unit);
    assert(chosen == unit);
    lemma_term_in_tree(tree, t, store.len());
}

impl Tree {
    /// Whether the tree invariants hold: the arena is closed under the
    /// identities in its relations, every list of children agrees with the
    /// relation beside it, the root is a translation unit, the children of
    /// each node are of kinds that fit it, and the child links form a tree
    /// that reaches every node.
    #[verifier::spinoff_prover]
    pub fn is_well_formed(&self) -> (ok: bool)
        ensures
            ok == self@.wf(),
    {
        self.store_invariant();
        let relations = crate::ast::get_initial_relation_set(self);
        let other = match tree_from_relations(&relations) {
            Some(other) => other,
            None => {
                proof {
                    if self@.wf() {
                        lemma_store_tree(self@);
                    }
                }
                return false;
            },
        };
        other.store_invariant();
        let ghost t = store_tree(relations@).unwrap();
        if other.get_root() != self.get_root() {
            proof {
                if self@.wf() {
                    lemma_store_tree(self@);
                }
            }
            return false;
        }
        if other.size() != self.size() {
            proof {
                if self@.wf() {
                    lemma_store_tree(self@);
                    lemma_term_unique(self@, t);
                    assert(other@.nodes.dom() == self@.nodes.dom());
                }
            }
            return false;
        }
        let items = relations.items();
        let mut i: usize = 0;
        while i < items.len()
            invariant
                0 <= i <= items.len(),
                views_of(items@).to_set() == self@.relation_set(),
                forall|k: int|
                    0 <= k < i ==> self@.nodes[(#[trigger] items@[k])@.id].children
                        == items@[k]@.children,
            decreases items.len() - i,
        {
            let ghost r = items@[i as int]@;
            proof {
                assert(views_of(items@)[i as int] == r);
                assert(self@.relation_set().contains(r));
            }
            let id = crate::ast::get_relation_id(&items[i]);
            let expected = items[i].child_ids();
            if !crate::definitions::same_ids(self.children(id), &expected) {
                proof {
                    if self@.wf() {
                        crate::term::lemma_subterm(self@, id);
                    }
                }
                return false;
            }
            i += 1;
        }
        proof {
            assert(other@.wf());
            lemma_term_unique(other@, t);
            assert forall|id: ID| other@.nodes.contains_key(id) implies self@.nodes.contains_key(
                id,
            ) by {
                let r = other@.nodes[id].relation;
                assert(other@.relation_set().contains(r));
                assert(self@.relation_set().contains(r));
            }
            assert(other@.nodes.dom().subset_of(self@.nodes.dom()));
            vstd::set_lib::lemma_subset_equality(other@.nodes.dom(), self@.nodes.dom());
            assert forall|id: ID| self@.nodes.contains_key(id) implies other@.nodes.contains_key(id)
                && other@.nodes[id] == self@.nodes[id] by {
                assert(other@.nodes.dom().contains(id));
                let r = other@.nodes[id].relation;
                assert(other@.relation_set().contains(r));
                assert(self@.relation_set().contains(r));
                let k = choose|k: int| 0 <= k < views_of(items@).len() && views_of(items@)[k] == r;
                assert(items@[k]@ == r);
                crate::term::lemma_subterm(other@, id);
            }
            assert(self@.nodes =~= other@.nodes);
            assert(self@.represents(t));
        }
        true
    }
}

} // verus!
