//! The structural differ: it rebuilds the maintained tree after a new parse,
//! keeps the identities of what did not change, and reports the relations to
//! insert and to delete.

use crate::ast::{
    get_relation_id, is_max_key, lemma_top_key, top_key, NodeView, Tree, TreeView,
};
use crate::definitions::{
    copy_ids, is_cell_kind, is_type_kind, same_ids, AstRelation, RelationKind, RelationView, ID,
};
use crate::rebuild::{
    among, lemma_partial_delete, lemma_partial_finish, lemma_partial_insert, lemma_partial_keys,
    lemma_partial_replace, lemma_partial_start, partial, partial_keys, rebuilt,
};
use crate::relation_set::RelationSet;
use crate::term::{
    lemma_conforms_shape, lemma_embeds_dom, lemma_embeds_frame, lemma_renumbered_within,
    lemma_shape_eq, lemma_size_small, lemma_sizes_prefix, lemma_term_unique, lemma_top_in_ids,
    lemma_tree_size, shapes_match, sizes, Term,
};
use crate::workspace::Workspace;
use vstd::prelude::*;

verus! {

/// Removes from the tree the node under `node_id` and everything below it,
/// children first.
#[verifier::spinoff_prover]
fn delete_term(ws: &mut Workspace, node_id: ID, Ghost(t): Ghost<Term>)
    requires
        old(ws).inv(),
        t.embeds(old(ws).tree@.nodes),
        t.sound(),
        t.id == node_id,
    ensures
        final(ws).inv(),
        final(ws).base == old(ws).base,
        final(ws).tree@.nodes == old(ws).tree@.nodes.remove_keys(t.ids()),
        final(ws).tree@.root_id == old(ws).tree@.root_id,
        final(ws).tree@.seated(),
        forall|w: ID| #[trigger]
            final(ws).tree@.nodes.contains_key(w) ==> final(ws).tree@.max_id <= old(
                ws,
            ).tree@.max_id,
    decreases t,
{
    let children = copy_ids(ws.tree.children(node_id));
    let ghost start = ws.tree@.nodes;
    let mut i: usize = 0;
    while i < children.len()
        invariant
            ws.inv(),
            ws.base == old(ws).base,
            ws.tree@.root_id == old(ws).tree@.root_id,
            forall|w: ID| #[trigger]
                start.contains_key(w) && !t.has(w) ==> ws.tree@.max_id <= old(ws).tree@.max_id,
            children@ == t.kid_ids(),
            t.embeds(start),
            t.sound(),
            t.id == node_id,
            0 <= i <= children.len(),
            ws.tree@.nodes == start.remove_keys(t.kid_ids_upto(i as int)),
        decreases children.len() - i,
    {
        let ghost kid = t.kids[i as int];
        let ghost before = ws.tree@.nodes;
        proof {
            assert(children@[i as int] == kid.id);
            lemma_embeds_dom(kid, start);
            assert forall|x: ID| #[trigger] kid.has(x) implies before.contains_key(x) && before[x]
                == start[x] by {
                if t.kid_ids_upto(i as int).contains(x) {
                    let j = choose|j: int| 0 <= j < i && (#[trigger] t.kids[j]).has(x);
                    assert(t.kids[j].apart(kid));
                }
            }
            lemma_embeds_frame(kid, start, before);
        }
        let ghost top = ws.tree@.max_id;
        delete_term(ws, children[i], Ghost(kid));
        proof {
            assert forall|w: ID| #[trigger] start.contains_key(w) && !t.has(w) implies ws.tree@.max_id
                <= old(ws).tree@.max_id by {
                assert(!kid.has(w));
                assert(!t.kid_ids_upto(i as int).contains(w));
                assert(before.contains_key(w));
                assert(ws.tree@.nodes.contains_key(w));
                assert(top <= old(ws).tree@.max_id);
            }
            assert(ws.tree@.nodes =~= start.remove_keys(t.kid_ids_upto(i + 1))) by {
                assert forall|x: ID|
                    t.kid_ids_upto(i + 1).contains(x) <==> t.kid_ids_upto(i as int).contains(x)
                        || kid.has(x) by {
                    if t.kid_ids_upto(i as int).contains(x) {
                        let j = choose|j: int| 0 <= j < i && (#[trigger] t.kids[j]).has(x);
                        assert(0 <= j < i + 1);
                    }
                    if kid.has(x) {
                        assert(t.kids[i as int].has(x));
                    }
                }
            }
        }
        i += 1;
    }
    proof {
        assert(!t.kid_ids_upto(i as int).contains(node_id));
        assert(start.contains_key(node_id));
    }
    let ghost top = ws.tree@.max_id;
    ws.discard(node_id);
    proof {
        assert forall|w: ID| #[trigger] ws.tree@.nodes.contains_key(w) implies ws.tree@.max_id
            <= old(ws).tree@.max_id by {
            assert(start.contains_key(w) && !t.has(w));
            assert(top <= old(ws).tree@.max_id);
        }
        assert(ws.tree@.nodes =~= start.remove_keys(t.ids())) by {
            assert forall|x: ID| t.ids().contains(x) <==> t.kid_ids_upto(i as int).contains(x) || x
                == node_id by {
                if t.has(x) && x != t.id {
                    let j = choose|j: int| 0 <= j < t.kids.len() && (#[trigger] t.kids[j]).has(x);
                    assert(t.kid_ids_upto(i as int).contains(x));
                }
            }
        }
    }
}

/// Copies into the tree the node of `source` under `node_id` and everything
/// below it, children first, each under a fresh identity. Returns the
/// identity of the copy of the node.
#[verifier::spinoff_prover]
fn insert_term(ws: &mut Workspace, node_id: ID, source: &Tree, Ghost(t): Ghost<Term>) -> (out: (
    ID,
    Ghost<Term>,
))
    requires
        old(ws).inv(),
        t.embeds(source@.nodes),
        t.id == node_id,
        old(ws).tree@.max_id + t.size() <= i32::MAX,
    ensures
        final(ws).inv(),
        final(ws).base == old(ws).base,
        final(ws).tree@.root_id == old(ws).tree@.root_id,
        final(ws).tree@.max_id == old(ws).tree@.max_id + t.size(),
        out.0 == out.1@.id,
        out.0 == final(ws).tree@.max_id,
        out.1@ == t.renumbered(old(ws).tree@.max_id as int),
        out.1@.shape() == t.shape(),
        out.1@.embeds(final(ws).tree@.nodes),
        out.1@.sound(),
        out.1@.within(old(ws).tree@.max_id as int, final(ws).tree@.max_id as int),
        forall|x: ID| #[trigger]
            old(ws).tree@.nodes.contains_key(x) ==> final(ws).tree@.nodes.contains_key(x)
                && final(ws).tree@.nodes[x] == old(ws).tree@.nodes[x],
        forall|x: ID| #[trigger]
            final(ws).tree@.nodes.contains_key(x) ==> old(ws).tree@.nodes.contains_key(x)
                || out.1@.has(x),
    decreases t,
{
    let relation = source.relation(node_id).clone();
    let children = copy_ids(source.children(node_id));
    let mut new_children: Vec<ID> = Vec::new();
    let ghost mut new_kids: Seq<Term> = Seq::empty();
    let ghost start = ws.tree@;
    let mut i: usize = 0;
    proof {
        assert(t.kids.subrange(0, 0) =~= Seq::<Term>::empty());
    }
    while i < children.len()
        invariant
            ws.inv(),
            ws.base == old(ws).base,
            ws.tree@.root_id == start.root_id,
            start == old(ws).tree@,
            children@ == t.kid_ids(),
            t.embeds(source@.nodes),
            start.max_id + t.size() <= i32::MAX,
            0 <= i <= children.len(),
            new_children@.len() == i,
            new_kids.len() == i,
            ws.tree@.max_id == start.max_id + sizes(t.kids.subrange(0, i as int)),
            forall|j: int|
                0 <= j < i ==> new_children@[j] == (#[trigger] new_kids[j]).id
                    && new_kids[j].shape() == t.kids[j].shape() && new_kids[j].embeds(
                    ws.tree@.nodes,
                ) && new_kids[j].sound() && new_kids[j].within(
                    start.max_id as int,
                    ws.tree@.max_id as int,
                ) && new_kids[j] == t.kids[j].renumbered(
                    start.max_id + sizes(t.kids.subrange(0, j)),
                ),
            forall|j: int, k: int|
                0 <= j < k < i ==> (#[trigger] new_kids[j]).apart(#[trigger] new_kids[k]),
            forall|x: ID| #[trigger]
                start.nodes.contains_key(x) ==> ws.tree@.nodes.contains_key(x)
                    && ws.tree@.nodes[x] == start.nodes[x],
            forall|x: ID| #[trigger]
                ws.tree@.nodes.contains_key(x) ==> start.nodes.contains_key(x) || exists|j: int|
                    0 <= j < i && (#[trigger] new_kids[j]).has(x),
        decreases children.len() - i,
    {
        let ghost kid = t.kids[i as int];
        let ghost before = ws.tree@;
        proof {
            assert(children@[i as int] == kid.id);
            lemma_sizes_prefix(t.kids, i as int);
        }
        let (child_id, Ghost(copy)) = insert_term(ws, children[i], source, Ghost(kid));
        new_children.push(child_id);
        proof {
            let grown = new_kids.push(copy);
            assert(t.kids.subrange(0, i + 1) =~= t.kids.subrange(0, i as int).push(kid));
            crate::term::lemma_sizes_push(t.kids.subrange(0, i as int), kid);
            assert forall|j: int| 0 <= j < i + 1 implies new_children@[j] == (#[trigger] grown[j]).id
                && grown[j].shape() == t.kids[j].shape() && grown[j].embeds(ws.tree@.nodes)
                && grown[j].sound() && grown[j].within(
                start.max_id as int,
                ws.tree@.max_id as int,
            ) && grown[j] == t.kids[j].renumbered(
                start.max_id + sizes(t.kids.subrange(0, j)),
            ) by {
                if j < i {
                    assert(grown[j] == new_kids[j]);
                    lemma_embeds_dom(new_kids[j], before.nodes);
                    lemma_embeds_frame(new_kids[j], before.nodes, ws.tree@.nodes);
                }
            }
            assert forall|j: int, k: int| 0 <= j < k < i + 1 implies (#[trigger] grown[j]).apart(
                #[trigger] grown[k],
            ) by {
                if k == i {
                    assert(grown[j] == new_kids[j]);
                    assert(new_kids[j].within(start.max_id as int, before.max_id as int));
                } else {
                    assert(grown[j] == new_kids[j] && grown[k] == new_kids[k]);
                }
            }
            assert forall|x: ID| #[trigger] ws.tree@.nodes.contains_key(x) implies start.nodes.contains_key(
                x,
            ) || exists|j: int| 0 <= j < i + 1 && (#[trigger] grown[j]).has(x) by {
                if before.nodes.contains_key(x) {
                    if !start.nodes.contains_key(x) {
                        let j = choose|j: int| 0 <= j < i && (#[trigger] new_kids[j]).has(x);
                        assert(grown[j].has(x));
                    }
                } else {
                    assert(copy.has(x));
                    assert(grown[i as int].has(x));
                }
            }
            new_kids = grown;
        }
        i += 1;
    }
    proof {
        assert(t.kids.subrange(0, i as int) =~= t.kids);
        assert(new_children@.len() == t.kids.len());
    }
    let new_id = ws.fresh_id();
    let new_relation = relation.with_ids(new_id, &new_children);
    let ghost before = ws.tree@;
    let ghost copy = Term { kind: t.kind, id: new_id, name: t.name, kids: new_kids };
    proof {
        assert(copy.kid_ids() =~= new_children@);
    }
    ws.put(new_id, new_relation, new_children);
    proof {
        assert forall|j: int| 0 <= j < copy.kids.len() implies (#[trigger] copy.kids[j]).embeds(
            ws.tree@.nodes,
        ) by {
            lemma_embeds_dom(new_kids[j], before.nodes);
            lemma_embeds_frame(new_kids[j], before.nodes, ws.tree@.nodes);
        }
        assert(copy.embeds(ws.tree@.nodes));
        assert(copy.sound());
        assert(copy.kids =~= t.renumbered(start.max_id as int).kids);
        lemma_shape_eq(copy, t);
        assert(copy.within(start.max_id as int, ws.tree@.max_id as int)) by {
            assert forall|x: ID| #[trigger] copy.has(x) implies start.max_id < x
                <= ws.tree@.max_id by {
                if x != copy.id {
                    let j = choose|j: int|
                        0 <= j < copy.kids.len() && (#[trigger] copy.kids[j]).has(x);
                    assert(new_kids[j].within(start.max_id as int, before.max_id as int));
                }
            }
        }
        assert forall|x: ID| #[trigger] ws.tree@.nodes.contains_key(x) implies start.nodes.contains_key(
            x,
        ) || copy.has(x) by {
            if x != new_id && !start.nodes.contains_key(x) {
                assert(before.nodes.contains_key(x));
                let j = choose|j: int| 0 <= j < i && (#[trigger] new_kids[j]).has(x);
                assert(copy.kids[j].has(x));
            }
        }
    }
    (new_id, Ghost(copy))
}

/// The same leaf type under another identity.
fn replace_id_in_relation(r: &AstRelation, id: ID) -> (out: AstRelation)
    requires
        is_type_kind(r@.kind),
    ensures
        out@ == (RelationView { kind: r@.kind, id, name: Seq::empty(), children: Seq::empty() }),
{
    match r {
        AstRelation::Void { .. } => AstRelation::Void { id },
        AstRelation::Int { .. } => AstRelation::Int { id },
        AstRelation::Float { .. } => AstRelation::Float { id },
        AstRelation::Char { .. } => AstRelation::Char { id },
        _ => vstd::pervasive::unreached(),
    }
}

/// Whether the subtrees under two nodes have the same shape: the same tags
/// and names all the way down, whatever the identities.
fn match_terms(
    t1: &Tree,
    id1: ID,
    t2: &Tree,
    id2: ID,
    Ghost(a): Ghost<Term>,
    Ghost(b): Ghost<Term>,
) -> (same: bool)
    requires
        a.embeds(t1@.nodes),
        b.embeds(t2@.nodes),
        a.id == id1,
        b.id == id2,
    ensures
        same == (a.shape() == b.shape()),
    decreases a,
{
    proof {
        lemma_shape_eq(a, b);
    }
    if !t1.relation(id1).same_label(t2.relation(id2)) {
        return false;
    }
    let c1 = t1.children(id1);
    let c2 = t2.children(id2);
    if c1.len() != c2.len() {
        return false;
    }
    let mut i: usize = 0;
    while i < c1.len()
        invariant
            a.embeds(t1@.nodes),
            b.embeds(t2@.nodes),
            c1@ == a.kid_ids(),
            c2@ == b.kid_ids(),
            c1.len() == c2.len(),
            0 <= i <= c1.len(),
            forall|j: int| 0 <= j < i ==> (#[trigger] a.kids[j]).shape() == b.kids[j].shape(),
        decreases c1.len() - i,
    {
        assert(c1@[i as int] == a.kids[i as int].id);
        assert(c2@[i as int] == b.kids[i as int].id);
        proof {
            lemma_shape_eq(a, b);
        }
        if !match_terms(t1, c1[i], t2, c2[i], Ghost(a.kids[i as int]), Ghost(b.kids[i as int])) {
            return false;
        }
        i += 1;
    }
    proof {
        lemma_shape_eq(a, b);
    }
    true
}

/// A list of one identity.
fn one(a: ID) -> (v: Vec<ID>)
    ensures
        v@ == seq![a],
{
    let mut v: Vec<ID> = Vec::new();
    v.push(a);
    assert(v@ =~= seq![a]);
    v
}

/// A list of two identities.
fn two(a: ID, b: ID) -> (v: Vec<ID>)
    ensures
        v@ == seq![a, b],
{
    let mut v: Vec<ID> = Vec::new();
    v.push(a);
    v.push(b);
    assert(v@ =~= seq![a, b]);
    v
}

/// A cell with one more statement before a list that is already in the tree.
#[verifier::spinoff_prover]
fn prepend_item(
    ws: &mut Workspace,
    stmt_id2: ID,
    source: &Tree,
    next_id: ID,
    Ghost(stmt2): Ghost<Term>,
    Ghost(rest): Ghost<Term>,
) -> (out: (ID, Ghost<Term>))
    requires
        old(ws).inv(),
        stmt2.embeds(source@.nodes),
        stmt2.id == stmt_id2,
        rest.embeds(old(ws).tree@.nodes),
        rest.sound(),
        rest.id == next_id,
        old(ws).tree@.max_id + stmt2.size() + 1 <= i32::MAX,
    ensures
        final(ws).inv(),
        final(ws).base == old(ws).base,
        final(ws).tree@.root_id == old(ws).tree@.root_id,
        final(ws).tree@.max_id == old(ws).tree@.max_id + stmt2.size() + 1,
        out.0 == out.1@.id,
        out.1@ == (Term {
            kind: RelationKind::Item,
            id: (old(ws).tree@.max_id + stmt2.size() + 1) as ID,
            name: Seq::empty(),
            kids: seq![stmt2.renumbered(old(ws).tree@.max_id as int), rest],
        }),
        out.1@.kind == RelationKind::Item,
        out.1@.name == Seq::<char>::empty(),
        out.1@.kids.len() == 2,
        out.1@.kids[0].shape() == stmt2.shape(),
        out.1@.kids[1] == rest,
        out.1@.embeds(final(ws).tree@.nodes),
        out.1@.sound(),
        forall|x: ID| #[trigger]
            old(ws).tree@.nodes.contains_key(x) ==> final(ws).tree@.nodes.contains_key(x)
                && final(ws).tree@.nodes[x] == old(ws).tree@.nodes[x],
        forall|x: ID| #[trigger]
            final(ws).tree@.nodes.contains_key(x) ==> old(ws).tree@.nodes.contains_key(x)
                || out.1@.has(x),
        forall|x: ID| #[trigger]
            out.1@.has(x) ==> rest.has(x) || !old(ws).tree@.nodes.contains_key(x),
        forall|x: ID| #[trigger] out.1@.has(x) ==> rest.has(x) || x > old(ws).tree@.max_id,
{
    let ghost start = ws.tree@;
    let (stmt_id, Ghost(stmt)) = insert_term(ws, stmt_id2, source, Ghost(stmt2));
    let ghost middle = ws.tree@;
    let new_id = ws.fresh_id();
    let new_item = AstRelation::Item { id: new_id, stmt_id, next_stmt_id: next_id };
    ws.put(new_id, new_item, two(stmt_id, next_id));
    let ghost item = Term {
        kind: RelationKind::Item,
        id: new_id,
        name: Seq::empty(),
        kids: seq![stmt, rest],
    };
    proof {
        assert(item.kid_ids() =~= seq![stmt_id, next_id]);
        lemma_embeds_dom(rest, start.nodes);
        lemma_embeds_dom(stmt, middle.nodes);
        lemma_embeds_frame(rest, start.nodes, ws.tree@.nodes);
        lemma_embeds_frame(stmt, middle.nodes, ws.tree@.nodes);
        assert(item.kids[0] == stmt && item.kids[1] == rest);
        assert(stmt.apart(rest));
        assert(item.embeds(ws.tree@.nodes));
        assert(item.sound());
        assert forall|x: ID| #[trigger] ws.tree@.nodes.contains_key(x) implies start.nodes.contains_key(
            x,
        ) || item.has(x) by {
            if x != new_id && !start.nodes.contains_key(x) {
                assert(stmt.has(x));
                assert(item.kids[0].has(x));
            }
        }
        assert forall|x: ID| #[trigger] item.has(x) implies rest.has(x) || !start.nodes.contains_key(
            x,
        ) by {
            if x != new_id {
                let j = choose|j: int| 0 <= j < item.kids.len() && (#[trigger] item.kids[j]).has(x);
                if j == 0 {
                    assert(stmt.has(x));
                }
            }
        }
        assert forall|x: ID| #[trigger] item.has(x) implies rest.has(x) || x > start.max_id by {
            if x != new_id {
                let j = choose|j: int| 0 <= j < item.kids.len() && (#[trigger] item.kids[j]).has(x);
                if j == 0 {
                    assert(stmt.has(x));
                }
            }
        }
    }
    (new_id, Ghost(item))
}

/// Which cells and statements of a statement list keep their identity when
/// the list `gone` is brought into the shape of the list `wanted`. A cell whose
/// statement matches the one it is held against stays, with its statement
/// untouched, and the lists behind the two go on in the same way. Where the
/// statements do not match and the new list goes on, a new cell comes first
/// and the old cell is held against the rest of the new list. Where they do
/// not match and the new list ends, the cell stays and gets the new
/// statement.
pub open spec fn keeps_cells(gone: Term, wanted: Term, ours: Term) -> bool
    decreases wanted,
{
    if gone.kids.len() == 0 || wanted.kids.len() == 0 || ours.kids.len() == 0 {
        true
    } else if gone.kids[0].shape() == wanted.kids[0].shape() {
        &&& ours.id == gone.id
        &&& ours.kids[0] == gone.kids[0]
        &&& gone.kind == RelationKind::Item && wanted.kind == RelationKind::Item ==> gone.kids.len()
            == 2 && wanted.kids.len() == 2 && ours.kids.len() == 2 && keeps_cells(
            gone.kids[1],
            wanted.kids[1],
            ours.kids[1],
        )
    } else if wanted.kind == RelationKind::Item {
        wanted.kids.len() == 2 && ours.kids.len() == 2 && keeps_cells(gone, wanted.kids[1], ours.kids[1])
    } else {
        ours.id == gone.id
    }
}

/// The term `ours` that came of the term `gone` took no identity that was in
/// use elsewhere: each of its identities is one of `gone`, or lies above
/// `pin`, an identity that was in use outside `gone` all the time.
pub open spec fn above(gone: Term, ours: Term, pin: ID) -> bool {
    forall|x: ID| #[trigger] ours.has(x) ==> gone.has(x) || x > pin
}

/// The statement list that comes of the list `gone` when it is brought into
/// the shape of the list `wanted`, and the largest identity in use after
/// that. Before, the tree holds the identities `keys`, the largest of them
/// `top`. The cells are held against each other from the first on:
///
/// - cell with next against cell with next, statements match: the cell
///   stays, and the lists behind the two are held against each other;
/// - last cell against cell with next, statements match: the cell stays and
///   gets a copy of the list behind the new cell;
/// - statements do not match and the new list goes on: the old cell is held
///   against the list behind the new cell, and a new cell with a copy of the
///   new statement is put before the result;
/// - cell with next against last cell: the list behind the old cell is
///   deleted; where the statements match the cell stays as the last, else
///   it gets a copy of the new statement in place of its own;
/// - last cell against last cell: nothing changes where the statements
///   match, else the cell gets a copy of the new statement.
///
/// Every copy is numbered upward from the largest identity in use when it
/// is made, from its leaves up.
pub open spec fn relisted(gone: Term, wanted: Term, keys: Set<ID>, top: int) -> (Term, int)
    decreases wanted,
{
    let same = gone.kids[0].shape() == wanted.kids[0].shape();
    let cell = |kind: RelationKind, id: ID, kids: Seq<Term>|
        Term { kind, id, name: Seq::empty(), kids };
    if wanted.kind == RelationKind::Item && wanted.kids.len() == 2 {
        if same && gone.kind == RelationKind::Item {
            let (rest, after) = relisted(gone.kids[1], wanted.kids[1], keys, top);
            (cell(RelationKind::Item, gone.id, seq![gone.kids[0], rest]), after)
        } else if same {
            let tail = wanted.kids[1].renumbered(top);
            (cell(RelationKind::Item, gone.id, seq![gone.kids[0], tail]), top + wanted.kids[1].size())
        } else {
            let (rest, after) = relisted(gone, wanted.kids[1], keys, top);
            let first = wanted.kids[0].renumbered(after);
            let id = (after + wanted.kids[0].size() + 1) as ID;
            (cell(RelationKind::Item, id, seq![first, rest]), after + wanted.kids[0].size() + 1)
        }
    } else if gone.kind == RelationKind::Item {
        let left = top_key(keys.difference(gone.kids[1].ids())) as int;
        if same {
            (cell(RelationKind::EndItem, gone.id, seq![gone.kids[0]]), left)
        } else {
            let first = wanted.kids[0].renumbered(left);
            (cell(RelationKind::EndItem, gone.id, seq![first]), left + wanted.kids[0].size())
        }
    } else if same {
        (gone, top)
    } else {
        let first = wanted.kids[0].renumbered(top);
        (cell(RelationKind::EndItem, gone.id, seq![first]), top + wanted.kids[0].size())
    }
}

/// Brings the statement list that starts at `item_id1` in the tree into the
/// shape of the one that starts at `item_id2` in `source`. Cells whose
/// statements match keep their identities; a statement that does not match is
/// inserted before the cell it was held against. Returns the identity of the
/// first cell of the result.
#[verifier::spinoff_prover]
#[verifier::rlimit(30)]
fn compare_items(
    ws: &mut Workspace,
    item_id1: ID,
    item_id2: ID,
    source: &Tree,
    Ghost(c1): Ghost<Term>,
    Ghost(c2): Ghost<Term>,
) -> (out: (ID, Ghost<Term>))
    requires
        old(ws).inv(),
        c1.embeds(old(ws).tree@.nodes),
        c1.sound(),
        c1.conforms(),
        is_cell_kind(c1.kind),
        c1.id == item_id1,
        c2.embeds(source@.nodes),
        c2.conforms(),
        is_cell_kind(c2.kind),
        c2.id == item_id2,
        old(ws).tree@.max_id + c2.size() <= i32::MAX,
        old(ws).tree@.nodes.contains_key(old(ws).tree@.root_id),
        !c1.has(old(ws).tree@.root_id),
    ensures
        final(ws).inv(),
        final(ws).base == old(ws).base,
        final(ws).tree@.root_id == old(ws).tree@.root_id,
        final(ws).tree@.max_id <= old(ws).tree@.max_id + c2.size(),
        out.0 == out.1@.id,
        out.1@.shape() == c2.shape(),
        out.1@.embeds(final(ws).tree@.nodes),
        out.1@.sound(),
        rebuilt(old(ws).tree@.nodes, final(ws).tree@.nodes, c1, out.1@),
        above(c1, out.1@, old(ws).tree@.root_id),
        keeps_cells(c1, c2, out.1@),
        (out.1@, final(ws).tree@.max_id as int) == relisted(
            c1,
            c2,
            old(ws).tree@.nodes.dom(),
            old(ws).tree@.max_id as int,
        ),
        c1.shape() == c2.shape() ==> final(ws).tree@ == old(ws).tree@ && out.1@ == c1,
    decreases c2,
{
    let ghost start = ws.tree@;
    let ghost pin = ws.tree@.root_id;
    proof {
        assert(start.nodes.dom().contains(pin));
    }
    let is_item1 = ws.tree.relation(item_id1).kind() == RelationKind::Item;
    let is_item2 = source.relation(item_id2).kind() == RelationKind::Item;
    let kids1 = copy_ids(ws.tree.children(item_id1));
    let kids2 = copy_ids(source.children(item_id2));
    let ghost s1 = c1.kids[0];
    let ghost s2 = c2.kids[0];
    proof {
        assert(kids1@ == c1.kid_ids());
        assert(kids2@ == c2.kid_ids());
        assert(kids1@[0] == s1.id);
        assert(kids2@[0] == s2.id);
        lemma_shape_eq(c1, c2);
        lemma_size_small(c2);
        lemma_embeds_dom(c1, start.nodes);
    }
    let stmt_id1 = kids1[0];
    let stmt_id2 = kids2[0];
    let matched = match_terms(&ws.tree, stmt_id1, source, stmt_id2, Ghost(s1), Ghost(s2));
    if is_item2 {
        let next_id2 = kids2[1];
        let ghost n2 = c2.kids[1];
        assert(kids2@[1] == n2.id);
        if matched && is_item1 {
            let next_id1 = kids1[1];
            let ghost n1 = c1.kids[1];
            assert(kids1@[1] == n1.id);
            assert(s1.apart(n1));
            let (next_id, Ghost(rest)) = compare_items(
                ws,
                next_id1,
                next_id2,
                source,
                Ghost(n1),
                Ghost(n2),
            );
            let ghost middle = ws.tree@;
            let ghost made = Term {
                kind: RelationKind::Item,
                id: item_id1,
                name: Seq::empty(),
                kids: seq![s1, rest],
            };
            proof {
                lemma_embeds_dom(s1, start.nodes);
                lemma_embeds_dom(n1, start.nodes);
                lemma_embeds_frame(s1, start.nodes, middle.nodes);
                assert(made.kid_ids() =~= seq![stmt_id1, next_id]);
                assert(made.kids[0] == s1 && made.kids[1] == rest);
                assert(s1.apart(rest));
                assert(!rest.has(item_id1));
                assert(made.sound());
                lemma_shape_eq(made, c2);
            }
            if next_id != next_id1 {
                let replacement = AstRelation::Item {
                    id: item_id1,
                    stmt_id: stmt_id1,
                    next_stmt_id: next_id,
                };
                ws.put(item_id1, replacement, two(stmt_id1, next_id));
                proof {
                    lemma_embeds_dom(rest, middle.nodes);
                    lemma_embeds_frame(s1, middle.nodes, ws.tree@.nodes);
                    lemma_embeds_frame(rest, middle.nodes, ws.tree@.nodes);
                }
            } else {
                assert(middle.nodes[item_id1] == start.nodes[item_id1]);
                assert(c1.kid_ids() =~= made.kid_ids());
            }
            proof {
                assert(made.embeds(ws.tree@.nodes));
                assert(rebuilt(start.nodes, ws.tree@.nodes, c1, made)) by {
                    lemma_rebuilt_kid(start.nodes, middle.nodes, ws.tree@.nodes, c1, made, 1);
                }
                if c1.shape() == c2.shape() {
                    assert(c1.kids =~= made.kids);
                }
                assert((made, ws.tree@.max_id as int) == relisted(c1, c2, start.nodes.dom(), start.max_id as int));
                assert forall|x: ID| #[trigger] made.has(x) implies c1.has(x) || x > pin by {
                    if x != made.id {
                        let j = choose|j: int|
                            0 <= j < made.kids.len() && (#[trigger] made.kids[j]).has(x);
                        if j == 0 {
                            assert(c1.kids[0].has(x));
                        } else {
                            assert(rest.has(x));
                            if n1.has(x) {
                                assert(c1.kids[1].has(x));
                            }
                        }
                    }
                }
            }
            (item_id1, Ghost(made))
        } else if matched {
            let (next_item, Ghost(rest)) = insert_term(ws, next_id2, source, Ghost(n2));
            let ghost middle = ws.tree@;
            let replacement = AstRelation::Item {
                id: item_id1,
                stmt_id: stmt_id1,
                next_stmt_id: next_item,
            };
            ws.put(item_id1, replacement, two(stmt_id1, next_item));
            let ghost made = Term {
                kind: RelationKind::Item,
                id: item_id1,
                name: Seq::empty(),
                kids: seq![s1, rest],
            };
            proof {
                lemma_embeds_dom(s1, start.nodes);
                lemma_embeds_dom(rest, middle.nodes);
                lemma_embeds_frame(s1, start.nodes, ws.tree@.nodes);
                lemma_embeds_frame(rest, middle.nodes, ws.tree@.nodes);
                assert(made.kid_ids() =~= seq![stmt_id1, next_item]);
                assert(made.kids[0] == s1 && made.kids[1] == rest);
                assert(s1.apart(rest));
                assert(made.sound());
                assert(made.embeds(ws.tree@.nodes));
                lemma_shape_eq(made, c2);
                assert forall|x: ID| #[trigger] ws.tree@.nodes.contains_key(x) implies made.has(x)
                    || (start.nodes.contains_key(x) && !c1.has(x)) by {
                    if x != item_id1 {
                        if rest.has(x) {
                            assert(made.kids[1].has(x));
                        } else if c1.has(x) {
                            let j = choose|j: int|
                                0 <= j < c1.kids.len() && (#[trigger] c1.kids[j]).has(x);
                            assert(made.kids[0].has(x));
                        }
                    }
                }
                assert forall|x: ID| #[trigger] made.has(x) implies c1.has(x)
                    || !start.nodes.contains_key(x) by {
                    if x != item_id1 {
                        let j = choose|j: int|
                            0 <= j < made.kids.len() && (#[trigger] made.kids[j]).has(x);
                        if j == 0 {
                            assert(c1.kids[0].has(x));
                        }
                    }
                }
                assert((made, ws.tree@.max_id as int) == relisted(c1, c2, start.nodes.dom(), start.max_id as int));
                assert forall|x: ID| #[trigger] made.has(x) implies c1.has(x) || x > pin by {
                    if x != made.id {
                        let j = choose|j: int|
                            0 <= j < made.kids.len() && (#[trigger] made.kids[j]).has(x);
                        if j == 0 {
                            assert(c1.kids[0].has(x));
                        } else {
                            assert(rest.has(x));
                            assert(rest.within(start.max_id as int, middle.max_id as int));
                        }
                    }
                }
            }
            (item_id1, Ghost(made))
        } else {
            let (next_id, Ghost(rest)) = compare_items(
                ws,
                item_id1,
                next_id2,
                source,
                Ghost(c1),
                Ghost(n2),
            );
            let ghost middle = ws.tree@;
            let (new_id, Ghost(made)) = prepend_item(
                ws,
                stmt_id2,
                source,
                next_id,
                Ghost(s2),
                Ghost(rest),
            );
            proof {
                lemma_shape_eq(made, c2);
                assert forall|x: ID| #[trigger] ws.tree@.nodes.contains_key(x) implies made.has(x)
                    || (start.nodes.contains_key(x) && !c1.has(x)) by {
                    if middle.nodes.contains_key(x) && rest.has(x) {
                        assert(made.kids[1].has(x));
                    }
                }
                assert((made, ws.tree@.max_id as int) == relisted(c1, c2, start.nodes.dom(), start.max_id as int));
                assert(above(c1, made, pin));
            }
            (new_id, Ghost(made))
        }
    } else {
        if is_item1 {
            let next_id1 = kids1[1];
            let ghost n1 = c1.kids[1];
            assert(kids1@[1] == n1.id);
            assert(s1.apart(n1));
            proof {
                lemma_embeds_dom(s1, start.nodes);
                lemma_embeds_dom(n1, start.nodes);
            }
            delete_term(ws, next_id1, Ghost(n1));
            let ghost middle = ws.tree@;
            proof {
                lemma_embeds_frame(s1, start.nodes, middle.nodes);
                lemma_top_key(middle);
                assert(middle.nodes.dom() =~= start.nodes.dom().difference(n1.ids()));
            }
            if matched {
                let replacement = AstRelation::EndItem { id: item_id1, stmt_id: stmt_id1 };
                ws.put(item_id1, replacement, one(stmt_id1));
                let ghost made = Term {
                    kind: RelationKind::EndItem,
                    id: item_id1,
                    name: Seq::empty(),
                    kids: seq![s1],
                };
                proof {
                    lemma_embeds_frame(s1, middle.nodes, ws.tree@.nodes);
                    assert(made.kid_ids() =~= seq![stmt_id1]);
                    assert(made.kids[0] == s1);
                    assert(made.sound());
                    assert(made.embeds(ws.tree@.nodes));
                    lemma_shape_eq(made, c2);
                    assert(middle.nodes.dom().contains(item_id1));
                    assert(ws.tree@.max_id == middle.max_id);
                    assert forall|x: ID| #[trigger] ws.tree@.nodes.contains_key(x) implies made.has(
                        x,
                    ) || (start.nodes.contains_key(x) && !c1.has(x)) by {
                        if x != item_id1 && c1.has(x) {
                            let j = choose|j: int|
                                0 <= j < c1.kids.len() && (#[trigger] c1.kids[j]).has(x);
                            assert(made.kids[0].has(x));
                        }
                    }
                    assert forall|x: ID| #[trigger] made.has(x) implies c1.has(x)
                        || !start.nodes.contains_key(x) by {
                        if x != item_id1 {
                            assert(c1.kids[0].has(x));
                        }
                    }
                    assert forall|x: ID| #[trigger] start.nodes.contains_key(x) implies c1.has(x)
                        || (ws.tree@.nodes.contains_key(x) && ws.tree@.nodes[x]
                        == start.nodes[x]) by {
                        if n1.has(x) {
                            assert(c1.kids[1].has(x));
                        }
                    }
                    assert((made, ws.tree@.max_id as int) == relisted(c1, c2, start.nodes.dom(), start.max_id as int));
                assert(above(c1, made, pin));
                }
                (item_id1, Ghost(made))
            } else {
                let Ghost(made) = replace_statement(
                    ws,
                    item_id1,
                    stmt_id1,
                    stmt_id2,
                    source,
                    Ghost(s1),
                    Ghost(s2),
                );
                proof {
                    lemma_shape_eq(made, c2);
                    assert forall|x: ID| #[trigger] ws.tree@.nodes.contains_key(x) implies made.has(
                        x,
                    ) || (start.nodes.contains_key(x) && !c1.has(x)) by {
                        if !made.has(x) {
                            assert(middle.nodes.contains_key(x));
                            if c1.has(x) && x != item_id1 {
                                let j = choose|j: int|
                                    0 <= j < c1.kids.len() && (#[trigger] c1.kids[j]).has(x);
                            }
                        }
                    }
                    assert forall|x: ID| #[trigger] made.has(x) implies c1.has(x)
                        || !start.nodes.contains_key(x) by {
                        if x != item_id1 && start.nodes.contains_key(x) {
                            if middle.nodes.contains_key(x) {
                                assert(s1.has(x));
                                assert(c1.kids[0].has(x));
                            } else {
                                assert(n1.has(x));
                                assert(c1.kids[1].has(x));
                            }
                        }
                    }
                    assert forall|x: ID| #[trigger] start.nodes.contains_key(x) implies c1.has(x)
                        || (ws.tree@.nodes.contains_key(x) && ws.tree@.nodes[x]
                        == start.nodes[x]) by {
                        if n1.has(x) {
                            assert(c1.kids[1].has(x));
                        } else if s1.has(x) {
                            assert(c1.kids[0].has(x));
                        } else {
                            assert(middle.nodes.contains_key(x));
                        }
                    }
                    assert((made, ws.tree@.max_id as int) == relisted(c1, c2, start.nodes.dom(), start.max_id as int));
                assert(above(c1, made, pin));
                }
                (item_id1, Ghost(made))
            }
        } else {
            if matched {
                proof {
                    assert(c1.kids =~= seq![s1]);
                    assert(c2.kids =~= seq![s2]);
                    assert((c1, ws.tree@.max_id as int) == relisted(c1, c2, start.nodes.dom(), start.max_id as int));
                }
                (item_id1, Ghost(c1))
            } else {
                proof {
                    lemma_embeds_dom(s1, start.nodes);
                }
                let Ghost(made) = replace_statement(
                    ws,
                    item_id1,
                    stmt_id1,
                    stmt_id2,
                    source,
                    Ghost(s1),
                    Ghost(s2),
                );
                proof {
                    lemma_shape_eq(made, c2);
                    assert forall|x: ID| #[trigger] ws.tree@.nodes.contains_key(x) implies made.has(
                        x,
                    ) || (start.nodes.contains_key(x) && !c1.has(x)) by {
                        if !made.has(x) && c1.has(x) && x != item_id1 {
                            let j = choose|j: int|
                                0 <= j < c1.kids.len() && (#[trigger] c1.kids[j]).has(x);
                        }
                    }
                    assert forall|x: ID| #[trigger] made.has(x) implies c1.has(x)
                        || !start.nodes.contains_key(x) by {
                        if x != item_id1 && start.nodes.contains_key(x) {
                            assert(s1.has(x));
                            assert(c1.kids[0].has(x));
                        }
                    }
                    assert forall|x: ID| #[trigger] start.nodes.contains_key(x) implies c1.has(x)
                        || (ws.tree@.nodes.contains_key(x) && ws.tree@.nodes[x]
                        == start.nodes[x]) by {
                        if s1.has(x) {
                            assert(c1.kids[0].has(x));
                        }
                    }
                    assert((made, ws.tree@.max_id as int) == relisted(c1, c2, start.nodes.dom(), start.max_id as int));
                assert(above(c1, made, pin));
                }
                (item_id1, Ghost(made))
            }
        }
    }
}

/// Makes the cell under `item_id` the last of its list, with a copy of the
/// statement under `stmt_id2` of `source` in place of its own, whose subtree
/// is deleted.
#[verifier::spinoff_prover]
fn replace_statement(
    ws: &mut Workspace,
    item_id: ID,
    stmt_id1: ID,
    stmt_id2: ID,
    source: &Tree,
    Ghost(s1): Ghost<Term>,
    Ghost(s2): Ghost<Term>,
) -> (out: Ghost<Term>)
    requires
        old(ws).inv(),
        old(ws).tree@.nodes.contains_key(item_id),
        s1.embeds(old(ws).tree@.nodes),
        s1.sound(),
        s1.id == stmt_id1,
        !s1.has(item_id),
        s2.embeds(source@.nodes),
        s2.id == stmt_id2,
        old(ws).tree@.max_id + s2.size() <= i32::MAX,
    ensures
        final(ws).inv(),
        final(ws).base == old(ws).base,
        final(ws).tree@.root_id == old(ws).tree@.root_id,
        final(ws).tree@.max_id == old(ws).tree@.max_id + s2.size(),
        out@ == (Term {
            kind: RelationKind::EndItem,
            id: item_id,
            name: Seq::empty(),
            kids: seq![s2.renumbered(old(ws).tree@.max_id as int)],
        }),
        out@.id == item_id,
        out@.kind == RelationKind::EndItem,
        out@.name == Seq::<char>::empty(),
        out@.kids.len() == 1,
        out@.kids[0].shape() == s2.shape(),
        out@.embeds(final(ws).tree@.nodes),
        out@.sound(),
        forall|x: ID| #[trigger]
            old(ws).tree@.nodes.contains_key(x) ==> s1.has(x) || x == item_id || (final(ws).tree@.nodes.contains_key(x) && final(ws).tree@.nodes[x] == old(ws).tree@.nodes[x]),
        forall|x: ID| #[trigger]
            final(ws).tree@.nodes.contains_key(x) ==> out@.has(x) || (old(ws).tree@.nodes.contains_key(x) && !s1.has(x)),
        forall|x: ID| #[trigger]
            out@.has(x) ==> x == item_id || !old(ws).tree@.nodes.contains_key(x),
        forall|x: ID| #[trigger] out@.has(x) ==> x == item_id || x > old(ws).tree@.max_id,
{
    let ghost start = ws.tree@;
    let (stmt_id, Ghost(stmt)) = insert_term(ws, stmt_id2, source, Ghost(s2));
    let ghost middle = ws.tree@;
    let replacement = AstRelation::EndItem { id: item_id, stmt_id };
    ws.put(item_id, replacement, one(stmt_id));
    let ghost later = ws.tree@;
    let ghost made = Term {
        kind: RelationKind::EndItem,
        id: item_id,
        name: Seq::empty(),
        kids: seq![stmt],
    };
    proof {
        lemma_embeds_dom(s1, start.nodes);
        lemma_embeds_dom(stmt, middle.nodes);
        lemma_embeds_frame(s1, start.nodes, later.nodes);
        lemma_embeds_frame(stmt, middle.nodes, later.nodes);
    }
    delete_term(ws, stmt_id1, Ghost(s1));
    proof {
        assert(made.kid_ids() =~= seq![stmt_id]);
        assert(made.kids[0] == stmt);
        lemma_embeds_frame(stmt, later.nodes, ws.tree@.nodes);
        assert(made.embeds(ws.tree@.nodes));
        assert(made.sound());
        assert(ws.tree@.nodes.contains_key(stmt_id));
        assert(ws.tree@.nodes.dom().contains(stmt_id));
        assert(ws.tree@.max_id == middle.max_id);
        assert forall|x: ID| #[trigger] ws.tree@.nodes.contains_key(x) implies made.has(x) || (
        start.nodes.contains_key(x) && !s1.has(x)) by {
            if x != item_id && !start.nodes.contains_key(x) {
                assert(stmt.has(x));
                assert(made.kids[0].has(x));
            }
        }
        assert forall|x: ID| #[trigger] made.has(x) implies x == item_id
            || !start.nodes.contains_key(x) by {
            if x != item_id {
                let j = choose|j: int| 0 <= j < made.kids.len() && (#[trigger] made.kids[j]).has(x);
                assert(stmt.has(x));
            }
        }
        assert forall|x: ID| #[trigger] made.has(x) implies x == item_id || x > start.max_id by {
            if x != item_id {
                let j = choose|j: int| 0 <= j < made.kids.len() && (#[trigger] made.kids[j]).has(x);
                assert(stmt.has(x));
            }
        }
    }
    Ghost(made)
}

/// A change below one child of a term is a change below the term.
proof fn lemma_rebuilt_kid(
    start: Map<ID, NodeView>,
    middle: Map<ID, NodeView>,
    end: Map<ID, NodeView>,
    gone: Term,
    made: Term,
    at: int,
)
    requires
        0 <= at < gone.kids.len(),
        gone.kids.len() == made.kids.len(),
        gone.id == made.id,
        gone.embeds(start),
        gone.sound(),
        rebuilt(start, middle, gone.kids[at], made.kids[at]),
        forall|i: int| 0 <= i < gone.kids.len() && i != at ==> gone.kids[i] == made.kids[i],
        forall|x: ID| #[trigger] end.contains_key(x) <==> middle.contains_key(x),
        forall|x: ID| #[trigger] middle.contains_key(x) && x != gone.id ==> end[x] == middle[x],
    ensures
        rebuilt(start, end, gone, made),
{
    lemma_embeds_dom(gone, start);
    assert forall|x: ID| #[trigger] start.contains_key(x) implies gone.has(x) || (end.contains_key(
        x,
    ) && end[x] == start[x]) by {
        if gone.kids[at].has(x) {
        }
    }
    assert forall|x: ID| #[trigger] end.contains_key(x) implies made.has(x) || (start.contains_key(
        x,
    ) && !gone.has(x)) by {
        if made.kids[at].has(x) {
        } else if gone.has(x) && x != gone.id {
            let j = choose|j: int| 0 <= j < gone.kids.len() && (#[trigger] gone.kids[j]).has(x);
            if j == at {
            } else {
                assert(made.kids[j].has(x));
            }
        }
    }
    assert forall|x: ID| #[trigger] made.has(x) implies gone.has(x) || !start.contains_key(x) by {
        if x != made.id {
            let j = choose|j: int| 0 <= j < made.kids.len() && (#[trigger] made.kids[j]).has(x);
            if j == at {
                if gone.kids[at].has(x) {
                }
            } else {
                assert(gone.kids[j].has(x));
            }
        }
    }
}

/// A formal parameter that is brought into another shape keeps its identity
/// and that of its type.
pub open spec fn keeps_arg(gone: Term, ours: Term) -> bool {
    &&& ours.id == gone.id
    &&& ours.kids.len() == 1
    &&& gone.kids.len() == 1
    &&& ours.kids[0].id == gone.kids[0].id
}

/// A body that is brought into another shape keeps its identity, and its
/// statement list keeps what `keeps_cells` says.
pub open spec fn keeps_body(gone: Term, wanted: Term, ours: Term) -> bool {
    &&& ours.id == gone.id
    &&& ours.kids.len() == 1
    &&& gone.kids.len() == 1
    &&& wanted.kids.len() == 1
    &&& keeps_cells(gone.kids[0], wanted.kids[0], ours.kids[0])
}

/// What of a function keeps its identity when the function is brought into
/// the shape of another: the function itself, its return type, the
/// parameters at the places that both functions have, and of the body what
/// `keeps_body` says.
pub open spec fn keeps_inside(gone: Term, wanted: Term, ours: Term) -> bool {
    &&& ours.id == gone.id
    &&& gone.kids.len() >= 2
    &&& wanted.kids.len() >= 2
    &&& ours.kids.len() == wanted.kids.len()
    &&& ours.kids[0].id == gone.kids[0].id
    &&& forall|k: int|
        0 < k < gone.kids.len() - 1 && k < wanted.kids.len() - 1 ==> keeps_arg(
            gone.kids[k],
            #[trigger] ours.kids[k],
        )
    &&& keeps_body(gone.kids.last(), wanted.kids.last(), ours.kids.last())
}

/// The leaf type that comes of the type `gone` when it is held against the
/// type `wanted`: the same where the two match, else the kind of `wanted`
/// under the identity of `gone`.
pub open spec fn retyped(gone: Term, wanted: Term) -> Term {
    if gone.shape() == wanted.shape() {
        gone
    } else {
        Term { kind: wanted.kind, id: gone.id, name: Seq::empty(), kids: Seq::empty() }
    }
}

/// The formal parameter that comes of the parameter `gone` when it is held
/// against the parameter `wanted`: under the identity of `gone`, with the
/// name of `wanted` and the type that comes of the two types.
pub open spec fn reargued(gone: Term, wanted: Term) -> Term {
    Term {
        kind: RelationKind::Arg,
        id: gone.id,
        name: wanted.name,
        kids: seq![retyped(gone.kids[0], wanted.kids[0])],
    }
}

/// The body that comes of the body `gone` when it is brought into the shape
/// of the body `wanted`, and the largest identity in use after that: the
/// body keeps its identity, and its statement list is `relisted`.
pub open spec fn rebodied(gone: Term, wanted: Term, keys: Set<ID>, top: int) -> (Term, int) {
    let (cell, after) = relisted(gone.kids[0], wanted.kids[0], keys, top);
    (
        Term { kind: RelationKind::Compound, id: gone.id, name: Seq::empty(), kids: seq![cell] },
        after,
    )
}

/// Gives the leaf type under `type_id1` the kind of the one under `type_id2`
/// of `source`, under the identity it has.
fn reconcile_type(
    ws: &mut Workspace,
    type_id1: ID,
    type_id2: ID,
    source: &Tree,
    Ghost(ty1): Ghost<Term>,
    Ghost(ty2): Ghost<Term>,
) -> (out: Ghost<Term>)
    requires
        old(ws).inv(),
        ty1.embeds(old(ws).tree@.nodes),
        ty1.id == type_id1,
        ty1.kids.len() == 0,
        ty2.embeds(source@.nodes),
        ty2.id == type_id2,
        ty2.conforms(),
        is_type_kind(ty2.kind),
    ensures
        final(ws).inv(),
        final(ws).base == old(ws).base,
        final(ws).tree@.root_id == old(ws).tree@.root_id,
        final(ws).tree@.max_id == old(ws).tree@.max_id,
        out@.id == type_id1,
        out@.shape() == ty2.shape(),
        out@.embeds(final(ws).tree@.nodes),
        out@.sound(),
        rebuilt(old(ws).tree@.nodes, final(ws).tree@.nodes, ty1, out@),
        forall|x: ID| #[trigger] out@.has(x) ==> ty1.has(x),
        out@ == retyped(ty1, ty2),
        ty1.shape() == ty2.shape() ==> final(ws).tree@ == old(ws).tree@ && out@ == ty1,
{
    if match_terms(&ws.tree, type_id1, source, type_id2, Ghost(ty1), Ghost(ty2)) {
        Ghost(ty1)
    } else {
        let ghost start = ws.tree@;
        let replacement = replace_id_in_relation(source.relation(type_id2), type_id1);
        ws.put(type_id1, replacement, Vec::new());
        let ghost made = Term {
            kind: ty2.kind,
            id: type_id1,
            name: Seq::empty(),
            kids: Seq::empty(),
        };
        proof {
            assert(made.kid_ids() =~= Seq::<ID>::empty());
            lemma_shape_eq(made, ty2);
            assert(start.nodes.dom().contains(type_id1));
        }
        Ghost(made)
    }
}

/// Brings the formal parameter under `arg_id1` into the shape of the one
/// under `arg_id2` of `source`: its type first, then its name.
#[verifier::spinoff_prover]
fn reconcile_arg(
    ws: &mut Workspace,
    arg_id1: ID,
    arg_id2: ID,
    source: &Tree,
    Ghost(a1): Ghost<Term>,
    Ghost(a2): Ghost<Term>,
) -> (out: Ghost<Term>)
    requires
        old(ws).inv(),
        a1.embeds(old(ws).tree@.nodes),
        a1.sound(),
        a1.conforms(),
        a1.kind == RelationKind::Arg,
        a1.id == arg_id1,
        a2.embeds(source@.nodes),
        a2.conforms(),
        a2.kind == RelationKind::Arg,
        a2.id == arg_id2,
    ensures
        final(ws).inv(),
        final(ws).base == old(ws).base,
        final(ws).tree@.root_id == old(ws).tree@.root_id,
        final(ws).tree@.max_id == old(ws).tree@.max_id,
        out@.id == arg_id1,
        out@.shape() == a2.shape(),
        out@.embeds(final(ws).tree@.nodes),
        out@.sound(),
        rebuilt(old(ws).tree@.nodes, final(ws).tree@.nodes, a1, out@),
        forall|x: ID| #[trigger] out@.has(x) ==> a1.has(x),
        out@ == reargued(a1, a2),
        keeps_arg(a1, out@),
        a1.shape() == a2.shape() ==> final(ws).tree@ == old(ws).tree@ && out@ == a1,
{
    let ghost start = ws.tree@;
    let type_id1 = ws.tree.children(arg_id1)[0];
    let type_id2 = source.children(arg_id2)[0];
    proof {
        assert(a1.kid_ids()[0] == a1.kids[0].id);
        assert(a2.kid_ids()[0] == a2.kids[0].id);
        assert(a1.kids[0].conforms());
        assert(a2.kids[0].conforms());
        lemma_shape_eq(a1, a2);
        lemma_partial_start(start.nodes, a1);
    }
    let Ghost(ty) = reconcile_type(
        ws,
        type_id1,
        type_id2,
        source,
        Ghost(a1.kids[0]),
        Ghost(a2.kids[0]),
    );
    let ghost middle = ws.tree@;
    let ghost made = Term { kind: RelationKind::Arg, id: arg_id1, name: a2.name, kids: seq![ty] };
    proof {
        lemma_partial_replace(start.nodes, start.nodes, middle.nodes, a1, Seq::empty(), 0, ty);
        assert(Seq::<Term>::empty().push(ty) =~= made.kids);
        assert(made.kid_ids() =~= seq![type_id1]);
        assert(a1.kid_ids() =~= seq![type_id1]);
        lemma_shape_eq(made, a2);
    }
    if !ws.tree.relation(arg_id1).same_label(source.relation(arg_id2)) {
        let children = one(type_id1);
        let replacement = source.relation(arg_id2).with_ids(arg_id1, &children);
        ws.put(arg_id1, replacement, children);
        proof {
            assert(middle.nodes.dom().contains(arg_id1));
        }
    }
    proof {
        lemma_partial_finish(start.nodes, middle.nodes, ws.tree@.nodes, a1, made);
        if a1.shape() == a2.shape() {
            assert(a1.kids =~= made.kids);
        }
        assert forall|x: ID| #[trigger] made.has(x) implies a1.has(x) by {
            if x != made.id {
                let j = choose|j: int| 0 <= j < made.kids.len() && (#[trigger] made.kids[j]).has(x);
                assert(ty.has(x));
                assert(a1.kids[0].has(x));
            }
        }
    }
    Ghost(made)
}

/// Brings the body under `body_id1` into the shape of the one under
/// `body_id2` of `source`.
#[verifier::spinoff_prover]
fn reconcile_body(
    ws: &mut Workspace,
    body_id1: ID,
    body_id2: ID,
    source: &Tree,
    Ghost(b1): Ghost<Term>,
    Ghost(b2): Ghost<Term>,
) -> (out: Ghost<Term>)
    requires
        old(ws).inv(),
        b1.embeds(old(ws).tree@.nodes),
        b1.sound(),
        b1.conforms(),
        b1.kind == RelationKind::Compound,
        b1.id == body_id1,
        b2.embeds(source@.nodes),
        b2.conforms(),
        b2.kind == RelationKind::Compound,
        b2.id == body_id2,
        old(ws).tree@.max_id + b2.size() <= i32::MAX,
        old(ws).tree@.nodes.contains_key(old(ws).tree@.root_id),
        !b1.has(old(ws).tree@.root_id),
    ensures
        final(ws).inv(),
        final(ws).base == old(ws).base,
        final(ws).tree@.root_id == old(ws).tree@.root_id,
        final(ws).tree@.max_id <= old(ws).tree@.max_id + b2.size(),
        out@.id == body_id1,
        out@.shape() == b2.shape(),
        out@.embeds(final(ws).tree@.nodes),
        out@.sound(),
        rebuilt(old(ws).tree@.nodes, final(ws).tree@.nodes, b1, out@),
        above(b1, out@, old(ws).tree@.root_id),
        (out@, final(ws).tree@.max_id as int) == rebodied(
            b1,
            b2,
            old(ws).tree@.nodes.dom(),
            old(ws).tree@.max_id as int,
        ),
        keeps_body(b1, b2, out@),
        b1.shape() == b2.shape() ==> final(ws).tree@ == old(ws).tree@ && out@ == b1,
{
    let ghost start = ws.tree@;
    let start_id1 = ws.tree.children(body_id1)[0];
    let start_id2 = source.children(body_id2)[0];
    proof {
        assert(b1.kid_ids()[0] == b1.kids[0].id);
        assert(b2.kid_ids()[0] == b2.kids[0].id);
        assert(b1.kids[0].conforms());
        assert(b2.kids[0].conforms());
        assert(b1.kids[0].sound());
        lemma_shape_eq(b1, b2);
        lemma_size_small(b2);
        lemma_partial_start(start.nodes, b1);
    }
    let (start_id, Ghost(cell)) = compare_items(
        ws,
        start_id1,
        start_id2,
        source,
        Ghost(b1.kids[0]),
        Ghost(b2.kids[0]),
    );
    let ghost middle = ws.tree@;
    let ghost made = Term {
        kind: RelationKind::Compound,
        id: body_id1,
        name: Seq::empty(),
        kids: seq![cell],
    };
    proof {
        lemma_partial_replace(start.nodes, start.nodes, middle.nodes, b1, Seq::empty(), 0, cell);
        assert(Seq::<Term>::empty().push(cell) =~= made.kids);
        assert(made.kid_ids() =~= seq![start_id]);
        assert(b1.kid_ids() =~= seq![start_id1]);
        lemma_shape_eq(made, b2);
    }
    if start_id != start_id1 {
        let replacement = AstRelation::Compound { id: body_id1, start_id };
        ws.put(body_id1, replacement, one(start_id));
        proof {
            assert(middle.nodes.dom().contains(body_id1));
        }
    }
    proof {
        lemma_partial_finish(start.nodes, middle.nodes, ws.tree@.nodes, b1, made);
        if b1.shape() == b2.shape() {
            assert(b1.kids =~= made.kids);
        }
        assert forall|x: ID| #[trigger] made.has(x) implies b1.has(x) || x > start.root_id by {
            if x != made.id {
                let j = choose|j: int| 0 <= j < made.kids.len() && (#[trigger] made.kids[j]).has(x);
                assert(cell.has(x));
                if b1.kids[0].has(x) {
                }
            }
        }
    }
    Ghost(made)
}

/// The return type and the parameters of the function `gone` when those
/// before place `p` have been held against those of the function `wanted`,
/// and the largest identity in use then. The return type stands at place
/// `0`. A parameter at a place that both functions have is held against
/// the parameter there; one at a place that `wanted` has not is deleted.
pub open spec fn refit_args(gone: Term, wanted: Term, keys: Set<ID>, top: int, p: int) -> (
    Seq<Term>,
    int,
)
    decreases p,
{
    if p <= 1 {
        (seq![retyped(gone.kids[0], wanted.kids[0])], top)
    } else {
        let (done, after) = refit_args(gone, wanted, keys, top, p - 1);
        if p - 1 < wanted.kids.len() - 1 {
            (done.push(reargued(gone.kids[p - 1], wanted.kids[p - 1])), after)
        } else {
            (done, top_key(partial_keys(keys, gone, done, p)) as int)
        }
    }
}

/// The return type and the parameters when, after `refit_args`, copies of
/// the parameters of `wanted` before place `q` that `gone` has no place for
/// have been put behind them, each numbered upward from the largest
/// identity in use when it is made.
pub open spec fn refit_more(gone: Term, wanted: Term, keys: Set<ID>, top: int, q: int) -> (
    Seq<Term>,
    int,
)
    decreases q,
{
    if q <= gone.kids.len() - 1 || q <= 1 {
        refit_args(gone, wanted, keys, top, gone.kids.len() - 1)
    } else {
        let (done, after) = refit_more(gone, wanted, keys, top, q - 1);
        (done.push(wanted.kids[q - 1].renumbered(after)), after + wanted.kids[q - 1].size())
    }
}

/// The function that comes of the function `gone` when it is brought into
/// the shape of the function `wanted` of the same name, and the largest
/// identity in use after that: first the return type, then the parameters
/// by position, then the body. Before, the tree holds the identities
/// `keys`, the largest of them `top`.
pub open spec fn refitted(gone: Term, wanted: Term, keys: Set<ID>, top: int) -> (Term, int) {
    let (done, middle) = refit_more(gone, wanted, keys, top, wanted.kids.len() - 1);
    let (body, after) = rebodied(
        gone.kids.last(),
        wanted.kids.last(),
        partial_keys(keys, gone, done, gone.kids.len() - 1),
        middle,
    );
    (Term { kind: RelationKind::FunDef, id: gone.id, name: gone.name, kids: done.push(body) }, after)
}

/// Brings the function under `fun_id1` into the shape of the one of the same
/// name under `fun_id2` of `source`: the return type, the parameters by
/// position, then the body. The function keeps its identity; its relation is
/// replaced where the list of its parameters grew or shrank.
#[verifier::spinoff_prover]
#[verifier::rlimit(30)]
fn reconcile_function(
    ws: &mut Workspace,
    fun_id1: ID,
    fun_id2: ID,
    source: &Tree,
    Ghost(f1): Ghost<Term>,
    Ghost(f2): Ghost<Term>,
) -> (out: Ghost<Term>)
    requires
        old(ws).inv(),
        f1.embeds(old(ws).tree@.nodes),
        f1.sound(),
        f1.conforms(),
        f1.kind == RelationKind::FunDef,
        f1.id == fun_id1,
        f2.embeds(source@.nodes),
        f2.conforms(),
        f2.kind == RelationKind::FunDef,
        f2.id == fun_id2,
        f1.name == f2.name,
        old(ws).tree@.max_id + f2.size() <= i32::MAX,
        old(ws).tree@.nodes.contains_key(old(ws).tree@.root_id),
        !f1.has(old(ws).tree@.root_id),
    ensures
        final(ws).inv(),
        final(ws).base == old(ws).base,
        final(ws).tree@.root_id == old(ws).tree@.root_id,
        final(ws).tree@.max_id <= old(ws).tree@.max_id + f2.size(),
        out@.id == fun_id1,
        out@.shape() == f2.shape(),
        out@.embeds(final(ws).tree@.nodes),
        out@.sound(),
        rebuilt(old(ws).tree@.nodes, final(ws).tree@.nodes, f1, out@),
        above(f1, out@, old(ws).tree@.root_id),
        (out@, final(ws).tree@.max_id as int) == refitted(
            f1,
            f2,
            old(ws).tree@.nodes.dom(),
            old(ws).tree@.max_id as int,
        ),
        keeps_inside(f1, f2, out@),
        f1.shape() == f2.shape() ==> final(ws).tree@ == old(ws).tree@ && out@ == f1,
{
    let ghost start = ws.tree@;
    let kids1 = copy_ids(ws.tree.children(fun_id1));
    let kids2 = copy_ids(source.children(fun_id2));
    let last1 = kids1.len() - 1;
    let last2 = kids2.len() - 1;
    let mut remaining: Vec<ID> = Vec::new();
    let ghost mut done: Seq<Term> = Seq::empty();
    proof {
        assert(kids1@ == f1.kid_ids());
        assert(kids2@ == f2.kid_ids());
        lemma_shape_eq(f1, f2);
        lemma_partial_start(start.nodes, f1);
        assert(f1.kids[0].conforms());
        assert(f2.kids[0].conforms());
        assert(kids1@[0] == f1.kids[0].id);
        assert(kids2@[0] == f2.kids[0].id);
        lemma_sizes_prefix(f2.kids, 0);
    }
    // The return type.
    let Ghost(ret) = reconcile_type(
        ws,
        kids1[0],
        kids2[0],
        source,
        Ghost(f1.kids[0]),
        Ghost(f2.kids[0]),
    );
    remaining.push(kids1[0]);
    proof {
        lemma_partial_replace(start.nodes, start.nodes, ws.tree@.nodes, f1, done, 0, ret);
        done = done.push(ret);
    }
    // The parameters that the function had, by position.
    let mut p: usize = 1;
    while p < last1
        invariant
            ws.inv(),
            ws.base == old(ws).base,
            ws.tree@.root_id == start.root_id,
            ws.tree@.max_id <= start.max_id,
            start == old(ws).tree@,
            f1.embeds(start.nodes),
            f1.sound(),
            f1.conforms(),
            f1.kind == RelationKind::FunDef,
            f2.embeds(source@.nodes),
            f2.conforms(),
            f2.kind == RelationKind::FunDef,
            kids1@ == f1.kid_ids(),
            kids2@ == f2.kid_ids(),
            last1 == kids1.len() - 1,
            last2 == kids2.len() - 1,
            1 <= p <= last1,
            partial(start.nodes, ws.tree@.nodes, f1, done, p as int),
            (done, ws.tree@.max_id as int) == refit_args(
                f1,
                f2,
                start.nodes.dom(),
                start.max_id as int,
                p as int,
            ),
            forall|j: int, x: ID|
                0 <= j < done.len() && (#[trigger] done[j].has(x)) ==> f1.has(x) || x
                    > start.root_id,
            start.nodes.contains_key(start.root_id),
            !f1.has(start.root_id),
            done.len() == if p <= last2 {
                p
            } else {
                last2
            },
            remaining@.len() == done.len(),
            forall|j: int|
                0 <= j < done.len() ==> remaining@[j] == (#[trigger] done[j]).id && done[j].id
                    == f1.kids[j].id && done[j].shape() == f2.kids[j].shape(),
            forall|j: int| 0 < j < done.len() ==> keeps_arg(f1.kids[j], #[trigger] done[j]),
            f1.shape() == f2.shape() ==> ws.tree@ == start && done == f1.kids.subrange(
                0,
                p as int,
            ),
        decreases last1 - p,
    {
        let ghost before = ws.tree@;
        proof {
            assert(kids1@[p as int] == f1.kids[p as int].id);
            assert(f1.kids[p as int].conforms());
            assert(f1.kids[p as int].sound());
            lemma_shape_eq(f1, f2);
        }
        if p < last2 {
            proof {
                assert(kids2@[p as int] == f2.kids[p as int].id);
                assert(f2.kids[p as int].conforms());
            }
            let Ghost(arg) = reconcile_arg(
                ws,
                kids1[p],
                kids2[p],
                source,
                Ghost(f1.kids[p as int]),
                Ghost(f2.kids[p as int]),
            );
            remaining.push(kids1[p]);
            proof {
                lemma_partial_replace(
                    start.nodes,
                    before.nodes,
                    ws.tree@.nodes,
                    f1,
                    done,
                    p as int,
                    arg,
                );
                if f1.shape() == f2.shape() {
                    assert(done.push(arg) =~= f1.kids.subrange(0, p + 1));
                }
                assert forall|j: int| 0 < j < done.len() + 1 implies keeps_arg(
                    f1.kids[j],
                    #[trigger] done.push(arg)[j],
                ) by {
                    if j < done.len() {
                        assert(done.push(arg)[j] == done[j]);
                    }
                }
                assert forall|j: int, x: ID|
                    0 <= j < done.len() + 1 && (#[trigger] done.push(arg)[j].has(
                        x,
                    )) implies f1.has(x) || x > start.root_id by {
                    if j < done.len() {
                        assert(done.push(arg)[j] == done[j]);
                    } else {
                        assert(f1.kids[p as int].has(x));
                    }
                }
                done = done.push(arg);
            }
        } else {
            delete_term(ws, kids1[p], Ghost(f1.kids[p as int]));
            proof {
                lemma_partial_delete(start.nodes, before.nodes, ws.tree@.nodes, f1, done, p as int);
                lemma_partial_keys(start.nodes, ws.tree@.nodes, f1, done, p + 1);
                lemma_top_key(ws.tree@);
            }
        }
        p += 1;
    }
    // The parameters that are new.
    let mut q: usize = last1;
    proof {
        if q <= last2 {
            lemma_sizes_prefix(f2.kids, q as int);
        }
    }
    while q < last2
        invariant
            ws.inv(),
            ws.base == old(ws).base,
            ws.tree@.root_id == start.root_id,
            start == old(ws).tree@,
            start.max_id + f2.size() <= i32::MAX,
            f1.embeds(start.nodes),
            f1.sound(),
            f2.embeds(source@.nodes),
            kids2@ == f2.kid_ids(),
            last1 == f1.kids.len() - 1,
            last2 == kids2.len() - 1,
            1 <= last1 <= q,
            q <= last2 || last2 < last1,
            q > last1 ==> q <= last2,
            partial(start.nodes, ws.tree@.nodes, f1, done, last1 as int),
            last1 == kids1.len() - 1,
            kids1@ == f1.kid_ids(),
            (done, ws.tree@.max_id as int) == refit_more(
                f1,
                f2,
                start.nodes.dom(),
                start.max_id as int,
                q as int,
            ),
            forall|j: int, x: ID|
                0 <= j < done.len() && (#[trigger] done[j].has(x)) ==> f1.has(x) || x
                    > start.root_id,
            start.nodes.contains_key(start.root_id),
            !f1.has(start.root_id),
            done.len() == if q <= last2 {
                q
            } else {
                last2
            },
            remaining@.len() == done.len(),
            ws.tree@.max_id <= start.max_id + if q <= last2 {
                sizes(f2.kids.subrange(0, q as int))
            } else {
                0
            },
            forall|j: int|
                0 <= j < done.len() ==> remaining@[j] == (#[trigger] done[j]).id && done[j].shape()
                    == f2.kids[j].shape(),
            forall|j: int|
                0 <= j < done.len() && j < last1 ==> (#[trigger] done[j]).id == f1.kids[j].id,
            forall|j: int|
                0 < j < done.len() && j < last1 ==> keeps_arg(f1.kids[j], #[trigger] done[j]),
            f1.shape() == f2.shape() ==> ws.tree@ == start && done == f1.kids.subrange(
                0,
                last1 as int,
            ),
        decreases last2 - q,
    {
        let ghost before = ws.tree@;
        proof {
            assert(kids2@[q as int] == f2.kids[q as int].id);
            lemma_sizes_prefix(f2.kids, q as int);
            lemma_shape_eq(f1, f2);
        }
        let (arg_id, Ghost(arg)) = insert_term(ws, kids2[q], source, Ghost(f2.kids[q as int]));
        remaining.push(arg_id);
        proof {
            assert forall|x: ID| #[trigger] arg.has(x) implies !before.nodes.contains_key(x) by {
                if before.nodes.contains_key(x) {
                    assert(before.nodes.dom().contains(x));
                }
            }
            lemma_partial_insert(
                start.nodes,
                before.nodes,
                ws.tree@.nodes,
                f1,
                done,
                last1 as int,
                arg,
            );
            assert(f2.kids.subrange(0, q + 1) =~= f2.kids.subrange(0, q as int).push(
                f2.kids[q as int],
            ));
            crate::term::lemma_sizes_push(f2.kids.subrange(0, q as int), f2.kids[q as int]);
            assert forall|j: int| 0 < j < done.len() + 1 && j < last1 implies keeps_arg(
                f1.kids[j],
                #[trigger] done.push(arg)[j],
            ) by {
                assert(done.push(arg)[j] == done[j]);
            }
            assert(before.nodes.contains_key(start.root_id));
            assert(before.nodes.dom().contains(start.root_id));
            assert forall|j: int, x: ID|
                0 <= j < done.len() + 1 && (#[trigger] done.push(arg)[j].has(x)) implies f1.has(x)
                || x > start.root_id by {
                if j < done.len() {
                    assert(done.push(arg)[j] == done[j]);
                } else {
                    assert(arg.within(before.max_id as int, ws.tree@.max_id as int));
                }
            }
            done = done.push(arg);
        }
        q += 1;
    }
    // The body.
    let ghost before = ws.tree@;
    proof {
        assert(done.len() == last2);
        assert(kids1@[last1 as int] == f1.kids[last1 as int].id);
        assert(kids2@[last2 as int] == f2.kids[last2 as int].id);
        assert(f1.kids[last1 as int].conforms());
        assert(f1.kids[last1 as int].sound());
        assert(f2.kids[last2 as int].conforms());
        lemma_sizes_prefix(f2.kids, last2 as int);
        if last2 < last1 {
            lemma_sizes_prefix(f2.kids, 0);
        }
        lemma_shape_eq(f1, f2);
        assert(before.nodes.contains_key(start.root_id));
        assert(!f1.kids[last1 as int].has(start.root_id));
        lemma_partial_keys(start.nodes, before.nodes, f1, done, last1 as int);
        assert((done, before.max_id as int) == refit_more(
            f1,
            f2,
            start.nodes.dom(),
            start.max_id as int,
            last2 as int,
        ));
        assert(f1.kids.last() == f1.kids[last1 as int]);
        assert(f2.kids.last() == f2.kids[last2 as int]);
    }
    let Ghost(body) = reconcile_body(
        ws,
        kids1[last1],
        kids2[last2],
        source,
        Ghost(f1.kids[last1 as int]),
        Ghost(f2.kids[last2 as int]),
    );
    remaining.push(kids1[last1]);
    let ghost middle = ws.tree@;
    let ghost made = Term { kind: RelationKind::FunDef, id: fun_id1, name: f1.name, kids: done.push(body) };
    proof {
        lemma_partial_replace(
            start.nodes,
            before.nodes,
            middle.nodes,
            f1,
            done,
            last1 as int,
            body,
        );
        assert(made.kid_ids() =~= remaining@);
        lemma_shape_eq(made, f2);
    }
    if last1 != last2 {
        let replacement = ws.tree.relation(fun_id1).with_ids(fun_id1, &remaining);
        ws.put(fun_id1, replacement, remaining);
        proof {
            assert(middle.nodes.dom().contains(fun_id1));
        }
    } else {
        proof {
            assert(made.kid_ids() =~= f1.kid_ids());
        }
    }
    proof {
        lemma_partial_finish(start.nodes, middle.nodes, ws.tree@.nodes, f1, made);
        if f1.shape() == f2.shape() {
            assert(made.kids =~= f1.kids);
        }
        assert(keeps_inside(f1, f2, made)) by {
            assert(made.kids[0] == done[0]);
            assert(made.kids.last() == body);
            assert forall|k: int|
                0 < k < f1.kids.len() - 1 && k < f2.kids.len() - 1 implies keeps_arg(
                f1.kids[k],
                #[trigger] made.kids[k],
            ) by {
                assert(made.kids[k] == done[k]);
            }
        }
        assert forall|x: ID| #[trigger] made.has(x) implies f1.has(x) || x > start.root_id by {
            if x != made.id {
                let j = choose|j: int| 0 <= j < made.kids.len() && (#[trigger] made.kids[j]).has(x);
                if j < done.len() {
                    assert(made.kids[j] == done[j]);
                    assert(done[j].has(x));
                } else {
                    assert(made.kids[j] == body);
                    if f1.kids[last1 as int].has(x) {
                    }
                }
            }
        }
    }
    Ghost(made)
}

/// The nodes in those of the functions that no function of the maintained
/// tree was held against yet.
pub open spec fn unmatched_size(functions: Seq<Term>, matched: Seq<bool>) -> nat
    decreases functions.len(),
{
    if functions.len() == 0 || matched.len() != functions.len() {
        0
    } else {
        unmatched_size(functions.drop_last(), matched.drop_last()) + if matched.last() {
            0
        } else {
            functions.last().size()
        }
    }
}

/// Where no function is marked, all nodes are still to come.
proof fn lemma_unmatched_all(functions: Seq<Term>, matched: Seq<bool>)
    requires
        matched.len() == functions.len(),
        forall|j: int| 0 <= j < matched.len() ==> !matched[j],
    ensures
        unmatched_size(functions, matched) == sizes(functions),
    decreases functions.len(),
{
    if functions.len() > 0 {
        lemma_unmatched_all(functions.drop_last(), matched.drop_last());
    }
}

/// Marking a function takes its nodes out of what is still to come.
proof fn lemma_unmatched_mark(functions: Seq<Term>, matched: Seq<bool>, j: int)
    requires
        matched.len() == functions.len(),
        0 <= j < matched.len(),
        !matched[j],
    ensures
        unmatched_size(functions, matched.update(j, true)) + functions[j].size() == unmatched_size(
            functions,
            matched,
        ),
    decreases functions.len(),
{
    let marked = matched.update(j, true);
    if j == functions.len() - 1 {
        assert(marked.drop_last() =~= matched.drop_last());
    } else {
        assert(marked.drop_last() =~= matched.drop_last().update(j, true));
        lemma_unmatched_mark(functions.drop_last(), matched.drop_last(), j);
    }
}

/// Place `j` among `news` is the first of the given name that is free.
pub open spec fn first_free(news: Seq<Term>, name: Seq<char>, busy: Set<int>, j: int) -> bool {
    &&& 0 <= j < news.len()
    &&& news[j].name == name
    &&& !busy.contains(j)
    &&& forall|k: int| 0 <= k < j ==> (#[trigger] news[k]).name != name || busy.contains(k)
}

/// The first place among `news` of the given name that is free, if any.
pub open spec fn pick(news: Seq<Term>, name: Seq<char>, busy: Set<int>) -> Option<int> {
    if exists|j: int| first_free(news, name, busy, j) {
        Some(choose|j: int| first_free(news, name, busy, j))
    } else {
        None
    }
}

/// The places that a list of partners holds.
pub open spec fn places(partners: Seq<Option<int>>) -> Set<int> {
    Set::new(|j: int| partners.contains(Some(j)))
}

/// The partners of the functions of `olds` before place `i`, in order.
pub open spec fn partners(olds: Seq<Term>, news: Seq<Term>, i: int) -> Seq<Option<int>>
    decreases i,
{
    if i <= 0 || i > olds.len() {
        Seq::empty()
    } else {
        let before = partners(olds, news, i - 1);
        before.push(pick(news, olds[i - 1].name, places(before)))
    }
}

/// The places among `news` that the functions of `olds` before place `i`
/// have taken.
pub open spec fn taken(olds: Seq<Term>, news: Seq<Term>, i: int) -> Set<int> {
    places(partners(olds, news, i))
}

/// The function among `news` that the function at place `i` of `olds` is
/// held against: the first of its name that no function before it has
/// taken. Functions are matched by name, not by place.
pub open spec fn partner(olds: Seq<Term>, news: Seq<Term>, i: int) -> Option<int> {
    if 0 <= i < olds.len() {
        pick(news, olds[i].name, taken(olds, news, i))
    } else {
        None
    }
}

/// The places before `i` of the functions of `olds` that have a partner, in
/// order.
pub open spec fn kept(olds: Seq<Term>, news: Seq<Term>, i: int) -> Seq<int>
    decreases i,
{
    if i <= 0 {
        Seq::empty()
    } else if partner(olds, news, i - 1) is Some {
        kept(olds, news, i - 1).push(i - 1)
    } else {
        kept(olds, news, i - 1)
    }
}

/// The places before `j` of the functions of `news` that no function of
/// `olds` has taken, in order.
pub open spec fn added(olds: Seq<Term>, news: Seq<Term>, j: int) -> Seq<int>
    decreases j,
{
    if j <= 0 {
        Seq::empty()
    } else if taken(olds, news, olds.len() as int).contains(j - 1) {
        added(olds, news, j - 1)
    } else {
        added(olds, news, j - 1).push(j - 1)
    }
}

/// The identity above which the copy at place `k` among the copies is
/// numbered: `base` for the first, the top of the copy before it for every
/// other. The copies stand in `ours` from place `n` on.
pub open spec fn copy_base(ours: Seq<Term>, n: int, k: int, base: int) -> int {
    if k <= 0 {
        base
    } else {
        ours[n + k - 1].id as int
    }
}

/// How the copies of the new functions before place `j` that no function had
/// taken are numbered: each from its leaves up to its top, the first above
/// `base`, every other above the copy before it.
pub open spec fn copies_numbered(
    olds: Seq<Term>,
    news: Seq<Term>,
    ours: Seq<Term>,
    j: int,
    base: int,
) -> bool {
    let stay = kept(olds, news, olds.len() as int);
    let come = added(olds, news, j);
    &&& ours.len() == stay.len() + come.len()
    &&& forall|k: int|
        0 <= k < come.len() ==> 0 <= #[trigger] come[k] < news.len() && ours[stay.len() + k]
            == news[come[k]].renumbered(copy_base(ours, stay.len() as int, k, base))
            && ours[stay.len() + k].id == copy_base(ours, stay.len() as int, k, base)
            + news[come[k]].size()
}

/// The largest identity in use after the copies that stand in `ours` from
/// place `n` on: the top of the last copy, or `base` where there is none.
pub open spec fn copies_top(ours: Seq<Term>, n: int, base: int) -> int {
    if ours.len() <= n {
        base
    } else {
        ours.last().id as int
    }
}

/// The identities of the root and of the first `n` of the functions `ours`.
pub open spec fn kept_keys(root: ID, ours: Seq<Term>, n: int) -> Set<ID> {
    Set::new(|x: ID| x == root || among(ours.subrange(0, n), x))
}

/// Which identities the copies of new functions get. When the functions
/// that stay are done and those without a partner are gone, the largest
/// identity in use is that of the root or one in a function that stays (or
/// `0` above identities that are all negative). The copies are numbered
/// upward from there, one after the other, and the top of the last one is
/// the new `max_id`.
pub open spec fn numbered_upward(
    olds: Seq<Term>,
    news: Seq<Term>,
    ours: Seq<Term>,
    root: ID,
    top: ID,
) -> bool {
    let n = kept(olds, news, olds.len() as int).len() as int;
    exists|base: ID| #[trigger]
        is_max_key(kept_keys(root, ours, n), base)
            && copies_numbered(olds, news, ours, news.len() as int, base as int) && top
            == copies_top(ours, n, base as int)
}

/// The copies before place `j` are numbered upward from `base`, and `top` is
/// the largest identity in use after them.
#[verifier::opaque]
pub open spec fn rising(
    olds: Seq<Term>,
    news: Seq<Term>,
    done: Seq<Term>,
    j: int,
    base: int,
    top: int,
) -> bool {
    &&& copies_numbered(olds, news, done, j, base)
    &&& top == copies_top(done, kept(olds, news, olds.len() as int).len() as int, base)
}

/// Before any copy is made, nothing is numbered.
proof fn lemma_rising_start(olds: Seq<Term>, news: Seq<Term>, done: Seq<Term>, base: int)
    requires
        done.len() == kept(olds, news, olds.len() as int).len(),
    ensures
        rising(olds, news, done, 0, base, base),
{
    reveal(rising);
    assert(added(olds, news, 0) =~= Seq::<int>::empty());
}

/// The new function at place `j` was free, and its copy is numbered above
/// what was the largest identity in use.
proof fn lemma_rising_push(
    olds: Seq<Term>,
    news: Seq<Term>,
    done: Seq<Term>,
    j: int,
    base: int,
    top: int,
    made: Term,
)
    requires
        rising(olds, news, done, j, base, top),
        0 <= j < news.len(),
        !taken(olds, news, olds.len() as int).contains(j),
        made == news[j].renumbered(top),
        made.id == top + news[j].size(),
    ensures
        rising(olds, news, done.push(made), j + 1, base, made.id as int),
{
    reveal(rising);
    let stay = kept(olds, news, olds.len() as int);
    let n = stay.len() as int;
    let before = added(olds, news, j);
    let come = added(olds, news, j + 1);
    let more = done.push(made);
    assert(come == before.push(j));
    assert forall|k: int| 0 <= k < come.len() implies 0 <= #[trigger] come[k] < news.len()
        && more[n + k] == news[come[k]].renumbered(copy_base(more, n, k, base)) && more[n + k].id
        == copy_base(more, n, k, base) + news[come[k]].size() by {
        if k < before.len() {
            assert(come[k] == before[k]);
            assert(more[n + k] == done[n + k]);
            assert(copy_base(more, n, k, base) == copy_base(done, n, k, base)) by {
                if k > 0 {
                    assert(more[n + k - 1] == done[n + k - 1]);
                }
            }
        } else {
            assert(more[n + k] == made);
            assert(copy_base(more, n, k, base) == top) by {
                if k > 0 {
                    assert(more[n + k - 1] == done.last());
                }
            }
        }
    }
    assert(more.last() == made);
}

/// The new function at place `j` was taken: no copy is made.
proof fn lemma_rising_skip(
    olds: Seq<Term>,
    news: Seq<Term>,
    done: Seq<Term>,
    j: int,
    base: int,
    top: int,
)
    requires
        rising(olds, news, done, j, base, top),
        0 <= j,
        taken(olds, news, olds.len() as int).contains(j),
    ensures
        rising(olds, news, done, j + 1, base, top),
{
    reveal(rising);
    assert(added(olds, news, j + 1) == added(olds, news, j));
}

/// Which functions keep their identity. The functions of the maintained
/// program that have a partner stand first in the rebuilt program, in their
/// order, each under its identity and in the shape of its partner; where it
/// had that shape already, nothing in it has changed, and else what
/// `keeps_inside` names has kept its identity. After them stand copies of
/// the new functions that no function has taken, in their order.
pub open spec fn keeps_functions(olds: Seq<Term>, news: Seq<Term>, ours: Seq<Term>) -> bool {
    let stay = kept(olds, news, olds.len() as int);
    let come = added(olds, news, news.len() as int);
    &&& ours.len() == stay.len() + come.len()
    &&& forall|k: int|
        0 <= k < stay.len() ==> 0 <= #[trigger] stay[k] < olds.len() && partner(
            olds,
            news,
            stay[k],
        ) is Some && ours[k].id == olds[stay[k]].id && ours[k].shape() == news[partner(
            olds,
            news,
            stay[k],
        ).unwrap()].shape() && (olds[stay[k]].shape() == ours[k].shape() ==> ours[k]
            == olds[stay[k]]) && keeps_inside(
            olds[stay[k]],
            news[partner(olds, news, stay[k]).unwrap()],
            ours[k],
        )
    &&& forall|k: int|
        0 <= k < come.len() ==> 0 <= #[trigger] come[k] < news.len() && ours[stay.len() + k].shape()
            == news[come[k]].shape()
}

/// The places that are taken after one more function found its partner.
pub proof fn lemma_taken_step(olds: Seq<Term>, news: Seq<Term>, i: int)
    requires
        0 <= i < olds.len(),
    ensures
        taken(olds, news, i + 1) == match partner(olds, news, i) {
            Some(j) => taken(olds, news, i).insert(j),
            None => taken(olds, news, i),
        },
{
    let before = partners(olds, news, i);
    let found = partner(olds, news, i);
    let after = partners(olds, news, i + 1);
    assert(after == before.push(found));
    match found {
        Some(j) => {
            assert(places(after) =~= places(before).insert(j)) by {
                assert forall|x: int| places(after).contains(x) implies places(before).insert(
                    j,
                ).contains(x) by {
                    let k = choose|k: int| 0 <= k < after.len() && after[k] == Some(x);
                    if k < before.len() {
                        assert(before[k] == Some(x));
                    }
                }
                assert forall|x: int| places(before).insert(j).contains(x) implies places(
                    after,
                ).contains(x) by {
                    if x == j {
                        assert(after[before.len() as int] == Some(x));
                    } else {
                        let k = choose|k: int| 0 <= k < before.len() && before[k] == Some(x);
                        assert(after[k] == Some(x));
                    }
                }
            }
        },
        None => {
            assert(places(after) =~= places(before)) by {
                assert forall|x: int| places(after).contains(x) implies places(before).contains(
                    x,
                ) by {
                    let k = choose|k: int| 0 <= k < after.len() && after[k] == Some(x);
                    assert(before[k] == Some(x));
                }
                assert forall|x: int| places(before).contains(x) implies places(after).contains(
                    x,
                ) by {
                    let k = choose|k: int| 0 <= k < before.len() && before[k] == Some(x);
                    assert(after[k] == Some(x));
                }
            }
        },
    }
}

/// The partner of a function is the first new function of its name that is
/// free; it has none only where no new function of its name is free.
pub proof fn lemma_partner(olds: Seq<Term>, news: Seq<Term>, i: int)
    requires
        0 <= i < olds.len(),
    ensures
        match partner(olds, news, i) {
            Some(j) => first_free(news, olds[i].name, taken(olds, news, i), j),
            None => forall|j: int|
                0 <= j < news.len() ==> (#[trigger] news[j]).name != olds[i].name || taken(
                    olds,
                    news,
                    i,
                ).contains(j),
        },
{
    let busy = taken(olds, news, i);
    if partner(olds, news, i) is None {
        assert forall|j: int| 0 <= j < news.len() implies (#[trigger] news[j]).name != olds[i].name
            || busy.contains(j) by {
            if news[j].name == olds[i].name && !busy.contains(j) {
                lemma_first_free_exists(news, olds[i].name, busy, j);
            }
        }
    }
}

/// Where a place of the name is free, a first such place is.
proof fn lemma_first_free_exists(news: Seq<Term>, name: Seq<char>, busy: Set<int>, j: int)
    requires
        0 <= j < news.len(),
        news[j].name == name,
        !busy.contains(j),
    ensures
        exists|k: int| first_free(news, name, busy, k),
    decreases j,
{
    if exists|k: int| 0 <= k < j && (#[trigger] news[k]).name == name && !busy.contains(k) {
        let k = choose|k: int| 0 <= k < j && (#[trigger] news[k]).name == name && !busy.contains(k);
        lemma_first_free_exists(news, name, busy, k);
    } else {
        assert(first_free(news, name, busy, j));
    }
}

/// How the functions of one program are paired with those of another:
/// `pairing[k]` is the place in `theirs` of the function that stands at `k` in
/// `ours`, no place is taken twice, and the two of a pair have one shape.
pub open spec fn pairs_up(ours: Seq<Term>, theirs: Seq<Term>, pairing: Seq<int>) -> bool {
    &&& pairing.len() == ours.len()
    &&& ours.len() == theirs.len()
    &&& pairing.no_duplicates()
    &&& forall|k: int|
        0 <= k < pairing.len() ==> 0 <= #[trigger] pairing[k] < theirs.len() && ours[k].shape()
            == theirs[pairing[k]].shape()
    &&& forall|j: int| 0 <= j < theirs.len() ==> pairing.contains(j)
}

/// The two programs hold the same functions, each as often as the other,
/// whatever the order.
pub open spec fn same_program(ours: Term, theirs: Term) -> bool {
    &&& ours.kind == theirs.kind
    &&& ours.name == theirs.name
    &&& exists|pairing: Seq<int>| pairs_up(ours.kids, theirs.kids, pairing)
}

/// A list of places that holds each place before `m` once has length `m`.
proof fn lemma_pairing_len(pairing: Seq<int>, m: int)
    requires
        0 <= m,
        pairing.no_duplicates(),
        forall|k: int| 0 <= k < pairing.len() ==> 0 <= #[trigger] pairing[k] < m,
        forall|j: int| 0 <= j < m ==> pairing.contains(j),
    ensures
        pairing.len() == m,
{
    pairing.unique_seq_to_set();
    assert(pairing.to_set() =~= vstd::set_lib::set_int_range(0, m)) by {
        assert forall|j: int| pairing.to_set().contains(j) implies vstd::set_lib::set_int_range(
            0,
            m,
        ).contains(j) by {
            let k = choose|k: int| 0 <= k < pairing.len() && pairing[k] == j;
            assert(0 <= pairing[k] < m);
        }
    }
    vstd::set_lib::lemma_int_range(0, m);
}

/// What the search for a function of a name found is the partner.
proof fn lemma_found_partner(
    old_root: Term,
    new_root: Term,
    old_nodes: Map<ID, NodeView>,
    new_nodes: Map<ID, NodeView>,
    candidates: Seq<ID>,
    matched: Seq<bool>,
    p: int,
    found: Option<int>,
)
    requires
        old_root.embeds(old_nodes),
        new_root.embeds(new_nodes),
        candidates == new_root.kid_ids(),
        0 <= p < old_root.kids.len(),
        matched.len() == new_root.kids.len(),
        forall|j: int|
            0 <= j < matched.len() ==> matched[j] == taken(
                old_root.kids,
                new_root.kids,
                p,
            ).contains(j),
        match found {
            Some(j) => 0 <= j < candidates.len() && !matched[j]
                && old_nodes[old_root.kids[p].id].relation.name
                == new_nodes[candidates[j]].relation.name,
            None => true,
        },
        forall|k: int|
            0 <= k < (match found {
                Some(j) => j,
                None => candidates.len() as int,
            }) ==> matched[k] || new_nodes[#[trigger] candidates[k]].relation.kind
                != old_nodes[old_root.kids[p].id].relation.kind
                || new_nodes[candidates[k]].relation.name
                != old_nodes[old_root.kids[p].id].relation.name,
        forall|k: int|
            0 <= k < new_root.kids.len() ==> (#[trigger] new_root.kids[k]).kind
                == RelationKind::FunDef,
        old_root.kids[p].kind == RelationKind::FunDef,
    ensures
        partner(old_root.kids, new_root.kids, p) == found,
        taken(old_root.kids, new_root.kids, p + 1) == match found {
            Some(j) => taken(old_root.kids, new_root.kids, p).insert(j),
            None => taken(old_root.kids, new_root.kids, p),
        },
        kept(old_root.kids, new_root.kids, p + 1) == match found {
            Some(j) => kept(old_root.kids, new_root.kids, p).push(p),
            None => kept(old_root.kids, new_root.kids, p),
        },
{
    let olds = old_root.kids;
    let news = new_root.kids;
    let busy = taken(olds, news, p);
    let name = olds[p].name;
    lemma_taken_step(olds, news, p);
    assert(taken(olds, news, 0) =~= Set::<int>::empty());
    assert(olds[p].embeds(old_nodes));
    assert(old_nodes[olds[p].id].relation.name == name);
    assert forall|k: int| 0 <= k < news.len() implies new_nodes[candidates[k]].relation.name
        == (#[trigger] news[k]).name && new_nodes[candidates[k]].relation.kind
        == RelationKind::FunDef by {
        assert(new_root.kid_ids()[k] == news[k].id);
        assert(news[k].embeds(new_nodes));
    }
    match found {
        Some(j) => {
            assert(first_free(news, name, busy, j)) by {
                assert forall|k: int| 0 <= k < j implies (#[trigger] news[k]).name != name
                    || busy.contains(k) by {
                    assert(matched[k] || new_nodes[candidates[k]].relation.kind
                        != old_nodes[old_root.kids[p].id].relation.kind
                        || new_nodes[candidates[k]].relation.name
                        != old_nodes[old_root.kids[p].id].relation.name);
                }
            }
            let c = choose|c: int| first_free(news, name, busy, c);
            if c < j {
                assert(news[c].name != name || busy.contains(c));
            } else if j < c {
                assert(news[j].name != name || busy.contains(j));
            }
        },
        None => {
            assert forall|c: int| !first_free(news, name, busy, c) by {
                if first_free(news, name, busy, c) {
                    assert(matched[c] || new_nodes[candidates[c]].relation.kind
                        != old_nodes[old_root.kids[p].id].relation.kind
                        || new_nodes[candidates[c]].relation.name
                        != old_nodes[old_root.kids[p].id].relation.name);
                }
            }
        },
    }
}

/// The first function of `source` that is not taken yet and has the name of
/// `relation`.
fn find_function(relation: &AstRelation, source: &Tree, candidates: &Vec<ID>, matched: &Vec<
    bool,
>) -> (found: Option<usize>)
    requires
        matched.len() == candidates.len(),
        forall|j: int|
            0 <= j < candidates.len() ==> source@.nodes.contains_key(#[trigger] candidates@[j]),
    ensures
        match found {
            Some(j) => j < candidates.len() && !matched@[j as int] && relation@.kind
                == source@.nodes[candidates@[j as int]].relation.kind && relation@.name
                == source@.nodes[candidates@[j as int]].relation.name,
            None => true,
        },
        forall|k: int|
            0 <= k < (match found {
                Some(j) => j as int,
                None => candidates.len() as int,
            }) ==> matched@[k] || #[trigger] source@.nodes[candidates@[k]].relation.kind
                != relation@.kind || source@.nodes[candidates@[k]].relation.name != relation@.name,
{
    let mut j: usize = 0;
    while j < candidates.len()
        invariant
            0 <= j <= candidates.len(),
            matched.len() == candidates.len(),
            forall|j: int|
                0 <= j < candidates.len() ==> source@.nodes.contains_key(
                    #[trigger] candidates@[j],
                ),
            forall|k: int|
                0 <= k < j ==> matched@[k] || #[trigger] source@.nodes[candidates@[k]].relation.kind
                    != relation@.kind || source@.nodes[candidates@[k]].relation.name
                    != relation@.name,
        decreases candidates.len() - j,
    {
        assert(source@.nodes.contains_key(candidates@[j as int]));
        if !matched[j] && relation.same_label(source.relation(candidates[j])) {
            return Some(j);
        }
        j += 1;
    }
    None
}

/// What is known of the functions that stand in the rebuilt program so far:
/// each is paired with a new function of its shape, no new function twice,
/// and the new functions that are marked are those that are paired.
#[verifier::opaque]
pub open spec fn paired(
    news: Seq<Term>,
    done: Seq<Term>,
    pairing: Seq<int>,
    remaining: Seq<ID>,
    matched: Seq<bool>,
) -> bool {
    &&& matched.len() == news.len()
    &&& remaining.len() == done.len()
    &&& pairing.len() == done.len()
    &&& pairing.no_duplicates()
    &&& forall|k: int|
        0 <= k < done.len() ==> remaining[k] == (#[trigger] done[k]).id && done[k].shape()
            == news[pairing[k]].shape()
    &&& forall|k: int|
        0 <= k < pairing.len() ==> 0 <= #[trigger] pairing[k] < news.len() && matched[pairing[k]]
    &&& forall|j: int| 0 <= j < matched.len() && matched[j] ==> pairing.contains(j)
}

/// One more function stands in the rebuilt program.
proof fn lemma_paired_push(
    news: Seq<Term>,
    done: Seq<Term>,
    pairing: Seq<int>,
    remaining: Seq<ID>,
    matched: Seq<bool>,
    made: Term,
    j: int,
)
    requires
        paired(news, done, pairing, remaining, matched),
        0 <= j < news.len(),
        !matched[j],
        made.shape() == news[j].shape(),
    ensures
        paired(
            news,
            done.push(made),
            pairing.push(j),
            remaining.push(made.id),
            matched.update(j, true),
        ),
{
    reveal(paired);
    let grown = pairing.push(j);
    let marked = matched.update(j, true);
    if pairing.contains(j) {
        let k = choose|k: int| 0 <= k < pairing.len() && pairing[k] == j;
        assert(matched[pairing[k]]);
    }
    assert forall|k: int| 0 <= k < grown.len() implies 0 <= #[trigger] grown[k] < news.len()
        && marked[grown[k]] by {
        if k < pairing.len() {
            assert(grown[k] == pairing[k]);
        }
    }
    assert forall|i: int| 0 <= i < marked.len() && marked[i] implies grown.contains(i) by {
        if i == j {
            assert(grown[pairing.len() as int] == i);
        } else {
            assert(pairing.contains(i));
            let k = choose|k: int| 0 <= k < pairing.len() && pairing[k] == i;
            assert(grown[k] == i);
        }
    }
    assert forall|a: int, b: int|
        0 <= a < grown.len() && 0 <= b < grown.len() && a != b implies grown[a] != grown[b] by {
        if a < pairing.len() {
            assert(grown[a] == pairing[a]);
        }
        if b < pairing.len() {
            assert(grown[b] == pairing[b]);
        }
    }
    assert forall|k: int| 0 <= k < done.len() + 1 implies remaining.push(made.id)[k] == (
    #[trigger] done.push(made)[k]).id && done.push(made)[k].shape() == news[grown[k]].shape() by {
        if k < done.len() {
            assert(done.push(made)[k] == done[k]);
            assert(grown[k] == pairing[k]);
        }
    }
}

/// What is known of the functions that kept their identity, of those before
/// place `p` of the maintained program.
#[verifier::opaque]
pub open spec fn stays(
    olds: Seq<Term>,
    news: Seq<Term>,
    done: Seq<Term>,
    pairing: Seq<int>,
    p: int,
) -> bool {
    let stay = kept(olds, news, p);
    &&& stay.len() <= done.len()
    &&& pairing.len() == done.len()
    &&& forall|k: int|
        0 <= k < stay.len() ==> 0 <= #[trigger] stay[k] < p && partner(olds, news, stay[k])
            == Some(pairing[k]) && done[k].id == olds[stay[k]].id && (olds[stay[k]].shape()
            == done[k].shape() ==> done[k] == olds[stay[k]]) && keeps_inside(
            olds[stay[k]],
            news[pairing[k]],
            done[k],
        )
}

/// The function at place `p` found its partner and kept its identity.
proof fn lemma_stays_push(
    olds: Seq<Term>,
    news: Seq<Term>,
    done: Seq<Term>,
    pairing: Seq<int>,
    p: int,
    made: Term,
    j: int,
)
    requires
        stays(olds, news, done, pairing, p),
        done.len() == kept(olds, news, p).len(),
        0 <= p < olds.len(),
        partner(olds, news, p) == Some(j),
        made.id == olds[p].id,
        olds[p].shape() == made.shape() ==> made == olds[p],
        keeps_inside(olds[p], news[j], made),
    ensures
        stays(olds, news, done.push(made), pairing.push(j), p + 1),
        done.len() + 1 == kept(olds, news, p + 1).len(),
{
    reveal(stays);
    let stay = kept(olds, news, p + 1);
    assert(stay == kept(olds, news, p).push(p));
    assert forall|k: int| 0 <= k < stay.len() implies 0 <= #[trigger] stay[k] < p + 1 && partner(
        olds,
        news,
        stay[k],
    ) == Some(pairing.push(j)[k]) && done.push(made)[k].id == olds[stay[k]].id && (
    olds[stay[k]].shape() == done.push(made)[k].shape() ==> done.push(made)[k]
        == olds[stay[k]]) && keeps_inside(
        olds[stay[k]],
        news[pairing.push(j)[k]],
        done.push(made)[k],
    ) by {
        if k < done.len() {
            assert(stay[k] == kept(olds, news, p)[k]);
            assert(pairing.push(j)[k] == pairing[k]);
            assert(done.push(made)[k] == done[k]);
        }
    }
}

/// The function at place `p` found no partner.
proof fn lemma_stays_skip(
    olds: Seq<Term>,
    news: Seq<Term>,
    done: Seq<Term>,
    pairing: Seq<int>,
    p: int,
)
    requires
        stays(olds, news, done, pairing, p),
        0 <= p < olds.len(),
        partner(olds, news, p) is None,
    ensures
        stays(olds, news, done, pairing, p + 1),
        kept(olds, news, p + 1) == kept(olds, news, p),
{
    reveal(stays);
    let stay = kept(olds, news, p + 1);
    assert(stay == kept(olds, news, p));
    assert forall|k: int| 0 <= k < stay.len() implies 0 <= #[trigger] stay[k] < p + 1 by {
        assert(0 <= kept(olds, news, p)[k] < p);
    }
}

/// A function that is put in behind does not touch those that stayed.
proof fn lemma_stays_more(
    olds: Seq<Term>,
    news: Seq<Term>,
    done: Seq<Term>,
    pairing: Seq<int>,
    p: int,
    made: Term,
    j: int,
)
    requires
        stays(olds, news, done, pairing, p),
    ensures
        stays(olds, news, done.push(made), pairing.push(j), p),
{
    reveal(stays);
    let stay = kept(olds, news, p);
    assert forall|k: int| 0 <= k < stay.len() implies 0 <= #[trigger] stay[k] < p && partner(
        olds,
        news,
        stay[k],
    ) == Some(pairing.push(j)[k]) && done.push(made)[k].id == olds[stay[k]].id && (
    olds[stay[k]].shape() == done.push(made)[k].shape() ==> done.push(made)[k]
        == olds[stay[k]]) && keeps_inside(
        olds[stay[k]],
        news[pairing.push(j)[k]],
        done.push(made)[k],
    ) by {
        assert(pairing.push(j)[k] == pairing[k]);
        assert(done.push(made)[k] == done[k]);
    }
}

/// What is known of the copies of the new functions before place `j` that
/// no function had taken: they stand behind those that stayed, in order.
#[verifier::opaque]
pub open spec fn comes(
    olds: Seq<Term>,
    news: Seq<Term>,
    done: Seq<Term>,
    pairing: Seq<int>,
    j: int,
) -> bool {
    let stay = kept(olds, news, olds.len() as int);
    let come = added(olds, news, j);
    &&& done.len() == stay.len() + come.len()
    &&& pairing.len() == done.len()
    &&& forall|k: int|
        0 <= k < come.len() ==> 0 <= #[trigger] come[k] < j && pairing[stay.len() + k] == come[k]
}

/// The new function at place `j` was free and is put in.
proof fn lemma_comes_push(
    olds: Seq<Term>,
    news: Seq<Term>,
    done: Seq<Term>,
    pairing: Seq<int>,
    j: int,
    made: Term,
)
    requires
        comes(olds, news, done, pairing, j),
        0 <= j,
        !taken(olds, news, olds.len() as int).contains(j),
    ensures
        comes(olds, news, done.push(made), pairing.push(j), j + 1),
{
    reveal(comes);
    let stay = kept(olds, news, olds.len() as int);
    let come = added(olds, news, j + 1);
    assert(come == added(olds, news, j).push(j));
    assert forall|k: int| 0 <= k < come.len() implies 0 <= #[trigger] come[k] < j + 1
        && pairing.push(j)[stay.len() + k] == come[k] by {
        if k < come.len() - 1 {
            assert(come[k] == added(olds, news, j)[k]);
            assert(pairing.push(j)[stay.len() + k] == pairing[stay.len() + k]);
        }
    }
}

/// The new function at place `j` was taken.
proof fn lemma_comes_skip(
    olds: Seq<Term>,
    news: Seq<Term>,
    done: Seq<Term>,
    pairing: Seq<int>,
    j: int,
)
    requires
        comes(olds, news, done, pairing, j),
        0 <= j,
        taken(olds, news, olds.len() as int).contains(j),
    ensures
        comes(olds, news, done, pairing, j + 1),
{
    reveal(comes);
    let come = added(olds, news, j + 1);
    assert(come == added(olds, news, j));
    assert forall|k: int| 0 <= k < come.len() implies 0 <= #[trigger] come[k] < j + 1 by {
        assert(0 <= added(olds, news, j)[k] < j);
    }
}

/// The functions that stay, when the functions before place `p` of the
/// maintained program have been held against the new functions one after
/// the other, and the largest identity in use then. A function with a
/// partner is brought into the shape of the partner, one without is
/// deleted. Before, the tree holds the identities `keys`, the largest of
/// them `top`.
pub open spec fn reconciled(old_root: Term, news: Seq<Term>, keys: Set<ID>, top: int, p: int) -> (
    Seq<Term>,
    int,
)
    decreases p,
{
    if p <= 0 {
        (Seq::empty(), top)
    } else {
        let (done, after) = reconciled(old_root, news, keys, top, p - 1);
        match partner(old_root.kids, news, p - 1) {
            Some(j) => {
                let (made, next) = refitted(
                    old_root.kids[p - 1],
                    news[j],
                    partial_keys(keys, old_root, done, p - 1),
                    after,
                );
                (done.push(made), next)
            },
            None => (done, top_key(partial_keys(keys, old_root, done, p)) as int),
        }
    }
}

/// The functions `done` with copies behind them of the new functions before
/// place `j` that no function had taken, each numbered upward from the
/// largest identity in use when it is made, and the largest identity in use
/// after them.
pub open spec fn copied(olds: Seq<Term>, news: Seq<Term>, done: Seq<Term>, top: int, j: int) -> (
    Seq<Term>,
    int,
)
    decreases j,
{
    if j <= 0 {
        (done, top)
    } else {
        let (before, after) = copied(olds, news, done, top, j - 1);
        if taken(olds, news, olds.len() as int).contains(j - 1) {
            (before, after)
        } else {
            (before.push(news[j - 1].renumbered(after)), after + news[j - 1].size())
        }
    }
}

/// The functions of the rebuilt program and its `max_id`: the functions that
/// stay, as `reconciled` leaves them, and behind them the copies of the new
/// functions that no function had taken.
pub open spec fn rebuilt_functions(old_root: Term, news: Seq<Term>, keys: Set<ID>, top: int) -> (
    Seq<Term>,
    int,
) {
    let (done, after) = reconciled(old_root, news, keys, top, old_root.kids.len() as int);
    copied(old_root.kids, news, done, after, news.len() as int)
}

/// The functions before place `p` that stay took no identity that was in use
/// elsewhere: each identity in the function that came of one is an identity
/// of that one, or lies above the identity of the root.
pub open spec fn takes_nothing(
    olds: Seq<Term>,
    news: Seq<Term>,
    ours: Seq<Term>,
    p: int,
    root: ID,
) -> bool {
    let stay = kept(olds, news, p);
    forall|k: int, x: ID|
        0 <= k < stay.len() && k < ours.len() && (#[trigger] ours[k].has(x)) ==> olds[stay[k]].has(
            x,
        ) || x > root
}

/// `takes_nothing`, kept from the prover until it is asked for.
#[verifier::opaque]
pub open spec fn sparing(olds: Seq<Term>, news: Seq<Term>, done: Seq<Term>, p: int, root: ID) -> bool {
    takes_nothing(olds, news, done, p, root)
}

/// The function at place `p` found its partner and took no identity in use
/// elsewhere.
proof fn lemma_sparing_push(
    olds: Seq<Term>,
    news: Seq<Term>,
    done: Seq<Term>,
    p: int,
    root: ID,
    made: Term,
)
    requires
        sparing(olds, news, done, p, root),
        done.len() == kept(olds, news, p).len(),
        0 <= p < olds.len(),
        partner(olds, news, p) is Some,
        above(olds[p], made, root),
    ensures
        sparing(olds, news, done.push(made), p + 1, root),
{
    reveal(sparing);
    let stay = kept(olds, news, p + 1);
    let more = done.push(made);
    assert(stay == kept(olds, news, p).push(p));
    assert forall|k: int, x: ID|
        0 <= k < stay.len() && k < more.len() && (#[trigger] more[k].has(x)) implies olds[stay[k]].has(
        x,
    ) || x > root by {
        if k < done.len() {
            assert(stay[k] == kept(olds, news, p)[k]);
            assert(more[k] == done[k]);
            assert(done[k].has(x));
        } else {
            assert(more[k] == made);
            assert(made.has(x));
        }
    }
}

/// The function at place `p` found no partner.
proof fn lemma_sparing_skip(olds: Seq<Term>, news: Seq<Term>, done: Seq<Term>, p: int, root: ID)
    requires
        sparing(olds, news, done, p, root),
        0 <= p,
        partner(olds, news, p) is None,
    ensures
        sparing(olds, news, done, p + 1, root),
{
    reveal(sparing);
    assert(kept(olds, news, p + 1) == kept(olds, news, p));
}

/// Functions that are put behind those that stay change nothing of them.
proof fn lemma_sparing_more(
    olds: Seq<Term>,
    news: Seq<Term>,
    done: Seq<Term>,
    more: Seq<Term>,
    p: int,
    root: ID,
)
    requires
        sparing(olds, news, done, p, root),
        done.len() == kept(olds, news, p).len(),
        more.len() >= done.len(),
        more.subrange(0, done.len() as int) == done,
    ensures
        sparing(olds, news, more, p, root),
{
    reveal(sparing);
    let stay = kept(olds, news, p);
    assert forall|k: int, x: ID|
        0 <= k < stay.len() && k < more.len() && (#[trigger] more[k].has(x)) implies olds[stay[k]].has(
        x,
    ) || x > root by {
        assert(more[k] == more.subrange(0, done.len() as int)[k]);
        assert(done[k].has(x));
    }
}

/// The functions that stay and `max_id` are what `reconciled` says.
#[verifier::opaque]
pub open spec fn tallied(
    start: TreeView,
    cur: TreeView,
    old_root: Term,
    news: Seq<Term>,
    done: Seq<Term>,
    p: int,
) -> bool {
    (done, cur.max_id as int) == reconciled(
        old_root,
        news,
        start.nodes.dom(),
        start.max_id as int,
        p,
    )
}

/// The function at place `p` found its partner at place `j` and was brought
/// into its shape, as `refitted` says.
proof fn lemma_tallied_kept(
    start: TreeView,
    before: TreeView,
    after: TreeView,
    old_root: Term,
    news: Seq<Term>,
    done: Seq<Term>,
    p: int,
    j: int,
    made: Term,
)
    requires
        tallied(start, before, old_root, news, done, p),
        partial(start.nodes, before.nodes, old_root, done, p),
        0 <= p,
        partner(old_root.kids, news, p) == Some(j),
        (made, after.max_id as int) == refitted(
            old_root.kids[p],
            news[j],
            before.nodes.dom(),
            before.max_id as int,
        ),
    ensures
        tallied(start, after, old_root, news, done.push(made), p + 1),
{
    reveal(tallied);
    lemma_partial_keys(start.nodes, before.nodes, old_root, done, p);
}

/// The function at place `p` found no partner and was deleted.
proof fn lemma_tallied_dropped(
    start: TreeView,
    before: TreeView,
    after: TreeView,
    old_root: Term,
    news: Seq<Term>,
    done: Seq<Term>,
    p: int,
)
    requires
        tallied(start, before, old_root, news, done, p),
        partial(start.nodes, after.nodes, old_root, done, p + 1),
        0 <= p,
        partner(old_root.kids, news, p) is None,
        after.store_inv(),
        after.seated(),
    ensures
        tallied(start, after, old_root, news, done, p + 1),
{
    reveal(tallied);
    lemma_partial_keys(start.nodes, after.nodes, old_root, done, p + 1);
    lemma_top_key(after);
}

/// What holds when the functions before place `p` of the maintained tree
/// have been held against the new functions.
#[verifier::opaque]
pub open spec fn reconciling(
    start: TreeView,
    cur: TreeView,
    old_root: Term,
    new_root: Term,
    done: Seq<Term>,
    pairing: Seq<int>,
    remaining: Seq<ID>,
    matched: Seq<bool>,
    p: int,
) -> bool {
    let olds = old_root.kids;
    let news = new_root.kids;
    &&& cur.root_id == start.root_id
    &&& partial(start.nodes, cur.nodes, old_root, done, p)
    &&& paired(news, done, pairing, remaining, matched)
    &&& stays(olds, news, done, pairing, p)
    &&& sparing(olds, news, done, p, start.root_id)
    &&& tallied(start, cur, old_root, news, done, p)
    &&& done.len() == kept(olds, news, p).len()
    &&& forall|j: int| 0 <= j < matched.len() ==> matched[j] == taken(olds, news, p).contains(j)
    &&& cur.max_id + unmatched_size(news, matched) < i32::MAX
    &&& old_root.shape() == new_root.shape() ==> cur == start && done == olds.subrange(0, p)
        && forall|j: int| 0 <= j < matched.len() ==> matched[j] == (j < p)
}

/// What is known of the function at place `p` before it is held against the
/// new functions.
#[verifier::spinoff_prover]
proof fn lemma_reconciling_head(
    start: TreeView,
    cur: TreeView,
    old_root: Term,
    new_root: Term,
    done: Seq<Term>,
    pairing: Seq<int>,
    remaining: Seq<ID>,
    matched: Seq<bool>,
    p: int,
)
    requires
        start.represents(old_root),
        reconciling(start, cur, old_root, new_root, done, pairing, remaining, matched, p),
        0 <= p < old_root.kids.len(),
    ensures
        old_root.kids[p].embeds(cur.nodes),
        old_root.kids[p].embeds(start.nodes),
        old_root.kids[p].sound(),
        old_root.kids[p].conforms(),
        old_root.kids[p].kind == RelationKind::FunDef,
        matched.len() == new_root.kids.len(),
        forall|j: int|
            0 <= j < matched.len() ==> matched[j] == taken(
                old_root.kids,
                new_root.kids,
                p,
            ).contains(j),
        forall|j: int|
            0 <= j < matched.len() && !matched[j] ==> cur.max_id + (
            #[trigger] new_root.kids[j]).size() < i32::MAX,
{
    reveal(reconciling);
    reveal(paired);
    assert forall|j: int| 0 <= j < matched.len() && !matched[j] implies cur.max_id + (
    #[trigger] new_root.kids[j]).size() < i32::MAX by {
        lemma_unmatched_mark(new_root.kids, matched, j);
    }
}

/// The function at place `p` found its partner at place `j` and was brought
/// into its shape.
#[verifier::spinoff_prover]
proof fn lemma_reconciling_kept(
    start: TreeView,
    before: TreeView,
    after: TreeView,
    old_root: Term,
    new_root: Term,
    done: Seq<Term>,
    pairing: Seq<int>,
    remaining: Seq<ID>,
    matched: Seq<bool>,
    p: int,
    j: int,
    made: Term,
)
    requires
        start.represents(old_root),
        reconciling(start, before, old_root, new_root, done, pairing, remaining, matched, p),
        0 <= p < old_root.kids.len(),
        0 <= j < new_root.kids.len(),
        partner(old_root.kids, new_root.kids, p) == Some(j),
        taken(old_root.kids, new_root.kids, p + 1) == taken(old_root.kids, new_root.kids, p).insert(
            j,
        ),
        after.root_id == before.root_id,
        after.max_id <= before.max_id + new_root.kids[j].size(),
        rebuilt(before.nodes, after.nodes, old_root.kids[p], made),
        made.embeds(after.nodes),
        made.sound(),
        made.id == old_root.kids[p].id,
        made.shape() == new_root.kids[j].shape(),
        old_root.kids[p].shape() == new_root.kids[j].shape() ==> after == before && made
            == old_root.kids[p],
        keeps_inside(old_root.kids[p], new_root.kids[j], made),
        above(old_root.kids[p], made, start.root_id),
        (made, after.max_id as int) == refitted(
            old_root.kids[p],
            new_root.kids[j],
            before.nodes.dom(),
            before.max_id as int,
        ),
    ensures
        reconciling(
            start,
            after,
            old_root,
            new_root,
            done.push(made),
            pairing.push(j),
            remaining.push(made.id),
            matched.update(j, true),
            p + 1,
        ),
{
    reveal(reconciling);
    let olds = old_root.kids;
    let news = new_root.kids;
    lemma_sparing_push(olds, news, done, p, start.root_id, made);
    lemma_tallied_kept(start, before, after, old_root, news, done, p, j, made);
    assert(matched.len() == news.len() && !matched[j]) by {
        reveal(paired);
    }
    lemma_partial_replace(start.nodes, before.nodes, after.nodes, old_root, done, p, made);
    lemma_paired_push(news, done, pairing, remaining, matched, made, j);
    lemma_stays_push(olds, news, done, pairing, p, made, j);
    lemma_unmatched_mark(news, matched, j);
    if old_root.shape() == new_root.shape() {
        lemma_shape_eq(old_root, new_root);
        assert forall|k: int| 0 <= k < news.len() implies taken(olds, news, p).contains(k) == (k
            < p) by {
            assert(matched[k] == (k < p));
            assert(matched[k] == taken(olds, news, p).contains(k));
        }
        lemma_same_place(olds, news, p, j);
        assert(done.push(made) =~= olds.subrange(0, p + 1));
    }
}

/// The function at place `p` found no partner and was deleted.
#[verifier::spinoff_prover]
proof fn lemma_reconciling_dropped(
    start: TreeView,
    before: TreeView,
    after: TreeView,
    old_root: Term,
    new_root: Term,
    done: Seq<Term>,
    pairing: Seq<int>,
    remaining: Seq<ID>,
    matched: Seq<bool>,
    p: int,
)
    requires
        start.represents(old_root),
        reconciling(start, before, old_root, new_root, done, pairing, remaining, matched, p),
        0 <= p < old_root.kids.len(),
        partner(old_root.kids, new_root.kids, p) is None,
        taken(old_root.kids, new_root.kids, p + 1) == taken(old_root.kids, new_root.kids, p),
        after.root_id == before.root_id,
        after.max_id <= before.max_id,
        after.nodes == before.nodes.remove_keys(old_root.kids[p].ids()),
        after.store_inv(),
        after.seated(),
    ensures
        reconciling(start, after, old_root, new_root, done, pairing, remaining, matched, p + 1),
{
    reveal(reconciling);
    let olds = old_root.kids;
    let news = new_root.kids;
    lemma_partial_delete(start.nodes, before.nodes, after.nodes, old_root, done, p);
    lemma_tallied_dropped(start, before, after, old_root, news, done, p);
    lemma_stays_skip(olds, news, done, pairing, p);
    lemma_sparing_skip(olds, news, done, p, start.root_id);
    if old_root.shape() == new_root.shape() {
        lemma_shape_eq(old_root, new_root);
        assert(matched.len() == news.len()) by {
            reveal(paired);
        }
        lemma_partner(olds, news, p);
        assert(news[p].name == olds[p].name) by {
            lemma_shape_eq(olds[p], news[p]);
        }
        assert(!taken(olds, news, p).contains(p)) by {
            assert(matched[p] == (p < p));
            assert(matched[p] == taken(olds, news, p).contains(p));
        }
    }
}

/// Where the two programs have one shape and the functions before place `p`
/// found their partners at their own places, so does the function at `p`.
proof fn lemma_same_place(olds: Seq<Term>, news: Seq<Term>, p: int, j: int)
    requires
        0 <= p < olds.len(),
        olds.len() == news.len(),
        olds[p].shape() == news[p].shape(),
        forall|k: int| 0 <= k < news.len() ==> taken(olds, news, p).contains(k) == (k < p),
        partner(olds, news, p) == Some(j),
    ensures
        j == p,
{
    lemma_partner(olds, news, p);
    lemma_shape_eq(olds[p], news[p]);
    if p < j {
        assert(news[p].name != olds[p].name || taken(olds, news, p).contains(p));
    }
}

/// Holds the function at place `p` of the maintained tree against the new
/// functions: where it finds its partner it is brought into the shape of the
/// partner, where it finds none it is deleted.
#[verifier::spinoff_prover]
fn reconcile_next(
    ws: &mut Workspace,
    prev_ast: &Tree,
    new_ast: &Tree,
    kids1: &Vec<ID>,
    kids2: &Vec<ID>,
    matched: &mut Vec<bool>,
    remaining: &mut Vec<ID>,
    p: usize,
    Ghost(old_root): Ghost<Term>,
    Ghost(new_root): Ghost<Term>,
    Ghost(done): Ghost<Seq<Term>>,
    Ghost(pairing): Ghost<Seq<int>>,
) -> (out: Ghost<(Seq<Term>, Seq<int>)>)
    requires
        old(ws).inv(),
        prev_ast@.represents(old_root),
        new_ast@.represents(new_root),
        kids1@ == old_root.kid_ids(),
        kids2@ == new_root.kid_ids(),
        old(matched).len() == kids2.len(),
        p < kids1.len(),
        reconciling(
            prev_ast@,
            old(ws).tree@,
            old_root,
            new_root,
            done,
            pairing,
            old(remaining)@,
            old(matched)@,
            p as int,
        ),
    ensures
        final(ws).inv(),
        final(ws).base == old(ws).base,
        final(matched).len() == kids2.len(),
        reconciling(
            prev_ast@,
            final(ws).tree@,
            old_root,
            new_root,
            out@.0,
            out@.1,
            final(remaining)@,
            final(matched)@,
            p + 1,
        ),
{
    let ghost before = ws.tree@;
    let ghost f1 = old_root.kids[p as int];
    let ghost unmarked = matched@;
    let ghost listed = remaining@;
    proof {
        lemma_reconciling_head(
            prev_ast@,
            before,
            old_root,
            new_root,
            done,
            pairing,
            listed,
            unmarked,
            p as int,
        );
        assert(kids1@[p as int] == f1.id);
        assert forall|j: int| 0 <= j < kids2.len() implies new_ast@.nodes.contains_key(
            #[trigger] kids2@[j],
        ) by {
            assert(new_root.kids[j].embeds(new_ast@.nodes));
        }
    }
    let found = find_function(prev_ast.relation(kids1[p]), new_ast, kids2, matched);
    match found {
        Some(j) => {
            let ghost f2 = new_root.kids[j as int];
            proof {
                lemma_found_partner(
                    old_root,
                    new_root,
                    prev_ast@.nodes,
                    new_ast@.nodes,
                    kids2@,
                    unmarked,
                    p as int,
                    Some(j as int),
                );
                assert(kids2@[j as int] == f2.id);
                assert(f2.conforms());
                assert(f2.embeds(new_ast@.nodes));
                assert(f1.name == f2.name) by {
                    assert(new_root.kid_ids()[j as int] == f2.id);
                }
            }
            proof {
                assert(before.nodes.contains_key(before.root_id) && !f1.has(before.root_id)
                    && before.root_id == prev_ast@.root_id) by {
                    reveal(reconciling);
                    assert(old_root.sound());
                    assert(!f1.has(old_root.id));
                }
            }
            matched[j] = true;
            let Ghost(made) = reconcile_function(
                ws,
                kids1[p],
                kids2[j],
                new_ast,
                Ghost(f1),
                Ghost(f2),
            );
            remaining.push(kids1[p]);
            proof {
                lemma_reconciling_kept(
                    prev_ast@,
                    before,
                    ws.tree@,
                    old_root,
                    new_root,
                    done,
                    pairing,
                    listed,
                    unmarked,
                    p as int,
                    j as int,
                    made,
                );
            }
            Ghost((done.push(made), pairing.push(j as int)))
        },
        None => {
            proof {
                lemma_found_partner(
                    old_root,
                    new_root,
                    prev_ast@.nodes,
                    new_ast@.nodes,
                    kids2@,
                    unmarked,
                    p as int,
                    None,
                );
            }
            delete_term(ws, kids1[p], Ghost(f1));
            proof {
                assert(ws.tree@.nodes.contains_key(old_root.id)) by {
                    reveal(reconciling);
                    assert(old_root.sound());
                    assert(!f1.has(old_root.id));
                    assert(before.nodes.contains_key(old_root.id));
                }
                lemma_reconciling_dropped(
                    prev_ast@,
                    before,
                    ws.tree@,
                    old_root,
                    new_root,
                    done,
                    pairing,
                    listed,
                    unmarked,
                    p as int,
                );
            }
            Ghost((done, pairing))
        },
    }
}

/// Holds each function of the maintained tree against the new functions,
/// one after the other.
#[verifier::spinoff_prover]
fn reconcile_functions(
    ws: &mut Workspace,
    prev_ast: &Tree,
    new_ast: &Tree,
    kids1: &Vec<ID>,
    kids2: &Vec<ID>,
    matched: &mut Vec<bool>,
    remaining: &mut Vec<ID>,
    Ghost(old_root): Ghost<Term>,
    Ghost(new_root): Ghost<Term>,
) -> (out: Ghost<(Seq<Term>, Seq<int>)>)
    requires
        old(ws).inv(),
        old(ws).tree@ == prev_ast@,
        prev_ast@.represents(old_root),
        new_ast@.represents(new_root),
        kids1@ == old_root.kid_ids(),
        kids2@ == new_root.kid_ids(),
        old(matched).len() == kids2.len(),
        forall|j: int| 0 <= j < old(matched).len() ==> !old(matched)@[j],
        old(remaining)@.len() == 0,
        prev_ast@.max_id + new_root.size() <= i32::MAX,
    ensures
        final(ws).inv(),
        final(ws).base == old(ws).base,
        final(matched).len() == kids2.len(),
        reconciling(
            prev_ast@,
            final(ws).tree@,
            old_root,
            new_root,
            out@.0,
            out@.1,
            final(remaining)@,
            final(matched)@,
            old_root.kids.len() as int,
        ),
{
    let ghost mut done: Seq<Term> = Seq::empty();
    let ghost mut pairing: Seq<int> = Seq::empty();
    proof {
        reveal(reconciling);
        lemma_partial_start(prev_ast@.nodes, old_root);
        lemma_unmatched_all(new_root.kids, matched@);
        lemma_shape_eq(old_root, new_root);
        assert(old_root.kids.subrange(0, 0) =~= done);
        assert(taken(old_root.kids, new_root.kids, 0) =~= Set::<int>::empty());
        assert(paired(new_root.kids, done, pairing, remaining@, matched@)) by {
            reveal(paired);
        }
        assert(stays(old_root.kids, new_root.kids, done, pairing, 0)) by {
            reveal(stays);
        }
        assert(sparing(old_root.kids, new_root.kids, done, 0, prev_ast@.root_id)) by {
            reveal(sparing);
        }
        assert(tallied(prev_ast@, ws.tree@, old_root, new_root.kids, done, 0)) by {
            reveal(tallied);
        }
    }
    let mut p: usize = 0;
    while p < kids1.len()
        invariant
            ws.inv(),
            ws.base == old(ws).base,
            prev_ast@.represents(old_root),
            new_ast@.represents(new_root),
            kids1@ == old_root.kid_ids(),
            kids2@ == new_root.kid_ids(),
            matched.len() == kids2.len(),
            0 <= p <= kids1.len(),
            reconciling(
                prev_ast@,
                ws.tree@,
                old_root,
                new_root,
                done,
                pairing,
                remaining@,
                matched@,
                p as int,
            ),
        decreases kids1.len() - p,
    {
        let Ghost(next) = reconcile_next(
            ws,
            prev_ast,
            new_ast,
            kids1,
            kids2,
            matched,
            remaining,
            p,
            Ghost(old_root),
            Ghost(new_root),
            Ghost(done),
            Ghost(pairing),
        );
        proof {
            done = next.0;
            pairing = next.1;
        }
        p += 1;
    }
    Ghost((done, pairing))
}

/// Puts in copies of the new functions that no function of the maintained
/// tree has taken.
#[verifier::spinoff_prover]
fn insert_functions(
    ws: &mut Workspace,
    new_ast: &Tree,
    kids2: &Vec<ID>,
    matched: &mut Vec<bool>,
    remaining: &mut Vec<ID>,
    Ghost(start): Ghost<TreeView>,
    Ghost(old_root): Ghost<Term>,
    Ghost(new_root): Ghost<Term>,
    Ghost(done0): Ghost<Seq<Term>>,
    Ghost(pairing0): Ghost<Seq<int>>,
) -> (out: Ghost<(Seq<Term>, Seq<int>)>)
    requires
        old(ws).inv(),
        new_ast@.represents(new_root),
        kids2@ == new_root.kid_ids(),
        partial(start.nodes, old(ws).tree@.nodes, old_root, done0, old_root.kids.len() as int),
        paired(new_root.kids, done0, pairing0, old(remaining)@, old(matched)@),
        stays(old_root.kids, new_root.kids, done0, pairing0, old_root.kids.len() as int),
        done0.len() == kept(old_root.kids, new_root.kids, old_root.kids.len() as int).len(),
        forall|j: int|
            0 <= j < old(matched).len() ==> old(matched)@[j] == taken(
                old_root.kids,
                new_root.kids,
                old_root.kids.len() as int,
            ).contains(j),
        old(ws).tree@.max_id + unmatched_size(new_root.kids, old(matched)@) < i32::MAX,
    ensures
        final(ws).inv(),
        final(ws).base == old(ws).base,
        final(ws).tree@.root_id == old(ws).tree@.root_id,
        partial(start.nodes, final(ws).tree@.nodes, old_root, out@.0, old_root.kids.len() as int),
        paired(new_root.kids, out@.0, out@.1, final(remaining)@, final(matched)@),
        stays(old_root.kids, new_root.kids, out@.0, out@.1, old_root.kids.len() as int),
        comes(old_root.kids, new_root.kids, out@.0, out@.1, new_root.kids.len() as int),
        rising(
            old_root.kids,
            new_root.kids,
            out@.0,
            new_root.kids.len() as int,
            old(ws).tree@.max_id as int,
            final(ws).tree@.max_id as int,
        ),
        out@.0.len() >= done0.len(),
        out@.0.subrange(0, done0.len() as int) == done0,
        (out@.0, final(ws).tree@.max_id as int) == copied(
            old_root.kids,
            new_root.kids,
            done0,
            old(ws).tree@.max_id as int,
            new_root.kids.len() as int,
        ),
        forall|j: int| 0 <= j < final(matched).len() ==> final(matched)@[j],
        (forall|j: int| 0 <= j < old(matched).len() ==> old(matched)@[j]) ==> final(ws).tree@
            == old(ws).tree@ && out@.0 == done0 && final(remaining)@ == old(remaining)@,
{
    let ghost olds = old_root.kids;
    let ghost news = new_root.kids;
    let ghost mut done = done0;
    let ghost mut pairing = pairing0;
    proof {
        lemma_rising_start(olds, news, done, ws.tree@.max_id as int);
        assert(done.subrange(0, done0.len() as int) =~= done0);
        assert(added(olds, news, 0) =~= Seq::<int>::empty());
        assert(comes(olds, news, done, pairing, 0)) by {
            reveal(comes);
            reveal(paired);
        }
        assert(matched.len() == kids2.len()) by {
            reveal(paired);
        }
    }
    let mut j: usize = 0;
    while j < kids2.len()
        invariant
            ws.inv(),
            ws.base == old(ws).base,
            olds == old_root.kids,
            news == new_root.kids,
            ws.tree@.root_id == old(ws).tree@.root_id,
            new_ast@.represents(new_root),
            kids2@ == new_root.kid_ids(),
            matched.len() == kids2.len(),
            0 <= j <= kids2.len(),
            partial(start.nodes, ws.tree@.nodes, old_root, done, olds.len() as int),
            paired(news, done, pairing, remaining@, matched@),
            stays(olds, news, done, pairing, olds.len() as int),
            comes(olds, news, done, pairing, j as int),
            rising(
                olds,
                news,
                done,
                j as int,
                old(ws).tree@.max_id as int,
                ws.tree@.max_id as int,
            ),
            done.len() >= done0.len(),
            done.subrange(0, done0.len() as int) == done0,
            (done, ws.tree@.max_id as int) == copied(
                olds,
                news,
                done0,
                old(ws).tree@.max_id as int,
                j as int,
            ),
            forall|i: int| 0 <= i < j ==> matched@[i],
            forall|i: int|
                j <= i < matched.len() ==> matched@[i] == taken(
                    olds,
                    news,
                    olds.len() as int,
                ).contains(i),
            ws.tree@.max_id + unmatched_size(news, matched@) < i32::MAX,
            (forall|j: int| 0 <= j < old(matched).len() ==> old(matched)@[j]) ==> ws.tree@ == old(
                ws,
            ).tree@ && done == done0 && remaining@ == old(remaining)@ && matched@ == old(
                matched,
            )@,
        decreases kids2.len() - j,
    {
        if !matched[j] {
            let ghost before = ws.tree@;
            let ghost f2 = news[j as int];
            let ghost unmarked = matched@;
            let ghost listed = remaining@;
            proof {
                assert(kids2@[j as int] == f2.id);
                assert(f2.embeds(new_ast@.nodes));
                lemma_unmatched_mark(news, matched@, j as int);
            }
            let (fun_id, Ghost(made)) = insert_term(ws, kids2[j], new_ast, Ghost(f2));
            matched[j] = true;
            remaining.push(fun_id);
            proof {
                assert forall|x: ID| #[trigger] made.has(x) implies !before.nodes.contains_key(
                    x,
                ) by {
                    if before.nodes.contains_key(x) {
                        assert(before.nodes.dom().contains(x));
                    }
                }
                lemma_partial_insert(
                    start.nodes,
                    before.nodes,
                    ws.tree@.nodes,
                    old_root,
                    done,
                    olds.len() as int,
                    made,
                );
                lemma_paired_push(news, done, pairing, listed, unmarked, made, j as int);
                lemma_stays_more(olds, news, done, pairing, olds.len() as int, made, j as int);
                lemma_comes_push(olds, news, done, pairing, j as int, made);
                lemma_rising_push(
                    olds,
                    news,
                    done,
                    j as int,
                    old(ws).tree@.max_id as int,
                    before.max_id as int,
                    made,
                );
                assert(done.push(made).subrange(0, done0.len() as int) =~= done0) by {
                    assert(done.subrange(0, done0.len() as int) == done0);
                }
                done = done.push(made);
                pairing = pairing.push(j as int);
            }
        } else {
            proof {
                lemma_comes_skip(olds, news, done, pairing, j as int);
                lemma_rising_skip(
                    olds,
                    news,
                    done,
                    j as int,
                    old(ws).tree@.max_id as int,
                    ws.tree@.max_id as int,
                );
            }
        }
        j += 1;
    }
    Ghost((done, pairing))
}

/// What holds when all functions are done: those that stayed, and behind
/// them the copies of the new functions that no function had taken.
#[verifier::opaque]
pub open spec fn finished(
    start: TreeView,
    cur: TreeView,
    old_root: Term,
    new_root: Term,
    done: Seq<Term>,
    pairing: Seq<int>,
    remaining: Seq<ID>,
    matched: Seq<bool>,
) -> bool {
    let olds = old_root.kids;
    let news = new_root.kids;
    &&& cur.root_id == start.root_id
    &&& partial(start.nodes, cur.nodes, old_root, done, olds.len() as int)
    &&& paired(news, done, pairing, remaining, matched)
    &&& forall|j: int| 0 <= j < matched.len() ==> matched[j]
    &&& stays(olds, news, done, pairing, olds.len() as int)
    &&& sparing(olds, news, done, olds.len() as int, start.root_id)
    &&& (done, cur.max_id as int) == rebuilt_functions(
        old_root,
        news,
        start.nodes.dom(),
        start.max_id as int,
    )
    &&& comes(olds, news, done, pairing, news.len() as int)
    &&& old_root.shape() == new_root.shape() ==> cur == start && done == olds
}

/// Puts in the new functions that no function has taken, after all
/// functions of the maintained tree have been held against the new ones.
#[verifier::spinoff_prover]
fn finish_functions(
    ws: &mut Workspace,
    new_ast: &Tree,
    kids2: &Vec<ID>,
    matched: &mut Vec<bool>,
    remaining: &mut Vec<ID>,
    Ghost(start): Ghost<TreeView>,
    Ghost(old_root): Ghost<Term>,
    Ghost(new_root): Ghost<Term>,
    Ghost(done0): Ghost<Seq<Term>>,
    Ghost(pairing0): Ghost<Seq<int>>,
) -> (out: Ghost<(Seq<Term>, Seq<int>)>)
    requires
        old(ws).inv(),
        new_ast@.represents(new_root),
        kids2@ == new_root.kid_ids(),
        reconciling(
            start,
            old(ws).tree@,
            old_root,
            new_root,
            done0,
            pairing0,
            old(remaining)@,
            old(matched)@,
            old_root.kids.len() as int,
        ),
    ensures
        final(ws).inv(),
        final(ws).base == old(ws).base,
        finished(
            start,
            final(ws).tree@,
            old_root,
            new_root,
            out@.0,
            out@.1,
            final(remaining)@,
            final(matched)@,
        ),
        rising(
            old_root.kids,
            new_root.kids,
            out@.0,
            new_root.kids.len() as int,
            old(ws).tree@.max_id as int,
            final(ws).tree@.max_id as int,
        ),
        out@.0.len() >= done0.len(),
        out@.0.subrange(0, done0.len() as int) == done0,
{
    proof {
        reveal(reconciling);
        reveal(finished);
        reveal(tallied);
        lemma_shape_eq(old_root, new_root);
        assert(old_root.kids.subrange(0, old_root.kids.len() as int) =~= old_root.kids);
        if old_root.shape() == new_root.shape() {
            assert(matched@.len() == new_root.kids.len()) by {
                reveal(paired);
            }
        }
    }
    let out = insert_functions(
        ws,
        new_ast,
        kids2,
        matched,
        remaining,
        Ghost(start),
        Ghost(old_root),
        Ghost(new_root),
        Ghost(done0),
        Ghost(pairing0),
    );
    proof {
        lemma_sparing_more(
            old_root.kids,
            new_root.kids,
            done0,
            out@.0,
            old_root.kids.len() as int,
            start.root_id,
        );
    }
    out
}

/// What the list of identities of the functions is when all are done.
proof fn lemma_finished(
    start: TreeView,
    cur: TreeView,
    old_root: Term,
    new_root: Term,
    done: Seq<Term>,
    pairing: Seq<int>,
    remaining: Seq<ID>,
    matched: Seq<bool>,
)
    requires
        start.represents(old_root),
        finished(start, cur, old_root, new_root, done, pairing, remaining, matched),
    ensures
        remaining == (Term {
            kind: RelationKind::TransUnit,
            id: old_root.id,
            name: Seq::empty(),
            kids: done,
        }).kid_ids(),
        cur.root_id == start.root_id,
        cur.nodes.contains_key(old_root.id),
        cur.nodes[old_root.id] == old_root.node(),
        old_root.name == Seq::<char>::empty(),
        (done, cur.max_id as int) == rebuilt_functions(
            old_root,
            new_root.kids,
            start.nodes.dom(),
            start.max_id as int,
        ),
        old_root.shape() == new_root.shape() ==> cur == start && remaining == old_root.kid_ids(),
{
    reveal(finished);
    reveal(paired);
    let made = Term {
        kind: RelationKind::TransUnit,
        id: old_root.id,
        name: Seq::empty(),
        kids: done,
    };
    assert(made.kid_ids() =~= remaining);
    if old_root.shape() == new_root.shape() {
        assert(made.kid_ids() =~= old_root.kid_ids());
    }
}

/// Finds the differences between the maintained tree and a new one, and
/// rebuilds the maintained tree in the shape of the new one. Functions are
/// held against each other by name, their parameters by position, their
/// statements in order. What did not change keeps its identity. Returns the
/// relations to insert, the relations to delete, and the rebuilt tree. What
/// is new in it is numbered upward from the largest identity in use when it
/// is made, children before their parents: `rebuilt_functions` says which
/// functions the rebuilt program has, identities and all.
#[verifier::spinoff_prover]
pub fn get_diff_relation_set(prev_ast: &Tree, new_ast: &Tree) -> (out: (
    RelationSet,
    RelationSet,
    Tree,
))
    requires
        prev_ast@.wf(),
        new_ast@.wf(),
        prev_ast@.max_id + new_ast@.nodes.len() <= i32::MAX,
    ensures
        out.2@.wf(),
        out.2@.root_id == prev_ast@.root_id,
        out.0@ == out.2@.relation_set().difference(prev_ast@.relation_set()),
        out.1@ == prev_ast@.relation_set().difference(out.2@.relation_set()),
        out.0@.disjoint(out.1@),
        prev_ast@.relation_set().union(out.0@).difference(out.1@) == out.2@.relation_set(),
        same_program(out.2@.term(), new_ast@.term()),
        keeps_functions(prev_ast@.term().kids, new_ast@.term().kids, out.2@.term().kids),
        takes_nothing(
            prev_ast@.term().kids,
            new_ast@.term().kids,
            out.2@.term().kids,
            prev_ast@.term().kids.len() as int,
            prev_ast@.root_id,
        ),
        numbered_upward(
            prev_ast@.term().kids,
            new_ast@.term().kids,
            out.2@.term().kids,
            prev_ast@.root_id,
            out.2@.max_id,
        ),
        (out.2@.term().kids, out.2@.max_id as int) == rebuilt_functions(
            prev_ast@.term(),
            new_ast@.term().kids,
            prev_ast@.nodes.dom(),
            prev_ast@.max_id as int,
        ),
        prev_ast@.term().shape() == new_ast@.term().shape() ==> out.2@ == prev_ast@ && out.0@
            == Set::<RelationView>::empty() && out.1@ == Set::<RelationView>::empty(),
{
    let ghost old_root = prev_ast@.term();
    let ghost new_root = new_ast@.term();
    let mut ws = Workspace::new(prev_ast);
    let ghost start = ws.tree@;
    let root_id = prev_ast.get_root();
    let kids1 = copy_ids(prev_ast.children(root_id));
    let kids2 = copy_ids(new_ast.children(new_ast.get_root()));
    let mut matched: Vec<bool> = Vec::new();
    while matched.len() < kids2.len()
        invariant
            matched.len() <= kids2.len(),
            forall|j: int| 0 <= j < matched.len() ==> !matched@[j],
        decreases kids2.len() - matched.len(),
    {
        matched.push(false);
    }
    let mut remaining: Vec<ID> = Vec::new();
    proof {
        assert(prev_ast@.max_id + new_root.size() <= i32::MAX) by {
            lemma_tree_size(new_ast@);
        }
        assert(kids1@ == old_root.kid_ids());
        assert(kids2@ == new_root.kid_ids());
    }
    // The functions that the maintained tree has.
    let Ghost(first) = reconcile_functions(
        &mut ws,
        prev_ast,
        new_ast,
        &kids1,
        &kids2,
        &mut matched,
        &mut remaining,
        Ghost(old_root),
        Ghost(new_root),
    );
    let ghost stayed = ws.tree@;
    let ghost first_listed = remaining@;
    let ghost first_marks = matched@;
    // The functions that are new.
    let Ghost(second) = finish_functions(
        &mut ws,
        new_ast,
        &kids2,
        &mut matched,
        &mut remaining,
        Ghost(start),
        Ghost(old_root),
        Ghost(new_root),
        Ghost(first.0),
        Ghost(first.1),
    );
    // The root.
    let ghost done = second.0;
    let ghost pairing = second.1;
    let ghost middle = ws.tree@;
    let ghost listed = remaining@;
    let ghost marks = matched@;
    let ghost made = Term {
        kind: RelationKind::TransUnit,
        id: root_id,
        name: Seq::empty(),
        kids: done,
    };
    proof {
        lemma_finished(start, middle, old_root, new_root, done, pairing, listed, marks);
    }
    if !same_ids(&remaining, &kids1) {
        let replacement = AstRelation::TransUnit { id: root_id, body_ids: copy_ids(&remaining) };
        ws.put(root_id, replacement, remaining);
        proof {
            assert(middle.nodes.dom().contains(root_id));
        }
    }
    proof {
        lemma_rebuilt_program(
            start,
            ws.tree@,
            middle,
            old_root,
            new_root,
            made,
            pairing,
            listed,
            marks,
        );
    }
    let ghost last = ws.tree@;
    proof {
        lemma_numbered(
            start,
            stayed,
            old_root,
            new_root,
            first.0,
            first.1,
            first_listed,
            first_marks,
            done,
            last.max_id as int,
        );
    }
    let out = ws.finish();
    proof {
        lemma_delta(prev_ast@.relation_set(), last.relation_set());
    }
    out
}

/// The copy at place `k` among the copies is numbered above the identity of
/// the root.
proof fn lemma_copy_above(
    olds: Seq<Term>,
    news: Seq<Term>,
    ours: Seq<Term>,
    root: ID,
    base: ID,
    k: int,
)
    requires
        is_max_key(kept_keys(root, ours, kept(olds, news, olds.len() as int).len() as int), base),
        copies_numbered(olds, news, ours, news.len() as int, base as int),
        0 <= k < added(olds, news, news.len() as int).len(),
    ensures
        copy_base(ours, kept(olds, news, olds.len() as int).len() as int, k, base as int) >= root,
        ours[kept(olds, news, olds.len() as int).len() + k].within(
            root as int,
            i32::MAX as int,
        ),
    decreases k,
{
    let n = kept(olds, news, olds.len() as int).len() as int;
    let come = added(olds, news, news.len() as int);
    let below = copy_base(ours, n, k, base as int);
    assert(0 <= come[k] < news.len());
    if k == 0 {
        assert(kept_keys(root, ours, n).contains(root));
    } else {
        lemma_copy_above(olds, news, ours, root, base, k - 1);
        assert(0 <= come[k - 1] < news.len());
        lemma_top_in_ids(ours[n + k - 1]);
        assert(ours[n + k - 1].has(ours[n + k - 1].id));
    }
    lemma_renumbered_within(news[come[k]], below);
}

/// A function of the maintained program that found no partner is gone.
/// Where the root held the largest identity of the maintained tree, none of
/// the identities of such a function is in use in the rebuilt tree, and so
/// each of its relations is among the relations to delete.
pub proof fn lemma_dropped_function(prev: TreeView, new: TreeView, updated: TreeView, i: int)
    requires
        prev.wf(),
        updated.wf(),
        updated.root_id == prev.root_id,
        prev.root_id == prev.max_id,
        keeps_functions(prev.term().kids, new.term().kids, updated.term().kids),
        takes_nothing(
            prev.term().kids,
            new.term().kids,
            updated.term().kids,
            prev.term().kids.len() as int,
            prev.root_id,
        ),
        numbered_upward(
            prev.term().kids,
            new.term().kids,
            updated.term().kids,
            prev.root_id,
            updated.max_id,
        ),
        0 <= i < prev.term().kids.len(),
        partner(prev.term().kids, new.term().kids, i) is None,
    ensures
        forall|x: ID| #[trigger]
            prev.term().kids[i].has(x) ==> prev.nodes.contains_key(x) && !updated.nodes.contains_key(
                x,
            ),
        forall|r: RelationView| #[trigger]
            prev.relation_set().contains(r) && prev.term().kids[i].has(r.id)
                ==> prev.relation_set().difference(updated.relation_set()).contains(r),
{
    let olds = prev.term().kids;
    let news = new.term().kids;
    let ours = updated.term().kids;
    let root = prev.root_id;
    let stay = kept(olds, news, olds.len() as int);
    let come = added(olds, news, news.len() as int);
    let n = stay.len() as int;
    let base = choose|base: ID| #[trigger]
        is_max_key(kept_keys(root, ours, n), base) && copies_numbered(
            olds,
            news,
            ours,
            news.len() as int,
            base as int,
        ) && updated.max_id == copies_top(ours, n, base as int);
    assert forall|x: ID| #[trigger] olds[i].has(x) implies prev.nodes.contains_key(x)
        && !updated.nodes.contains_key(x) by {
        assert(prev.term().has(x));
        assert(prev.term().ids().contains(x));
        assert(prev.nodes.dom().contains(x));
        assert(prev.term().sound());
        assert(x != root);
        if updated.nodes.contains_key(x) {
            assert(updated.term().ids().contains(x));
            let k = choose|k: int| 0 <= k < ours.len() && (#[trigger] ours[k]).has(x);
            if k < n {
                assert(ours[k].has(x));
                assert(0 <= stay[k] < olds.len() && partner(olds, news, stay[k]) is Some);
                assert(olds[stay[k]].has(x));
                if stay[k] < i {
                    assert(olds[stay[k]].apart(olds[i]));
                } else {
                    assert(olds[i].apart(olds[stay[k]]));
                }
            } else {
                lemma_copy_above(olds, news, ours, root, base, k - n);
                assert(ours[n + (k - n)] == ours[k]);
            }
        }
    }
}

/// From where the copies of new functions are numbered: from the largest
/// identity in use when the functions that stay are done.
proof fn lemma_numbered(
    start: TreeView,
    stayed: TreeView,
    old_root: Term,
    new_root: Term,
    first: Seq<Term>,
    pairing: Seq<int>,
    remaining: Seq<ID>,
    matched: Seq<bool>,
    done: Seq<Term>,
    top: int,
)
    requires
        start.represents(old_root),
        stayed.store_inv(),
        reconciling(
            start,
            stayed,
            old_root,
            new_root,
            first,
            pairing,
            remaining,
            matched,
            old_root.kids.len() as int,
        ),
        rising(
            old_root.kids,
            new_root.kids,
            done,
            new_root.kids.len() as int,
            stayed.max_id as int,
            top,
        ),
        done.len() >= first.len(),
        done.subrange(0, first.len() as int) == first,
        i32::MIN <= top <= i32::MAX,
    ensures
        numbered_upward(old_root.kids, new_root.kids, done, old_root.id, top as ID),
{
    reveal(reconciling);
    reveal(rising);
    let n = kept(old_root.kids, new_root.kids, old_root.kids.len() as int).len() as int;
    let keys = kept_keys(old_root.id, done, n);
    assert(keys =~= stayed.nodes.dom()) by {
        assert forall|x: ID| keys.contains(x) implies stayed.nodes.contains_key(x) by {
            if x != old_root.id {
                let j = choose|j: int| 0 <= j < first.len() && (#[trigger] first[j]).has(x);
                lemma_embeds_dom(first[j], stayed.nodes);
                assert(first[j].ids().contains(x));
            }
        }
        assert forall|x: ID| stayed.nodes.contains_key(x) implies keys.contains(x) by {
            if start.nodes.contains_key(x) {
                assert(start.nodes.dom().contains(x));
                assert(old_root.ids().contains(x));
            }
        }
    }
    assert(is_max_key(keys, stayed.max_id));
}

/// What is known of the rebuilt tree when all functions are done and the
/// root holds their identities.
#[verifier::spinoff_prover]
proof fn lemma_rebuilt_program(
    start: TreeView,
    end: TreeView,
    middle: TreeView,
    old_root: Term,
    new_root: Term,
    made: Term,
    pairing: Seq<int>,
    remaining: Seq<ID>,
    matched: Seq<bool>,
)
    requires
        start.represents(old_root),
        end.store_inv(),
        end.root_id == start.root_id,
        new_root.conforms(),
        new_root.kind == RelationKind::TransUnit,
        made.kind == RelationKind::TransUnit,
        made.name == Seq::<char>::empty(),
        made.id == old_root.id,
        finished(start, middle, old_root, new_root, made.kids, pairing, remaining, matched),
        forall|x: ID| #[trigger] end.nodes.contains_key(x) <==> middle.nodes.contains_key(x),
        forall|x: ID| #[trigger]
            middle.nodes.contains_key(x) && x != old_root.id ==> end.nodes[x] == middle.nodes[x],
        end.nodes[old_root.id] == made.node(),
    ensures
        end.represents(made),
        end.wf(),
        end.term() == made,
        same_program(made, new_root),
        keeps_functions(old_root.kids, new_root.kids, made.kids),
        takes_nothing(
            old_root.kids,
            new_root.kids,
            made.kids,
            old_root.kids.len() as int,
            start.root_id,
        ),
{
    reveal(finished);
    reveal(sparing);
    reveal(paired);
    reveal(stays);
    reveal(comes);
    lemma_pairing_len(pairing, new_root.kids.len() as int);
    lemma_partial_finish(start.nodes, middle.nodes, end.nodes, old_root, made);
    assert forall|k: int| 0 <= k < made.kids.len() implies (#[trigger] made.kids[k]).conforms()
        && made.kids[k].kind == RelationKind::FunDef by {
        let theirs = new_root.kids[pairing[k]];
        assert(theirs.conforms());
        lemma_conforms_shape(made.kids[k], theirs);
        lemma_shape_eq(made.kids[k], theirs);
    }
    assert(made.conforms());
    lemma_embeds_dom(made, end.nodes);
    assert(made.ids() =~= end.nodes.dom()) by {
        assert forall|x: ID| end.nodes.contains_key(x) implies made.has(x) by {
            if !made.has(x) {
                assert(start.nodes.contains_key(x) && !old_root.has(x));
                assert(old_root.ids().contains(x));
            }
        }
    }
    assert(end.represents(made));
    lemma_term_unique(end, made);
    assert(pairs_up(made.kids, new_root.kids, pairing));
    let stay = kept(old_root.kids, new_root.kids, old_root.kids.len() as int);
    let come = added(old_root.kids, new_root.kids, new_root.kids.len() as int);
    assert forall|k: int| 0 <= k < stay.len() implies 0 <= #[trigger] stay[k]
        < old_root.kids.len() && partner(old_root.kids, new_root.kids, stay[k]) is Some
        && made.kids[k].id == old_root.kids[stay[k]].id && made.kids[k].shape()
        == new_root.kids[partner(old_root.kids, new_root.kids, stay[k]).unwrap()].shape() && (
    old_root.kids[stay[k]].shape() == made.kids[k].shape() ==> made.kids[k]
        == old_root.kids[stay[k]]) && keeps_inside(
        old_root.kids[stay[k]],
        new_root.kids[partner(old_root.kids, new_root.kids, stay[k]).unwrap()],
        made.kids[k],
    ) by {
        assert(partner(old_root.kids, new_root.kids, stay[k]) == Some(pairing[k]));
        assert(made.kids[k].shape() == new_root.kids[pairing[k]].shape());
    }
    assert forall|k: int| 0 <= k < come.len() implies 0 <= #[trigger] come[k]
        < new_root.kids.len() && made.kids[stay.len() + k].shape()
        == new_root.kids[come[k]].shape() by {
        assert(pairing[stay.len() + k] == come[k]);
        assert(made.kids[stay.len() + k].shape() == new_root.kids[pairing[stay.len()
            + k]].shape());
    }
}

/// The relations to insert and to delete, taken as the two differences of the
/// sets before and after, have nothing in common and lead from the one set to
/// the other; where the sets are equal, both are empty.
pub proof fn lemma_delta(before: Set<RelationView>, after: Set<RelationView>)
    ensures
        after.difference(before).disjoint(before.difference(after)),
        before.union(after.difference(before)).difference(before.difference(after)) == after,
        before.difference(before.difference(after)).union(after.difference(before)) == after,
        before == after ==> after.difference(before) == Set::<RelationView>::empty()
            && before.difference(after) == Set::<RelationView>::empty(),
{
    assert(before.union(after.difference(before)).difference(before.difference(after)) =~= after);
    assert(before.difference(before.difference(after)).union(after.difference(before)) =~= after);
    if before == after {
        assert(after.difference(before) =~= Set::<RelationView>::empty());
        assert(before.difference(after) =~= Set::<RelationView>::empty());
    }
}

/// Whether two relations match in shape: the same tag and name, and
/// identity-valued fields that lead to relations which match in shape in
/// turn. The identities themselves do not count. Each tree must hold the
/// whole subtree under its relation; what else it holds does not matter.
/// Function definitions and translation units are held against each other
/// by `get_diff_relation_set` and are not to be passed.
pub fn relations_match(r1: &AstRelation, r2: &AstRelation, t1: &Tree, t2: &Tree) -> (same: bool)
    requires
        t1@.has_subtree(r1@.id),
        t2@.has_subtree(r2@.id),
        t1@.relation_set().contains(r1@),
        t2@.relation_set().contains(r2@),
        r1@.kind != RelationKind::FunDef && r1@.kind != RelationKind::TransUnit,
        r2@.kind != RelationKind::FunDef && r2@.kind != RelationKind::TransUnit,
    ensures
        same == shapes_match(t1@, r1@.id, t2@, r2@.id),
{
    match_terms(
        t1,
        get_relation_id(r1),
        t2,
        get_relation_id(r2),
        Ghost(t1@.subtree(r1@.id)),
        Ghost(t2@.subtree(r2@.id)),
    )
}

/// Deletes the node under `node_id` and all that lies below it. Returns the
/// relations of the deleted nodes and the tree without them, with `max_id`
/// on the largest identity left. The tree must hold the whole subtree, and
/// no node twice in it. A parent of the node keeps the node in its relation
/// and its list of children: unlink the node before or after.
pub fn delete_onwards(node_id: ID, ast: Tree) -> (out: (RelationSet, Tree))
    requires
        ast@.has_subtree(node_id),
        ast@.subtree(node_id).sound(),
    ensures
        out.1@.nodes == ast@.nodes.remove_keys(ast@.subtree(node_id).ids()),
        out.1@.root_id == ast@.root_id,
        out.1@.store_inv(),
        out.1@.seated(),
        out.0@ == ast@.relation_set().difference(out.1@.relation_set()),
        out.0@ == Set::new(
            |r: RelationView|
                ast@.relation_set().contains(r) && ast@.subtree(node_id).has(r.id),
        ),
{
    let ghost gone = ast@.subtree(node_id);
    let ghost start = ast@;
    let mut ws = Workspace::adopt(ast);
    delete_term(&mut ws, node_id, Ghost(gone));
    let (_, delete_set, tree) = ws.finish();
    proof {
        assert(delete_set@ =~= Set::new(
            |r: RelationView| start.relation_set().contains(r) && gone.has(r.id),
        ));
    }
    (delete_set, tree)
}

/// Copies into `ast` the node of `new_ast` under `node_id` and all that lies
/// below it, each under a fresh identity, children before their parents.
/// Returns the relations of the copies, the tree with them, and the identity
/// of the copy of the node. No node of the tree is linked to the copy yet.
pub fn insert_onwards(node_id: ID, ast: Tree, new_ast: &Tree) -> (out: (RelationSet, Tree, ID))
    requires
        new_ast@.has_subtree(node_id),
        ast@.max_id + new_ast@.subtree(node_id).size() <= i32::MAX,
    ensures
        ({
            let source = new_ast@.subtree(node_id);
            let copy = source.renumbered(ast@.max_id as int);
            &&& out.2 == copy.id
            &&& copy.shape() == source.shape()
            &&& copy.embeds(out.1@.nodes)
            &&& copy.sound()
            &&& out.1@.max_id == ast@.max_id + source.size()
            &&& forall|x: ID| #[trigger]
                out.1@.nodes.contains_key(x) <==> ast@.nodes.contains_key(x) || copy.has(x)
            &&& forall|x: ID| #[trigger]
                ast@.nodes.contains_key(x) ==> out.1@.nodes[x] == ast@.nodes[x] && !copy.has(x)
        }),
        out.1@.root_id == ast@.root_id,
        out.1@.store_inv(),
        out.0@ == out.1@.relation_set().difference(ast@.relation_set()),
{
    let ghost source = new_ast@.subtree(node_id);
    let ghost start = ast@;
    let mut ws = Workspace::adopt(ast);
    let (new_id, Ghost(copy)) = insert_term(&mut ws, node_id, new_ast, Ghost(source));
    proof {
        lemma_embeds_dom(copy, ws.tree@.nodes);
        assert forall|x: ID| #[trigger] start.nodes.contains_key(x) implies !copy.has(x) by {
            assert(start.nodes.dom().contains(x));
        }
    }
    let (insert_set, _, tree) = ws.finish();
    (insert_set, tree, new_id)
}

} // verus!
