//! The relations of a tree in the order in which they are shown.

use crate::ast::{get_initial_relation_set, Tree};
use crate::definitions::{AstRelation, RelationView, ID};
use crate::relation_set::views_of;
use crate::term::{lemma_sizes_prefix, lemma_tree_size, Term};
use vstd::prelude::*;

verus! {

/// The relations of a term from the top down, each with its depth: a node
/// before its children, the children in order.
pub open spec fn outline(t: Term, depth: nat) -> Seq<(nat, RelationView)>
    decreases t,
{
    seq![(depth, t.relation())] + outlines(t.kids, depth + 1)
}

/// The outlines of a list of terms, one after the other.
pub open spec fn outlines(terms: Seq<Term>, depth: nat) -> Seq<(nat, RelationView)>
    decreases terms,
{
    if terms.len() == 0 {
        Seq::empty()
    } else {
        outlines(terms.drop_last(), depth) + outline(terms.last(), depth)
    }
}

/// A list of lines as a mathematical value.
pub open spec fn lines_of(lines: Seq<(usize, AstRelation)>) -> Seq<(nat, RelationView)> {
    lines.map_values(|line: (usize, AstRelation)| (line.0 as nat, line.1@))
}

/// The outlines of a list that grows by one term.
proof fn lemma_outlines_push(terms: Seq<Term>, t: Term, depth: nat)
    ensures
        outlines(terms.push(t), depth) == outlines(terms, depth) + outline(t, depth),
{
    assert(terms.push(t).drop_last() == terms);
}

/// Appends the outline of the subtree under `id` to `out`.
fn outline_into(
    tree: &Tree,
    id: ID,
    depth: usize,
    out: &mut Vec<(usize, AstRelation)>,
    Ghost(t): Ghost<Term>,
)
    requires
        t.embeds(tree@.nodes),
        t.id == id,
        depth + t.size() <= usize::MAX,
    ensures
        lines_of(final(out)@) == lines_of(old(out)@) + outline(t, depth as nat),
    decreases t,
{
    let ghost start = lines_of(out@);
    out.push((depth, tree.relation(id).clone()));
    let ghost top = seq![(depth as nat, t.relation())];
    assert(lines_of(out@) =~= start + top);
    let children = tree.children(id);
    let mut i: usize = 0;
    proof {
        assert(t.kids.subrange(0, 0) =~= Seq::<Term>::empty());
        assert(lines_of(out@) =~= start + top + outlines(t.kids.subrange(0, 0), (depth + 1) as nat));
    }
    while i < children.len()
        invariant
            0 <= i <= children.len(),
            t.embeds(tree@.nodes),
            children@ == t.kid_ids(),
            depth + t.size() <= usize::MAX,
            lines_of(out@) == start + top + outlines(
                t.kids.subrange(0, i as int),
                (depth + 1) as nat,
            ),
        decreases children.len() - i,
    {
        proof {
            assert(t.kid_ids()[i as int] == t.kids[i as int].id);
            lemma_sizes_prefix(t.kids, i as int);
            lemma_outlines_push(t.kids.subrange(0, i as int), t.kids[i as int], (depth + 1) as nat);
            assert(t.kids.subrange(0, i + 1) =~= t.kids.subrange(0, i as int).push(
                t.kids[i as int],
            ));
        }
        outline_into(tree, children[i], depth + 1, out, Ghost(t.kids[i as int]));
        i += 1;
    }
    proof {
        assert(t.kids.subrange(0, i as int) =~= t.kids);
        assert(start + top + outlines(t.kids, (depth + 1) as nat) =~= start + outline(
            t,
            depth as nat,
        ));
    }
}

impl Tree {
    /// The lines in which the tree is shown: the relation of each node with
    /// its depth below the root, a node before its children.
    pub fn pretty_print(&self) -> (lines: Vec<(usize, AstRelation)>)
        requires
            self@.wf(),
        ensures
            lines_of(lines@) == outline(self@.term(), 0),
    {
        let mut lines: Vec<(usize, AstRelation)> = Vec::new();
        let size = self.size();
        proof {
            lemma_tree_size(self@);
            assert(lines_of(lines@) =~= Seq::<(nat, RelationView)>::empty());
        }
        outline_into(self, self.get_root(), 0, &mut lines, Ghost(self@.term()));
        proof {
            assert(Seq::<(nat, RelationView)>::empty() + outline(self@.term(), 0) =~= outline(
                self@.term(),
                0,
            ));
        }
        lines
    }

    /// The relations of all nodes, each once, in no order that is promised.
    pub fn flat_print(&self) -> (lines: Vec<AstRelation>)
        ensures
            views_of(lines@).no_duplicates(),
            views_of(lines@).to_set() == self@.relation_set(),
    {
        get_initial_relation_set(self).to_vec()
    }
}

} // verus!
