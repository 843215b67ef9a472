//! The mathematical model of a well-formed tree: a term whose nodes carry
//! identities, the shape that is left when the identities are forgotten, and
//! what it means for an arena to hold a term.

use crate::ast::{NodeView, TreeView};
use crate::definitions::{
    arity_fits, is_cell_kind, is_named_kind, is_statement_kind, is_type_kind, RelationKind,
    RelationView, ID,
};
use vstd::prelude::*;

verus! {

/// A node together with the subtrees below it.
pub struct Term {
    pub kind: RelationKind,
    pub id: ID,
    pub name: Seq<char>,
    pub kids: Seq<Term>,
}

/// A term without its identities.
pub struct Shape {
    pub kind: RelationKind,
    pub name: Seq<char>,
    pub kids: Seq<Shape>,
}

impl Term {
    /// The identities of the children, in order.
    pub open spec fn kid_ids(self) -> Seq<ID> {
        Seq::new(self.kids.len(), |i: int| self.kids[i].id)
    }

    /// The relation at the top of the term.
    pub open spec fn relation(self) -> RelationView {
        RelationView { kind: self.kind, id: self.id, name: self.name, children: self.kid_ids() }
    }

    /// The node at the top of the term.
    pub open spec fn node(self) -> NodeView {
        NodeView { relation: self.relation(), children: self.kid_ids() }
    }

    /// Whether an identity occurs in the term.
    pub open spec fn has(self, x: ID) -> bool
        decreases self,
    {
        x == self.id || exists|i: int| 0 <= i < self.kids.len() && (#[trigger] self.kids[i]).has(x)
    }

    /// All identities in the term.
    pub open spec fn ids(self) -> Set<ID> {
        Set::new(|x: ID| self.has(x))
    }

    /// The number of nodes in the term.
    pub open spec fn size(self) -> nat
        decreases self,
    {
        1 + sizes(self.kids)
    }

    /// The term without its identities.
    pub open spec fn shape(self) -> Shape
        decreases self,
    {
        Shape {
            kind: self.kind,
            name: self.name,
            kids: Seq::new(
                self.kids.len(),
                |i: int|
                    if 0 <= i < self.kids.len() {
                        self.kids[i].shape()
                    } else {
                        Shape { kind: self.kind, name: self.name, kids: Seq::empty() }
                    },
            ),
        }
    }

    /// The two terms have no identity in common.
    pub open spec fn apart(self, other: Term) -> bool {
        forall|x: ID| #[trigger] self.has(x) ==> !other.has(x)
    }

    /// No identity occurs twice in the term.
    pub open spec fn sound(self) -> bool
        decreases self,
    {
        &&& forall|i: int| 0 <= i < self.kids.len() ==> (#[trigger] self.kids[i]).sound()
        &&& forall|i: int| 0 <= i < self.kids.len() ==> !(#[trigger] self.kids[i]).has(self.id)
        &&& forall|i: int, j: int|
            0 <= i < j < self.kids.len() ==> (#[trigger] self.kids[i]).apart(
                #[trigger] self.kids[j],
            )
    }

    /// Whether the kinds of the children fit the kind of the node.
    pub open spec fn kids_fit(self) -> bool {
        let n = self.kids.len() as int;
        match self.kind {
            RelationKind::TransUnit => forall|i: int|
                0 <= i < n ==> (#[trigger] self.kids[i]).kind == RelationKind::FunDef,
            RelationKind::FunDef => {
                &&& n >= 2
                &&& is_type_kind(self.kids[0].kind)
                &&& self.kids[n - 1].kind == RelationKind::Compound
                &&& forall|i: int|
                    0 < i < n - 1 ==> (#[trigger] self.kids[i]).kind == RelationKind::Arg
            },
            RelationKind::Arg => n == 1 && is_type_kind(self.kids[0].kind),
            RelationKind::Assign => n == 2 && is_type_kind(self.kids[0].kind)
                && is_statement_kind(self.kids[1].kind),
            RelationKind::Compound => n == 1 && is_cell_kind(self.kids[0].kind),
            RelationKind::Item => n == 2 && is_statement_kind(self.kids[0].kind) && is_cell_kind(
                self.kids[1].kind,
            ),
            RelationKind::EndItem => n == 1 && is_statement_kind(self.kids[0].kind),
            _ => forall|i: int| 0 <= i < n ==> is_statement_kind((#[trigger] self.kids[i]).kind),
        }
    }

    /// The term is built as the language allows: at every node the number and
    /// the kinds of the children fit its kind, and only named kinds carry a
    /// name.
    pub open spec fn conforms(self) -> bool
        decreases self,
    {
        &&& arity_fits(self.kind, self.kids.len())
        &&& !is_named_kind(self.kind) ==> self.name == Seq::<char>::empty()
        &&& self.kids_fit()
        &&& forall|i: int| 0 <= i < self.kids.len() ==> (#[trigger] self.kids[i]).conforms()
    }

    /// The arena holds every node of the term, as the term says.
    pub open spec fn embeds(self, nodes: Map<ID, NodeView>) -> bool
        decreases self,
    {
        &&& nodes.contains_key(self.id)
        &&& nodes[self.id] == self.node()
        &&& forall|i: int| 0 <= i < self.kids.len() ==> (#[trigger] self.kids[i]).embeds(nodes)
    }

    /// The term with fresh identities above `base`, given out from the leaves
    /// up and from the first child to the last, so that the top of each
    /// subterm has the largest identity in it.
    pub open spec fn renumbered(self, base: int) -> Term
        decreases self,
    {
        Term {
            kind: self.kind,
            id: (base + self.size()) as ID,
            name: self.name,
            kids: Seq::new(
                self.kids.len(),
                |i: int|
                    if 0 <= i < self.kids.len() {
                        self.kids[i].renumbered(base + sizes(self.kids.subrange(0, i)))
                    } else {
                        self
                    },
            ),
        }
    }

    /// All identities of the term lie above `low` and not above `high`.
    pub open spec fn within(self, low: int, high: int) -> bool {
        forall|x: ID| #[trigger] self.has(x) ==> low < x <= high
    }

    /// The identities of the first `n` children.
    pub open spec fn kid_ids_upto(self, n: int) -> Set<ID> {
        Set::new(|x: ID| exists|j: int| 0 <= j < n && (#[trigger] self.kids[j]).has(x))
    }

    /// The subterm with the given identity, where the term holds it.
    pub open spec fn at(self, id: ID) -> Term
        decreases self,
    {
        if self.id != id && exists|i: int|
            0 <= i < self.kids.len() && (#[trigger] self.kids[i]).has(id) {
            let i = choose|i: int| 0 <= i < self.kids.len() && (#[trigger] self.kids[i]).has(id);
            self.kids[i].at(id)
        } else {
            self
        }
    }
}

impl Shape {
    /// The number of nodes in the shape.
    pub open spec fn size(self) -> nat
        decreases self,
    {
        1 + shape_sizes(self.kids)
    }

    /// A shape without children.
    pub open spec fn leaf(kind: RelationKind) -> Shape {
        Shape { kind, name: Seq::empty(), kids: Seq::empty() }
    }
}

/// The number of nodes in a list of shapes.
pub open spec fn shape_sizes(shapes: Seq<Shape>) -> nat
    decreases shapes,
{
    if shapes.len() == 0 {
        0
    } else {
        shape_sizes(shapes.drop_last()) + shapes.last().size()
    }
}

/// The number of nodes in a list of terms.
pub open spec fn sizes(terms: Seq<Term>) -> nat
    decreases terms,
{
    if terms.len() == 0 {
        0
    } else {
        sizes(terms.drop_last()) + terms.last().size()
    }
}

impl TreeView {
    /// The tree is exactly this term: the arena holds the term's nodes and no
    /// others, the term is sound and built as the language allows, and its top
    /// is the root, a translation unit.
    pub open spec fn represents(self, term: Term) -> bool {
        &&& self.store_inv()
        &&& term.embeds(self.nodes)
        &&& term.sound()
        &&& term.conforms()
        &&& term.ids() == self.nodes.dom()
        &&& term.id == self.root_id
        &&& term.kind == RelationKind::TransUnit
    }

    /// The tree invariants hold: the arena is closed under the identities in
    /// its relations, every list of children agrees with the relation beside
    /// it, `max_id` bounds the identities, the root is a translation unit, and
    /// the child links form a tree that reaches every node.
    pub open spec fn wf(self) -> bool {
        exists|term: Term| self.represents(term)
    }

    /// The term that a well-formed tree is.
    pub open spec fn term(self) -> Term {
        choose|term: Term| self.represents(term)
    }

    /// Whether the arena holds a whole subtree under the identity: the node
    /// itself, with the children that its relation names, and a whole subtree
    /// under each of them. The rest of the tree may be anything.
    pub open spec fn has_subtree(self, id: ID) -> bool {
        exists|t: Term| #[trigger] t.embeds(self.nodes) && t.id == id
    }

    /// The subtree under an identity, where the arena holds one.
    pub open spec fn subtree(self, id: ID) -> Term {
        choose|t: Term| #[trigger] t.embeds(self.nodes) && t.id == id
    }
}

/// The identities of a term that is numbered upward from `base` lie right
/// above `base`, the top being the largest.
pub proof fn lemma_renumbered_within(t: Term, base: int)
    requires
        i32::MIN <= base,
        base + t.size() <= i32::MAX,
    ensures
        t.renumbered(base).within(base, base + t.size()),
        t.renumbered(base).id == base + t.size(),
    decreases t,
{
    let copy = t.renumbered(base);
    assert forall|x: ID| #[trigger] copy.has(x) implies base < x <= base + t.size() by {
        if x != copy.id {
            let i = choose|i: int| 0 <= i < copy.kids.len() && (#[trigger] copy.kids[i]).has(x);
            lemma_sizes_prefix(t.kids, i);
            lemma_renumbered_within(t.kids[i], base + sizes(t.kids.subrange(0, i)));
        }
    }
}

/// A term that the arena holds is the subtree under its top.
pub proof fn lemma_subtree(tree: TreeView, t: Term)
    requires
        t.embeds(tree.nodes),
    ensures
        tree.has_subtree(t.id),
        tree.subtree(t.id) == t,
{
    lemma_embeds_unique(tree.subtree(t.id), t, tree.nodes);
}

/// The top of a term is among its identities.
pub proof fn lemma_top_in_ids(t: Term)
    ensures
        t.ids().contains(t.id),
{
}

/// The identities of a child are among those of the term.
pub proof fn lemma_kid_ids(t: Term, i: int)
    requires
        0 <= i < t.kids.len(),
    ensures
        t.kids[i].ids().subset_of(t.ids()),
        forall|x: ID| #[trigger] t.kids[i].has(x) ==> t.has(x),
        t.has(t.kids[i].id),
{
    lemma_top_in_ids(t.kids[i]);
}

/// An arena that holds a term holds all its identities.
pub proof fn lemma_embeds_dom(t: Term, nodes: Map<ID, NodeView>)
    requires
        t.embeds(nodes),
    ensures
        t.ids().subset_of(nodes.dom()),
        forall|x: ID| #[trigger] t.has(x) ==> nodes.contains_key(x),
    decreases t,
{
    assert forall|x: ID| #[trigger] t.has(x) implies nodes.contains_key(x) by {
        if x != t.id {
            let i = choose|i: int| 0 <= i < t.kids.len() && (#[trigger] t.kids[i]).has(x);
            lemma_embeds_dom(t.kids[i], nodes);
        }
    }
}

/// A term stays in the arena when the arena changes elsewhere.
pub proof fn lemma_embeds_frame(t: Term, before: Map<ID, NodeView>, after: Map<ID, NodeView>)
    requires
        t.embeds(before),
        forall|x: ID| #[trigger] t.has(x) ==> after.contains_key(x) && after[x] == before[x],
    ensures
        t.embeds(after),
    decreases t,
{
    lemma_top_in_ids(t);
    assert forall|i: int| 0 <= i < t.kids.len() implies (#[trigger] t.kids[i]).embeds(after) by {
        lemma_kid_ids(t, i);
        lemma_embeds_frame(t.kids[i], before, after);
    }
}

/// An arena holds at most one term under each identity.
pub proof fn lemma_embeds_unique(a: Term, b: Term, nodes: Map<ID, NodeView>)
    requires
        a.embeds(nodes),
        b.embeds(nodes),
        a.id == b.id,
    ensures
        a == b,
    decreases a,
{
    assert(a.node() == b.node());
    assert(a.kid_ids() == b.kid_ids());
    assert(a.kids.len() == a.kid_ids().len());
    assert(b.kids.len() == b.kid_ids().len());
    assert forall|i: int| 0 <= i < a.kids.len() implies a.kids[i] == b.kids[i] by {
        assert(a.kid_ids()[i] == a.kids[i].id);
        assert(b.kid_ids()[i] == b.kids[i].id);
        lemma_embeds_unique(a.kids[i], b.kids[i], nodes);
    }
    assert(a.kids =~= b.kids);
}

/// A well-formed tree is one term only.
pub proof fn lemma_term_unique(tree: TreeView, term: Term)
    requires
        tree.represents(term),
    ensures
        tree.wf(),
        tree.term() == term,
{
    lemma_embeds_unique(term, tree.term(), tree.nodes);
}

/// What two terms of the same shape have in common, and the other way round.
pub proof fn lemma_shape_eq(a: Term, b: Term)
    ensures
        a.shape() == b.shape() <==> {
            &&& a.kind == b.kind
            &&& a.name == b.name
            &&& a.kids.len() == b.kids.len()
            &&& forall|i: int|
                0 <= i < a.kids.len() ==> (#[trigger] a.kids[i]).shape() == b.kids[i].shape()
        },
{
    if a.shape() == b.shape() {
        assert(a.shape().kids.len() == a.kids.len());
        assert(b.shape().kids.len() == b.kids.len());
        assert forall|i: int| 0 <= i < a.kids.len() implies (#[trigger] a.kids[i]).shape()
            == b.kids[i].shape() by {
            assert(a.shape().kids[i] == a.kids[i].shape());
            assert(b.shape().kids[i] == b.kids[i].shape());
        }
    }
    if a.kind == b.kind && a.name == b.name && a.kids.len() == b.kids.len() && (forall|i: int|
        0 <= i < a.kids.len() ==> (#[trigger] a.kids[i]).shape() == b.kids[i].shape()) {
        assert(a.shape().kids =~= b.shape().kids);
    }
}

/// Whether a term is built as the language allows is a matter of its shape.
pub proof fn lemma_conforms_shape(a: Term, b: Term)
    requires
        a.shape() == b.shape(),
        b.conforms(),
    ensures
        a.conforms(),
        a.size() == b.size(),
    decreases a,
{
    lemma_shape_eq(a, b);
    assert forall|i: int| 0 <= i < a.kids.len() implies (#[trigger] a.kids[i]).conforms()
        && a.kids[i].kind == b.kids[i].kind && a.kids[i].size() == b.kids[i].size() by {
        assert(b.kids[i].conforms());
        lemma_conforms_shape(a.kids[i], b.kids[i]);
        lemma_shape_eq(a.kids[i], b.kids[i]);
    }
    assert(a.kids_fit()) by {
        assert forall|i: int| 0 <= i < a.kids.len() implies (#[trigger] a.kids[i]).kind
            == b.kids[i].kind by {}
    }
    lemma_sizes_same(a.kids, b.kids);
}

/// Lists of terms that agree in size term by term agree in size.
pub proof fn lemma_sizes_same(a: Seq<Term>, b: Seq<Term>)
    requires
        a.len() == b.len(),
        forall|i: int| 0 <= i < a.len() ==> (#[trigger] a[i]).size() == b[i].size(),
    ensures
        sizes(a) == sizes(b),
    decreases a.len(),
{
    if a.len() > 0 {
        assert(a.last().size() == b[a.len() - 1].size());
        lemma_sizes_same(a.drop_last(), b.drop_last());
    }
}

/// The subterm under an identity of a term: it is held, sound and built as
/// the language allows where the term is, and its identities are among the
/// term's.
pub proof fn lemma_at(t: Term, id: ID, nodes: Map<ID, NodeView>)
    requires
        t.ids().contains(id),
    ensures
        t.at(id).id == id,
        t.at(id).ids().subset_of(t.ids()),
        t.embeds(nodes) ==> t.at(id).embeds(nodes),
        t.sound() ==> t.at(id).sound(),
        t.conforms() ==> t.at(id).conforms(),
    decreases t,
{
    if t.id != id {
        let i = choose|i: int| 0 <= i < t.kids.len() && (#[trigger] t.kids[i]).has(id);
        lemma_at(t.kids[i], id, nodes);
        lemma_kid_ids(t, i);
    }
}

/// The sizes of a list that grows by one term.
pub proof fn lemma_sizes_push(terms: Seq<Term>, t: Term)
    ensures
        sizes(terms.push(t)) == sizes(terms) + t.size(),
{
    assert(terms.push(t).drop_last() == terms);
}

/// The size of a term with one child or with two.
pub proof fn lemma_size_small(t: Term)
    ensures
        t.kids.len() == 0 ==> t.size() == 1,
        t.kids.len() == 1 ==> t.size() == 1 + t.kids[0].size(),
        t.kids.len() == 2 ==> t.size() == 1 + t.kids[0].size() + t.kids[1].size(),
{
    if t.kids.len() == 1 {
        assert(sizes(t.kids.drop_last()) == 0);
    }
    if t.kids.len() == 2 {
        let front = t.kids.drop_last();
        assert(front.len() == 1);
        assert(sizes(front.drop_last()) == 0);
        assert(front.last() == t.kids[0]);
        assert(sizes(front) == sizes(front.drop_last()) + front.last().size());
        assert(sizes(t.kids) == sizes(front) + t.kids.last().size());
    }
}

/// The size of a part of a list is bounded by the size of the list.
pub proof fn lemma_sizes_prefix(terms: Seq<Term>, n: int)
    requires
        0 <= n <= terms.len(),
    ensures
        sizes(terms.subrange(0, n)) <= sizes(terms),
        n < terms.len() ==> sizes(terms.subrange(0, n)) + terms[n].size() <= sizes(terms),
    decreases terms.len(),
{
    if n == terms.len() {
        assert(terms.subrange(0, n) == terms);
    } else {
        let shorter = terms.drop_last();
        assert(shorter.subrange(0, n) == terms.subrange(0, n));
        lemma_sizes_prefix(shorter, n);
        if n < shorter.len() {
            assert(shorter[n] == terms[n]);
        } else {
            assert(shorter.subrange(0, n) == shorter);
        }
    }
}

/// A sound term has as many identities as nodes.
pub proof fn lemma_size_count(t: Term)
    requires
        t.sound(),
    ensures
        t.ids().finite(),
        t.ids().len() == t.size(),
    decreases t, t.kids.len() + 1,
{
    let n = t.kids.len() as int;
    lemma_kids_count(t, n);
    assert(t.kids.subrange(0, n) =~= t.kids);
    assert(t.ids() =~= t.kid_ids_upto(n).insert(t.id)) by {
        assert forall|x: ID| t.ids().contains(x) implies t.kid_ids_upto(n).insert(t.id).contains(
            x,
        ) by {
            if x != t.id {
                let i = choose|i: int| 0 <= i < t.kids.len() && (#[trigger] t.kids[i]).has(x);
                assert(t.kid_ids_upto(n).contains(x));
            }
        }
    }
    assert(!t.kid_ids_upto(n).contains(t.id));
    vstd::set::axiom_set_insert_len(t.kid_ids_upto(n), t.id);
    vstd::set::axiom_set_insert_finite(t.kid_ids_upto(n), t.id);
}

/// The first `n` children of a sound term have as many identities as nodes.
pub proof fn lemma_kids_count(t: Term, n: int)
    requires
        t.sound(),
        0 <= n <= t.kids.len(),
    ensures
        t.kid_ids_upto(n).finite(),
        t.kid_ids_upto(n).len() == sizes(t.kids.subrange(0, n)),
    decreases t, n,
{
    if n == 0 {
        assert(t.kid_ids_upto(0) =~= Set::<ID>::empty());
        assert(t.kids.subrange(0, 0) =~= Seq::<Term>::empty());
    } else {
        let kid = t.kids[n - 1];
        lemma_kids_count(t, n - 1);
        lemma_size_count(kid);
        let front = t.kid_ids_upto(n - 1);
        assert(t.kid_ids_upto(n) =~= front + kid.ids()) by {
            assert forall|x: ID| t.kid_ids_upto(n).contains(x) implies (front + kid.ids()).contains(
                x,
            ) by {
                let j = choose|j: int| 0 <= j < n && (#[trigger] t.kids[j]).has(x);
                if j < n - 1 {
                    assert(front.contains(x));
                }
            }
            assert forall|x: ID| (front + kid.ids()).contains(x) implies t.kid_ids_upto(
                n,
            ).contains(x) by {
                if front.contains(x) {
                    let j = choose|j: int| 0 <= j < n - 1 && (#[trigger] t.kids[j]).has(x);
                    assert(0 <= j < n);
                } else {
                    assert(t.kids[n - 1].has(x));
                }
            }
        }
        assert(front.disjoint(kid.ids())) by {
            assert forall|x: ID| front.contains(x) implies !kid.ids().contains(x) by {
                let j = choose|j: int| 0 <= j < n - 1 && (#[trigger] t.kids[j]).has(x);
                assert(t.kids[j].apart(t.kids[n - 1]));
            }
        }
        vstd::set_lib::lemma_set_disjoint_lens(front, kid.ids());
        vstd::set::axiom_set_union_finite(front, kid.ids());
        assert(t.kids.subrange(0, n) =~= t.kids.subrange(0, n - 1).push(kid));
        lemma_sizes_push(t.kids.subrange(0, n - 1), kid);
    }
}

/// A well-formed tree has as many nodes as its term.
pub proof fn lemma_tree_size(tree: TreeView)
    requires
        tree.wf(),
    ensures
        tree.nodes.len() == tree.term().size(),
        tree.represents(tree.term()),
{
    lemma_size_count(tree.term());
}

/// Whether the subtrees under two identities of two trees have the same
/// shape.
pub open spec fn shapes_match(t1: TreeView, id1: ID, t2: TreeView, id2: ID) -> bool {
    t1.subtree(id1).shape() == t2.subtree(id2).shape()
}

/// The subterm under an identity of a well-formed tree is what the arena
/// holds there: its top is the node, and its children are the subterms under
/// the children of the node.
pub proof fn lemma_subterm(tree: TreeView, id: ID)
    requires
        tree.wf(),
        tree.nodes.contains_key(id),
    ensures
        tree.term().has(id),
        tree.has_subtree(id),
        tree.subtree(id) == tree.term().at(id),
        tree.term().at(id).id == id,
        tree.term().at(id).embeds(tree.nodes),
        tree.term().at(id).sound(),
        tree.term().at(id).conforms(),
        tree.term().at(id).node() == tree.nodes[id],
        tree.term().at(id).kids.len() == tree.nodes[id].children.len(),
        forall|i: int|
            0 <= i < tree.nodes[id].children.len() ==> tree.nodes.contains_key(
                #[trigger] tree.nodes[id].children[i],
            ) && tree.term().at(id).kids[i] == tree.term().at(tree.nodes[id].children[i]),
{
    let root = tree.term();
    assert(root.ids().contains(id));
    lemma_at(root, id, tree.nodes);
    let sub = root.at(id);
    lemma_subtree(tree, sub);
    assert(sub.kid_ids().len() == sub.kids.len());
    assert forall|i: int| 0 <= i < tree.nodes[id].children.len() implies tree.nodes.contains_key(
        #[trigger] tree.nodes[id].children[i],
    ) && sub.kids[i] == root.at(tree.nodes[id].children[i]) by {
        let kid = sub.kids[i];
        assert(sub.kid_ids()[i] == kid.id);
        assert(kid.embeds(tree.nodes));
        assert(root.ids().contains(kid.id));
        lemma_at(root, kid.id, tree.nodes);
        lemma_embeds_unique(kid, root.at(kid.id), tree.nodes);
    }
}

/// Shape matching is reflexive.
pub proof fn lemma_match_reflexive(tree: TreeView, id: ID)
    ensures
        shapes_match(tree, id, tree, id),
{
}

/// Shape matching is symmetric.
pub proof fn lemma_match_symmetric(t1: TreeView, id1: ID, t2: TreeView, id2: ID)
    ensures
        shapes_match(t1, id1, t2, id2) == shapes_match(t2, id2, t1, id1),
{
}

/// Shape matching is transitive.
pub proof fn lemma_match_transitive(
    t1: TreeView,
    id1: ID,
    t2: TreeView,
    id2: ID,
    t3: TreeView,
    id3: ID,
)
    requires
        shapes_match(t1, id1, t2, id2),
        shapes_match(t2, id2, t3, id3),
    ensures
        shapes_match(t1, id1, t3, id3),
{
}

/// Two nodes match in shape exactly when their relations have the same tag
/// and the same name, and as many identity-valued fields, which match in
/// shape one by one.
pub proof fn lemma_match_unfold(t1: TreeView, id1: ID, t2: TreeView, id2: ID)
    requires
        t1.has_subtree(id1),
        t2.has_subtree(id2),
    ensures
        shapes_match(t1, id1, t2, id2) <==> {
            let r1 = t1.nodes[id1].relation;
            let r2 = t2.nodes[id2].relation;
            &&& r1.kind == r2.kind
            &&& r1.name == r2.name
            &&& r1.children.len() == r2.children.len()
            &&& forall|i: int|
                0 <= i < r1.children.len() ==> shapes_match(
                    t1,
                    #[trigger] r1.children[i],
                    t2,
                    r2.children[i],
                )
        },
{
    let a = t1.subtree(id1);
    let b = t2.subtree(id2);
    lemma_shape_eq(a, b);
    let r1 = t1.nodes[id1].relation;
    let r2 = t2.nodes[id2].relation;
    assert(a.kids.len() == a.kid_ids().len());
    assert(b.kids.len() == b.kid_ids().len());
    assert(r1.children == a.kid_ids());
    assert(r2.children == b.kid_ids());
    assert forall|i: int| 0 <= i < a.kids.len() implies t1.subtree(#[trigger] r1.children[i])
        == a.kids[i] by {
        assert(a.kid_ids()[i] == a.kids[i].id);
        lemma_subtree(t1, a.kids[i]);
    }
    assert forall|i: int| 0 <= i < b.kids.len() implies t2.subtree(#[trigger] r2.children[i])
        == b.kids[i] by {
        assert(b.kid_ids()[i] == b.kids[i].id);
        lemma_subtree(t2, b.kids[i]);
    }
    if a.shape() == b.shape() {
        assert forall|i: int| 0 <= i < r1.children.len() implies shapes_match(
            t1,
            #[trigger] r1.children[i],
            t2,
            r2.children[i],
        ) by {
            assert(a.kids[i].shape() == b.kids[i].shape());
        }
    }
    if r1.kind == r2.kind && r1.name == r2.name && r1.children.len() == r2.children.len()
        && (forall|i: int|
        0 <= i < r1.children.len() ==> shapes_match(
            t1,
            #[trigger] r1.children[i],
            t2,
            r2.children[i],
        )) {
        assert forall|i: int| 0 <= i < a.kids.len() implies (#[trigger] a.kids[i]).shape()
            == b.kids[i].shape() by {
            assert(shapes_match(t1, r1.children[i], t2, r2.children[i]));
        }
    }
}

/// A term has as many nodes as its shape.
pub proof fn lemma_shape_size(t: Term)
    ensures
        t.shape().size() == t.size(),
    decreases t, t.kids.len() + 1,
{
    lemma_shape_sizes(t, t.kids.len() as int);
    assert(t.kids.subrange(0, t.kids.len() as int) =~= t.kids);
    assert(t.shape().kids.subrange(0, t.kids.len() as int) =~= t.shape().kids);
}

/// The first `n` children of a term have as many nodes as their shapes.
pub proof fn lemma_shape_sizes(t: Term, n: int)
    requires
        0 <= n <= t.kids.len(),
    ensures
        shape_sizes(t.shape().kids.subrange(0, n)) == sizes(t.kids.subrange(0, n)),
    decreases t, n,
{
    let shapes = t.shape().kids.subrange(0, n);
    let terms = t.kids.subrange(0, n);
    if n > 0 {
        lemma_shape_sizes(t, n - 1);
        lemma_shape_size(t.kids[n - 1]);
        assert(shapes.drop_last() =~= t.shape().kids.subrange(0, n - 1));
        assert(terms.drop_last() =~= t.kids.subrange(0, n - 1));
        assert(shapes.last() == t.kids[n - 1].shape());
        assert(terms.last() == t.kids[n - 1]);
    }
}

/// The sizes of a list of shapes that grows by one.
pub proof fn lemma_shape_sizes_push(shapes: Seq<Shape>, s: Shape)
    ensures
        shape_sizes(shapes.push(s)) == shape_sizes(shapes) + s.size(),
{
    assert(shapes.push(s).drop_last() == shapes);
}

/// The identity of a child of a subterm occurs in the term, below the top.
pub proof fn lemma_at_kid(t: Term, p: ID, i: int)
    requires
        t.has(p),
        0 <= i < t.at(p).kids.len(),
    ensures
        t.has(t.at(p).kids[i].id),
        t.sound() ==> t.at(p).kids[i].id != t.id,
        p != t.id ==> exists|k: int|
            0 <= k < t.kids.len() && (#[trigger] t.kids[k]).has(p) && t.kids[k].has(
                t.at(p).kids[i].id,
            ) && t.at(p) == t.kids[k].at(p),
        p == t.id ==> t.at(p) == t,
    decreases t,
{
    let x = t.at(p).kids[i].id;
    if p == t.id {
        lemma_top_in_ids(t.kids[i]);
        assert(t.kids[i].has(x));
    } else {
        let k = choose|k: int| 0 <= k < t.kids.len() && (#[trigger] t.kids[k]).has(p);
        lemma_at_kid(t.kids[k], p, i);
        assert(t.kids[k].has(x));
        if t.sound() {
            assert(!t.kids[k].has(t.id));
        }
    }
}

/// In a sound term no identity is the child of two nodes, nor twice the
/// child of one.
pub proof fn lemma_one_parent(t: Term, p: ID, i: int, q: ID, j: int)
    requires
        t.sound(),
        t.has(p),
        t.has(q),
        0 <= i < t.at(p).kids.len(),
        0 <= j < t.at(q).kids.len(),
        t.at(p).kids[i].id == t.at(q).kids[j].id,
    ensures
        p == q && i == j,
    decreases t,
{
    let x = t.at(p).kids[i].id;
    lemma_at_kid(t, p, i);
    lemma_at_kid(t, q, j);
    if p == t.id && q == t.id {
        lemma_top_in_ids(t.kids[i]);
        lemma_top_in_ids(t.kids[j]);
        if i < j {
            assert(t.kids[i].apart(t.kids[j]));
        } else if j < i {
            assert(t.kids[j].apart(t.kids[i]));
        }
    } else if p == t.id {
        lemma_top_in_ids(t.kids[i]);
        let k = choose|k: int|
            0 <= k < t.kids.len() && (#[trigger] t.kids[k]).has(q) && t.kids[k].has(x) && t.at(q)
                == t.kids[k].at(q);
        if i < k {
            assert(t.kids[i].apart(t.kids[k]));
        } else if k < i {
            assert(t.kids[k].apart(t.kids[i]));
        }
        assert(t.kids[k].sound());
        lemma_at_kid(t.kids[k], q, j);
    } else if q == t.id {
        lemma_top_in_ids(t.kids[j]);
        let k = choose|k: int|
            0 <= k < t.kids.len() && (#[trigger] t.kids[k]).has(p) && t.kids[k].has(x) && t.at(p)
                == t.kids[k].at(p);
        if j < k {
            assert(t.kids[j].apart(t.kids[k]));
        } else if k < j {
            assert(t.kids[k].apart(t.kids[j]));
        }
        assert(t.kids[k].sound());
        lemma_at_kid(t.kids[k], p, i);
    } else {
        let a = choose|k: int|
            0 <= k < t.kids.len() && (#[trigger] t.kids[k]).has(p) && t.kids[k].has(x) && t.at(p)
                == t.kids[k].at(p);
        let b = choose|k: int|
            0 <= k < t.kids.len() && (#[trigger] t.kids[k]).has(q) && t.kids[k].has(x) && t.at(q)
                == t.kids[k].at(q);
        if a < b {
            assert(t.kids[a].apart(t.kids[b]));
        } else if b < a {
            assert(t.kids[b].apart(t.kids[a]));
        }
        assert(t.kids[a].sound());
        lemma_one_parent(t.kids[a], p, i, q, j);
    }
}

/// Every identity of a sound term but the top is the child of a node of the
/// term.
pub proof fn lemma_has_parent(t: Term, x: ID)
    requires
        t.sound(),
        t.has(x),
        x != t.id,
    ensures
        exists|p: ID, i: int|
            #![trigger t.at(p).kids[i]]
            t.has(p) && 0 <= i < t.at(p).kids.len() && t.at(p).kids[i].id == x,
    decreases t,
{
    let k = choose|k: int| 0 <= k < t.kids.len() && (#[trigger] t.kids[k]).has(x);
    if t.kids[k].id == x {
        lemma_top_in_ids(t);
        assert(t.at(t.id) == t);
        assert(t.has(t.id) && 0 <= k < t.at(t.id).kids.len() && t.at(t.id).kids[k].id == x);
    } else {
        assert(t.kids[k].sound());
        lemma_has_parent(t.kids[k], x);
        let (p, i) = choose|p: ID, i: int|
            #![trigger t.kids[k].at(p).kids[i]]
            t.kids[k].has(p) && 0 <= i < t.kids[k].at(p).kids.len() && t.kids[k].at(p).kids[i].id
                == x;
        lemma_at_in_kid(t, k, p);
        assert(t.has(p) && 0 <= i < t.at(p).kids.len() && t.at(p).kids[i].id == x);
    }
}

/// In a sound term the subterm under an identity of a child is found in the
/// child.
pub proof fn lemma_at_in_kid(t: Term, k: int, p: ID)
    requires
        0 <= k < t.kids.len(),
        t.kids[k].has(p),
    ensures
        t.has(p),
        t.sound() ==> t.at(p) == t.kids[k].at(p),
{
    if t.sound() {
        assert(p != t.id);
        let c = choose|c: int| 0 <= c < t.kids.len() && (#[trigger] t.kids[c]).has(p);
        if c < k {
            assert(t.kids[c].apart(t.kids[k]));
        } else if k < c {
            assert(t.kids[k].apart(t.kids[c]));
        }
    }
}

/// What a well-formed tree is. Every identity in a relation is in use. The
/// list of children of a node holds the identity-valued fields of its
/// relation, in order. No identity lies above `max_id`. The root is a
/// translation unit. The child links form a tree: no node is the child of
/// two nodes or twice the child of one, the root is the child of none, and
/// every other node is the child of a node.
pub proof fn lemma_wf_invariants(tree: TreeView)
    requires
        tree.wf(),
    ensures
        forall|id: ID, i: int|
            tree.nodes.contains_key(id) && 0 <= i < tree.nodes[id].relation.children.len()
                ==> tree.nodes.contains_key(#[trigger] tree.nodes[id].relation.children[i]),
        forall|id: ID| #[trigger]
            tree.nodes.contains_key(id) ==> tree.nodes[id].children
                == tree.nodes[id].relation.children && tree.nodes[id].relation.id == id && id
                <= tree.max_id,
        tree.nodes.contains_key(tree.root_id),
        tree.nodes[tree.root_id].relation.kind == RelationKind::TransUnit,
        forall|p: ID, i: int, q: ID, j: int|
            tree.nodes.contains_key(p) && tree.nodes.contains_key(q) && 0 <= i
                < tree.nodes[p].children.len() && 0 <= j < tree.nodes[q].children.len()
                && #[trigger] tree.nodes[p].children[i] == #[trigger] tree.nodes[q].children[j]
                ==> p == q && i == j,
        forall|p: ID, i: int|
            tree.nodes.contains_key(p) && 0 <= i < tree.nodes[p].children.len()
                ==> #[trigger] tree.nodes[p].children[i] != tree.root_id,
        forall|x: ID|
            tree.nodes.contains_key(x) && x != tree.root_id ==> exists|p: ID, i: int|
                #![trigger tree.nodes[p].children[i]]
                tree.nodes.contains_key(p) && 0 <= i < tree.nodes[p].children.len()
                    && tree.nodes[p].children[i] == x,
{
    let t = tree.term();
    assert forall|id: ID, i: int|
        tree.nodes.contains_key(id) && 0 <= i
            < tree.nodes[id].relation.children.len() implies tree.nodes.contains_key(
        #[trigger] tree.nodes[id].relation.children[i],
    ) by {
        lemma_subterm(tree, id);
    }
    assert forall|id: ID| #[trigger] tree.nodes.contains_key(id) implies tree.nodes[id].children
        == tree.nodes[id].relation.children && tree.nodes[id].relation.id == id && id
        <= tree.max_id by {
        lemma_subterm(tree, id);
        assert(tree.nodes.dom().contains(id));
    }
    assert forall|p: ID, i: int, q: ID, j: int|
        tree.nodes.contains_key(p) && tree.nodes.contains_key(q) && 0 <= i
            < tree.nodes[p].children.len() && 0 <= j < tree.nodes[q].children.len()
            && #[trigger] tree.nodes[p].children[i]
            == #[trigger] tree.nodes[q].children[j] implies p == q && i == j by {
        lemma_subterm(tree, p);
        lemma_subterm(tree, q);
        assert(t.at(p).kid_ids()[i] == t.at(p).kids[i].id);
        assert(t.at(q).kid_ids()[j] == t.at(q).kids[j].id);
        lemma_one_parent(t, p, i, q, j);
    }
    assert forall|p: ID, i: int|
        tree.nodes.contains_key(p) && 0 <= i
            < tree.nodes[p].children.len() implies #[trigger] tree.nodes[p].children[i]
        != tree.root_id by {
        lemma_subterm(tree, p);
        assert(t.at(p).kid_ids()[i] == t.at(p).kids[i].id);
        lemma_at_kid(t, p, i);
    }
    assert forall|x: ID| tree.nodes.contains_key(x) && x != tree.root_id implies exists|
        p: ID,
        i: int,
    |
        #![trigger tree.nodes[p].children[i]]
        tree.nodes.contains_key(p) && 0 <= i < tree.nodes[p].children.len()
            && tree.nodes[p].children[i] == x by {
        assert(t.ids().contains(x));
        lemma_has_parent(t, x);
        let (p, i) = choose|p: ID, i: int|
            #![trigger t.at(p).kids[i]]
            t.has(p) && 0 <= i < t.at(p).kids.len() && t.at(p).kids[i].id == x;
        assert(t.ids().contains(p));
        lemma_subterm(tree, p);
        assert(t.at(p).kid_ids()[i] == t.at(p).kids[i].id);
        assert(tree.nodes.contains_key(p) && 0 <= i < tree.nodes[p].children.len()
            && tree.nodes[p].children[i] == x);
    }
}

} // verus!
