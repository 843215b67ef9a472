//! The tree store: an arena of nodes keyed by identity, with a root and the
//! largest identity in use.

use crate::definitions::{copy_ids, AstRelation, InternalError, RelationView, ID};
pub use crate::differ::{delete_onwards, get_diff_relation_set, insert_onwards, relations_match};
use crate::relation_set::RelationSet;
use std::collections::HashMap;
use vstd::prelude::*;
use vstd::std_specs::iter::IteratorSpec;

verus! {

broadcast use vstd::std_specs::hash::group_hash_axioms;

/// Where a node stands in the source text. Nothing is recorded yet.
#[derive(Debug, Clone, Copy)]
struct Location {}

/// Building block of the tree: a relation and the ordered list of the
/// identities of its children.
#[derive(Debug)]
pub struct AstNode {
    node_id: ID,
    relation: AstRelation,
    location: Location,
    children: Vec<ID>,
}

/// A node as a mathematical value.
pub struct NodeView {
    pub relation: RelationView,
    pub children: Seq<ID>,
}

impl View for AstNode {
    type V = NodeView;

    closed spec fn view(&self) -> NodeView {
        NodeView { relation: self.relation@, children: self.children@ }
    }
}

impl Clone for AstNode {
    fn clone(&self) -> (out: Self)
        ensures
            out@ == self@,
            out.id() == self.id(),
    {
        AstNode {
            node_id: self.node_id,
            relation: self.relation.clone(),
            location: self.location,
            children: copy_ids(&self.children),
        }
    }
}

impl AstNode {
    /// The identity under which the node is stored.
    pub closed spec fn id(&self) -> ID {
        self.node_id
    }

    /// A node without children.
    fn new(node_id: ID, relation: AstRelation) -> (node: Self)
        ensures
            node.node_id == node_id,
            node@ == (NodeView { relation: relation@, children: Seq::empty() }),
    {
        Self { node_id, relation, location: Location {  }, children: Vec::new() }
    }

    /// Appends a child to the list.
    fn link_child(&mut self, child_id: ID)
        ensures
            final(self).node_id == old(self).node_id,
            final(self)@ == (NodeView {
                relation: old(self)@.relation,
                children: old(self)@.children.push(child_id),
            }),
    {
        self.children.push(child_id);
    }

    /// Replaces the list of children.
    fn replace_children(&mut self, child_ids: Vec<ID>)
        ensures
            final(self).node_id == old(self).node_id,
            final(self)@ == (NodeView { relation: old(self)@.relation, children: child_ids@ }),
    {
        self.children = child_ids;
    }

    /// Replaces the relation.
    fn update_relation(&mut self, relation: AstRelation)
        ensures
            final(self).node_id == old(self).node_id,
            final(self)@ == (NodeView { relation: relation@, children: old(self)@.children }),
    {
        self.relation = relation;
    }
}

/// Whether `top` is the largest identity in `keys`, or `0` above identities
/// that are all negative. The second is the case while nothing was deleted
/// from a tree that began empty.
pub open spec fn is_max_key(keys: Set<ID>, top: ID) -> bool {
    &&& top == 0 || keys.contains(top)
    &&& forall|k: ID| keys.contains(k) ==> k <= top
}

/// The largest of the identities, or `0` where there is none.
pub open spec fn top_key(keys: Set<ID>) -> ID {
    if keys == Set::<ID>::empty() {
        0
    } else {
        choose|top: ID| keys.contains(top) && forall|k: ID| keys.contains(k) ==> k <= top
    }
}

/// A tree as a mathematical value.
pub struct TreeView {
    pub nodes: Map<ID, NodeView>,
    pub max_id: ID,
    pub root_id: ID,
}

impl TreeView {
    /// What holds of every tree store, whatever was done to it: each node
    /// holds a relation of its own identity, no identity lies above
    /// `max_id`, and `max_id` is an identity in use or `0`.
    pub open spec fn store_inv(self) -> bool {
        &&& self.nodes.dom().finite()
        &&& forall|k: ID| #[trigger]
            self.nodes.contains_key(k) ==> self.nodes[k].relation.id == k
                && self.nodes[k].relation.well_formed()
        &&& is_max_key(self.nodes.dom(), self.max_id)
    }

    /// Whether `max_id` is seated on the largest identity in use, or on `0`
    /// where none is in use. With `store_inv` this says which number it is.
    pub open spec fn seated(self) -> bool {
        if self.nodes.dom() == Set::<ID>::empty() {
            self.max_id == 0
        } else {
            self.nodes.contains_key(self.max_id)
        }
    }

    /// The relations of all nodes, as a set.
    pub open spec fn relation_set(self) -> Set<RelationView> {
        Set::new(
            |r: RelationView| self.nodes.contains_key(r.id) && self.nodes[r.id].relation == r,
        )
    }
}

/// Where `max_id` is seated, it is the largest identity in use.
pub proof fn lemma_top_key(tree: TreeView)
    requires
        tree.store_inv(),
        tree.seated(),
    ensures
        tree.max_id == top_key(tree.nodes.dom()),
{
    let keys = tree.nodes.dom();
    if keys != Set::<ID>::empty() {
        assert(keys.contains(tree.max_id));
        let top = choose|top: ID| keys.contains(top) && forall|k: ID| keys.contains(k) ==> k <= top;
        assert(keys.contains(top) && top <= tree.max_id);
    }
}

/// The fields of a tree, before anything is claimed of them.
#[derive(Debug)]
struct Store {
    arena: HashMap<ID, AstNode>,
    max_id: ID,
    root_id: ID,
}

impl View for Store {
    type V = TreeView;

    closed spec fn view(&self) -> TreeView {
        TreeView {
            nodes: self.arena@.map_values(|node: AstNode| node@),
            max_id: self.max_id,
            root_id: self.root_id,
        }
    }
}

impl Store {
    spec fn inv(&self) -> bool {
        &&& forall|k: ID| #[trigger]
            self.arena@.contains_key(k) ==> self.arena@[k].node_id == k
                && self.arena@[k].relation@.id == k
        &&& is_max_key(self.arena@.dom(), self.max_id)
    }

    /// What the fields say of the view.
    proof fn lemma_inv_view(&self)
        requires
            self.inv(),
        ensures
            self@.store_inv(),
            self@.nodes.dom() == self.arena@.dom(),
            forall|k: ID| #[trigger]
                self.arena@.contains_key(k) ==> self@.nodes[k] == self.arena@[k]@,
    {
        assert(self@.nodes.dom() =~= self.arena@.dom());
        assert forall|k: ID| #[trigger] self@.nodes.contains_key(k) implies self@.nodes[k].relation.id
            == k && self@.nodes[k].relation.well_formed() by {
            self.arena@[k].relation.lemma_view_well_formed();
        }
    }

    /// Fields of a tree without nodes.
    fn empty() -> (store: Self)
        ensures
            store.inv(),
            store.arena@ == Map::<ID, AstNode>::empty(),
            store.max_id == 0,
            store.root_id == 0,
    {
        Self { arena: HashMap::new(), max_id: 0, root_id: 0 }
    }

    /// Seats `max_id` on the largest identity in use, or on `0` where none
    /// is.
    fn reseat(&mut self)
        ensures
            final(self).arena == old(self).arena,
            final(self).root_id == old(self).root_id,
            is_max_key(final(self).arena@.dom(), final(self).max_id),
            final(self).arena@.dom() == Set::<ID>::empty() ==> final(self).max_id == 0,
            final(self).arena@.dom() != Set::<ID>::empty() ==> final(self).arena@.contains_key(
                final(self).max_id,
            ),
    {
        let mut top: Option<ID> = None;
        let ghost entries = self.arena.iter().remaining();
        for entry in it: self.arena.iter()
            invariant
                it.seq() == entries,
                entries == self.arena.iter().remaining(),
                match top {
                    None => it.index() == 0,
                    Some(t) => (exists|j: int| 0 <= j < it.index() && *(#[trigger] entries[j]).0 == t)
                        && (forall|j: int|
                        0 <= j < it.index() ==> *(#[trigger] entries[j]).0 <= t),
                },
        {
            let key: ID = *entry.0;
            top = match top {
                Some(t) => if t >= key {
                    Some(t)
                } else {
                    Some(key)
                },
                None => Some(key),
            };
        }
        proof {
            match top {
                Some(t) => {
                    let j = choose|j: int| 0 <= j < entries.len() && *(#[trigger] entries[j]).0 == t;
                    assert(self.arena@.contains_key(*entries[j].0));
                    assert forall|k: ID| self.arena@.contains_key(k) implies k <= t by {
                        let pair = (&k, &self.arena@[k]);
                        assert(entries.contains(pair));
                        let i = choose|i: int| 0 <= i < entries.len() && entries[i] == pair;
                        assert(*entries[i].0 == k);
                    }
                    assert(self.arena@.dom().contains(t));
                },
                None => {
                    assert forall|k: ID| !self.arena@.contains_key(k) by {
                        if self.arena@.contains_key(k) {
                            assert(entries.contains((&k, &self.arena@[k])));
                        }
                    }
                    assert(self.arena@.dom() =~= Set::<ID>::empty());
                },
            }
        }
        self.max_id = match top {
            Some(t) => t,
            None => 0,
        };
    }
}

/// The program tree that is maintained from one round to the next. All nodes
/// live in one arena.
#[derive(Debug)]
pub struct Tree {
    store: Store,
}

impl View for Tree {
    type V = TreeView;

    closed spec fn view(&self) -> TreeView {
        self.store@
    }
}

impl Clone for Tree {
    fn clone(&self) -> (out: Self)
        ensures
            out@ == self@,
    {
        proof {
            use_type_invariant(self);
        }
        let out = Tree {
            store: Store {
                arena: self.store.arena.clone(),
                max_id: self.store.max_id,
                root_id: self.store.root_id,
            },
        };
        out
    }
}

impl Tree {
    #[verifier::type_invariant]
    spec fn inv(&self) -> bool {
        self.store.inv()
    }

    /// An empty tree.
    pub fn new() -> (tree: Self)
        ensures
            tree@.nodes == Map::<ID, NodeView>::empty(),
            tree@.max_id == 0,
            tree@.root_id == 0,
            tree@.store_inv(),
    {
        let tree = Self { store: Store::empty() };
        proof {
            tree.store.lemma_inv_view();
            assert(tree@.nodes =~= Map::<ID, NodeView>::empty());
        }
        tree
    }

    /// States what holds of every tree store.
    pub fn store_invariant(&self)
        ensures
            self@.store_inv(),
    {
        proof {
            use_type_invariant(self);
            self.store.lemma_inv_view();
        }
    }

    /// Whether a node is stored under this identity.
    pub fn contains(&self, index: ID) -> (found: bool)
        ensures
            found == self@.nodes.contains_key(index),
    {
        proof {
            use_type_invariant(self);
            self.store.lemma_inv_view();
        }
        self.store.arena.contains_key(&index)
    }

    /// The relation of a node that is known to be there.
    pub(crate) fn relation(&self, index: ID) -> (relation: &AstRelation)
        requires
            self@.nodes.contains_key(index),
        ensures
            relation@ == self@.nodes[index].relation,
            relation@.id == index,
            relation@.well_formed(),
    {
        proof {
            use_type_invariant(self);
            self.store.lemma_inv_view();
        }
        match self.store.arena.get(&index) {
            Some(node) => &node.relation,
            None => vstd::pervasive::unreached(),
        }
    }

    /// The children of a node that is known to be there.
    pub(crate) fn children(&self, index: ID) -> (children: &Vec<ID>)
        requires
            self@.nodes.contains_key(index),
        ensures
            children@ == self@.nodes[index].children,
    {
        proof {
            use_type_invariant(self);
            self.store.lemma_inv_view();
        }
        match self.store.arena.get(&index) {
            Some(node) => &node.children,
            None => vstd::pervasive::unreached(),
        }
    }

    /// A copy of the node stored under this identity.
    pub fn get_node(&self, index: ID) -> (found: Result<AstNode, InternalError>)
        ensures
            match found {
                Ok(node) => self@.nodes.contains_key(index) && node@ == self@.nodes[index]
                    && node.id() == index,
                Err(e) => !self@.nodes.contains_key(index) && e
                    == InternalError::InvariantViolation,
            },
    {
        proof {
            use_type_invariant(self);
            self.store.lemma_inv_view();
        }
        match self.store.arena.get(&index) {
            Some(node) => Ok(node.clone()),
            None => Err(InternalError::InvariantViolation),
        }
    }

    /// A copy of the relation of the node stored under this identity.
    pub fn get_relation(&self, index: ID) -> (found: Result<AstRelation, InternalError>)
        ensures
            match found {
                Ok(relation) => self@.nodes.contains_key(index) && relation@
                    == self@.nodes[index].relation,
                Err(e) => !self@.nodes.contains_key(index) && e
                    == InternalError::InvariantViolation,
            },
    {
        if self.contains(index) {
            Ok(self.relation(index).clone())
        } else {
            Err(InternalError::InvariantViolation)
        }
    }

    /// Adds a node without children. The identity must not be in use, and it
    /// must be the relation's own.
    pub fn add_node(&mut self, node_id: ID, relation: AstRelation) -> (done: Result<
        (),
        InternalError,
    >)
        ensures
            done is Ok <==> !old(self)@.nodes.contains_key(node_id) && relation@.id == node_id,
            done is Ok ==> final(self)@ == (TreeView {
                nodes: old(self)@.nodes.insert(
                    node_id,
                    NodeView { relation: relation@, children: Seq::empty() },
                ),
                max_id: if node_id > old(self)@.max_id {
                    node_id
                } else {
                    old(self)@.max_id
                },
                root_id: old(self)@.root_id,
            }),
            done is Err ==> done == Err::<(), InternalError>(InternalError::InvariantViolation)
                && final(self)@ == old(self)@,
            final(self)@.store_inv(),
    {
        proof {
            use_type_invariant(&*self);
            self.store.lemma_inv_view();
        }
        if self.store.arena.contains_key(&node_id) || get_relation_id(&relation) != node_id {
            return Err(InternalError::InvariantViolation);
        }
        let ghost before = self@;
        let mut store = Store::empty();
        std::mem::swap(&mut self.store, &mut store);
        if node_id > store.max_id {
            store.max_id = node_id;
        }
        store.arena.insert(node_id, AstNode::new(node_id, relation));
        proof {
            assert(store.inv());
            store.lemma_inv_view();
            assert(store@.nodes =~= before.nodes.insert(
                node_id,
                NodeView { relation: relation@, children: Seq::empty() },
            ));
        }
        std::mem::swap(&mut self.store, &mut store);
        Ok(())
    }

    /// Adds a node as `add_node` does and makes it the root.
    pub fn add_root_node(&mut self, node_id: ID, relation: AstRelation) -> (done: Result<
        (),
        InternalError,
    >)
        ensures
            done is Ok <==> !old(self)@.nodes.contains_key(node_id) && relation@.id == node_id,
            done is Ok ==> final(self)@ == (TreeView {
                nodes: old(self)@.nodes.insert(
                    node_id,
                    NodeView { relation: relation@, children: Seq::empty() },
                ),
                max_id: if node_id > old(self)@.max_id {
                    node_id
                } else {
                    old(self)@.max_id
                },
                root_id: node_id,
            }),
            done is Err ==> done == Err::<(), InternalError>(InternalError::InvariantViolation)
                && final(self)@ == old(self)@,
            final(self)@.store_inv(),
    {
        let done = self.add_node(node_id, relation);
        if done.is_ok() {
            proof {
                use_type_invariant(&*self);
            }
            let mut store = Store::empty();
            std::mem::swap(&mut self.store, &mut store);
            store.root_id = node_id;
            proof {
                store.lemma_inv_view();
            }
            std::mem::swap(&mut self.store, &mut store);
        }
        done
    }

    /// Appends a child to the list of a node. Both nodes must exist.
    pub fn link_child(&mut self, node_id: ID, child_id: ID) -> (done: Result<(), InternalError>)
        ensures
            done is Ok <==> old(self)@.nodes.contains_key(node_id) && old(self)@.nodes.contains_key(
                child_id,
            ),
            done is Ok ==> final(self)@ == (TreeView {
                nodes: old(self)@.nodes.insert(
                    node_id,
                    NodeView {
                        relation: old(self)@.nodes[node_id].relation,
                        children: old(self)@.nodes[node_id].children.push(child_id),
                    },
                ),
                ..old(self)@
            }),
            done is Err ==> done == Err::<(), InternalError>(InternalError::InvariantViolation)
                && final(self)@ == old(self)@,
            final(self)@.store_inv(),
    {
        proof {
            use_type_invariant(&*self);
            self.store.lemma_inv_view();
        }
        if !self.store.arena.contains_key(&node_id) || !self.store.arena.contains_key(&child_id) {
            return Err(InternalError::InvariantViolation);
        }
        let ghost before = self@;
        let mut store = Store::empty();
        std::mem::swap(&mut self.store, &mut store);
        let ghost arena = store.arena@;
        match store.arena.remove(&node_id) {
            Some(mut node) => {
                node.link_child(child_id);
                store.arena.insert(node_id, node);
            },
            None => {},
        }
        proof {
            assert(store.arena@.dom() =~= arena.dom());
            assert(store.inv());
            store.lemma_inv_view();
            assert(store@.nodes =~= before.nodes.insert(
                node_id,
                NodeView {
                    relation: before.nodes[node_id].relation,
                    children: before.nodes[node_id].children.push(child_id),
                },
            ));
        }
        std::mem::swap(&mut self.store, &mut store);
        Ok(())
    }

    /// Replaces the list of children of a node at once. The node must exist.
    pub fn replace_children(&mut self, node_id: ID, child_ids: Vec<ID>) -> (done: Result<
        (),
        InternalError,
    >)
        ensures
            done is Ok <==> old(self)@.nodes.contains_key(node_id),
            done is Ok ==> final(self)@ == (TreeView {
                nodes: old(self)@.nodes.insert(
                    node_id,
                    NodeView {
                        relation: old(self)@.nodes[node_id].relation,
                        children: child_ids@,
                    },
                ),
                ..old(self)@
            }),
            done is Err ==> done == Err::<(), InternalError>(InternalError::InvariantViolation)
                && final(self)@ == old(self)@,
            final(self)@.store_inv(),
    {
        proof {
            use_type_invariant(&*self);
            self.store.lemma_inv_view();
        }
        if !self.store.arena.contains_key(&node_id) {
            return Err(InternalError::InvariantViolation);
        }
        let ghost before = self@;
        let mut store = Store::empty();
        std::mem::swap(&mut self.store, &mut store);
        let ghost arena = store.arena@;
        match store.arena.remove(&node_id) {
            Some(mut node) => {
                node.replace_children(child_ids);
                store.arena.insert(node_id, node);
            },
            None => {},
        }
        proof {
            assert(store.arena@.dom() =~= arena.dom());
            assert(store.inv());
            store.lemma_inv_view();
            assert(store@.nodes =~= before.nodes.insert(
                node_id,
                NodeView { relation: before.nodes[node_id].relation, children: child_ids@ },
            ));
        }
        std::mem::swap(&mut self.store, &mut store);
        Ok(())
    }

    /// The number of nodes.
    pub fn size(&self) -> (n: usize)
        ensures
            n == self@.nodes.len(),
    {
        proof {
            use_type_invariant(self);
            self.store.lemma_inv_view();
        }
        self.store.arena.len()
    }

    /// The identity of the root.
    pub fn get_root(&self) -> (root: ID)
        ensures
            root == self@.root_id,
    {
        self.store.root_id
    }

    /// The bound on the identities: the largest identity in use, or `0`
    /// above identities that are all negative while nothing was deleted.
    pub fn max_id(&self) -> (top: ID)
        ensures
            top == self@.max_id,
            is_max_key(self@.nodes.dom(), top),
    {
        proof {
            use_type_invariant(self);
            self.store.lemma_inv_view();
        }
        self.store.max_id
    }

    /// Replaces the relation of a node in place. The list of children stays as
    /// it is: where the identity-valued fields change, `replace_children` has
    /// to follow. The node must exist, and the identity must be the
    /// relation's own.
    pub fn update_relation(&mut self, node_id: ID, relation: AstRelation) -> (done: Result<
        (),
        InternalError,
    >)
        ensures
            done is Ok <==> old(self)@.nodes.contains_key(node_id) && relation@.id == node_id,
            done is Ok ==> final(self)@ == (TreeView {
                nodes: old(self)@.nodes.insert(
                    node_id,
                    NodeView {
                        relation: relation@,
                        children: old(self)@.nodes[node_id].children,
                    },
                ),
                ..old(self)@
            }),
            done is Err ==> done == Err::<(), InternalError>(InternalError::InvariantViolation)
                && final(self)@ == old(self)@,
            final(self)@.store_inv(),
    {
        proof {
            use_type_invariant(&*self);
            self.store.lemma_inv_view();
        }
        if !self.store.arena.contains_key(&node_id) || get_relation_id(&relation) != node_id {
            return Err(InternalError::InvariantViolation);
        }
        let ghost before = self@;
        let mut store = Store::empty();
        std::mem::swap(&mut self.store, &mut store);
        let ghost arena = store.arena@;
        match store.arena.remove(&node_id) {
            Some(mut node) => {
                node.update_relation(relation);
                store.arena.insert(node_id, node);
            },
            None => {},
        }
        proof {
            assert(store.arena@.dom() =~= arena.dom());
            assert(store.inv());
            store.lemma_inv_view();
            assert(store@.nodes =~= before.nodes.insert(
                node_id,
                NodeView { relation: relation@, children: before.nodes[node_id].children },
            ));
        }
        std::mem::swap(&mut self.store, &mut store);
        Ok(())
    }

    /// Removes a node from the arena and seats `max_id` on the largest
    /// identity left, or on `0` where none is left. The lists of children of
    /// other nodes stay as they are. The node must exist.
    pub fn delete_node(&mut self, node_id: ID) -> (done: Result<(), InternalError>)
        ensures
            done is Ok <==> old(self)@.nodes.contains_key(node_id),
            done is Ok ==> final(self)@.nodes == old(self)@.nodes.remove(node_id)
                && final(self)@.root_id == old(self)@.root_id,
            done is Ok ==> final(self)@.seated(),
            done is Ok && node_id != old(self)@.max_id && old(self)@.nodes.contains_key(
                old(self)@.max_id,
            ) ==> final(self)@.max_id == old(self)@.max_id,
            done is Err ==> done == Err::<(), InternalError>(InternalError::InvariantViolation)
                && final(self)@ == old(self)@,
            final(self)@.store_inv(),
    {
        proof {
            use_type_invariant(&*self);
            self.store.lemma_inv_view();
        }
        if !self.store.arena.contains_key(&node_id) {
            return Err(InternalError::InvariantViolation);
        }
        let ghost before = self@;
        let mut store = Store::empty();
        std::mem::swap(&mut self.store, &mut store);
        store.arena.remove(&node_id);
        store.reseat();
        proof {
            assert(store.inv());
            store.lemma_inv_view();
            assert(store@.nodes =~= before.nodes.remove(node_id));
        }
        std::mem::swap(&mut self.store, &mut store);
        Ok(())
    }
}

/// Flattens a tree into the set of the relations of its nodes.
pub fn get_initial_relation_set(ast: &Tree) -> (relation_set: RelationSet)
    ensures
        relation_set@ == ast@.relation_set(),
{
    proof {
        use_type_invariant(ast);
        ast.store.lemma_inv_view();
    }
    let mut relation_set = RelationSet::new();
    let ghost entries = ast.store.arena.iter().remaining();
    for entry in it: ast.store.arena.iter()
        invariant
            ast.store.inv(),
            it.seq() == entries,
            entries == ast.store.arena.iter().remaining(),
            entries.no_duplicates(),
            forall|r: RelationView|
                relation_set@.contains(r) <==> exists|j: int|
                    0 <= j < it.index() && (#[trigger] entries[j]).1.relation@ == r,
    {
        let ghost at = it.index();
        assert(*entry.1 == *entries[at].1);
        proof {
            if relation_set@.contains(entry.1.relation@) {
                let j = choose|j: int|
                    0 <= j < at && (#[trigger] entries[j]).1.relation@ == entry.1.relation@;
                assert(ast.store.arena@.contains_key(*entries[j].0));
                assert(ast.store.arena@.contains_key(*entries[at].0));
                assert(*entries[j].0 == *entries[at].0);
                assert(entries[j] == entries[at]);
            }
        }
        let ghost before = relation_set@;
        relation_set.insert_new(entry.1.relation.clone());
        proof {
            assert forall|r: RelationView|
                relation_set@.contains(r) <==> exists|j: int|
                    0 <= j < at + 1 && (#[trigger] entries[j]).1.relation@ == r by {
                if before.contains(r) {
                    let j = choose|j: int|
                        0 <= j < at && (#[trigger] entries[j]).1.relation@ == r;
                    assert(0 <= j < at + 1);
                }
                if r == entry.1.relation@ {
                    assert(entries[at].1.relation@ == r);
                }
            }
        }
    }
    proof {
        assert forall|r: RelationView| relation_set@.contains(r) <==> ast@.relation_set().contains(
            r,
        ) by {
            if relation_set@.contains(r) {
                let j = choose|j: int|
                    0 <= j < entries.len() && (#[trigger] entries[j]).1.relation@ == r;
                assert(ast.store.arena@.contains_key(*entries[j].0));
            }
            if ast@.relation_set().contains(r) {
                let k = r.id;
                assert(ast.store.arena@.contains_key(k));
                assert(entries.contains((&k, &ast.store.arena@[k])));
                let j = choose|j: int|
                    0 <= j < entries.len() && entries[j] == (&k, &ast.store.arena@[k]);
                assert(entries[j].1.relation@ == r);
            }
        }
        assert(relation_set@ =~= ast@.relation_set());
    }
    relation_set
}

/// The identity of a relation.
pub fn get_relation_id(r: &AstRelation) -> (id: ID)
    ensures
        id == r@.id,
{
    match r {
        AstRelation::Char { id } => *id,
        AstRelation::Float { id } => *id,
        AstRelation::Int { id } => *id,
        AstRelation::Void { id } => *id,
        AstRelation::Arg { id, .. } => *id,
        AstRelation::Var { id, .. } => *id,
        AstRelation::BinaryOp { id, .. } => *id,
        AstRelation::EndItem { id, .. } => *id,
        AstRelation::Item { id, .. } => *id,
        AstRelation::Compound { id, .. } => *id,
        AstRelation::While { id, .. } => *id,
        AstRelation::IfElse { id, .. } => *id,
        AstRelation::If { id, .. } => *id,
        AstRelation::Return { id, .. } => *id,
        AstRelation::Assign { id, .. } => *id,
        AstRelation::FunCall { id, .. } => *id,
        AstRelation::FunDef { id, .. } => *id,
        AstRelation::TransUnit { id, .. } => *id,
    }
}

} // verus!
