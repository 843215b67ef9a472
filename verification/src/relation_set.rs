//! A finite set of relations.

use crate::definitions::{AstRelation, RelationView};
use vstd::prelude::*;

verus! {

/// The views of a list of relations.
pub open spec fn views_of(items: Seq<AstRelation>) -> Seq<RelationView> {
    items.map_values(|r: AstRelation| r@)
}

/// A set of relations. A relation belongs to it when an equal one was put in.
#[derive(Debug)]
pub struct RelationSet {
    items: Vec<AstRelation>,
}

impl View for RelationSet {
    type V = Set<RelationView>;

    closed spec fn view(&self) -> Set<RelationView> {
        views_of(self.items@).to_set()
    }
}

impl Clone for RelationSet {
    fn clone(&self) -> (out: Self)
        ensures
            out@ == self@,
    {
        proof {
            use_type_invariant(self);
        }
        let mut items: Vec<AstRelation> = Vec::new();
        let mut i: usize = 0;
        while i < self.items.len()
            invariant
                i <= self.items.len(),
                views_of(items@) == views_of(self.items@).subrange(0, i as int),
            decreases self.items.len() - i,
        {
            let ghost before = views_of(items@);
            items.push(self.items[i].clone());
            assert(views_of(items@) =~= before.push(self.items@[i as int]@));
            assert(views_of(self.items@)[i as int] == self.items@[i as int]@);
            assert(views_of(items@) =~= views_of(self.items@).subrange(0, i + 1));
            i += 1;
        }
        assert(views_of(self.items@).subrange(0, i as int) == views_of(self.items@));
        RelationSet { items }
    }
}

impl RelationSet {
    #[verifier::type_invariant]
    spec fn inv(&self) -> bool {
        views_of(self.items@).no_duplicates()
    }

    /// The empty set.
    pub fn new() -> (set: Self)
        ensures
            set@ == Set::<RelationView>::empty(),
    {
        let set = RelationSet { items: Vec::new() };
        assert(set@ =~= Set::<RelationView>::empty());
        set
    }

    /// The number of relations in the set.
    pub fn len(&self) -> (n: usize)
        ensures
            n == self@.len(),
            self@.finite(),
    {
        proof {
            use_type_invariant(self);
            views_of(self.items@).unique_seq_to_set();
            vstd::seq_lib::seq_to_set_is_finite(views_of(self.items@));
        }
        self.items.len()
    }

    /// Whether the set is empty.
    pub fn is_empty(&self) -> (empty: bool)
        ensures
            empty == (self@ == Set::<RelationView>::empty()),
    {
        proof {
            if self.items.len() == 0 {
                assert(self@ =~= Set::<RelationView>::empty());
            } else {
                assert(views_of(self.items@)[0] == self.items@[0]@);
                assert(self@.contains(self.items@[0]@));
            }
        }
        self.items.len() == 0
    }

    /// The place of a relation in the list, if it is there.
    fn position(&self, relation: &AstRelation) -> (at: Option<usize>)
        ensures
            match at {
                Some(i) => i < self.items.len() && self.items@[i as int]@ == relation@,
                None => !self@.contains(relation@),
            },
    {
        let mut i: usize = 0;
        while i < self.items.len()
            invariant
                i <= self.items.len(),
                forall|j: int| 0 <= j < i ==> self.items@[j]@ != relation@,
            decreases self.items.len() - i,
        {
            if self.items[i] == *relation {
                return Some(i);
            }
            i += 1;
        }
        proof {
            if self@.contains(relation@) {
                let j = choose|j: int|
                    0 <= j < views_of(self.items@).len() && views_of(self.items@)[j]
                        == relation@;
                assert(self.items@[j]@ == relation@);
            }
        }
        None
    }

    /// Whether a relation is in the set.
    pub fn contains(&self, relation: &AstRelation) -> (found: bool)
        ensures
            found == self@.contains(relation@),
    {
        match self.position(relation) {
            Some(i) => {
                assert(views_of(self.items@)[i as int] == relation@);
                true
            },
            None => false,
        }
    }

    /// Puts in a relation that is known not to be in the set.
    pub(crate) fn insert_new(&mut self, relation: AstRelation)
        requires
            !old(self)@.contains(relation@),
        ensures
            final(self)@ == old(self)@.insert(relation@),
    {
        proof {
            use_type_invariant(&*self);
        }
        let mut items: Vec<AstRelation> = Vec::new();
        std::mem::swap(&mut self.items, &mut items);
        let ghost before = views_of(items@);
        items.push(relation);
        proof {
            assert(views_of(items@) =~= before.push(relation@));
            assert(views_of(items@).no_duplicates()) by {
                assert forall|i: int, j: int|
                    0 <= i < j < views_of(items@).len() implies views_of(items@)[i]
                    != views_of(items@)[j] by {
                    if j == before.len() {
                        assert(before[i] == views_of(items@)[i]);
                        assert(before.to_set().contains(before[i]));
                    } else {
                        assert(before[i] != before[j]);
                    }
                }
            }
            assert(views_of(items@).to_set() =~= before.to_set().insert(relation@)) by {
                assert forall|r: RelationView|
                    views_of(items@).to_set().contains(r) <==> before.to_set().insert(
                        relation@,
                    ).contains(r) by {
                    if views_of(items@).to_set().contains(r) {
                        let j = choose|j: int|
                            0 <= j < views_of(items@).len() && views_of(items@)[j] == r;
                        if j < before.len() {
                            assert(before[j] == r);
                        }
                    }
                    if before.to_set().contains(r) {
                        let j = choose|j: int| 0 <= j < before.len() && before[j] == r;
                        assert(views_of(items@)[j] == r);
                    }
                    if r == relation@ {
                        assert(views_of(items@)[before.len() as int] == r);
                    }
                }
            }
        }
        std::mem::swap(&mut self.items, &mut items);
    }

    /// Puts a relation in. Says whether it was new.
    pub fn insert(&mut self, relation: AstRelation) -> (added: bool)
        ensures
            final(self)@ == old(self)@.insert(relation@),
            added == !old(self)@.contains(relation@),
    {
        if self.contains(&relation) {
            assert(self@.insert(relation@) =~= self@);
            false
        } else {
            self.insert_new(relation);
            true
        }
    }

    /// Takes a relation out. Says whether it was there.
    pub fn remove(&mut self, relation: &AstRelation) -> (removed: bool)
        ensures
            final(self)@ == old(self)@.remove(relation@),
            removed == old(self)@.contains(relation@),
    {
        proof {
            use_type_invariant(&*self);
        }
        match self.position(relation) {
            Some(i) => {
                let mut items: Vec<AstRelation> = Vec::new();
                std::mem::swap(&mut self.items, &mut items);
                let ghost before = views_of(items@);
                items.remove(i);
                proof {
                    assert(views_of(items@) =~= before.remove(i as int));
                    assert(before[i as int] == relation@);
                    assert(before.to_set().contains(relation@));
                    assert forall|a: int, b: int|
                        0 <= a < b < views_of(items@).len() implies views_of(items@)[a]
                        != views_of(items@)[b] by {
                        let a0 = if a < i { a } else { a + 1 };
                        let b0 = if b < i { b } else { b + 1 };
                        assert(views_of(items@)[a] == before[a0]);
                        assert(views_of(items@)[b] == before[b0]);
                    }
                    assert(views_of(items@).to_set() =~= before.to_set().remove(relation@)) by {
                        assert forall|r: RelationView|
                            views_of(items@).to_set().contains(r) <==> before.to_set().remove(
                                relation@,
                            ).contains(r) by {
                            if views_of(items@).to_set().contains(r) {
                                let j = choose|j: int|
                                    0 <= j < views_of(items@).len() && views_of(items@)[j] == r;
                                let j0 = if j < i { j } else { j + 1 };
                                assert(before[j0] == r);
                                assert(j0 != i);
                                if r == relation@ {
                                    assert(before[j0] == before[i as int]);
                                }
                            }
                            if before.to_set().contains(r) && r != relation@ {
                                let j = choose|j: int| 0 <= j < before.len() && before[j] == r;
                                let j1 = if j < i { j } else { j - 1 };
                                assert(views_of(items@)[j1] == r);
                            }
                        }
                    }
                }
                std::mem::swap(&mut self.items, &mut items);
                true
            },
            None => {
                assert(self@.remove(relation@) =~= self@);
                false
            },
        }
    }

    /// The relations of the set as they are held, each once.
    pub(crate) fn items(&self) -> (list: &Vec<AstRelation>)
        ensures
            views_of(list@).no_duplicates(),
            views_of(list@).to_set() == self@,
            list@.len() == self@.len(),
            self@.finite(),
    {
        proof {
            use_type_invariant(self);
            views_of(self.items@).unique_seq_to_set();
            vstd::seq_lib::seq_to_set_is_finite(views_of(self.items@));
        }
        &self.items
    }

    /// The relations of the set in a list, each once.
    pub fn to_vec(&self) -> (list: Vec<AstRelation>)
        ensures
            views_of(list@).no_duplicates(),
            views_of(list@).to_set() == self@,
            list@.len() == self@.len(),
    {
        let copy = self.clone();
        proof {
            use_type_invariant(self);
            use_type_invariant(&copy);
            views_of(copy.items@).unique_seq_to_set();
        }
        copy.items
    }
}

} // verus!
