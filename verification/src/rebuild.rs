//! How an arena changes while the children of one node are rebuilt one after
//! the other, and what is known when the last one is done.

use crate::ast::NodeView;
use crate::definitions::ID;
use crate::term::{lemma_embeds_dom, lemma_embeds_frame, Term};
use vstd::prelude::*;

verus! {

/// How an arena changed where one term was rebuilt into another: what lay
/// outside the old term is as it was, nothing is there but that and the new
/// term, and the new term took no identity of what lay outside.
pub open spec fn rebuilt(
    before: Map<ID, NodeView>,
    after: Map<ID, NodeView>,
    gone: Term,
    made: Term,
) -> bool {
    &&& forall|x: ID| #[trigger]
        before.contains_key(x) ==> gone.has(x) || (after.contains_key(x) && after[x] == before[x])
    &&& forall|x: ID| #[trigger]
        after.contains_key(x) ==> made.has(x) || (before.contains_key(x) && !gone.has(x))
    &&& forall|x: ID| #[trigger] made.has(x) ==> gone.has(x) || !before.contains_key(x)
}

/// Whether an identity occurs in one of the terms.
pub open spec fn among(terms: Seq<Term>, x: ID) -> bool {
    exists|j: int| 0 <= j < terms.len() && (#[trigger] terms[j]).has(x)
}

/// Whether an identity occurs in a child of `whole` from position `p` on.
pub open spec fn pending(whole: Term, p: int, x: ID) -> bool {
    exists|k: int| p <= k < whole.kids.len() && (#[trigger] whole.kids[k]).has(x)
}

/// The state of an arena while the children of `whole` are rebuilt: those
/// before position `p` are gone and `done` stands in their place, the others
/// and the node itself are as they were in `start`.
pub open spec fn partial(
    start: Map<ID, NodeView>,
    cur: Map<ID, NodeView>,
    whole: Term,
    done: Seq<Term>,
    p: int,
) -> bool {
    &&& 0 <= p <= whole.kids.len()
    &&& cur.contains_key(whole.id)
    &&& cur[whole.id] == start[whole.id]
    &&& forall|j: int|
        0 <= j < done.len() ==> (#[trigger] done[j]).embeds(cur) && done[j].sound()
            && !done[j].has(whole.id)
    &&& forall|j: int, k: int|
        0 <= j < k < done.len() ==> (#[trigger] done[j]).apart(#[trigger] done[k])
    &&& forall|k: int| p <= k < whole.kids.len() ==> (#[trigger] whole.kids[k]).embeds(cur)
    &&& forall|j: int, k: int|
        0 <= j < done.len() && p <= k < whole.kids.len() ==> (#[trigger] done[j]).apart(
            #[trigger] whole.kids[k],
        )
    &&& forall|x: ID| #[trigger]
        start.contains_key(x) ==> whole.has(x) || (cur.contains_key(x) && cur[x] == start[x])
    &&& forall|x: ID| #[trigger]
        cur.contains_key(x) ==> (start.contains_key(x) && !whole.has(x)) || x == whole.id
            || among(done, x) || pending(whole, p, x)
    &&& forall|j: int, x: ID|
        0 <= j < done.len() && (#[trigger] done[j].has(x)) ==> whole.has(x)
            || !start.contains_key(x)
}

/// The identities in use while the children of `whole` are rebuilt, where
/// `keys` were in use before: those outside `whole`, that of `whole` itself,
/// those of `done`, and those of the children from position `p` on.
pub open spec fn partial_keys(keys: Set<ID>, whole: Term, done: Seq<Term>, p: int) -> Set<ID> {
    Set::new(
        |x: ID|
            (keys.contains(x) && !whole.has(x)) || x == whole.id || among(done, x) || pending(
                whole,
                p,
                x,
            ),
    )
}

/// While the children of a term are rebuilt, the identities in use are
/// `partial_keys`.
pub proof fn lemma_partial_keys(
    start: Map<ID, NodeView>,
    cur: Map<ID, NodeView>,
    whole: Term,
    done: Seq<Term>,
    p: int,
)
    requires
        partial(start, cur, whole, done, p),
    ensures
        cur.dom() == partial_keys(start.dom(), whole, done, p),
{
    let keys = partial_keys(start.dom(), whole, done, p);
    assert forall|x: ID| keys.contains(x) implies cur.contains_key(x) by {
        if start.dom().contains(x) && !whole.has(x) {
            assert(start.contains_key(x));
        } else if x == whole.id {
        } else if among(done, x) {
            let j = choose|j: int| 0 <= j < done.len() && (#[trigger] done[j]).has(x);
            lemma_embeds_dom(done[j], cur);
            assert(done[j].ids().contains(x));
        } else {
            let k = choose|k: int| p <= k < whole.kids.len() && (#[trigger] whole.kids[k]).has(x);
            lemma_embeds_dom(whole.kids[k], cur);
            assert(whole.kids[k].ids().contains(x));
        }
    }
    assert forall|x: ID| cur.contains_key(x) implies keys.contains(x) by {
        if start.contains_key(x) && !whole.has(x) {
            assert(start.dom().contains(x));
        }
    }
    assert(cur.dom() =~= keys);
}

/// Before anything is done, nothing has changed.
pub proof fn lemma_partial_start(start: Map<ID, NodeView>, whole: Term)
    requires
        whole.embeds(start),
    ensures
        partial(start, start, whole, Seq::<Term>::empty(), 0),
{
    assert forall|x: ID| #[trigger] start.contains_key(x) implies (start.contains_key(x)
        && !whole.has(x)) || x == whole.id || among(Seq::<Term>::empty(), x) || pending(
        whole,
        0,
        x,
    ) by {
        if whole.has(x) && x != whole.id {
            let k = choose|k: int| 0 <= k < whole.kids.len() && (#[trigger] whole.kids[k]).has(x);
            assert(pending(whole, 0, x));
        }
    }
}

/// The next child was rebuilt.
#[verifier::spinoff_prover]
pub proof fn lemma_partial_replace(
    start: Map<ID, NodeView>,
    cur: Map<ID, NodeView>,
    next: Map<ID, NodeView>,
    whole: Term,
    done: Seq<Term>,
    p: int,
    made: Term,
)
    requires
        partial(start, cur, whole, done, p),
        p < whole.kids.len(),
        whole.sound(),
        rebuilt(cur, next, whole.kids[p], made),
        made.embeds(next),
        made.sound(),
    ensures
        partial(start, next, whole, done.push(made), p + 1),
{
    let gone = whole.kids[p];
    let grown = done.push(made);
    lemma_embeds_dom(gone, cur);
    assert(!gone.has(whole.id));
    assert forall|j: int| 0 <= j < grown.len() implies (#[trigger] grown[j]).embeds(next)
        && grown[j].sound() && !grown[j].has(whole.id) by {
        if j < done.len() {
            assert(grown[j] == done[j]);
            lemma_embeds_dom(done[j], cur);
            assert(done[j].apart(gone));
            lemma_embeds_frame(done[j], cur, next);
        }
    }
    assert forall|j: int, k: int| 0 <= j < k < grown.len() implies (#[trigger] grown[j]).apart(
        #[trigger] grown[k],
    ) by {
        if k == done.len() {
            assert(grown[j] == done[j]);
            lemma_embeds_dom(done[j], cur);
            assert(done[j].apart(gone));
        } else {
            assert(grown[j] == done[j] && grown[k] == done[k]);
        }
    }
    assert forall|k: int| p + 1 <= k < whole.kids.len() implies (#[trigger] whole.kids[k]).embeds(
        next,
    ) by {
        lemma_embeds_dom(whole.kids[k], cur);
        assert(gone.apart(whole.kids[k]));
        lemma_embeds_frame(whole.kids[k], cur, next);
    }
    assert forall|j: int, k: int|
        0 <= j < grown.len() && p + 1 <= k < whole.kids.len() implies (#[trigger] grown[j]).apart(
        #[trigger] whole.kids[k],
    ) by {
        if j == done.len() {
            lemma_embeds_dom(whole.kids[k], cur);
            assert(gone.apart(whole.kids[k]));
        } else {
            assert(grown[j] == done[j]);
        }
    }
    assert forall|x: ID| #[trigger] start.contains_key(x) implies whole.has(x) || (
    next.contains_key(x) && next[x] == start[x]) by {
        if !whole.has(x) {
            assert(cur.contains_key(x));
            assert(!gone.has(x));
        }
    }
    assert forall|x: ID| #[trigger] next.contains_key(x) implies (start.contains_key(x)
        && !whole.has(x)) || x == whole.id || among(grown, x) || pending(whole, p + 1, x) by {
        if made.has(x) {
            assert(grown[done.len() as int].has(x));
        } else {
            assert(cur.contains_key(x));
            if among(done, x) {
                let j = choose|j: int| 0 <= j < done.len() && (#[trigger] done[j]).has(x);
                assert(grown[j].has(x));
            } else if pending(whole, p, x) {
                let k = choose|k: int| p <= k < whole.kids.len() && (#[trigger] whole.kids[k]).has(
                    x,
                );
                assert(k != p);
                assert(pending(whole, p + 1, x));
            }
        }
    }
    assert forall|j: int, x: ID| 0 <= j < grown.len() && (#[trigger] grown[j].has(x)) implies whole.has(
        x,
    ) || !start.contains_key(x) by {
        if j == done.len() {
            if gone.has(x) {
                assert(whole.kids[p].has(x));
            } else {
                assert(!cur.contains_key(x));
                if start.contains_key(x) {
                }
            }
        } else {
            assert(grown[j] == done[j]);
            assert(done[j].has(x));
        }
    }
}

/// The next child was deleted.
#[verifier::spinoff_prover]
pub proof fn lemma_partial_delete(
    start: Map<ID, NodeView>,
    cur: Map<ID, NodeView>,
    next: Map<ID, NodeView>,
    whole: Term,
    done: Seq<Term>,
    p: int,
)
    requires
        partial(start, cur, whole, done, p),
        p < whole.kids.len(),
        whole.sound(),
        next == cur.remove_keys(whole.kids[p].ids()),
    ensures
        partial(start, next, whole, done, p + 1),
{
    let gone = whole.kids[p];
    lemma_embeds_dom(gone, cur);
    assert(!gone.has(whole.id));
    assert forall|j: int| 0 <= j < done.len() implies (#[trigger] done[j]).embeds(next) by {
        lemma_embeds_dom(done[j], cur);
        assert(done[j].apart(gone));
        lemma_embeds_frame(done[j], cur, next);
    }
    assert forall|k: int| p + 1 <= k < whole.kids.len() implies (#[trigger] whole.kids[k]).embeds(
        next,
    ) by {
        lemma_embeds_dom(whole.kids[k], cur);
        assert(gone.apart(whole.kids[k]));
        lemma_embeds_frame(whole.kids[k], cur, next);
    }
    assert forall|x: ID| #[trigger] start.contains_key(x) implies whole.has(x) || (
    next.contains_key(x) && next[x] == start[x]) by {
        if !whole.has(x) {
            assert(cur.contains_key(x));
            assert(!gone.has(x));
        }
    }
    assert forall|x: ID| #[trigger] next.contains_key(x) implies (start.contains_key(x)
        && !whole.has(x)) || x == whole.id || among(done, x) || pending(whole, p + 1, x) by {
        assert(cur.contains_key(x));
        if pending(whole, p, x) {
            let k = choose|k: int| p <= k < whole.kids.len() && (#[trigger] whole.kids[k]).has(x);
            assert(k != p);
            assert(pending(whole, p + 1, x));
        }
    }
}

/// A new term was put in after those that are done.
#[verifier::spinoff_prover]
pub proof fn lemma_partial_insert(
    start: Map<ID, NodeView>,
    cur: Map<ID, NodeView>,
    next: Map<ID, NodeView>,
    whole: Term,
    done: Seq<Term>,
    p: int,
    made: Term,
)
    requires
        partial(start, cur, whole, done, p),
        made.embeds(next),
        made.sound(),
        forall|x: ID| #[trigger]
            cur.contains_key(x) ==> next.contains_key(x) && next[x] == cur[x],
        forall|x: ID| #[trigger] next.contains_key(x) ==> cur.contains_key(x) || made.has(x),
        forall|x: ID| #[trigger] made.has(x) ==> !cur.contains_key(x),
    ensures
        partial(start, next, whole, done.push(made), p),
{
    let grown = done.push(made);
    assert forall|j: int| 0 <= j < grown.len() implies (#[trigger] grown[j]).embeds(next)
        && grown[j].sound() && !grown[j].has(whole.id) by {
        if j < done.len() {
            assert(grown[j] == done[j]);
            lemma_embeds_dom(done[j], cur);
            lemma_embeds_frame(done[j], cur, next);
        }
    }
    assert forall|j: int, k: int| 0 <= j < k < grown.len() implies (#[trigger] grown[j]).apart(
        #[trigger] grown[k],
    ) by {
        if k == done.len() {
            assert(grown[j] == done[j]);
            lemma_embeds_dom(done[j], cur);
        } else {
            assert(grown[j] == done[j] && grown[k] == done[k]);
        }
    }
    assert forall|k: int| p <= k < whole.kids.len() implies (#[trigger] whole.kids[k]).embeds(
        next,
    ) by {
        lemma_embeds_dom(whole.kids[k], cur);
        lemma_embeds_frame(whole.kids[k], cur, next);
    }
    assert forall|j: int, k: int|
        0 <= j < grown.len() && p <= k < whole.kids.len() implies (#[trigger] grown[j]).apart(
        #[trigger] whole.kids[k],
    ) by {
        if j == done.len() {
            lemma_embeds_dom(whole.kids[k], cur);
        } else {
            assert(grown[j] == done[j]);
        }
    }
    assert forall|x: ID| #[trigger] start.contains_key(x) implies whole.has(x) || (
    next.contains_key(x) && next[x] == start[x]) by {
        if !whole.has(x) {
            assert(cur.contains_key(x));
        }
    }
    assert forall|x: ID| #[trigger] next.contains_key(x) implies (start.contains_key(x)
        && !whole.has(x)) || x == whole.id || among(grown, x) || pending(whole, p, x) by {
        if made.has(x) {
            assert(grown[done.len() as int].has(x));
        } else {
            assert(cur.contains_key(x));
            if among(done, x) {
                let j = choose|j: int| 0 <= j < done.len() && (#[trigger] done[j]).has(x);
                assert(grown[j].has(x));
            }
        }
    }
    assert forall|j: int, x: ID| 0 <= j < grown.len() && (#[trigger] grown[j].has(x)) implies whole.has(
        x,
    ) || !start.contains_key(x) by {
        if j == done.len() {
            if start.contains_key(x) && !whole.has(x) {
                assert(cur.contains_key(x));
            }
        } else {
            assert(grown[j] == done[j]);
            assert(done[j].has(x));
        }
    }
}

/// All children are done, and the node holds their identities.
#[verifier::spinoff_prover]
pub proof fn lemma_partial_finish(
    start: Map<ID, NodeView>,
    cur: Map<ID, NodeView>,
    next: Map<ID, NodeView>,
    whole: Term,
    made: Term,
)
    requires
        partial(start, cur, whole, made.kids, whole.kids.len() as int),
        made.id == whole.id,
        forall|x: ID| #[trigger] next.contains_key(x) <==> cur.contains_key(x),
        forall|x: ID| #[trigger] cur.contains_key(x) && x != whole.id ==> next[x] == cur[x],
        next[whole.id] == made.node(),
    ensures
        made.embeds(next),
        made.sound(),
        rebuilt(start, next, whole, made),
{
    assert forall|j: int| 0 <= j < made.kids.len() implies (#[trigger] made.kids[j]).embeds(
        next,
    ) by {
        lemma_embeds_dom(made.kids[j], cur);
        lemma_embeds_frame(made.kids[j], cur, next);
    }
    assert forall|x: ID| #[trigger] next.contains_key(x) implies made.has(x) || (
    start.contains_key(x) && !whole.has(x)) by {
        assert(cur.contains_key(x));
        if among(made.kids, x) {
            let j = choose|j: int| 0 <= j < made.kids.len() && (#[trigger] made.kids[j]).has(x);
        }
    }
    assert forall|x: ID| #[trigger] made.has(x) implies whole.has(x) || !start.contains_key(x) by {
        if x != made.id {
            let j = choose|j: int| 0 <= j < made.kids.len() && (#[trigger] made.kids[j]).has(x);
            assert(made.kids[j].has(x));
        }
    }
    assert forall|x: ID| #[trigger] start.contains_key(x) implies whole.has(x) || (
    next.contains_key(x) && next[x] == start[x]) by {
        if !whole.has(x) {
            assert(cur.contains_key(x));
        }
    }
}

} // verus!
