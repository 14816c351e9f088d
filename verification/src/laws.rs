//! Laws of the composite object: the global properties that relate the
//! parent links, the subtree ranges and the queries of a well-formed
//! object. Each proof function states one law over the spec-level views
//! used by the executable functions' contracts.

use crate::cursor::downcast_spec;
use crate::cursor::first_match_in;
use crate::cursor::lemma_first_match_char;
use crate::cursor::lemma_first_match_is;
use crate::cursor::lemma_first_match_none;
use crate::object::Obj;
use vstd::prelude::*;

verus! {

/// Component `a` lies on the parent chain of component `d` (`d` itself
/// included): following parent links from `d` reaches `a`.
pub open spec fn on_chain(obj: Obj, a: int, d: int) -> bool
    decreases d,
{
    if a == d {
        true
    } else if d <= 0 || !(0 <= obj.par(d) < d) {
        false
    } else {
        on_chain(obj, a, obj.par(d))
    }
}

/// An ancestor's subtree range encloses the ranges of everything on the
/// chain below it.
pub proof fn lemma_chain_in_range(obj: Obj, a: int, d: int)
    requires
        obj.wf(),
        0 <= d < obj.n(),
        on_chain(obj, a, d),
    ensures
        0 <= a <= d,
        d + obj.size(d) <= a + obj.size(a),
        1 <= obj.size(d),
    decreases d,
{
    if d > 0 {
        assert(obj.entry_wf(d));
    }
    if a != d {
        lemma_chain_in_range(obj, a, obj.par(d));
    }
}

/// Conversely, every component inside a subtree range has the range's root
/// on its parent chain.
pub proof fn lemma_range_on_chain(obj: Obj, a: int, d: int)
    requires
        obj.wf(),
        0 <= a < obj.n(),
        0 <= d < obj.n(),
        a <= d < a + obj.size(a),
    ensures
        on_chain(obj, a, d),
    decreases d,
{
    if d != a {
        assert(obj.entry_wf(d));
        let p = obj.par(d);
        if p < a {
            // a sits strictly between d's parent and d, so a's range ends
            // before d: contradiction with d lying inside a's range
            assert(a + obj.size(a) <= d);
            assert(false);
        }
        if a > 0 {
            assert(obj.entry_wf(a));
        }
        lemma_range_on_chain(obj, a, p);
    }
}

/// Preorder contiguity: the descendants of component `a` (reconstructed
/// from the parent links, `a` itself included) are exactly the components
/// whose index lies in the contiguous range `[a, a + size(a))`.
pub proof fn lemma_preorder_contiguity(obj: Obj, a: int, d: int)
    requires
        obj.wf(),
        0 <= a < obj.n(),
        0 <= d < obj.n(),
    ensures
        on_chain(obj, a, d) <==> (a <= d < a + obj.size(a)),
{
    if on_chain(obj, a, d) {
        lemma_chain_in_range(obj, a, d);
    }
    if a <= d < a + obj.size(a) {
        lemma_range_on_chain(obj, a, d);
    }
}

/// Upcast narrows and never escapes: a match found within a component's
/// subtree range lies inside that range.
pub proof fn lemma_upcast_narrows(obj: Obj, k: Seq<u8>, c: int)
    requires
        obj.wf(),
        0 <= c < obj.n(),
    ensures
        match first_match_in(obj, k, c, c + obj.size(c)) {
            Some(r) => c <= r < c + obj.size(c) && obj.key_of(r) == k,
            None => true,
        },
{
    lemma_first_match_char(obj, k, c, c + obj.size(c));
}

/// A successful downcast returns a real component of the requested type.
pub proof fn lemma_downcast_match(obj: Obj, c: int, k: Seq<u8>)
    requires
        obj.wf(),
        0 <= c < obj.n(),
    ensures
        match downcast_spec(obj, c, k) {
            Some(r) => 0 <= r < obj.n() && obj.key_of(r) == k,
            None => true,
        },
    decreases c,
{
    lemma_first_match_char(obj, k, c, c + obj.size(c));
    if first_match_in(obj, k, c, c + obj.size(c)) is None && c > 0 {
        assert(obj.entry_wf(c));
        lemma_downcast_match(obj, obj.par(c), k);
    }
}

/// Downcast resolves to the nearest enclosing scope: a successful downcast
/// from `c` finds its result within the subtree of an ancestor-or-self `a`
/// of `c`, as the first match of that subtree, while the subtree of every
/// ancestor-or-self strictly below `a` holds no component of the type. An
/// unsuccessful downcast means no ancestor's subtree holds one.
pub proof fn lemma_downcast_nearest(obj: Obj, c: int, k: Seq<u8>)
    requires
        obj.wf(),
        0 <= c < obj.n(),
    ensures
        match downcast_spec(obj, c, k) {
            Some(r) => exists|a: int| {
                &&& #[trigger] on_chain(obj, a, c)
                &&& 0 <= a <= c
                &&& first_match_in(obj, k, a, a + obj.size(a)) == Some(r)
                &&& a <= r < a + obj.size(a)
                &&& forall|b: int|
                    a < b <= c && #[trigger] on_chain(obj, b, c) ==> first_match_in(
                        obj,
                        k,
                        b,
                        b + obj.size(b),
                    ) is None
            },
            None => forall|b: int|
                0 <= b <= c && #[trigger] on_chain(obj, b, c) ==> first_match_in(
                    obj,
                    k,
                    b,
                    b + obj.size(b),
                ) is None,
        },
    decreases c,
{
    let w = first_match_in(obj, k, c, c + obj.size(c));
    lemma_first_match_char(obj, k, c, c + obj.size(c));
    if w is Some {
        let r = w->0;
        assert(on_chain(obj, c, c));
        assert forall|b: int| c < b <= c && #[trigger] on_chain(obj, b, c) implies first_match_in(
            obj,
            k,
            b,
            b + obj.size(b),
        ) is None by {}
        assert({
            &&& on_chain(obj, c, c)
            &&& 0 <= c <= c
            &&& first_match_in(obj, k, c, c + obj.size(c)) == Some(r)
            &&& c <= r < c + obj.size(c)
            &&& forall|b: int|
                c < b <= c && #[trigger] on_chain(obj, b, c) ==> first_match_in(
                    obj,
                    k,
                    b,
                    b + obj.size(b),
                ) is None
        });
    } else if c == 0 {
        assert forall|b: int| 0 <= b <= 0 && #[trigger] on_chain(obj, b, 0) implies first_match_in(
            obj,
            k,
            b,
            b + obj.size(b),
        ) is None by {}
    } else {
        assert(obj.entry_wf(c));
        let p = obj.par(c);
        lemma_downcast_nearest(obj, p, k);
        // a component is on the chain of c but not c itself exactly when it
        // is on the chain of c's parent
        assert forall|b: int| on_chain(obj, b, c) && b != c implies on_chain(obj, b, p) && 0 <= b
            <= p by {
            if on_chain(obj, b, p) {
                lemma_chain_in_range(obj, b, p);
            }
        }
        match downcast_spec(obj, p, k) {
            Some(r) => {
                let a = choose|a: int| {
                    &&& #[trigger] on_chain(obj, a, p)
                    &&& 0 <= a <= p
                    &&& first_match_in(obj, k, a, a + obj.size(a)) == Some(r)
                    &&& a <= r < a + obj.size(a)
                    &&& forall|b: int|
                        a < b <= p && #[trigger] on_chain(obj, b, p) ==> first_match_in(
                            obj,
                            k,
                            b,
                            b + obj.size(b),
                        ) is None
                };
                assert(on_chain(obj, a, c));
                assert forall|b: int| a < b <= c && #[trigger] on_chain(obj, b, c)
                    implies first_match_in(obj, k, b, b + obj.size(b)) is None by {
                    if b != c {
                        assert(on_chain(obj, b, p));
                    }
                }
                assert({
                    &&& on_chain(obj, a, c)
                    &&& 0 <= a <= c
                    &&& first_match_in(obj, k, a, a + obj.size(a)) == Some(r)
                    &&& a <= r < a + obj.size(a)
                    &&& forall|b: int|
                        a < b <= c && #[trigger] on_chain(obj, b, c) ==> first_match_in(
                            obj,
                            k,
                            b,
                            b + obj.size(b),
                        ) is None
                });
            },
            None => {
                assert forall|b: int| 0 <= b <= c && #[trigger] on_chain(obj, b, c)
                    implies first_match_in(obj, k, b, b + obj.size(b)) is None by {
                    if b != c {
                        assert(on_chain(obj, b, p));
                    }
                }
            },
        }
    }
}

/// Where every component of the requested type has the cursor inside its
/// own subtree, a successful downcast returns an ancestor-or-self: the
/// cursor's index lies within the returned component's subtree range.
pub proof fn lemma_downcast_ancestor_or_self(obj: Obj, c: int, k: Seq<u8>)
    requires
        obj.wf(),
        0 <= c < obj.n(),
        forall|j: int|
            0 <= j < obj.n() && #[trigger] obj.key_of(j) == k ==> j <= c < j + obj.size(j),
    ensures
        match downcast_spec(obj, c, k) {
            Some(r) => r <= c < r + obj.size(r),
            None => true,
        },
{
    lemma_downcast_match(obj, c, k);
}

/// Round trip: when exactly one component carries the type, the search
/// from the object root returns precisely that component.
pub proof fn lemma_upcast_unique(obj: Obj, k: Seq<u8>, j: int)
    requires
        obj.wf(),
        0 <= j < obj.n(),
        obj.key_of(j) == k,
        forall|j2: int| 0 <= j2 < obj.n() && #[trigger] obj.key_of(j2) == k ==> j2 == j,
    ensures
        first_match_in(obj, k, 0, obj.n()) == Some(j),
{
    lemma_first_match_is(obj, k, 0, obj.n(), j);
}

/// A type absent from the whole object is absent at every scope: every
/// windowed search and every downcast returns absence.
pub proof fn lemma_absent_key(obj: Obj, k: Seq<u8>, lo: int, hi: int)
    requires
        obj.wf(),
        forall|j: int| 0 <= j < obj.n() ==> #[trigger] obj.key_of(j) != k,
    ensures
        first_match_in(obj, k, lo, hi) is None,
{
    lemma_first_match_none(obj, k, lo, hi);
}

/// A type absent from the whole object makes every downcast fail.
pub proof fn lemma_absent_key_downcast(obj: Obj, k: Seq<u8>, c: int)
    requires
        obj.wf(),
        0 <= c < obj.n(),
        forall|j: int| 0 <= j < obj.n() ==> #[trigger] obj.key_of(j) != k,
    ensures
        downcast_spec(obj, c, k) is None,
    decreases c,
{
    lemma_absent_key(obj, k, c, c + obj.size(c));
    if c > 0 {
        assert(obj.entry_wf(c));
        lemma_absent_key_downcast(obj, k, obj.par(c));
    }
}

/// Idempotence at the contract level: the first-match characterization
/// determines at most one index, so any query repeated against the same
/// object yields the identical result.
pub proof fn lemma_first_match_unique(obj: Obj, k: Seq<u8>, lo: int, hi: int, j1: int, j2: int)
    requires
        lo <= j1 < hi,
        0 <= j1 < obj.n(),
        obj.key_of(j1) == k,
        forall|t: int| lo <= t < j1 ==> !(0 <= t < obj.n() && #[trigger] obj.key_of(t) == k),
        lo <= j2 < hi,
        0 <= j2 < obj.n(),
        obj.key_of(j2) == k,
        forall|t: int| lo <= t < j2 ==> !(0 <= t < obj.n() && #[trigger] obj.key_of(t) == k),
    ensures
        j1 == j2,
{
}

} // verus!
