//! Component cursors: lightweight views onto one component of a composite
//! object, with upcast/downcast navigation by type key.
//!
//! `first_match_in` is the mathematical primitive: the first component of a
//! given type within an index window. Upcast restricts it to the cursor's
//! own subtree range; downcast walks outward through the ancestors and
//! returns the first window that contains a match (`downcast_spec`).

use crate::key::TType;
use crate::object::lemma_key_of_pos;
use crate::object::lemma_pos_of_comp;
use crate::object::Obj;
use crate::object::ObjectValue;
use vstd::prelude::*;

verus! {

/// The first component index in `[lo, hi)` whose type key is `k`, if any.
pub open spec fn first_match_in(obj: Obj, k: Seq<u8>, lo: int, hi: int) -> Option<int>
    decreases hi - lo,
{
    if lo >= hi {
        None
    } else if 0 <= lo < obj.n() && obj.key_of(lo) == k {
        Some(lo)
    } else {
        first_match_in(obj, k, lo + 1, hi)
    }
}

/// What a result of `first_match_in` means: a found index is the first
/// match of the window, and absence means the window holds no match.
pub proof fn lemma_first_match_char(obj: Obj, k: Seq<u8>, lo: int, hi: int)
    ensures
        match first_match_in(obj, k, lo, hi) {
            Some(j) => {
                &&& lo <= j < hi
                &&& 0 <= j < obj.n()
                &&& obj.key_of(j) == k
                &&& forall|j2: int| lo <= j2 < j ==> !(0 <= j2 < obj.n() && obj.key_of(j2) == k)
            },
            None => forall|j2: int| lo <= j2 < hi ==> !(0 <= j2 < obj.n() && obj.key_of(j2) == k),
        },
    decreases hi - lo,
{
    if lo < hi {
        lemma_first_match_char(obj, k, lo + 1, hi);
    }
}

/// `first_match_in` returns exactly the first match when one exists.
pub proof fn lemma_first_match_is(obj: Obj, k: Seq<u8>, lo: int, hi: int, j: int)
    requires
        lo <= j < hi,
        0 <= j < obj.n(),
        obj.key_of(j) == k,
        forall|j2: int| lo <= j2 < j ==> !(0 <= j2 < obj.n() && obj.key_of(j2) == k),
    ensures
        first_match_in(obj, k, lo, hi) == Some(j),
    decreases j - lo,
{
    if lo != j {
        lemma_first_match_is(obj, k, lo + 1, hi, j);
    }
}

/// A window with no match yields absence.
pub proof fn lemma_first_match_none(obj: Obj, k: Seq<u8>, lo: int, hi: int)
    requires
        forall|j2: int| lo <= j2 < hi ==> !(0 <= j2 < obj.n() && obj.key_of(j2) == k),
    ensures
        first_match_in(obj, k, lo, hi) is None,
    decreases hi - lo,
{
    if lo < hi {
        lemma_first_match_none(obj, k, lo + 1, hi);
    }
}

/// Bridge from the type index to component space: the first type-index
/// entry with key `k` and component index in `[start, end)` names exactly
/// the first component of type `k` in that window.
pub proof fn lemma_window_found(obj: Obj, k: Seq<u8>, start: int, end: int, m: int)
    requires
        obj.wf(),
        0 <= start,
        end <= obj.n(),
        0 <= m < obj.map@.len(),
        obj.mkey(m) == k,
        start <= obj.midx(m) < end,
        forall|m2: int|
            0 <= m2 < obj.map@.len() && #[trigger] obj.mkey(m2) == k && start <= obj.midx(m2) < end
                ==> obj.midx(m) <= obj.midx(m2),
    ensures
        first_match_in(obj, k, start, end) == Some(obj.midx(m)),
        obj.key_of(obj.midx(m)) == k,
{
    let j = obj.midx(m);
    lemma_key_of_pos(obj, m);
    assert forall|j2: int| start <= j2 < j implies !(0 <= j2 < obj.n() && obj.key_of(j2)
        == k) by {
        if 0 <= j2 < obj.n() && obj.key_of(j2) == k {
            lemma_pos_of_comp(obj, j2);
            let m2 = choose|m2: int|
                0 <= m2 < obj.map@.len() && obj.midx(m2) == j2 && obj.mkey(m2) == obj.key_of(j2);
            assert(obj.mkey(m2) == k);
            assert(obj.midx(m) <= obj.midx(m2));
        }
    }
    lemma_first_match_is(obj, k, start, end, j);
}

/// Bridge for the absence case: if no type-index entry matches in the
/// window, no component of that type lies in the window.
pub proof fn lemma_window_empty(obj: Obj, k: Seq<u8>, start: int, end: int)
    requires
        obj.wf(),
        forall|m2: int|
            0 <= m2 < obj.map@.len() ==> !(#[trigger] obj.mkey(m2) == k && start <= obj.midx(m2)
                < end),
    ensures
        first_match_in(obj, k, start, end) is None,
        forall|j2: int| start <= j2 < end ==> !(0 <= j2 < obj.n() && obj.key_of(j2) == k),
{
    assert forall|j2: int| start <= j2 < end implies !(0 <= j2 < obj.n() && obj.key_of(j2)
        == k) by {
        if 0 <= j2 < obj.n() && obj.key_of(j2) == k {
            lemma_pos_of_comp(obj, j2);
            let m2 = choose|m2: int|
                0 <= m2 < obj.map@.len() && obj.midx(m2) == j2 && obj.mkey(m2) == obj.key_of(j2);
            assert(obj.mkey(m2) == k);
            assert(false);
        }
    }
    lemma_first_match_none(obj, k, start, end);
}

/// A read-only view of one component of a composite object: the object
/// reference and the component's preorder index. It owns nothing and is
/// freely copied per query.
pub struct Component<'a> {
    pub parent: &'a Obj,
    pub index: usize,
}

impl<'a> Component<'a> {
    /// A cursor is valid when its object is well formed and its index
    /// names a real component.
    pub open spec fn wf(self) -> bool {
        &&& self.parent.wf()
        &&& (self.index as int) < self.parent.n()
    }

    /// End (exclusive) of this component's subtree range.
    pub open spec fn sub_end(self) -> int {
        self.index as int + self.parent.size(self.index as int)
    }

    /// The value stored at this component.
    pub fn value(&self) -> (r: &'a ObjectValue)
        requires
            self.wf(),
        ensures
            r@ == self.parent.val(self.index as int),
    {
        &self.parent.components[self.index].value
    }

    /// Narrow to the first component of type `k` within this component's
    /// own subtree (itself included); absence if the subtree holds none.
    pub fn upcast(&self, k: &TType) -> (r: Option<Component<'a>>)
        requires
            self.wf(),
        ensures
            match r {
                Some(c) => {
                    &&& c.parent == self.parent
                    &&& c.wf()
                    &&& self.index <= c.index
                    &&& (c.index as int) < self.sub_end()
                    &&& self.parent.key_of(c.index as int) == k.definition@
                    &&& first_match_in(*self.parent, k.definition@, self.index as int, self.sub_end())
                        == Some(c.index as int)
                },
                None => {
                    &&& first_match_in(*self.parent, k.definition@, self.index as int, self.sub_end())
                        is None
                    &&& forall|j: int|
                        self.index <= j < self.sub_end() ==> #[trigger] self.parent.key_of(j)
                            != k.definition@
                },
            },
    {
        proof {
            self.parent.lemma_range_in_bounds(self.index as int);
        }
        let cnt = self.parent.components[self.index].total_descendent_count;
        let end = self.index + cnt;
        match self.parent.get_within(k, self.index, end) {
            Some(m) => {
                let ci = self.parent.map[m].1;
                proof {
                    lemma_window_found(
                        *self.parent,
                        k.definition@,
                        self.index as int,
                        end as int,
                        m as int,
                    );
                }
                Some(Component { parent: self.parent, index: ci })
            },
            None => {
                proof {
                    lemma_window_empty(
                        *self.parent,
                        k.definition@,
                        self.index as int,
                        end as int,
                    );
                }
                None
            },
        }
    }
}

impl Obj {
    /// A component's subtree range stays within the array.
    pub proof fn lemma_range_in_bounds(self, i: int)
        requires
            self.wf(),
            0 <= i < self.n(),
        ensures
            1 <= self.size(i),
            i + self.size(i) <= self.n(),
    {
        if i > 0 {
            assert(self.entry_wf(i));
        }
    }

    /// Narrow the whole object to the first component of type `k` in
    /// preorder; absence if no component has that type.
    pub fn upcast<'a>(&'a self, k: &TType) -> (r: Option<Component<'a>>)
        requires
            self.wf(),
        ensures
            match r {
                Some(c) => {
                    &&& c.parent == self
                    &&& c.wf()
                    &&& self.key_of(c.index as int) == k.definition@
                    &&& first_match_in(*self, k.definition@, 0, self.n()) == Some(c.index as int)
                    &&& forall|j: int|
                        0 <= j < c.index ==> #[trigger] self.key_of(j) != k.definition@
                },
                None => {
                    &&& first_match_in(*self, k.definition@, 0, self.n()) is None
                    &&& forall|j: int|
                        0 <= j < self.n() ==> #[trigger] self.key_of(j) != k.definition@
                },
            },
    {
        match self.get(k) {
            Some(m) => {
                let ci = self.map[m].1;
                proof {
                    assert forall|m2: int|
                        0 <= m2 < self.map@.len() && #[trigger] self.mkey(m2) == k.definition@ && 0
                            <= self.midx(m2) < self.n() implies self.midx(m as int) <= self.midx(
                        m2,
                    ) by {
                        if m2 < m {
                            assert(self.mkey(m2) != k.definition@);
                        } else {
                            assert(self.map@.len() == self.n());
                            assert(crate::key::pair_le(
                                self.mkey(m as int),
                                self.midx(m as int),
                                self.mkey(m2),
                                self.midx(m2),
                            ));
                            crate::key::lemma_key_lt_total(k.definition@, k.definition@);
                        }
                    }
                    lemma_window_found(*self, k.definition@, 0, self.n(), m as int);
                    lemma_first_match_char(*self, k.definition@, 0, self.n());
                }
                Some(Component { parent: self, index: ci })
            },
            None => {
                proof {
                    lemma_window_empty(*self, k.definition@, 0, self.n());
                }
                None
            },
        }
    }
}

/// The meaning of a downcast: starting from component `c`, walk
/// outward through the ancestors; at each step take the first component of
/// type `k` within the ancestor's subtree range if there is one, and stop
/// with absence once the root has been tried.
pub open spec fn downcast_spec(obj: Obj, c: int, k: Seq<u8>) -> Option<int>
    decreases c,
{
    let w = first_match_in(obj, k, c, c + obj.size(c));
    if w is Some {
        w
    } else if c <= 0 || !(0 <= obj.par(c) < c) {
        None
    } else {
        downcast_spec(obj, obj.par(c), k)
    }
}

impl<'a> Component<'a> {
    /// Widen to the enclosing scope: find the nearest ancestor (this
    /// component included) whose subtree holds a component of type `k`,
    /// and return the first such component of that subtree; absence if the
    /// whole object holds none.
    pub fn downcast(&self, k: &TType) -> (r: Option<Component<'a>>)
        requires
            self.wf(),
        ensures
            match r {
                Some(c) => {
                    &&& c.parent == self.parent
                    &&& c.wf()
                    &&& downcast_spec(*self.parent, self.index as int, k.definition@) == Some(
                        c.index as int,
                    )
                    &&& self.parent.key_of(c.index as int) == k.definition@
                },
                None => {
                    &&& downcast_spec(*self.parent, self.index as int, k.definition@) is None
                    &&& forall|j: int|
                        0 <= j < self.parent.n() ==> #[trigger] self.parent.key_of(j)
                            != k.definition@
                },
            },
    {
        let obj = self.parent;
        let mut a = self.index;
        loop
            invariant
                obj == self.parent,
                obj.wf(),
                (a as int) < obj.n(),
                downcast_spec(*obj, self.index as int, k.definition@) == downcast_spec(
                    *obj,
                    a as int,
                    k.definition@,
                ),
            decreases a,
        {
            proof {
                obj.lemma_range_in_bounds(a as int);
            }
            let cur = Component { parent: obj, index: a };
            match cur.upcast(k) {
                Some(c) => {
                    proof {
                        lemma_first_match_char(*obj, k.definition@, a as int, cur.sub_end());
                    }
                    return Some(c);
                },
                None => {
                    if a == 0 {
                        proof {
                            assert(obj.size(0) == obj.n());
                            lemma_first_match_char(*obj, k.definition@, 0, obj.n());
                        }
                        return None;
                    }
                    proof {
                        assert(obj.entry_wf(a as int));
                    }
                    a = obj.components[a].parent_index;
                },
            }
        }
    }
}

} // verus!
