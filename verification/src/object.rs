//! The composite object: two parallel arrays and their invariants.
//!
//! `Obj` owns the preorder component list and the type index sorted by
//! `(key, component index)`. Well-formedness (`wf`) captures the preorder
//! contiguity of subtree ranges, the consistency of parent links, and the
//! sortedness and bijectivity of the type index. `get` and `get_within`
//! are the binary-search primitives over the type index; construction from
//! a tree lives here as well.

use crate::key::bytes_cmp;
use crate::key::clone_bytes;
use crate::key::lemma_key_lt_total;
use crate::key::lemma_pair_total;
use crate::key::lemma_pair_trans;
use crate::key::pair_le;
use crate::key::pair_lt;
use crate::key::Cmp;
use crate::key::TType;
use crate::tree::block_entry_wf;
use crate::tree::flat1;
use crate::tree::flat_from;
use crate::tree::lemma_flat1_len;
use crate::tree::lemma_flat1_wf;
use crate::tree::lemma_flat_from_len;
use crate::tree::tcount;
use crate::tree::ccount;
use crate::tree::FlatEntry;
use crate::tree::Tree;
use vstd::prelude::*;
use vstd::seq_lib::group_to_multiset_ensures;

verus! {

broadcast use group_to_multiset_ensures;

/// The opaque byte payload attached to one component.
pub type ObjectValue = Vec<u8>;

/// One flattened component: its value, the size of its subtree (itself
/// included, so always at least 1), and the index of its parent within the
/// same preorder array (the root points to itself).
#[derive(Clone, Debug)]
pub struct ObjectComponentEntry {
    pub value: ObjectValue,
    pub total_descendent_count: usize,
    pub parent_index: usize,
}

/// The composite object: `components` holds the flattened preorder tree,
/// `map` the type index sorted by `(type key, component index)`, one entry
/// per component.
pub struct Obj {
    pub map: Vec<(TType, usize)>,
    pub components: Vec<ObjectComponentEntry>,
}

/// A sequence of `(key, component index)` pairs in ascending pair order.
pub open spec fn sorted_pairs(s: Seq<(TType, usize)>) -> bool {
    forall|m1: int, m2: int|
        0 <= m1 <= m2 < s.len() ==> #[trigger] pair_le(
            s[m1].0.definition@,
            s[m1].1 as int,
            s[m2].0.definition@,
            s[m2].1 as int,
        )
}

/// Correspondence of one executable component entry with its model.
pub open spec fn entry_models(e: ObjectComponentEntry, fe: FlatEntry) -> bool {
    &&& e.value@ == fe.value
    &&& e.total_descendent_count as int == fe.size
    &&& e.parent_index as int == fe.parent
}

impl Obj {
    /// Number of components.
    pub open spec fn n(self) -> int {
        self.components@.len() as int
    }

    /// Subtree size of component `i` (itself included).
    pub open spec fn size(self, i: int) -> int {
        self.components@[i].total_descendent_count as int
    }

    /// Parent index of component `i`.
    pub open spec fn par(self, i: int) -> int {
        self.components@[i].parent_index as int
    }

    /// Value of component `i`.
    pub open spec fn val(self, i: int) -> Seq<u8> {
        self.components@[i].value@
    }

    /// Type key at type-index position `m`.
    pub open spec fn mkey(self, m: int) -> Seq<u8> {
        self.map@[m].0.definition@
    }

    /// Component index at type-index position `m`.
    pub open spec fn midx(self, m: int) -> int {
        self.map@[m].1 as int
    }

    /// Some type-index position refers to component `j`.
    pub open spec fn has_pos(self, j: int) -> bool {
        exists|m: int| 0 <= m < self.map@.len() && self.midx(m) == j
    }

    /// The type key of component `j`, read off the type index.
    pub open spec fn key_of(self, j: int) -> Seq<u8> {
        let m = choose|m: int| 0 <= m < self.map@.len() && self.midx(m) == j;
        self.mkey(m)
    }

    /// Structural well-formedness of a non-root component: its subtree
    /// range is non-empty, stays inside the array and inside its parent's
    /// range, its parent comes strictly before it, and every component
    /// strictly between its parent and itself ends before it.
    pub open spec fn entry_wf(self, i: int) -> bool {
        &&& 1 <= self.size(i)
        &&& i + self.size(i) <= self.n()
        &&& 0 <= self.par(i) < i
        &&& i + self.size(i) <= self.par(i) + self.size(self.par(i))
        &&& forall|a: int| self.par(i) < a < i ==> a + #[trigger] self.size(a) <= i
    }

    /// Preorder structure: the root covers the whole array and every other
    /// component is well placed under its parent.
    pub open spec fn tree_wf(self) -> bool {
        &&& self.n() >= 1
        &&& self.size(0) == self.n()
        &&& self.par(0) == 0
        &&& forall|i: int| 0 < i < self.n() ==> #[trigger] self.entry_wf(i)
    }

    /// Type-index well-formedness: one entry per component, sorted by
    /// `(key, component index)`, with distinct component indices that all
    /// refer to real components.
    pub open spec fn map_wf(self) -> bool {
        &&& self.map@.len() == self.n()
        &&& sorted_pairs(self.map@)
        &&& forall|m: int| 0 <= m < self.map@.len() ==> 0 <= #[trigger] self.midx(m) < self.n()
        &&& forall|m1: int, m2: int|
            #![trigger self.midx(m1), self.midx(m2)]
            0 <= m1 < m2 < self.map@.len() ==> self.midx(m1) != self.midx(m2)
        &&& forall|j: int| 0 <= j < self.n() ==> #[trigger] self.has_pos(j)
    }

    /// Full invariant of a constructed object.
    pub open spec fn wf(self) -> bool {
        self.tree_wf() && self.map_wf()
    }
}

/// The type index agrees with `key_of`: the key stored at a position is the
/// key of the component that position refers to.
pub proof fn lemma_key_of_pos(obj: Obj, m: int)
    requires
        obj.wf(),
        0 <= m < obj.map@.len(),
    ensures
        obj.key_of(obj.midx(m)) == obj.mkey(m),
{
    let j = obj.midx(m);
    assert(obj.has_pos(j));
    let m2 = choose|m2: int| 0 <= m2 < obj.map@.len() && obj.midx(m2) == j;
    assert(obj.midx(m2) == obj.midx(m));
    if m2 != m {
        // distinct positions carry distinct component indices
        assert(false);
    }
}

/// Every component has a position in the type index carrying its key.
pub proof fn lemma_pos_of_comp(obj: Obj, j: int)
    requires
        obj.wf(),
        0 <= j < obj.n(),
    ensures
        exists|m: int|
            0 <= m < obj.map@.len() && obj.midx(m) == j && obj.mkey(m) == obj.key_of(j),
{
    assert(obj.has_pos(j));
    let m = choose|m: int| 0 <= m < obj.map@.len() && obj.midx(m) == j;
    lemma_key_of_pos(obj, m);
    assert(0 <= m < obj.map@.len() && obj.midx(m) == j && obj.mkey(m) == obj.key_of(j));
}

/// Strict pair order between a type-index entry and a query pair.
fn entry_before(e: &(TType, usize), k: &TType, idx: usize) -> (r: bool)
    ensures
        r == pair_lt(e.0.definition@, e.1 as int, k.definition@, idx as int),
{
    proof {
        lemma_key_lt_total(e.0.definition@, k.definition@);
    }
    match bytes_cmp(&e.0.definition, &k.definition) {
        Cmp::Lt => true,
        Cmp::Gt => false,
        Cmp::Eq => e.1 < idx,
    }
}

/// Reflexive pair order between two type-index entries.
fn entry_le(a: &(TType, usize), b: &(TType, usize)) -> (r: bool)
    ensures
        r == pair_le(a.0.definition@, a.1 as int, b.0.definition@, b.1 as int),
{
    proof {
        lemma_key_lt_total(a.0.definition@, b.0.definition@);
    }
    match bytes_cmp(&a.0.definition, &b.0.definition) {
        Cmp::Lt => true,
        Cmp::Gt => false,
        Cmp::Eq => a.1 <= b.1,
    }
}

impl Obj {
    /// Binary search for the first type-index position at or after the
    /// query pair `(k, start)` in the pair order.
    fn lower_bound(&self, k: &TType, start: usize) -> (m: usize)
        requires
            self.wf(),
        ensures
            m <= self.map@.len(),
            forall|m2: int|
                0 <= m2 < m ==> pair_lt(
                    #[trigger] self.mkey(m2),
                    self.midx(m2),
                    k.definition@,
                    start as int,
                ),
            forall|m2: int|
                m <= m2 < self.map@.len() ==> pair_le(
                    k.definition@,
                    start as int,
                    #[trigger] self.mkey(m2),
                    self.midx(m2),
                ),
    {
        let mut lo: usize = 0;
        let mut hi: usize = self.map.len();
        while lo < hi
            invariant
                self.wf(),
                lo <= hi <= self.map@.len(),
                forall|m2: int|
                    0 <= m2 < lo ==> pair_lt(
                        #[trigger] self.mkey(m2),
                        self.midx(m2),
                        k.definition@,
                        start as int,
                    ),
                forall|m2: int|
                    hi <= m2 < self.map@.len() ==> pair_le(
                        k.definition@,
                        start as int,
                        #[trigger] self.mkey(m2),
                        self.midx(m2),
                    ),
            decreases hi - lo,
        {
            let mid = lo + (hi - lo) / 2;
            if entry_before(&self.map[mid], k, start) {
                proof {
                    assert forall|m2: int| 0 <= m2 < mid + 1 implies pair_lt(
                        #[trigger] self.mkey(m2),
                        self.midx(m2),
                        k.definition@,
                        start as int,
                    ) by {
                        assert(pair_le(
                            self.mkey(m2),
                            self.midx(m2),
                            self.mkey(mid as int),
                            self.midx(mid as int),
                        ));
                        lemma_pair_trans(
                            self.mkey(m2),
                            self.midx(m2),
                            self.mkey(mid as int),
                            self.midx(mid as int),
                            k.definition@,
                            start as int,
                        );
                    }
                }
                lo = mid + 1;
            } else {
                proof {
                    lemma_pair_total(
                        self.mkey(mid as int),
                        self.midx(mid as int),
                        k.definition@,
                        start as int,
                    );
                    assert forall|m2: int| mid <= m2 < self.map@.len() implies pair_le(
                        k.definition@,
                        start as int,
                        #[trigger] self.mkey(m2),
                        self.midx(m2),
                    ) by {
                        assert(pair_le(
                            self.mkey(mid as int),
                            self.midx(mid as int),
                            self.mkey(m2),
                            self.midx(m2),
                        ));
                        lemma_pair_trans(
                            k.definition@,
                            start as int,
                            self.mkey(mid as int),
                            self.midx(mid as int),
                            self.mkey(m2),
                            self.midx(m2),
                        );
                    }
                }
                hi = mid;
            }
        }
        lo
    }

    /// Index of the first type-index entry whose key is `k`, or absence if
    /// no component has that type.
    pub fn get(&self, k: &TType) -> (r: Option<usize>)
        requires
            self.wf(),
        ensures
            match r {
                Some(m) => {
                    &&& 0 <= m < self.map@.len()
                    &&& self.mkey(m as int) == k.definition@
                    &&& forall|m2: int| 0 <= m2 < m ==> #[trigger] self.mkey(m2) != k.definition@
                },
                None => forall|m2: int|
                    0 <= m2 < self.map@.len() ==> #[trigger] self.mkey(m2) != k.definition@,
            },
    {
        let m = self.lower_bound(k, 0);
        proof {
            assert forall|m2: int| 0 <= m2 < m implies #[trigger] self.mkey(m2)
                != k.definition@ by {
                lemma_key_lt_total(self.mkey(m2), k.definition@);
            }
        }
        if m < self.map.len() {
            match bytes_cmp(&self.map[m].0.definition, &k.definition) {
                Cmp::Eq => Some(m),
                _ => {
                    proof {
                        self.lemma_no_later_match(k.definition@, 0, m as int);
                    }
                    None
                },
            }
        } else {
            None
        }
    }

    /// If the lower bound for `(k, start)` lands on a key other than `k`,
    /// then no later position carries `k` either.
    proof fn lemma_no_later_match(self, k: Seq<u8>, start: int, m: int)
        requires
            self.wf(),
            0 <= m < self.map@.len(),
            self.mkey(m) != k,
            pair_le(k, start, self.mkey(m), self.midx(m)),
        ensures
            forall|m2: int| m <= m2 < self.map@.len() ==> #[trigger] self.mkey(m2) != k,
    {
        assert forall|m2: int| m <= m2 < self.map@.len() implies #[trigger] self.mkey(m2) != k by {
            if self.mkey(m2) == k {
                assert(pair_le(self.mkey(m), self.midx(m), self.mkey(m2), self.midx(m2)));
                lemma_key_lt_total(self.mkey(m), k);
                // pair_le(k, start, mkey(m), _) gives key_lt(k, mkey(m));
                // pair_le(mkey(m), _, k, _) gives key_lt(mkey(m), k): contradiction
                assert(false);
            }
        }
    }

    /// Index of the first type-index entry whose key is `k` and whose
    /// component index lies in `[start, end)`, or absence if there is none.
    pub fn get_within(&self, k: &TType, start: usize, end: usize) -> (r: Option<usize>)
        requires
            self.wf(),
        ensures
            match r {
                Some(m) => {
                    &&& 0 <= m < self.map@.len()
                    &&& self.mkey(m as int) == k.definition@
                    &&& start <= self.midx(m as int) < end
                    &&& forall|m2: int|
                        0 <= m2 < self.map@.len() && #[trigger] self.mkey(m2) == k.definition@
                            && start <= self.midx(m2) < end ==> self.midx(m as int) <= self.midx(
                            m2,
                        )
                },
                None => forall|m2: int|
                    0 <= m2 < self.map@.len() ==> !(#[trigger] self.mkey(m2) == k.definition@
                        && start <= self.midx(m2) < end),
            },
    {
        let m = self.lower_bound(k, start);
        proof {
            assert forall|m2: int|
                0 <= m2 < self.map@.len() && #[trigger] self.mkey(m2) == k.definition@ && start
                    <= self.midx(m2) < end implies m <= m2 by {
                if m2 < m {
                    lemma_key_lt_total(self.mkey(m2), k.definition@);
                }
            }
        }
        if m < self.map.len() {
            let key_is_k = match bytes_cmp(&self.map[m].0.definition, &k.definition) {
                Cmp::Eq => true,
                _ => false,
            };
            if !key_is_k {
                proof {
                    self.lemma_no_later_match(k.definition@, start as int, m as int);
                }
                return None;
            }
            proof {
                assert(self.mkey(m as int) == k.definition@);
                lemma_key_lt_total(k.definition@, k.definition@);
                // pair_le(k, start, k, midx(m)) forces start <= midx(m)
                assert(pair_le(k.definition@, start as int, self.mkey(m as int), self.midx(m as int)));
                assert(start as int <= self.midx(m as int));
            }
            if self.map[m].1 < end {
                proof {
                    assert forall|m2: int|
                        0 <= m2 < self.map@.len() && #[trigger] self.mkey(m2) == k.definition@
                            && start <= self.midx(m2) < end implies self.midx(m as int)
                        <= self.midx(m2) by {
                        assert(pair_le(
                            self.mkey(m as int),
                            self.midx(m as int),
                            self.mkey(m2),
                            self.midx(m2),
                        ));
                    }
                }
                Some(m)
            } else {
                proof {
                    assert forall|m2: int|
                        0 <= m2 < self.map@.len() implies !(#[trigger] self.mkey(m2)
                        == k.definition@ && start <= self.midx(m2) < end) by {
                        if self.mkey(m2) == k.definition@ && start <= self.midx(m2) < end {
                            assert(pair_le(
                                self.mkey(m as int),
                                self.midx(m as int),
                                self.mkey(m2),
                                self.midx(m2),
                            ));
                        }
                    }
                }
                None
            }
        } else {
            None
        }
    }
}

/// Selection sort of the type index by `(key, component index)`: ascending
/// order, same elements.
fn sort_map(v: &mut Vec<(TType, usize)>)
    ensures
        final(v)@.len() == old(v)@.len(),
        final(v)@.to_multiset() == old(v)@.to_multiset(),
        sorted_pairs(final(v)@),
{
    let ghost orig = old(v)@;
    let len = v.len();
    let mut r: usize = 0;
    while r < len
        invariant
            r <= len,
            v@.len() == len,
            v@.to_multiset() == orig.to_multiset(),
            forall|m1: int, m2: int|
                len - r <= m1 <= m2 < len ==> #[trigger] pair_le(
                    v@[m1].0.definition@,
                    v@[m1].1 as int,
                    v@[m2].0.definition@,
                    v@[m2].1 as int,
                ),
            forall|m1: int, m2: int|
                len - r <= m1 < len && 0 <= m2 < len - r ==> #[trigger] pair_le(
                    v@[m1].0.definition@,
                    v@[m1].1 as int,
                    v@[m2].0.definition@,
                    v@[m2].1 as int,
                ),
        decreases len - r,
    {
        let u: usize = len - r;
        let mut mi: usize = 0;
        let mut q: usize = 1;
        while q < u
            invariant
                1 <= q <= u,
                u <= v@.len(),
                mi < q,
                forall|t: int|
                    0 <= t < q ==> #[trigger] pair_le(
                        v@[mi as int].0.definition@,
                        v@[mi as int].1 as int,
                        v@[t].0.definition@,
                        v@[t].1 as int,
                    ),
            decreases u - q,
        {
            if entry_le(&v[q], &v[mi]) {
                proof {
                    assert forall|t: int| 0 <= t < q + 1 implies pair_le(
                        v@[q as int].0.definition@,
                        v@[q as int].1 as int,
                        #[trigger] v@[t].0.definition@,
                        v@[t].1 as int,
                    ) by {
                        if t < q {
                            assert(pair_le(
                                v@[mi as int].0.definition@,
                                v@[mi as int].1 as int,
                                v@[t].0.definition@,
                                v@[t].1 as int,
                            ));
                            lemma_pair_trans(
                                v@[q as int].0.definition@,
                                v@[q as int].1 as int,
                                v@[mi as int].0.definition@,
                                v@[mi as int].1 as int,
                                v@[t].0.definition@,
                                v@[t].1 as int,
                            );
                        }
                    }
                }
                mi = q;
            } else {
                proof {
                    lemma_pair_total(
                        v@[q as int].0.definition@,
                        v@[q as int].1 as int,
                        v@[mi as int].0.definition@,
                        v@[mi as int].1 as int,
                    );
                    assert(pair_le(
                        v@[mi as int].0.definition@,
                        v@[mi as int].1 as int,
                        v@[q as int].0.definition@,
                        v@[q as int].1 as int,
                    ));
                }
            }
            q = q + 1;
        }
        let ghost before = v@;
        let x = v.remove(mi);
        v.push(x);
        proof {
            // same elements: removing and appending the same value
            assert(v@.to_multiset() =~= before.to_multiset());
            // the new sorted suffix is the shifted old suffix plus the
            // extracted minimum at the end
            assert forall|m1: int, m2: int|
                len - r - 1 <= m1 <= m2 < len implies #[trigger] pair_le(
                v@[m1].0.definition@,
                v@[m1].1 as int,
                v@[m2].0.definition@,
                v@[m2].1 as int,
            ) by {
                let o1 = if m1 < len - 1 { if m1 < mi { m1 } else { m1 + 1 } } else { mi as int };
                let o2 = if m2 < len - 1 { if m2 < mi { m2 } else { m2 + 1 } } else { mi as int };
                assert(v@[m1] == before[o1]);
                assert(v@[m2] == before[o2]);
                if m2 < len - 1 {
                    // both in the shifted old suffix
                    assert(pair_le(
                        before[o1].0.definition@,
                        before[o1].1 as int,
                        before[o2].0.definition@,
                        before[o2].1 as int,
                    ));
                } else if m1 < len - 1 {
                    // old suffix element against the extracted minimum:
                    // the old cross invariant gives it
                    assert(pair_le(
                        before[o1].0.definition@,
                        before[o1].1 as int,
                        before[mi as int].0.definition@,
                        before[mi as int].1 as int,
                    ));
                }
            }
            assert forall|m1: int, m2: int|
                len - r - 1 <= m1 < len && 0 <= m2 < len - r - 1 implies #[trigger] pair_le(
                v@[m1].0.definition@,
                v@[m1].1 as int,
                v@[m2].0.definition@,
                v@[m2].1 as int,
            ) by {
                let o1 = if m1 < len - 1 { if m1 < mi { m1 } else { m1 + 1 } } else { mi as int };
                let o2: int = if m2 < mi { m2 } else { m2 + 1 };
                assert(v@[m1] == before[o1]);
                assert(v@[m2] == before[o2]);
                if m1 < len - 1 {
                    assert(pair_le(
                        before[o1].0.definition@,
                        before[o1].1 as int,
                        before[o2].0.definition@,
                        before[o2].1 as int,
                    ));
                } else {
                    // the minimum against a remaining unsorted element
                    assert(pair_le(
                        before[mi as int].0.definition@,
                        before[mi as int].1 as int,
                        before[o2].0.definition@,
                        before[o2].1 as int,
                    ));
                }
            }
        }
        r = r + 1;
    }
}

impl Obj {
    /// Flatten the subtree rooted at `tree` into the arrays, placing its
    /// root at position `index` with the given parent, and appending one
    /// type-index pair per node in preorder.
    fn recurse_tree(
        &mut self,
        index: usize,
        parent_index: usize,
        tree: &Tree<TType, ObjectValue>,
    ) -> (r: usize)
        requires
            old(self).components@.len() == index as int,
            old(self).map@.len() == index as int,
            index as int + tcount(*tree) <= usize::MAX as int,
        ensures
            r as int == index as int + tcount(*tree),
            final(self).components@.len() == r as int,
            final(self).map@.len() == r as int,
            forall|i: int|
                0 <= i < index as int ==> #[trigger] final(self).components@[i] == old(
                    self,
                ).components@[i],
            forall|i: int|
                0 <= i < index as int ==> #[trigger] final(self).map@[i] == old(self).map@[i],
            forall|i: int|
                index as int <= i < r as int ==> entry_models(
                    #[trigger] final(self).components@[i],
                    flat1(*tree, index as int, parent_index as int)[i - index as int],
                ),
            forall|i: int|
                index as int <= i < r as int ==> (#[trigger] final(self).map@[i]).0.definition@
                    == flat1(*tree, index as int, parent_index as int)[i - index as int].key,
            forall|i: int|
                index as int <= i < r as int ==> (#[trigger] final(self).map@[i]).1 as int == i,
        decreases *tree,
    {
        let ghost model = flat1(*tree, index as int, parent_index as int);
        proof {
            lemma_flat1_len(*tree, index as int, parent_index as int);
            lemma_flat_from_len(tree.children@, 0, index as int + 1, index as int);
        }
        self.map.push((TType { definition: clone_bytes(&tree.k.definition) }, index));
        self.components.push(
            ObjectComponentEntry {
                value: clone_bytes(&tree.v),
                total_descendent_count: 0,
                parent_index: parent_index,
            },
        );
        let mut idx: usize = index + 1;
        let mut c: usize = 0;
        let ghost children = tree.children@;
        let ghost mut fdone: Seq<FlatEntry> = Seq::empty();
        proof {
            assert(fdone + flat_from(children, 0, index as int + 1, index as int) =~= flat_from(
                children,
                0,
                index as int + 1,
                index as int,
            ));
        }
        while c < tree.children.len()
            invariant
                children == tree.children@,
                c as int <= children.len(),
                index as int + tcount(*tree) <= usize::MAX as int,
                idx as int == index as int + 1 + fdone.len(),
                idx as int + ccount(children, c as int) == index as int + tcount(*tree),
                fdone + flat_from(children, c as int, idx as int, index as int) == flat_from(
                    children,
                    0,
                    index as int + 1,
                    index as int,
                ),
                self.components@.len() == idx as int,
                self.map@.len() == idx as int,
                forall|i: int|
                    0 <= i < index as int ==> #[trigger] self.components@[i] == old(
                        self,
                    ).components@[i],
                forall|i: int|
                    0 <= i < index as int ==> #[trigger] self.map@[i] == old(self).map@[i],
                self.components@[index as int].value@ == tree.v@,
                self.components@[index as int].total_descendent_count == 0,
                self.components@[index as int].parent_index == parent_index,
                self.map@[index as int].0.definition@ == tree.k.definition@,
                self.map@[index as int].1 == index,
                forall|i: int|
                    index as int + 1 <= i < idx as int ==> entry_models(
                        #[trigger] self.components@[i],
                        fdone[i - index as int - 1],
                    ),
                forall|i: int|
                    index as int + 1 <= i < idx as int ==> (#[trigger] self.map@[i]).0.definition@
                        == fdone[i - index as int - 1].key,
                forall|i: int|
                    index as int + 1 <= i < idx as int ==> (#[trigger] self.map@[i]).1 as int == i,
            decreases children.len() - c,
        {
            let ghost pre_idx = idx as int;
            proof {
                lemma_flat1_len(children[c as int], pre_idx, index as int);
                lemma_flat_from_len(
                    children,
                    c as int + 1,
                    pre_idx + tcount(children[c as int]),
                    index as int,
                );
            }
            let child = &tree.children[c];
            idx = self.recurse_tree(idx, index, child);
            proof {
                let piece = flat1(children[c as int], pre_idx, index as int);
                let rest = flat_from(
                    children,
                    c as int + 1,
                    pre_idx + tcount(children[c as int]),
                    index as int,
                );
                assert((fdone + piece) + rest =~= fdone + (piece + rest));
                fdone = fdone + piece;
            }
            c = c + 1;
        }
        proof {
            assert(flat_from(children, c as int, idx as int, index as int) =~= Seq::<
                FlatEntry,
            >::empty());
            assert(fdone + Seq::<FlatEntry>::empty() =~= fdone);
            assert(fdone == flat_from(children, 0, index as int + 1, index as int));
        }
        let total = idx - index;
        let ghost before = self.components@;
        let mut root_entry = self.components.remove(index);
        root_entry.total_descendent_count = total;
        self.components.insert(index, root_entry);
        proof {
            assert(self.components@ =~= before.update(
                index as int,
                ObjectComponentEntry {
                    value: before[index as int].value,
                    total_descendent_count: total,
                    parent_index: before[index as int].parent_index,
                },
            ));
            assert forall|i: int| index as int <= i < idx as int implies entry_models(
                #[trigger] self.components@[i],
                model[i - index as int],
            ) && (self.map@[i]).0.definition@ == model[i - index as int].key && (
            self.map@[i]).1 as int == i by {
                if i > index as int {
                    assert(model[i - index as int] == fdone[i - index as int - 1]);
                    assert(entry_models(self.components@[i], fdone[i - index as int - 1]));
                    assert((self.map@[i]).0.definition@ == fdone[i - index as int - 1].key);
                    assert((self.map@[i]).1 as int == i);
                } else {
                    assert(model[0].key == tree.k.definition@);
                    assert(model[0].value == tree.v@);
                    assert(model[0].size == tcount(*tree));
                    assert(model[0].parent == parent_index as int);
                }
            }
        }
        idx
    }

    /// Build a composite object from a tree: flatten it in preorder, then
    /// sort the type index once by `(key, component index)`. The result is
    /// well formed and carries exactly the keys, values, subtree sizes and
    /// parent links of the flattened tree.
    #[verifier::rlimit(50)]
    pub fn from_tree(tree: Tree<TType, ObjectValue>) -> (r: Self)
        requires
            tcount(tree) <= usize::MAX as int,
        ensures
            r.wf(),
            r.n() == tcount(tree),
            forall|j: int| 0 <= j < r.n() ==> #[trigger] r.val(j) == flat1(tree, 0, 0)[j].value,
            forall|j: int| 0 <= j < r.n() ==> #[trigger] r.size(j) == flat1(tree, 0, 0)[j].size,
            forall|j: int| 0 <= j < r.n() ==> #[trigger] r.par(j) == flat1(tree, 0, 0)[j].parent,
            forall|j: int|
                0 <= j < r.n() ==> #[trigger] r.key_of(j) == flat1(tree, 0, 0)[j].key,
    {
        let ghost model = flat1(tree, 0, 0);
        let mut ret = Obj { map: Vec::new(), components: Vec::new() };
        ret.recurse_tree(0, 0, &tree);
        let ghost pre = ret.map@;
        proof {
            lemma_flat1_len(tree, 0, 0);
            lemma_flat1_wf(tree, 0, 0);
        }
        sort_map(&mut ret.map);
        proof {
            let post = ret.map@;
            let n = ret.n();
            // the preorder structure transfers from the flat model
            assert(ret.size(0) == n && ret.par(0) == 0) by {
                assert(entry_models(ret.components@[0], model[0]));
            }
            assert forall|i: int| 0 < i < n implies #[trigger] ret.entry_wf(i) by {
                assert(entry_models(ret.components@[i], model[i]));
                assert(block_entry_wf(model, 0, i));
                let p = model[i].parent;
                assert(entry_models(ret.components@[p], model[p]));
                assert forall|a: int| ret.par(i) < a < i implies a + #[trigger] ret.size(a)
                    <= i by {
                    assert(entry_models(ret.components@[a], model[a]));
                    assert(a + model[a].size <= i);
                }
            }
            // the type index holds one pair per component
            assert forall|m1: int, m2: int| 0 <= m1 < m2 < pre.len() implies pre[m1]
                != pre[m2] by {
                assert(pre[m1].1 as int == m1 && pre[m2].1 as int == m2);
            }
            assert(pre.no_duplicates());
            pre.lemma_multiset_has_no_duplicates();
            // every sorted entry is one of the built pairs
            assert forall|m: int| 0 <= m < post.len() implies post[m] == pre[#[trigger] post[m].1
                as int] && 0 <= post[m].1 < pre.len() by {
                assert(post[m] == post[m]);
                assert(post.contains(post[m]));
                assert(post.to_multiset().count(post[m]) > 0);
                assert(pre.contains(post[m]));
                let m2 = choose|m2: int| 0 <= m2 < pre.len() && pre[m2] == post[m];
                assert(pre[m2].1 as int == m2);
            }
            assert forall|x: (TType, usize)| post.to_multiset().contains(x)
                implies post.to_multiset().count(x) == 1 by {
                assert(pre.to_multiset().contains(x));
            }
            post.lemma_multiset_has_no_duplicates_conv();
            assert forall|m1: int, m2: int|
                #![trigger ret.midx(m1), ret.midx(m2)]
                0 <= m1 < m2 < post.len() implies ret.midx(m1) != ret.midx(m2) by {
                if ret.midx(m1) == ret.midx(m2) {
                    assert(post[m1] == pre[post[m1].1 as int]);
                    assert(post[m2] == pre[post[m2].1 as int]);
                    assert(post[m1] == post[m2]);
                }
            }
            assert forall|j: int| 0 <= j < n implies #[trigger] ret.has_pos(j) by {
                assert(pre[j] == pre[j]);
                assert(pre.contains(pre[j]));
                assert(pre.to_multiset().count(pre[j]) > 0);
                assert(post.contains(pre[j]));
                let m = choose|m: int| 0 <= m < post.len() && post[m] == pre[j];
                assert(ret.midx(m) == j);
            }
            assert forall|m: int| 0 <= m < post.len() implies 0 <= #[trigger] ret.midx(m) < n by {
                assert(post[m] == pre[post[m].1 as int]);
            }
            assert(ret.wf());
            // keys and values transfer to the final object
            assert forall|j: int| 0 <= j < n implies #[trigger] ret.val(j)
                == model[j].value by {
                assert(entry_models(ret.components@[j], model[j]));
            }
            assert forall|j: int| 0 <= j < n implies #[trigger] ret.size(j)
                == model[j].size by {
                assert(entry_models(ret.components@[j], model[j]));
            }
            assert forall|j: int| 0 <= j < n implies #[trigger] ret.par(j)
                == model[j].parent by {
                assert(entry_models(ret.components@[j], model[j]));
            }
            assert forall|j: int| 0 <= j < n implies #[trigger] ret.key_of(j)
                == model[j].key by {
                assert(ret.has_pos(j));
                let m = choose|m: int| 0 <= m < ret.map@.len() && ret.midx(m) == j;
                lemma_key_of_pos(ret, m);
                assert(post[m] == pre[post[m].1 as int]);
                assert(ret.mkey(m) == model[j].key);
            }
        }
        ret
    }
}

} // verus!
