//! Type keys and their total order.
//!
//! A `TType` identifies a component's type by an opaque byte string. The
//! type index of a composite object is sorted by `(key, component index)`,
//! so this module defines the lexicographic order on byte sequences, proves
//! that it is a strict total order, and provides an executable three-way
//! comparison.

use vstd::prelude::*;

verus! {

/// An opaque, totally ordered identifier for a component's type.
#[derive(Clone, Debug)]
pub struct TType {
    pub definition: Vec<u8>,
}

/// Strict lexicographic order on byte sequences: a proper prefix comes
/// before its extensions, and otherwise the first differing byte decides.
pub open spec fn key_lt(a: Seq<u8>, b: Seq<u8>) -> bool
    decreases a.len(),
{
    if b.len() == 0 {
        false
    } else if a.len() == 0 {
        true
    } else if a[0] < b[0] {
        true
    } else if b[0] < a[0] {
        false
    } else {
        key_lt(a.drop_first(), b.drop_first())
    }
}

/// Strict order on `(key, component index)` pairs.
pub open spec fn pair_lt(k1: Seq<u8>, i1: int, k2: Seq<u8>, i2: int) -> bool {
    key_lt(k1, k2) || (k1 == k2 && i1 < i2)
}

/// Reflexive order on `(key, component index)` pairs.
pub open spec fn pair_le(k1: Seq<u8>, i1: int, k2: Seq<u8>, i2: int) -> bool {
    key_lt(k1, k2) || (k1 == k2 && i1 <= i2)
}

/// The lexicographic order is trichotomous: of two keys, exactly one of
/// "less", "equal", "greater" holds.
pub proof fn lemma_key_lt_total(a: Seq<u8>, b: Seq<u8>)
    ensures
        key_lt(a, b) || key_lt(b, a) || a == b,
        !(key_lt(a, b) && key_lt(b, a)),
        key_lt(a, b) ==> a != b,
    decreases a.len(),
{
    if a.len() == 0 && b.len() == 0 {
        assert(a =~= b);
    } else if a.len() > 0 && b.len() > 0 && a[0] == b[0] {
        lemma_key_lt_total(a.drop_first(), b.drop_first());
        if a.drop_first() == b.drop_first() {
            assert forall|j: int| 0 <= j < a.len() implies a[j] == b[j] by {
                if j > 0 {
                    assert(a.drop_first()[j - 1] == b.drop_first()[j - 1]);
                }
            }
            assert(a =~= b);
        }
        if a == b {
            assert(a.drop_first() =~= b.drop_first());
        }
    } else if a == b {
        assert(a.len() == b.len());
        if a.len() > 0 {
            assert(a[0] == b[0]);
        }
    }
}

/// The lexicographic order is transitive.
pub proof fn lemma_key_lt_trans(a: Seq<u8>, b: Seq<u8>, c: Seq<u8>)
    requires
        key_lt(a, b),
        key_lt(b, c),
    ensures
        key_lt(a, c),
    decreases a.len(),
{
    if c.len() == 0 {
        // key_lt(b, c) is impossible
    } else if a.len() == 0 {
        // key_lt(a, c) by definition
    } else {
        // key_lt(a, b) forces b.len() > 0
        if a[0] == b[0] && b[0] == c[0] {
            lemma_key_lt_trans(a.drop_first(), b.drop_first(), c.drop_first());
        }
    }
}

/// Order facts on pairs, lifted from the key order: totality of `pair_le`,
/// the relation between `pair_lt` and `pair_le`, and transitivity of the
/// mixed chains that binary search and sorting rely on.
pub proof fn lemma_pair_total(k1: Seq<u8>, i1: int, k2: Seq<u8>, i2: int)
    ensures
        pair_le(k1, i1, k2, i2) || pair_le(k2, i2, k1, i1),
        pair_lt(k1, i1, k2, i2) <==> !pair_le(k2, i2, k1, i1),
        pair_le(k1, i1, k2, i2) <==> (pair_lt(k1, i1, k2, i2) || (k1 == k2 && i1 == i2)),
{
    lemma_key_lt_total(k1, k2);
}

pub proof fn lemma_pair_trans(
    k1: Seq<u8>,
    i1: int,
    k2: Seq<u8>,
    i2: int,
    k3: Seq<u8>,
    i3: int,
)
    ensures
        pair_le(k1, i1, k2, i2) && pair_le(k2, i2, k3, i3) ==> pair_le(k1, i1, k3, i3),
        pair_le(k1, i1, k2, i2) && pair_lt(k2, i2, k3, i3) ==> pair_lt(k1, i1, k3, i3),
        pair_lt(k1, i1, k2, i2) && pair_le(k2, i2, k3, i3) ==> pair_lt(k1, i1, k3, i3),
{
    lemma_key_lt_total(k1, k2);
    lemma_key_lt_total(k2, k3);
    lemma_key_lt_total(k1, k3);
    if key_lt(k1, k2) && key_lt(k2, k3) {
        lemma_key_lt_trans(k1, k2, k3);
    }
}

/// Result of a three-way comparison.
pub enum Cmp {
    Lt,
    Eq,
    Gt,
}

/// Three-way lexicographic comparison of two byte strings.
pub fn bytes_cmp(a: &Vec<u8>, b: &Vec<u8>) -> (r: Cmp)
    ensures
        (r == Cmp::Lt) <==> key_lt(a@, b@),
        (r == Cmp::Eq) <==> a@ == b@,
        (r == Cmp::Gt) <==> key_lt(b@, a@),
{
    proof {
        lemma_key_lt_total(a@, b@);
        assert(a@.skip(0) =~= a@);
        assert(b@.skip(0) =~= b@);
    }
    let n: usize = if a.len() < b.len() {
        a.len()
    } else {
        b.len()
    };
    let mut i: usize = 0;
    while i < n
        invariant
            0 <= i <= n,
            n <= a.len(),
            n <= b.len(),
            n == a.len() || n == b.len(),
            key_lt(a@, b@) == key_lt(a@.skip(i as int), b@.skip(i as int)),
            key_lt(b@, a@) == key_lt(b@.skip(i as int), a@.skip(i as int)),
            (a@ == b@) == (a@.skip(i as int) == b@.skip(i as int)),
        decreases n - i,
    {
        let x = a[i];
        let y = b[i];
        proof {
            assert(a@.skip(i as int).len() > 0);
            assert(b@.skip(i as int).len() > 0);
            assert(a@.skip(i as int)[0] == x);
            assert(b@.skip(i as int)[0] == y);
        }
        if x < y {
            proof {
                lemma_key_lt_total(a@, b@);
            }
            return Cmp::Lt;
        }
        if y < x {
            proof {
                lemma_key_lt_total(a@, b@);
            }
            return Cmp::Gt;
        }
        proof {
            assert(a@.skip(i as int).drop_first() =~= a@.skip(i + 1));
            assert(b@.skip(i as int).drop_first() =~= b@.skip(i + 1));
            if a@.skip(i as int) == b@.skip(i as int) {
                assert(a@.skip(i + 1) =~= b@.skip(i + 1));
            }
            if a@.skip(i + 1) == b@.skip(i + 1) {
                assert forall|j: int|
                    0 <= j < a@.skip(i as int).len() implies a@.skip(i as int)[j] == b@.skip(
                    i as int,
                )[j] by {
                    if j > 0 {
                        assert(a@.skip(i + 1)[j - 1] == b@.skip(i + 1)[j - 1]);
                    }
                }
                assert(a@.skip(i as int) =~= b@.skip(i as int));
            }
        }
        i = i + 1;
    }
    if a.len() < b.len() {
        proof {
            assert(a@.skip(i as int).len() == 0);
            assert(b@.skip(i as int).len() > 0);
            lemma_key_lt_total(a@, b@);
        }
        Cmp::Lt
    } else if b.len() < a.len() {
        proof {
            assert(b@.skip(i as int).len() == 0);
            assert(a@.skip(i as int).len() > 0);
            lemma_key_lt_total(a@, b@);
        }
        Cmp::Gt
    } else {
        proof {
            assert(a@.skip(i as int).len() == 0);
            assert(b@.skip(i as int).len() == 0);
            assert(a@.skip(i as int) =~= b@.skip(i as int));
            lemma_key_lt_total(a@, b@);
        }
        Cmp::Eq
    }
}

/// A fresh copy of a byte string, equal to its source.
pub fn clone_bytes(v: &Vec<u8>) -> (r: Vec<u8>)
    ensures
        r@ == v@,
{
    let mut r: Vec<u8> = Vec::new();
    let mut i: usize = 0;
    while i < v.len()
        invariant
            0 <= i <= v.len(),
            r@ =~= v@.subrange(0, i as int),
        decreases v.len() - i,
    {
        r.push(v[i]);
        i = i + 1;
    }
    proof {
        assert(r@ =~= v@);
    }
    r
}

} // verus!
