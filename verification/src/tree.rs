//! The hierarchical input tree and its flattened model.
//!
//! `Tree` is the convenience input: each node carries a type key, a value
//! and an ordered list of children. The spec functions here define the
//! preorder flattening mathematically: `flat1` maps a tree placed at a
//! given absolute index to the sequence of flat entries its subtree
//! occupies, and `flat_from` does the same for a forest of siblings.
//! The lemmas establish the structural facts (sizes, parent links,
//! tightness of sibling ranges) that make a flattened object well formed.

use crate::key::TType;
use vstd::prelude::*;

verus! {

/// A rooted tree where each node carries a type key and a value; sibling
/// order is preserved by the flattening.
pub struct Tree<K, V> {
    pub k: K,
    pub v: V,
    pub children: Vec<Tree<K, V>>,
}

/// Mathematical model of one flattened component: its type key, its value,
/// the size of its subtree (itself included) and the absolute index of its
/// parent.
pub ghost struct FlatEntry {
    pub key: Seq<u8>,
    pub value: Seq<u8>,
    pub size: int,
    pub parent: int,
}

/// Number of nodes in the tree.
pub open spec fn tcount(t: Tree<TType, Vec<u8>>) -> int
    decreases t, 0int,
{
    1 + ccount(t.children@, 0)
}

/// Number of nodes in the forest `ts[i..]`.
pub open spec fn ccount(ts: Seq<Tree<TType, Vec<u8>>>, i: int) -> int
    decreases ts, ts.len() - i,
{
    if i < 0 || i >= ts.len() {
        0
    } else {
        tcount(ts[i]) + ccount(ts, i + 1)
    }
}

/// The flat entries of the subtree rooted at `t`, when its root is placed
/// at absolute index `at` and its parent is the absolute index `par`.
pub open spec fn flat1(t: Tree<TType, Vec<u8>>, at: int, par: int) -> Seq<FlatEntry>
    decreases t, 0int,
{
    seq![
        FlatEntry {
            key: t.k.definition@,
            value: t.v@,
            size: tcount(t),
            parent: par,
        },
    ] + flat_from(t.children@, 0, at + 1, at)
}

/// The flat entries of the forest `ts[i..]`, when its first root is placed
/// at absolute index `at` and every root's parent is `par`.
pub open spec fn flat_from(ts: Seq<Tree<TType, Vec<u8>>>, i: int, at: int, par: int) -> Seq<
    FlatEntry,
>
    decreases ts, ts.len() - i,
{
    if i < 0 || i >= ts.len() {
        Seq::empty()
    } else {
        flat1(ts[i], at, par) + flat_from(ts, i + 1, at + tcount(ts[i]), par)
    }
}

/// Well-formedness of a non-root entry of a flattened subtree, stated on
/// the block `s` of entries whose first element sits at absolute index
/// `at`: the entry's parent lies in the block before it, its range stays
/// inside its parent's range and inside the block, and every entry strictly
/// between its parent and itself ends before it.
pub open spec fn block_entry_wf(s: Seq<FlatEntry>, at: int, i: int) -> bool {
    let p = s[i].parent - at;
    &&& 1 <= s[i].size
    &&& i + s[i].size <= s.len()
    &&& 0 <= p < i
    &&& i + s[i].size <= p + s[p].size
    &&& forall|a: int| p < a < i ==> a + #[trigger] s[a].size <= i
}

/// Well-formedness of a flattened subtree as a block: the root covers the
/// whole block and points to the given parent, and every other entry is
/// well formed within the block.
pub open spec fn block_wf(s: Seq<FlatEntry>, at: int, par: int) -> bool {
    &&& s.len() >= 1
    &&& s[0].size == s.len()
    &&& s[0].parent == par
    &&& forall|i: int| 0 < i < s.len() ==> #[trigger] block_entry_wf(s, at, i)
}

/// Well-formedness of one entry of a flattened forest whose roots all have
/// the (outside) parent `par`: a root is preceded only by completed sibling
/// subtrees, and any other entry is well formed as in a block.
pub open spec fn forest_entry_wf(s: Seq<FlatEntry>, at: int, par: int, i: int) -> bool {
    &&& 1 <= s[i].size
    &&& i + s[i].size <= s.len()
    &&& if s[i].parent == par {
        forall|a: int| 0 <= a < i ==> a + #[trigger] s[a].size <= i
    } else {
        block_entry_wf(s, at, i)
    }
}

pub open spec fn forest_wf(s: Seq<FlatEntry>, at: int, par: int) -> bool {
    forall|i: int| 0 <= i < s.len() ==> #[trigger] forest_entry_wf(s, at, par, i)
}

/// A flattened subtree has exactly one entry per node, and a flattened
/// forest one entry per node of the forest.
pub proof fn lemma_flat1_len(t: Tree<TType, Vec<u8>>, at: int, par: int)
    ensures
        flat1(t, at, par).len() == tcount(t),
        tcount(t) >= 1,
    decreases t, 0int,
{
    lemma_flat_from_len(t.children@, 0, at + 1, at);
}

pub proof fn lemma_flat_from_len(ts: Seq<Tree<TType, Vec<u8>>>, i: int, at: int, par: int)
    ensures
        flat_from(ts, i, at, par).len() == ccount(ts, i),
        ccount(ts, i) >= 0,
    decreases ts, ts.len() - i,
{
    if 0 <= i < ts.len() {
        lemma_flat1_len(ts[i], at, par);
        lemma_flat_from_len(ts, i + 1, at + tcount(ts[i]), par);
    }
}

/// A flattened subtree is well formed as a block.
pub proof fn lemma_flat1_wf(t: Tree<TType, Vec<u8>>, at: int, par: int)
    ensures
        block_wf(flat1(t, at, par), at, par),
    decreases t, 0int,
{
    let s = flat1(t, at, par);
    let f = flat_from(t.children@, 0, at + 1, at);
    lemma_flat1_len(t, at, par);
    lemma_flat_from_len(t.children@, 0, at + 1, at);
    lemma_flat_from_wf(t.children@, 0, at + 1, at);
    assert(s.len() == 1 + f.len());
    assert forall|i: int| 0 < i < s.len() implies #[trigger] block_entry_wf(s, at, i) by {
        let j = i - 1;
        assert(forest_entry_wf(f, at + 1, at, j));
        assert(s[i] == f[j]);
        assert forall|a: int| 0 < a < s.len() implies s[a] == f[a - 1] by {}
        if f[j].parent == at {
            // a child of the block root: its parent is local index 0
            assert(s[i].parent - at == 0);
            assert(i + s[i].size <= s.len());
            assert(s[0].size == s.len());
            assert forall|a: int| 0 < a < i implies a + #[trigger] s[a].size <= i by {
                assert(f[a - 1].size == s[a].size);
                assert((a - 1) + f[a - 1].size <= j);
            }
        } else {
            assert(block_entry_wf(f, at + 1, j));
            let pf = f[j].parent - (at + 1);
            let p = s[i].parent - at;
            assert(p == pf + 1);
            assert(s[p] == f[pf]);
            assert(i + s[i].size <= p + s[p].size);
            assert forall|a: int| p < a < i implies a + #[trigger] s[a].size <= i by {
                assert(f[a - 1].size == s[a].size);
                assert((a - 1) + f[a - 1].size <= j);
            }
        }
    }
}

/// A flattened forest whose outside parent comes before the forest is well
/// formed as a forest.
pub proof fn lemma_flat_from_wf(ts: Seq<Tree<TType, Vec<u8>>>, i: int, at: int, par: int)
    requires
        par < at,
    ensures
        forest_wf(flat_from(ts, i, at, par), at, par),
    decreases ts, ts.len() - i,
{
    if 0 <= i < ts.len() {
        let b = flat1(ts[i], at, par);
        let at2 = at + tcount(ts[i]);
        let r = flat_from(ts, i + 1, at2, par);
        let s = flat_from(ts, i, at, par);
        lemma_flat1_len(ts[i], at, par);
        lemma_flat_from_len(ts, i + 1, at2, par);
        lemma_flat1_wf(ts[i], at, par);
        lemma_flat_from_wf(ts, i + 1, at2, par);
        assert(s == b + r);
        assert(b.len() == tcount(ts[i]));
        assert forall|g: int| 0 <= g < s.len() implies #[trigger] forest_entry_wf(s, at, par, g) by {
            if g < b.len() {
                assert(s[g] == b[g]);
                assert forall|a: int| 0 <= a < b.len() implies s[a] == b[a] by {}
                if g == 0 {
                    assert(s[g].parent == par);
                    assert(s[g].size == b.len());
                } else {
                    assert(block_entry_wf(b, at, g));
                    let p = b[g].parent - at;
                    assert(0 <= p < g);
                    assert(b[g].parent >= at);
                    assert(b[g].parent != par);
                    assert(block_entry_wf(s, at, g)) by {
                        assert(s[p] == b[p]);
                        assert forall|a: int| p < a < g implies a + #[trigger] s[a].size <= g by {
                            assert(a + b[a].size <= g);
                        }
                    }
                }
            } else {
                let h = g - b.len();
                assert(forest_entry_wf(r, at2, par, h));
                assert(s[g] == r[h]);
                assert(g + s[g].size <= s.len());
                // every entry of the leading block ends within that block
                assert forall|a: int| 0 <= a < b.len() implies a + #[trigger] s[a].size
                    <= b.len() by {
                    assert(s[a] == b[a]);
                    if a == 0 {
                        assert(b[0].size == b.len());
                    } else {
                        assert(block_entry_wf(b, at, a));
                    }
                }
                if r[h].parent == par {
                    assert forall|a: int| 0 <= a < g implies a + #[trigger] s[a].size <= g by {
                        if a >= b.len() {
                            assert(s[a] == r[a - b.len()]);
                            assert((a - b.len()) + r[a - b.len()].size <= h);
                        }
                    }
                } else {
                    assert(block_entry_wf(r, at2, h));
                    let pr = r[h].parent - at2;
                    let p = g - h + pr;
                    assert(p == r[h].parent - at);
                    assert(b.len() <= p < g);
                    assert(block_entry_wf(s, at, g)) by {
                        assert(s[p] == r[pr]);
                        assert forall|a: int| p < a < g implies a + #[trigger] s[a].size <= g by {
                            assert(s[a] == r[a - b.len()]);
                            assert((a - b.len()) + r[a - b.len()].size <= h);
                        }
                    }
                }
            }
        }
    }
}

} // verus!
