use crate::model::{cuts, lemma_cut_is_rank, lemma_rank_cuts, lemma_rank_increasing, rank, Shape};
use crate::util::Ptr;
use vstd::prelude::*;

verus! {

/// Whatever stands in a bounded subtree lies within its bounds.
pub proof fn lemma_has_within(s: Shape, k: nat, lo: int, hi: int, key: u64, val: Ptr)
    requires
        s.neat(k),
        s.bounded(lo, hi),
        s.has(key, val),
    ensures
        lo < key < hi,
    decreases s,
{
    if exists|i: int| 0 <= i < s.keys.len() && #[trigger] s.keys[i] == key && s.vals[i] == val {
    } else {
        let i = choose|i: int| 0 <= i < s.kids.len() && (#[trigger] s.kids[i]).has(key, val);
        lemma_has_within(s.kids[i], k, s.lower(i, lo), s.upper(i, hi), key, val);
        if i > 0 {
            assert(lo < s.keys[i - 1]);
        }
        if i < s.keys.len() {
            assert(s.keys[i] < hi);
        }
    }
}

/// A search finds exactly what stands in the subtree: in a neat, bounded
/// subtree `find` gives a handle for a key if and only if the key stands
/// there with that handle.
pub proof fn lemma_find_has(s: Shape, k: nat, lo: int, hi: int, key: u64, val: Ptr)
    requires
        s.neat(k),
        s.bounded(lo, hi),
    ensures
        s.find(key) == Some(val) <==> s.has(key, val),
    decreases s,
{
    lemma_rank_cuts(s.keys, key);
    lemma_rank_increasing(s.keys, key);
    let r = rank(s.keys, key);
    if s.find(key) == Some(val) {
        if 0 <= r < s.keys.len() && s.keys[r] == key {
            assert(s.has(key, val));
        } else {
            lemma_find_has(s.kids[r], k, s.lower(r, lo), s.upper(r, hi), key, val);
            assert(s.kids[r].has(key, val));
            assert(s.has(key, val));
        }
    }
    if s.has(key, val) {
        if exists|i: int| 0 <= i < s.keys.len() && #[trigger] s.keys[i] == key && s.vals[i] == val {
            let i = choose|i: int|
                0 <= i < s.keys.len() && #[trigger] s.keys[i] == key && s.vals[i] == val;
            assert(i == r);
        } else {
            let i = choose|i: int| 0 <= i < s.kids.len() && (#[trigger] s.kids[i]).has(key, val);
            lemma_has_within(s.kids[i], k, s.lower(i, lo), s.upper(i, hi), key, val);
            assert(cuts(s.keys, key, i)) by {
                assert forall|j: int| 0 <= j < i implies s.keys[j] < key by {
                    assert(s.keys[j] <= s.keys[i - 1]);
                }
            }
            lemma_cut_is_rank(s.keys, key, i);
            lemma_find_has(s.kids[i], k, s.lower(i, lo), s.upper(i, hi), key, val);
        }
    }
}

} // verus!
