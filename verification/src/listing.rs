use crate::model::{increasing, Shape};
use crate::util::Ptr;
use vstd::prelude::*;

verus! {

/// Every element of `keys` lies strictly above `lo` and at most at `top`.
pub open spec fn spans(keys: Seq<u64>, lo: int, top: int) -> bool {
    forall|i: int| 0 <= i < keys.len() ==> lo < #[trigger] keys[i] <= top
}

proof fn lemma_increasing_concat(a: Seq<u64>, b: Seq<u64>, lo: int, mid: int, top: int)
    requires
        increasing(a),
        increasing(b),
        spans(a, lo, mid),
        spans(b, mid, top),
        lo <= mid <= top,
    ensures
        increasing(a + b),
        spans(a + b, lo, top),
{
    assert forall|i: int, j: int| 0 <= i < j < (a + b).len() implies (a + b)[i] < (a + b)[j] by {
        if j < a.len() {
        } else if i < a.len() {
            assert(a[i] <= mid < b[j - a.len()]);
        } else {
            assert(b[i - a.len()] < b[j - a.len()]);
        }
    }
    assert forall|i: int| 0 <= i < (a + b).len() implies lo < #[trigger] (a + b)[i] <= top by {
        if i < a.len() {
            assert(lo < a[i] <= mid);
        } else {
            assert(mid < b[i - a.len()]);
        }
    }
}

/// The walk over a neat, bounded subtree is increasing and stays within the
/// bounds, and so does each of its parts.
pub proof fn lemma_flat_increasing(s: Shape, k: nat, lo: int, hi: int)
    requires
        s.neat(k),
        s.bounded(lo, hi),
        lo < hi,
    ensures
        increasing(s.flat()),
        spans(s.flat(), lo, hi - 1),
    decreases s, s.keys.len() + 1,
{
    if s.kids.len() == 0 {
    } else {
        let n = s.keys.len() as int;
        lemma_walk_increasing(s, k, lo, hi, n);
        assert(s.lower(n, lo) < s.upper(n, hi)) by {
            if n > 0 {
                assert(s.keys[n - 1] < hi);
            }
        }
        lemma_flat_increasing(s.kids[n], k, s.lower(n, lo), s.upper(n, hi));
        lemma_increasing_concat(s.walk(n), s.kids[n].flat(), lo, s.lower(n, lo), hi - 1);
    }
}

proof fn lemma_walk_increasing(s: Shape, k: nat, lo: int, hi: int, n: int)
    requires
        s.neat(k),
        s.bounded(lo, hi),
        lo < hi,
        s.kids.len() > 0,
        0 <= n <= s.keys.len(),
    ensures
        increasing(s.walk(n)),
        spans(s.walk(n), lo, s.lower(n, lo)),
    decreases s, n,
{
    if n > 0 {
        lemma_walk_increasing(s, k, lo, hi, n - 1);
        let kid = s.kids[n - 1];
        assert(s.lower(n - 1, lo) < s.upper(n - 1, hi)) by {
            assert(lo < s.keys[n - 1]);
            if n > 1 {
                assert(s.keys[n - 2] < s.keys[n - 1]);
            }
        }
        lemma_flat_increasing(kid, k, s.lower(n - 1, lo), s.upper(n - 1, hi));
        let key = s.keys[n - 1];
        let tail = kid.flat().push(key);
        assert(increasing(tail) && spans(tail, s.lower(n - 1, lo), key as int)) by {
            assert forall|i: int, j: int| 0 <= i < j < tail.len() implies tail[i] < tail[j] by {
                assert(tail[i] == kid.flat()[i]);
            }
            assert forall|i: int| 0 <= i < tail.len() implies s.lower(n - 1, lo) < #[trigger] tail[i]
                <= key by {
                if i < kid.flat().len() {
                    assert(tail[i] == kid.flat()[i]);
                }
            }
        }
        lemma_increasing_concat(s.walk(n - 1), tail, lo, s.lower(n - 1, lo), key as int);
    }
}

/// Every key of the walk stands in the subtree.
pub proof fn lemma_flat_has(s: Shape, k: nat, key: u64)
    requires
        s.neat(k),
        s.flat().contains(key),
    ensures
        exists|val: Ptr| s.has(key, val),
    decreases s, s.keys.len() + 1,
{
    if s.kids.len() == 0 {
        let i = choose|i: int| 0 <= i < s.keys.len() && s.keys[i] == key;
        assert(s.keys[i] == key && s.vals[i] == s.vals[i]);
        assert(s.has(key, s.vals[i]));
    } else {
        let n = s.keys.len() as int;
        let i = choose|i: int| 0 <= i < s.flat().len() && s.flat()[i] == key;
        if i < s.walk(n).len() {
            assert(s.walk(n)[i] == key);
            lemma_walk_has(s, k, key, n);
        } else {
            assert(s.kids[n].flat()[i - s.walk(n).len()] == key);
            lemma_flat_has(s.kids[n], k, key);
            let val = choose|val: Ptr| s.kids[n].has(key, val);
            assert(s.has(key, val));
        }
    }
}

proof fn lemma_walk_has(s: Shape, k: nat, key: u64, n: int)
    requires
        s.neat(k),
        s.kids.len() > 0,
        0 <= n <= s.keys.len(),
        s.walk(n).contains(key),
    ensures
        exists|val: Ptr| s.has(key, val),
    decreases s, n,
{
    let i = choose|i: int| 0 <= i < s.walk(n).len() && s.walk(n)[i] == key;
    let before = s.walk(n - 1);
    let kid = s.kids[n - 1];
    if i < before.len() {
        assert(before[i] == key);
        lemma_walk_has(s, k, key, n - 1);
    } else if i < before.len() + kid.flat().len() {
        assert(kid.flat()[i - before.len()] == key);
        lemma_flat_has(kid, k, key);
        let val = choose|val: Ptr| kid.has(key, val);
        assert(s.has(key, val));
    } else {
        assert(s.keys[n - 1] == key && s.vals[n - 1] == s.vals[n - 1]);
        assert(s.has(key, s.vals[n - 1]));
    }
}

/// Every key that stands in the subtree is in its walk.
pub proof fn lemma_has_flat(s: Shape, k: nat, key: u64, val: Ptr)
    requires
        s.neat(k),
        s.has(key, val),
    ensures
        s.flat().contains(key),
    decreases s, s.keys.len() + 1,
{
    if s.kids.len() == 0 {
        let i = choose|i: int|
            0 <= i < s.keys.len() && #[trigger] s.keys[i] == key && s.vals[i] == val;
        assert(s.flat()[i] == key);
    } else {
        let n = s.keys.len() as int;
        if exists|i: int| 0 <= i < s.keys.len() && #[trigger] s.keys[i] == key && s.vals[i] == val {
            let i = choose|i: int|
                0 <= i < s.keys.len() && #[trigger] s.keys[i] == key && s.vals[i] == val;
            lemma_walk_covers_key(s, n, i);
            let j = choose|j: int| 0 <= j < s.walk(n).len() && s.walk(n)[j] == key;
            assert(s.flat()[j] == key);
        } else {
            let i = choose|i: int| 0 <= i < s.kids.len() && (#[trigger] s.kids[i]).has(key, val);
            lemma_has_flat(s.kids[i], k, key, val);
            if i < n {
                lemma_walk_covers_kid(s, n, i, key);
                let j = choose|j: int| 0 <= j < s.walk(n).len() && s.walk(n)[j] == key;
                assert(s.flat()[j] == key);
            } else {
                let j = choose|j: int| 0 <= j < s.kids[n].flat().len() && s.kids[n].flat()[j] == key;
                assert(s.flat()[s.walk(n).len() + j] == key);
            }
        }
    }
}

proof fn lemma_walk_covers_key(s: Shape, n: int, i: int)
    requires
        0 <= i < n <= s.keys.len(),
        n <= s.kids.len(),
    ensures
        s.walk(n).contains(s.keys[i]),
    decreases n,
{
    let before = s.walk(n - 1);
    let tail = s.kids[n - 1].flat().push(s.keys[n - 1]);
    if i == n - 1 {
        assert(s.walk(n)[before.len() + tail.len() - 1] == s.keys[i]);
    } else {
        lemma_walk_covers_key(s, n - 1, i);
        let j = choose|j: int| 0 <= j < before.len() && before[j] == s.keys[i];
        assert(s.walk(n)[j] == s.keys[i]);
    }
}

proof fn lemma_walk_covers_kid(s: Shape, n: int, i: int, key: u64)
    requires
        0 <= i < n <= s.keys.len(),
        n <= s.kids.len(),
        s.kids[i].flat().contains(key),
    ensures
        s.walk(n).contains(key),
    decreases n,
{
    let before = s.walk(n - 1);
    let tail = s.kids[n - 1].flat().push(s.keys[n - 1]);
    if i == n - 1 {
        let j = choose|j: int| 0 <= j < s.kids[i].flat().len() && s.kids[i].flat()[j] == key;
        assert(tail[j] == key);
        assert(s.walk(n)[before.len() + j] == key);
    } else {
        lemma_walk_covers_kid(s, n - 1, i, key);
        let j = choose|j: int| 0 <= j < before.len() && before[j] == key;
        assert(s.walk(n)[j] == key);
    }
}

} // verus!
