use crate::model::{increasing, lemma_rank_cuts, lemma_rank_increasing, rank, Halves, Outcome, Shape};
use crate::split::{lemma_split_has, lemma_split_wf};
use crate::util::Ptr;
use vstd::prelude::*;

verus! {

/// `after` holds what `before` held and, besides, `key` with the handle `val`.
pub open spec fn took(before: Shape, after: Shape, key: u64, val: Ptr) -> bool {
    forall|q: u64, v: Ptr|
        #[trigger] after.has(q, v) <==> (before.has(q, v) || (q == key && v == val))
}

/// A leaf that takes a new entry at the cut of its keys stays in order.
pub proof fn lemma_with_entry(s: Shape, k: nat, lo: int, hi: int, key: u64, val: Ptr)
    requires
        s.leaf(),
        s.neat(k),
        s.bounded(lo, hi),
        lo < key < hi,
        !s.keys.contains(key),
    ensures
        ({
            let t = s.with_entry(rank(s.keys, key), key, val);
            &&& t.keys.len() == s.keys.len() + 1
            &&& t.neat(k)
            &&& t.bounded(lo, hi)
            &&& t.balanced()
            &&& t.height() == s.height()
            &&& took(s, t, key, val)
        }),
{
    let i = rank(s.keys, key);
    let t = s.with_entry(i, key, val);
    lemma_rank_cuts(s.keys, key);
    lemma_rank_increasing(s.keys, key);
    assert(i < s.keys.len() ==> s.keys[i] != key);
    assert(increasing(t.keys)) by {
        assert forall|a: int, b: int| 0 <= a < b < t.keys.len() implies t.keys[a] < t.keys[b] by {
            if b < i {
            } else if b == i {
            } else if a < i {
                assert(t.keys[b] == s.keys[b - 1]);
            } else if a == i {
                assert(t.keys[b] == s.keys[b - 1]);
            } else {
                assert(t.keys[a] == s.keys[a - 1]);
                assert(t.keys[b] == s.keys[b - 1]);
            }
        }
    }
    assert(t.bounded(lo, hi)) by {
        assert forall|j: int| 0 <= j < t.keys.len() implies lo < #[trigger] t.keys[j] < hi by {
            if j < i {
            } else if j == i {
            } else {
                assert(t.keys[j] == s.keys[j - 1]);
            }
        }
    }
    assert forall|q: u64, v: Ptr| #[trigger]
        t.has(q, v) <==> (s.has(q, v) || (q == key && v == val)) by {
        if t.has(q, v) {
            let j = choose|j: int|
                0 <= j < t.keys.len() && #[trigger] t.keys[j] == q && t.vals[j] == v;
            if j < i {
                assert(s.keys[j] == q && s.vals[j] == v);
            } else if j > i {
                assert(s.keys[j - 1] == q && s.vals[j - 1] == v);
            }
        }
        if s.has(q, v) {
            let j = choose|j: int|
                0 <= j < s.keys.len() && #[trigger] s.keys[j] == q && s.vals[j] == v;
            if j < i {
                assert(t.keys[j] == q && t.vals[j] == v);
            } else {
                assert(t.keys[j + 1] == q && t.vals[j + 1] == v);
            }
        }
        if q == key && v == val {
            assert(t.keys[i] == q && t.vals[i] == v);
        }
    }
}

/// A node whose child `i` took the entry, and kept its bounds and its height,
/// took the entry itself.
pub proof fn lemma_with_kid(s: Shape, k: nat, lo: int, hi: int, i: int, kid: Shape, key: u64, val: Ptr)
    requires
        0 <= i < s.kids.len(),
        s.neat(k),
        s.bounded(lo, hi),
        s.balanced(),
        kid.keys.len() < k,
        kid.neat(k),
        kid.bounded(s.lower(i, lo), s.upper(i, hi)),
        kid.balanced(),
        kid.height() == s.kids[i].height(),
        took(s.kids[i], kid, key, val),
    ensures
        ({
            let t = s.with_kid(i, kid);
            &&& t.neat(k)
            &&& t.bounded(lo, hi)
            &&& t.balanced()
            &&& t.height() == s.height()
            &&& took(s, t, key, val)
        }),
{
    let t = s.with_kid(i, kid);
    assert(t.kids[i] == kid);
    assert(t.bounded(lo, hi)) by {
        assert forall|j: int| 0 <= j < t.kids.len() implies (#[trigger] t.kids[j]).bounded(
            t.lower(j, lo),
            t.upper(j, hi),
        ) by {
            if j != i {
                assert(t.kids[j] == s.kids[j]);
            }
        }
    }
    assert(t.balanced()) by {
        assert forall|j: int| 0 <= j < t.kids.len() implies (#[trigger] t.kids[j]).height()
            == t.kids[0].height() && t.kids[j].balanced() by {
            assert(s.kids[j].height() == s.kids[0].height());
            assert(s.kids[i].height() == s.kids[0].height());
        }
    }
    assert(s.kids[0].height() == t.kids[0].height());
    assert forall|q: u64, v: Ptr| #[trigger]
        t.has(q, v) <==> (s.has(q, v) || (q == key && v == val)) by {
        if t.has(q, v) {
            if exists|j: int| 0 <= j < t.keys.len() && #[trigger] t.keys[j] == q && t.vals[j] == v {
            } else {
                let j = choose|j: int| 0 <= j < t.kids.len() && (#[trigger] t.kids[j]).has(q, v);
                if j == i {
                    assert(kid.has(q, v));
                    if s.kids[i].has(q, v) {
                    }
                } else {
                    assert(s.kids[j].has(q, v));
                }
            }
        }
        if s.has(q, v) {
            if exists|j: int| 0 <= j < s.keys.len() && #[trigger] s.keys[j] == q && s.vals[j] == v {
            } else {
                let j = choose|j: int| 0 <= j < s.kids.len() && (#[trigger] s.kids[j]).has(q, v);
                if j == i {
                    assert(kid.has(q, v));
                    assert(t.kids[i].has(q, v));
                } else {
                    assert(t.kids[j].has(q, v));
                }
            }
        }
        if q == key && v == val {
            assert(kid.has(q, v));
            assert(t.kids[i].has(q, v));
        }
    }
}

/// A node whose child `i` took the entry and split, and that absorbs the
/// split, took the entry itself and stays in order, with one more key.
pub proof fn lemma_absorb(s: Shape, k: nat, lo: int, hi: int, i: int, h: Halves, key: u64, val: Ptr)
    requires
        0 <= i < s.kids.len(),
        s.neat(k),
        s.bounded(lo, hi),
        s.balanced(),
        h.grown().neat(k),
        h.grown().bounded(s.lower(i, lo), s.upper(i, hi)),
        h.grown().balanced(),
        h.grown().height() == s.kids[i].height() + 1,
        took(s.kids[i], h.grown(), key, val),
    ensures
        ({
            let t = s.absorb(i, h);
            &&& t.keys.len() == s.keys.len() + 1
            &&& t.neat(k)
            &&& t.bounded(lo, hi)
            &&& t.balanced()
            &&& t.height() == s.height()
            &&& took(s, t, key, val)
        }),
{
    let t = s.absorb(i, h);
    let g = h.grown();
    assert(g.kids[0] == h.left && g.kids[1] == h.right && g.keys[0] == h.key);
    assert(s.lower(i, lo) < h.key < s.upper(i, hi));
    assert(t.kids[i] == h.left);
    assert(t.kids[i + 1] == h.right);
    assert(t.keys[i] == h.key && t.vals[i] == h.val);
    assert(increasing(t.keys)) by {
        assert forall|a: int, b: int| 0 <= a < b < t.keys.len() implies t.keys[a] < t.keys[b] by {
            if b < i {
            } else if b == i {
                assert(s.keys[a] <= s.keys[i - 1]);
            } else if a < i {
                assert(t.keys[b] == s.keys[b - 1]);
            } else if a == i {
                assert(t.keys[b] == s.keys[b - 1]);
                assert(s.keys[i] <= s.keys[b - 1]);
            } else {
                assert(t.keys[a] == s.keys[a - 1]);
                assert(t.keys[b] == s.keys[b - 1]);
            }
        }
    }
    assert(t.neat(k)) by {
        assert forall|j: int| 0 <= j < t.kids.len() implies (#[trigger] t.kids[j]).keys.len() < k
            && t.kids[j].neat(k) by {
            if j < i {
                assert(t.kids[j] == s.kids[j]);
            } else if j > i + 1 {
                assert(t.kids[j] == s.kids[j - 1]);
            }
        }
    }
    assert(t.bounded(lo, hi)) by {
        assert forall|j: int| 0 <= j < t.keys.len() implies lo < #[trigger] t.keys[j] < hi by {
            if j < i {
            } else if j == i {
                if i > 0 {
                    assert(lo < s.keys[i - 1]);
                }
                if i < s.keys.len() {
                    assert(s.keys[i] < hi);
                }
            } else {
                assert(t.keys[j] == s.keys[j - 1]);
            }
        }
        assert forall|j: int| 0 <= j < t.kids.len() implies (#[trigger] t.kids[j]).bounded(
            t.lower(j, lo),
            t.upper(j, hi),
        ) by {
            if j < i {
                assert(t.kids[j] == s.kids[j]);
                assert(t.lower(j, lo) == s.lower(j, lo));
                assert(t.upper(j, hi) == s.upper(j, hi));
            } else if j == i {
                assert(t.lower(j, lo) == s.lower(i, lo));
                assert(g.upper(0, s.upper(i, hi)) == h.key);
            } else if j == i + 1 {
                assert(g.lower(1, s.lower(i, lo)) == h.key);
                assert(t.upper(j, hi) == s.upper(i, hi));
            } else {
                assert(t.kids[j] == s.kids[j - 1]);
                assert(t.keys[j - 1] == s.keys[j - 2]);
                assert(t.lower(j, lo) == s.lower(j - 1, lo));
                assert(t.upper(j, hi) == s.upper(j - 1, hi));
            }
        }
    }
    assert(h.left.height() == s.kids[i].height());
    assert(h.right.height() == s.kids[i].height());
    assert(s.kids[i].height() == s.kids[0].height());
    assert(t.kids[0].height() == s.kids[0].height()) by {
        if i > 0 {
            assert(t.kids[0] == s.kids[0]);
        }
    }
    assert(t.balanced()) by {
        assert forall|j: int| 0 <= j < t.kids.len() implies (#[trigger] t.kids[j]).height()
            == t.kids[0].height() && t.kids[j].balanced() by {
            if j < i {
                assert(t.kids[j] == s.kids[j]);
            } else if j > i + 1 {
                assert(t.kids[j] == s.kids[j - 1]);
            }
        }
    }
    assert forall|q: u64, v: Ptr| #[trigger]
        t.has(q, v) <==> (s.has(q, v) || (q == key && v == val)) by {
        if t.has(q, v) {
            if exists|j: int| 0 <= j < t.keys.len() && #[trigger] t.keys[j] == q && t.vals[j] == v {
                let j = choose|j: int|
                    0 <= j < t.keys.len() && #[trigger] t.keys[j] == q && t.vals[j] == v;
                if j < i {
                    assert(s.keys[j] == q && s.vals[j] == v);
                } else if j == i {
                    assert(g.keys[0] == q && g.vals[0] == v);
                    assert(g.has(q, v));
                    if s.kids[i].has(q, v) {
                    }
                } else {
                    assert(s.keys[j - 1] == q && s.vals[j - 1] == v);
                }
            } else {
                let j = choose|j: int| 0 <= j < t.kids.len() && (#[trigger] t.kids[j]).has(q, v);
                if j < i {
                    assert(s.kids[j].has(q, v));
                } else if j == i {
                    assert(g.kids[0].has(q, v));
                    assert(g.has(q, v));
                    if s.kids[i].has(q, v) {
                    }
                } else if j == i + 1 {
                    assert(g.kids[1].has(q, v));
                    assert(g.has(q, v));
                    if s.kids[i].has(q, v) {
                    }
                } else {
                    assert(s.kids[j - 1].has(q, v));
                }
            }
        }
        if s.has(q, v) || (q == key && v == val) {
            if exists|j: int| 0 <= j < s.keys.len() && #[trigger] s.keys[j] == q && s.vals[j] == v {
                let j = choose|j: int|
                    0 <= j < s.keys.len() && #[trigger] s.keys[j] == q && s.vals[j] == v;
                if j < i {
                    assert(t.keys[j] == q && t.vals[j] == v);
                } else {
                    assert(t.keys[j + 1] == q && t.vals[j + 1] == v);
                }
            } else {
                let j = if s.has(q, v) {
                    choose|j: int| 0 <= j < s.kids.len() && (#[trigger] s.kids[j]).has(q, v)
                } else {
                    i
                };
                if j < i {
                    assert(t.kids[j].has(q, v));
                } else if j > i {
                    assert(t.kids[j + 1] == s.kids[j]);
                    assert(t.kids[j + 1].has(q, v));
                } else {
                    assert(g.has(q, v));
                    if exists|a: int|
                        0 <= a < g.keys.len() && #[trigger] g.keys[a] == q && g.vals[a] == v {
                        assert(t.keys[i] == q && t.vals[i] == v);
                    } else {
                        let a = choose|a: int|
                            0 <= a < g.kids.len() && (#[trigger] g.kids[a]).has(q, v);
                        if a == 0 {
                            assert(t.kids[i].has(q, v));
                        } else {
                            assert(t.kids[i + 1].has(q, v));
                        }
                    }
                }
            }
        }
    }
}

/// Insertion keeps a subtree in order. Where the key is already there, the
/// search finds it. Where it is not, the subtree that comes out, or the node
/// that gathers the two halves of a split, is neat, within the same bounds
/// and balanced, and holds what the subtree held and the new entry; only a
/// split adds a level.
pub proof fn lemma_insert(s: Shape, k: nat, lo: int, hi: int, key: u64, val: Ptr)
    requires
        k >= 2,
        s.keys.len() < k,
        s.neat(k),
        s.bounded(lo, hi),
        s.balanced(),
        lo < key < hi,
    ensures
        match s.insert(k, key, val) {
            Outcome::Present(p) => s.find(key) == Some(p),
            Outcome::Fits(t) => {
                &&& s.find(key) is None
                &&& t.keys.len() < k
                &&& t.neat(k)
                &&& t.bounded(lo, hi)
                &&& t.balanced()
                &&& t.height() == s.height()
                &&& took(s, t, key, val)
            },
            Outcome::Splits(h) => {
                &&& s.find(key) is None
                &&& h.grown().neat(k)
                &&& h.grown().bounded(lo, hi)
                &&& h.grown().balanced()
                &&& h.grown().height() == s.height() + 1
                &&& took(s, h.grown(), key, val)
            },
        },
    decreases s,
{
    let i = rank(s.keys, key);
    lemma_rank_cuts(s.keys, key);
    lemma_rank_increasing(s.keys, key);
    if 0 <= i < s.keys.len() && s.keys[i] == key {
    } else if 0 <= i < s.kids.len() {
        let kid = s.kids[i];
        assert(s.lower(i, lo) < key < s.upper(i, hi));
        lemma_insert(kid, k, s.lower(i, lo), s.upper(i, hi), key, val);
        match kid.insert(k, key, val) {
            Outcome::Present(p) => {},
            Outcome::Fits(t) => {
                lemma_with_kid(s, k, lo, hi, i, t, key, val);
            },
            Outcome::Splits(h) => {
                lemma_absorb(s, k, lo, hi, i, h, key, val);
                lemma_settle(s, s.absorb(i, h), k, lo, hi, key, val);
            },
        }
    } else {
        assert(!s.keys.contains(key));
        lemma_with_entry(s, k, lo, hi, key, val);
        lemma_settle(s, s.with_entry(i, key, val), k, lo, hi, key, val);
    }
}

/// A node that took an entry in order and now holds at most `k` keys settles
/// in order: as it is, or split.
proof fn lemma_settle(s: Shape, t: Shape, k: nat, lo: int, hi: int, key: u64, val: Ptr)
    requires
        k >= 2,
        t.keys.len() <= k,
        t.neat(k),
        t.bounded(lo, hi),
        t.balanced(),
        t.height() == s.height(),
        took(s, t, key, val),
    ensures
        match t.settle(k) {
            Outcome::Present(p) => false,
            Outcome::Fits(u) => {
                &&& u.keys.len() < k
                &&& u.neat(k)
                &&& u.bounded(lo, hi)
                &&& u.balanced()
                &&& u.height() == s.height()
                &&& took(s, u, key, val)
            },
            Outcome::Splits(h) => {
                &&& h.grown().neat(k)
                &&& h.grown().bounded(lo, hi)
                &&& h.grown().balanced()
                &&& h.grown().height() == s.height() + 1
                &&& took(s, h.grown(), key, val)
            },
        },
{
    if t.keys.len() == k {
        lemma_split_wf(t, k, lo, hi);
        assert forall|q: u64, v: Ptr| #[trigger]
            t.split().grown().has(q, v) <==> (s.has(q, v) || (q == key && v == val)) by {
            lemma_split_has(t, k, q, v);
            assert(t.has(q, v) <==> (s.has(q, v) || (q == key && v == val)));
        }
    }
}

} // verus!
