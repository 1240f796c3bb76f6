use crate::model::Shape;
use crate::util::Ptr;
use vstd::prelude::*;

verus! {

/// The sizes of the two halves of a node that splits with `k` keys: with `m`
/// half of `k`, rounded down, `m - 1` keys go left, `k - m` go right, and the
/// one between them is promoted.
pub proof fn lemma_split_sizes(s: Shape, k: nat)
    requires
        k >= 2,
        s.keys.len() == k,
    ensures
        s.split().left.keys.len() == k / 2 - 1,
        s.split().right.keys.len() == k - k / 2,
        s.split().left.keys.len() + s.split().right.keys.len() + 1 == k,
{
}

/// A split keeps every entry: what stands in the two halves and between them
/// is what stood in the node.
pub proof fn lemma_split_has(s: Shape, k: nat, key: u64, val: Ptr)
    requires
        k >= 2,
        s.keys.len() == k,
        s.neat(k),
    ensures
        s.split().grown().has(key, val) <==> s.has(key, val),
{
    let m = k as int / 2;
    let left = s.split().left;
    let right = s.split().right;
    let sk = s.split().key;
    let g = s.split().grown();
    assert(g.kids[0] == left);
    assert(g.kids[1] == right);
    if g.has(key, val) {
        if exists|i: int| 0 <= i < g.keys.len() && #[trigger] g.keys[i] == key && g.vals[i] == val {
            assert(s.keys[m - 1] == key && s.vals[m - 1] == val);
        } else {
            let c = choose|i: int| 0 <= i < g.kids.len() && (#[trigger] g.kids[i]).has(key, val);
            if c == 0 {
                if exists|i: int|
                    0 <= i < left.keys.len() && #[trigger] left.keys[i] == key && left.vals[i]
                        == val {
                    let i = choose|i: int|
                        0 <= i < left.keys.len() && #[trigger] left.keys[i] == key && left.vals[i]
                            == val;
                    assert(s.keys[i] == key && s.vals[i] == val);
                } else {
                    let i = choose|i: int|
                        0 <= i < left.kids.len() && (#[trigger] left.kids[i]).has(key, val);
                    assert(s.kids[i].has(key, val));
                }
            } else {
                if exists|i: int|
                    0 <= i < right.keys.len() && #[trigger] right.keys[i] == key && right.vals[i]
                        == val {
                    let i = choose|i: int|
                        0 <= i < right.keys.len() && #[trigger] right.keys[i] == key
                            && right.vals[i] == val;
                    assert(s.keys[i + m] == key && s.vals[i + m] == val);
                } else {
                    let i = choose|i: int|
                        0 <= i < right.kids.len() && (#[trigger] right.kids[i]).has(key, val);
                    assert(s.kids[i + m].has(key, val));
                }
            }
        }
    }
    if s.has(key, val) {
        if exists|i: int| 0 <= i < s.keys.len() && #[trigger] s.keys[i] == key && s.vals[i] == val {
            let i = choose|i: int|
                0 <= i < s.keys.len() && #[trigger] s.keys[i] == key && s.vals[i] == val;
            if i < m - 1 {
                assert(left.keys[i] == key && left.vals[i] == val);
                assert(left.has(key, val));
                assert(g.kids[0].has(key, val));
            } else if i == m - 1 {
                assert(g.keys[0] == key && g.vals[0] == val);
            } else {
                assert(right.keys[i - m] == key && right.vals[i - m] == val);
                assert(right.has(key, val));
                assert(g.kids[1].has(key, val));
            }
        } else {
            let i = choose|i: int| 0 <= i < s.kids.len() && (#[trigger] s.kids[i]).has(key, val);
            if i < m {
                assert(left.kids[i] == s.kids[i]);
                assert(left.has(key, val));
                assert(g.kids[0].has(key, val));
            } else {
                assert(right.kids[i - m] == s.kids[i]);
                assert(right.has(key, val));
                assert(g.kids[1].has(key, val));
            }
        }
    }
}

/// A split gives two valid halves under one key: the node that gathers them
/// is neat, lies within the bounds of the node that split, is balanced, and
/// is one level higher.
pub proof fn lemma_split_wf(s: Shape, k: nat, lo: int, hi: int)
    requires
        k >= 2,
        s.keys.len() == k,
        s.neat(k),
        s.bounded(lo, hi),
        s.balanced(),
    ensures
        s.split().grown().neat(k),
        s.split().grown().bounded(lo, hi),
        s.split().grown().balanced(),
        s.split().grown().height() == s.height() + 1,
{
    let m = k as int / 2;
    let left = s.split().left;
    let right = s.split().right;
    let sk = s.split().key;
    let g = s.split().grown();
    assert(g.kids[0] == left);
    assert(g.kids[1] == right);
    assert(left.neat(k)) by {
        assert forall|i: int| 0 <= i < left.kids.len() implies (#[trigger] left.kids[i]).keys.len()
            < k && left.kids[i].neat(k) by {
            assert(left.kids[i] == s.kids[i]);
        }
    }
    assert(right.neat(k)) by {
        assert forall|i: int|
            0 <= i < right.kids.len() implies (#[trigger] right.kids[i]).keys.len() < k
            && right.kids[i].neat(k) by {
            assert(right.kids[i] == s.kids[i + m]);
        }
    }
    assert(left.bounded(lo, sk as int)) by {
        assert forall|i: int| 0 <= i < left.keys.len() implies lo < #[trigger] left.keys[i]
            < sk by {
            assert(left.keys[i] == s.keys[i]);
        }
        assert forall|i: int| 0 <= i < left.kids.len() implies (#[trigger] left.kids[i]).bounded(
            left.lower(i, lo),
            left.upper(i, sk as int),
        ) by {
            assert(left.kids[i] == s.kids[i]);
            assert(left.lower(i, lo) == s.lower(i, lo));
            assert(left.upper(i, sk as int) == s.upper(i, hi));
        }
    }
    assert(right.bounded(sk as int, hi)) by {
        assert forall|i: int| 0 <= i < right.keys.len() implies sk < #[trigger] right.keys[i]
            < hi by {
            assert(right.keys[i] == s.keys[i + m]);
        }
        assert forall|i: int|
            0 <= i < right.kids.len() implies (#[trigger] right.kids[i]).bounded(
            right.lower(i, sk as int),
            right.upper(i, hi),
        ) by {
            assert(right.kids[i] == s.kids[i + m]);
            assert(right.lower(i, sk as int) == s.lower(i + m, lo));
            assert(right.upper(i, hi) == s.upper(i + m, hi));
        }
    }
    assert(g.bounded(lo, hi)) by {
        assert(lo < s.keys[m - 1] < hi);
        assert forall|i: int| 0 <= i < g.kids.len() implies (#[trigger] g.kids[i]).bounded(
            g.lower(i, lo),
            g.upper(i, hi),
        ) by {
        }
    }
    assert(left.balanced()) by {
        assert forall|i: int| 0 <= i < left.kids.len() implies (#[trigger] left.kids[i]).height()
            == left.kids[0].height() && left.kids[i].balanced() by {
            assert(left.kids[i] == s.kids[i]);
            assert(left.kids[0] == s.kids[0]);
        }
    }
    assert(right.balanced()) by {
        assert forall|i: int|
            0 <= i < right.kids.len() implies (#[trigger] right.kids[i]).height()
            == right.kids[0].height() && right.kids[i].balanced() by {
            assert(right.kids[i] == s.kids[i + m]);
            assert(right.kids[0] == s.kids[m]);
        }
    }
    assert(left.height() == s.height() && right.height() == s.height()) by {
        if !s.leaf() {
            assert(left.kids[0] == s.kids[0]);
            assert(right.kids[0] == s.kids[m]);
        }
    }
}

} // verus!
