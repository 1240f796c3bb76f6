use crate::util::Ptr;
use vstd::prelude::*;

verus! {

/// Each key is below every key that comes after it.
pub open spec fn increasing(keys: Seq<u64>) -> bool {
    forall|i: int, j: int| 0 <= i < j < keys.len() ==> keys[i] < keys[j]
}

/// The number of leading keys that are below `key`: in an increasing sequence,
/// the position at which `key` stands or would have to be put.
pub open spec fn rank(keys: Seq<u64>, key: u64) -> int
    decreases keys.len(),
{
    if keys.len() == 0 || keys[0] >= key {
        0
    } else {
        1 + rank(keys.skip(1), key)
    }
}

/// `p` cuts `keys` where `key` belongs: all keys before `p` are below `key`,
/// and the key at `p`, if there is one, is not.
pub open spec fn cuts(keys: Seq<u64>, key: u64, p: int) -> bool {
    &&& 0 <= p <= keys.len()
    &&& forall|i: int| 0 <= i < p ==> keys[i] < key
    &&& p < keys.len() ==> keys[p] >= key
}

/// The rank of a key cuts the sequence where the key belongs.
pub proof fn lemma_rank_cuts(keys: Seq<u64>, key: u64)
    ensures
        cuts(keys, key, rank(keys, key)),
    decreases keys.len(),
{
    if keys.len() == 0 || keys[0] >= key {
    } else {
        let rest = keys.skip(1);
        lemma_rank_cuts(rest, key);
        let r = rank(rest, key);
        assert forall|i: int| 0 <= i < 1 + r implies keys[i] < key by {
            if i > 0 {
                assert(keys[i] == rest[i - 1]);
            }
        }
        if 1 + r < keys.len() {
            assert(keys[1 + r] == rest[r]);
        }
    }
}

/// Only one position cuts a sequence for a key.
pub proof fn lemma_cut_is_rank(keys: Seq<u64>, key: u64, p: int)
    requires
        cuts(keys, key, p),
    ensures
        p == rank(keys, key),
{
    lemma_rank_cuts(keys, key);
    let r = rank(keys, key);
    if p < r {
        assert(keys[p] < key);
    } else if r < p {
        assert(keys[r] < key);
    }
}

/// In an increasing sequence every key from the cut on is above `key`, but for
/// the one at the cut, which may be `key` itself.
pub proof fn lemma_rank_increasing(keys: Seq<u64>, key: u64)
    requires
        increasing(keys),
    ensures
        forall|i: int| rank(keys, key) < i < keys.len() ==> keys[i] > key,
        forall|i: int|
            0 <= i < keys.len() && keys[i] == key ==> i == rank(keys, key),
{
    lemma_rank_cuts(keys, key);
}

/// The bound above every key. The bound below every key is `-1`.
pub open spec fn top() -> int {
    0x1_0000_0000_0000_0000
}

/// What a dump holds: for each line the depth and the keys.
pub open spec fn listed(lines: Seq<(usize, Vec<u64>)>) -> Seq<(usize, Seq<u64>)> {
    Seq::new(lines.len(), |i: int| (lines[i].0, lines[i].1@))
}

/// The logical form of a node and of the subtree below it: its keys, the handle
/// that goes with each key, and its children, all in order. Every storage
/// strategy is read through this form.
pub struct Shape {
    pub keys: Seq<u64>,
    pub vals: Seq<Ptr>,
    pub kids: Seq<Shape>,
}

/// What inserting a key into a subtree comes to.
pub enum Outcome {
    /// The key is already there, under this handle; nothing changes.
    Present(Ptr),
    /// The subtree took the key and its root stays under capacity.
    Fits(Shape),
    /// The root of the subtree filled up and split.
    Splits(Halves),
}

/// What a split leaves: the promoted key with its handle, and the two halves.
pub struct Halves {
    pub key: u64,
    pub val: Ptr,
    pub left: Shape,
    pub right: Shape,
}

impl Halves {
    /// The node that gathers the two halves under the promoted key: what
    /// becomes the root when the split reaches the top.
    pub open spec fn grown(self) -> Shape {
        Shape { keys: seq![self.key], vals: seq![self.val], kids: seq![self.left, self.right] }
    }
}

impl Shape {
    /// A node without children.
    pub open spec fn leaf(self) -> bool {
        self.kids.len() == 0
    }

    /// The number of levels below this node, along its first children.
    pub open spec fn height(self) -> nat
        decreases self,
    {
        if self.kids.len() == 0 {
            0
        } else {
            1 + self.kids[0].height()
        }
    }

    /// The bound from below on the keys of child `i`, where `lo` bounds the node.
    pub open spec fn lower(self, i: int, lo: int) -> int {
        if i <= 0 {
            lo
        } else {
            self.keys[i - 1] as int
        }
    }

    /// The bound from above on the keys of child `i`, where `hi` bounds the node.
    pub open spec fn upper(self, i: int, hi: int) -> int {
        if i >= self.keys.len() {
            hi
        } else {
            self.keys[i] as int
        }
    }

    /// The local structure of every node: one handle per key, keys increasing,
    /// no children or one more child than keys, and every node below this one
    /// under the capacity `k`.
    pub open spec fn neat(self, k: nat) -> bool
        decreases self,
    {
        &&& self.vals.len() == self.keys.len()
        &&& increasing(self.keys)
        &&& (self.kids.len() == 0 || self.kids.len() == self.keys.len() + 1)
        &&& forall|i: int|
            0 <= i < self.kids.len() ==> (#[trigger] self.kids[i]).keys.len() < k
                && self.kids[i].neat(k)
    }

    /// Every key of the subtree lies strictly between `lo` and `hi`, and each
    /// child between the keys that stand on its two sides.
    pub open spec fn bounded(self, lo: int, hi: int) -> bool
        decreases self,
    {
        &&& forall|i: int| 0 <= i < self.keys.len() ==> lo < #[trigger] self.keys[i] < hi
        &&& forall|i: int|
            0 <= i < self.kids.len() ==> (#[trigger] self.kids[i]).bounded(
                self.lower(i, lo),
                self.upper(i, hi),
            )
    }

    /// All leaves of the subtree are at the same depth.
    pub open spec fn balanced(self) -> bool
        decreases self,
    {
        forall|i: int|
            0 <= i < self.kids.len() ==> (#[trigger] self.kids[i]).height()
                == self.kids[0].height() && self.kids[i].balanced()
    }

    /// `holds` is true of this node and of every node below it.
    pub open spec fn every(self, holds: spec_fn(Shape) -> bool) -> bool
        decreases self,
    {
        &&& holds(self)
        &&& forall|i: int| 0 <= i < self.kids.len() ==> (#[trigger] self.kids[i]).every(holds)
    }

    /// Every leaf of the subtree lies exactly `depth` levels below this node.
    pub open spec fn leaves_at(self, depth: nat) -> bool
        decreases self,
    {
        if self.kids.len() == 0 {
            depth == 0
        } else {
            depth > 0 && forall|i: int|
                0 <= i < self.kids.len() ==> (#[trigger] self.kids[i]).leaves_at(
                    (depth - 1) as nat,
                )
        }
    }

    /// A valid tree of order `k`.
    pub open spec fn wf(self, k: nat) -> bool {
        &&& self.keys.len() < k
        &&& self.neat(k)
        &&& self.bounded(-1, top())
        &&& self.balanced()
    }

    /// `key` stands somewhere in the subtree, with the handle `val`.
    pub open spec fn has(self, key: u64, val: Ptr) -> bool
        decreases self,
    {
        ||| exists|i: int|
            0 <= i < self.keys.len() && #[trigger] self.keys[i] == key && self.vals[i] == val
        ||| exists|i: int| 0 <= i < self.kids.len() && (#[trigger] self.kids[i]).has(key, val)
    }

    /// The handle that a search for `key` comes to: at each node the cut of
    /// its keys says whether the key is here, and if not, which child to ask.
    pub open spec fn find(self, key: u64) -> Option<Ptr>
        decreases self,
    {
        let i = rank(self.keys, key);
        if 0 <= i < self.keys.len() && self.keys[i] == key && i < self.vals.len() {
            Some(self.vals[i])
        } else if 0 <= i < self.kids.len() {
            self.kids[i].find(key)
        } else {
            None
        }
    }

    /// The two halves of a node and the entry promoted from between them. With
    /// `m` half the number of keys, rounded down: the left half takes the
    /// first `m - 1` keys and the first `m` children, the entry at `m - 1` is
    /// promoted, and the right half takes the rest.
    pub open spec fn split(self) -> Halves {
        let m = self.keys.len() as int / 2;
        Halves {
            key: self.keys[m - 1],
            val: self.vals[m - 1],
            left: Shape {
                keys: self.keys.take(m - 1),
                vals: self.vals.take(m - 1),
                kids: if self.leaf() {
                    self.kids
                } else {
                    self.kids.take(m)
                },
            },
            right: Shape {
                keys: self.keys.skip(m),
                vals: self.vals.skip(m),
                kids: if self.leaf() {
                    self.kids
                } else {
                    self.kids.skip(m)
                },
            },
        }
    }

    /// A node that has just taken an entry: it splits exactly when it holds `k` keys.
    pub open spec fn settle(self, k: nat) -> Outcome {
        if self.keys.len() == k {
            Outcome::Splits(self.split())
        } else {
            Outcome::Fits(self)
        }
    }

    /// The node with one more entry at position `i`.
    pub open spec fn with_entry(self, i: int, key: u64, val: Ptr) -> Shape {
        Shape { keys: self.keys.insert(i, key), vals: self.vals.insert(i, val), kids: self.kids }
    }

    /// The node with child `i` replaced.
    pub open spec fn with_kid(self, i: int, kid: Shape) -> Shape {
        Shape { keys: self.keys, vals: self.vals, kids: self.kids.update(i, kid) }
    }

    /// The node after child `i` has split: the promoted entry goes to position
    /// `i`, the left half takes the child's place and the right half comes
    /// right after it.
    pub open spec fn absorb(self, i: int, h: Halves) -> Shape {
        Shape {
            keys: self.keys.insert(i, h.key),
            vals: self.vals.insert(i, h.val),
            kids: self.kids.update(i, h.left).insert(i + 1, h.right),
        }
    }

    /// Inserting `key` with the handle `val` into a subtree of order `k`. The
    /// key goes down to the leaf where it belongs; a node that reaches `k`
    /// keys splits, and its parent absorbs the split.
    pub open spec fn insert(self, k: nat, key: u64, val: Ptr) -> Outcome
        decreases self,
    {
        let i = rank(self.keys, key);
        if 0 <= i < self.keys.len() && self.keys[i] == key && i < self.vals.len() {
            Outcome::Present(self.vals[i])
        } else if 0 <= i < self.kids.len() {
            match self.kids[i].insert(k, key, val) {
                Outcome::Present(p) => Outcome::Present(p),
                Outcome::Fits(kid) => Outcome::Fits(self.with_kid(i, kid)),
                Outcome::Splits(h) => self.absorb(i, h).settle(k),
            }
        } else {
            self.with_entry(i, key, val).settle(k)
        }
    }

    /// The keys of the subtree in the order of a walk from left to right:
    /// each child's keys before the key that follows it.
    pub open spec fn flat(self) -> Seq<u64>
        decreases self, self.keys.len() + 1,
    {
        if self.kids.len() == 0 {
            self.keys
        } else {
            self.walk(self.keys.len() as int) + self.kids.last().flat()
        }
    }

    /// The part of the walk that covers the first `n` children and keys.
    pub open spec fn walk(self, n: int) -> Seq<u64>
        decreases self, n,
    {
        if n <= 0 || n > self.keys.len() || n > self.kids.len() {
            Seq::empty()
        } else {
            self.walk(n - 1) + self.kids[n - 1].flat().push(self.keys[n - 1])
        }
    }

    /// A dump of the subtree, one line to a node: the node's depth and its
    /// keys, each node before its children and the children from left to
    /// right. The root of the subtree is at `depth`.
    pub open spec fn lines(self, depth: usize) -> Seq<(usize, Seq<u64>)>
        decreases self, self.kids.len() + 1,
    {
        seq![(depth, self.keys)] + self.lines_below(depth, self.kids.len() as int)
    }

    /// The lines of the first `n` children of a node at `depth`.
    pub open spec fn lines_below(self, depth: usize, n: int) -> Seq<(usize, Seq<u64>)>
        decreases self, n,
    {
        if n <= 0 || n > self.kids.len() {
            Seq::empty()
        } else {
            self.lines_below(depth, n - 1) + self.kids[n - 1].lines((depth + 1) as usize)
        }
    }
}

} // verus!
