use crate::model::{increasing, lemma_cut_is_rank, listed, rank, Halves, Outcome, Shape};
use crate::store::{contents, handles, lemma_listing, lemma_plant_new, lemma_plant_present, lemma_replace, planted, valid};
use crate::util::{ptr, ConfigError, Inserted, Ptr};
use vstd::prelude::*;

verus! {

/// A node that keeps its entries and its children in growable sequences.
struct VecNode {
    k: usize,
    entries: Vec<(u64, Ptr)>,
    children: Option<Vec<VecNode>>,
}

impl VecNode {
    /// The logical form of the subtree under this node.
    spec fn shape(self) -> Shape
        decreases self,
    {
        Shape {
            keys: Seq::new(self.entries@.len(), |i: int| self.entries@[i].0),
            vals: Seq::new(self.entries@.len(), |i: int| self.entries@[i].1),
            kids: match self.children {
                Some(c) => Seq::new(
                    c@.len(),
                    |i: int|
                        if 0 <= i < c@.len() {
                            c@[i].shape()
                        } else {
                            arbitrary()
                        },
                ),
                None => Seq::empty(),
            },
        }
    }

    /// The order that this node was made for.
    spec fn order(self) -> nat {
        self.k as nat
    }

    /// What the logical form does not show: a node with a sequence of
    /// children has at least one, and all nodes are of one order.
    spec fn sound(self) -> bool
        decreases self,
    {
        match self.children {
            Some(c) => c@.len() > 0 && forall|i: int|
                0 <= i < c@.len() ==> (#[trigger] c@[i]).k == self.k && c@[i].sound(),
            None => true,
        }
    }

    /// A valid node: sound, neat, and under capacity.
    spec fn wf(self) -> bool {
        &&& self.sound()
        &&& self.shape().neat(self.order())
        &&& self.shape().keys.len() < self.order()
    }

    /// An empty leaf of order `k`.
    fn new(k: usize) -> (node: Self)
        ensures
            node.order() == k,
            node.sound(),
            node.shape() == (Shape { keys: Seq::empty(), vals: Seq::empty(), kids: Seq::empty() }),
    {
        let node = VecNode { k, entries: Vec::new(), children: None };
        proof {
            assert(node.shape().keys =~= Seq::empty());
            assert(node.shape().vals =~= Seq::empty());
        }
        node
    }

    /// The node that gathers the two halves of a split under the promoted entry.
    fn grown(k: usize, key: u64, value: Ptr, left: VecNode, right: VecNode) -> (node: Self)
        requires
            left.sound(),
            right.sound(),
            left.order() == k,
            right.order() == k,
        ensures
            node.order() == k,
            node.sound(),
            node.shape() == (Halves {
                key,
                val: value,
                left: left.shape(),
                right: right.shape(),
            }).grown(),
    {
        let mut node = VecNode::new(k);
        node.entries.push((key, value));
        let mut children: Vec<VecNode> = Vec::new();
        children.push(left);
        children.push(right);
        node.children = Some(children);
        proof {
            let g = (Halves { key, val: value, left: left.shape(), right: right.shape() }).grown();
            assert(node.shape().keys =~= g.keys);
            assert(node.shape().vals =~= g.vals);
            assert(node.shape().kids =~= g.kids);
        }
        node
    }

    /// The position among this node's keys at which `key` stands or belongs,
    /// by binary search.
    fn position(&self, key: u64) -> (p: usize)
        requires
            increasing(self.shape().keys),
        ensures
            p == rank(self.shape().keys, key),
            p <= self.entries@.len(),
    {
        let ghost keys = self.shape().keys;
        let mut lo: usize = 0;
        let mut hi: usize = self.entries.len();
        while lo < hi
            invariant
                keys == self.shape().keys,
                increasing(keys),
                lo <= hi <= keys.len(),
                keys.len() == self.entries@.len(),
                forall|i: int| 0 <= i < lo ==> keys[i] < key,
                forall|i: int| hi <= i < keys.len() ==> keys[i] >= key,
            decreases hi - lo,
        {
            let mid: usize = lo + (hi - lo) / 2;
            assert(keys[mid as int] == self.entries@[mid as int].0);
            if self.entries[mid].0 < key {
                assert forall|i: int| 0 <= i < mid + 1 implies keys[i] < key by {
                    assert(keys[i] <= keys[mid as int]);
                }
                lo = mid + 1;
            } else {
                assert forall|i: int| mid <= i < keys.len() implies keys[i] >= key by {
                    assert(keys[mid as int] <= keys[i]);
                }
                hi = mid;
            }
        }
        proof {
            lemma_cut_is_rank(keys, key, lo as int);
        }
        lo
    }

    /// Looks `key` up in the subtree: the handle that goes with it, if it is there.
    fn get(&self, key: u64) -> (found: Option<Ptr>)
        requires
            self.wf(),
        ensures
            found == self.shape().find(key),
        decreases self,
    {
        let index = self.position(key);
        if index < self.entries.len() && self.entries[index].0 == key {
            Some(self.entries[index].1)
        } else {
            match &self.children {
                Some(children) => {
                    assert(self.shape().kids[index as int] == children@[index as int].shape());
                    children[index].get(key)
                },
                None => None,
            }
        }
    }

    /// Splits a node that has reached capacity into its two halves and the
    /// entry promoted from between them. The node is left spent.
    fn split(&mut self) -> (done: Inserted<VecNode>)
        requires
            old(self).sound(),
            old(self).order() >= 2,
            old(self).shape().keys.len() == old(self).order(),
            old(self).shape().kids.len() == 0
                || old(self).shape().kids.len() == old(self).shape().keys.len() + 1,
        ensures
            done matches Inserted::Splits { key, value, left, right } && {
                let h = old(self).shape().split();
                &&& key == h.key
                &&& value == h.val
                &&& left.shape() == h.left
                &&& right.shape() == h.right
                &&& left.sound()
                &&& right.sound()
                &&& left.order() == old(self).order()
                &&& right.order() == old(self).order()
            },
    {
        let ghost before = self.shape();
        let ghost h = before.split();
        let m: usize = self.entries.len() / 2;
        let mut left = VecNode::new(self.k);
        let mut right = VecNode::new(self.k);
        right.entries = self.entries.split_off(m);
        let promoted = self.entries.pop().unwrap();
        core::mem::swap(&mut left.entries, &mut self.entries);
        if let Some(children) = &mut self.children {
            let ghost all = children@;
            let rest = children.split_off(m);
            let mut first: Vec<VecNode> = Vec::new();
            core::mem::swap(&mut first, children);
            proof {
                assert forall|i: int| 0 <= i < first@.len() implies (#[trigger] first@[i]).k
                    == left.k && first@[i].sound() by {
                    assert(first@[i] == all[i]);
                }
                assert forall|i: int| 0 <= i < rest@.len() implies (#[trigger] rest@[i]).k
                    == right.k && rest@[i].sound() by {
                    assert(rest@[i] == all[i + m]);
                }
            }
            left.children = Some(first);
            right.children = Some(rest);
            proof {
                assert(left.shape().kids =~= h.left.kids);
                assert(right.shape().kids =~= h.right.kids);
            }
        }
        proof {
            assert(left.shape().keys =~= h.left.keys);
            assert(left.shape().vals =~= h.left.vals);
            assert(left.shape().kids =~= h.left.kids);
            assert(right.shape().keys =~= h.right.keys);
            assert(right.shape().vals =~= h.right.vals);
            assert(right.shape().kids =~= h.right.kids);
        }
        Inserted::Splits { key: promoted.0, value: promoted.1, left, right }
    }

    /// Inserts `key` with the handle `value` into the subtree. The key goes
    /// down to the leaf where it belongs. A node that reaches capacity splits,
    /// and its parent takes the promoted entry and the two halves in.
    fn insert(&mut self, key: u64, value: Ptr) -> (done: Inserted<VecNode>)
        requires
            old(self).wf(),
            old(self).order() >= 2,
        ensures
            match old(self).shape().insert(old(self).order(), key, value) {
                Outcome::Present(p) => {
                    &&& done == Inserted::<VecNode>::Present(p)
                    &&& final(self).shape() == old(self).shape()
                    &&& final(self).sound()
                    &&& final(self).order() == old(self).order()
                },
                Outcome::Fits(t) => {
                    &&& done is Fits
                    &&& final(self).shape() == t
                    &&& final(self).sound()
                    &&& final(self).order() == old(self).order()
                },
                Outcome::Splits(h) => {
                    &&& done matches Inserted::Splits { key: sk, value: sv, left, right }
                    &&& sk == h.key
                    &&& sv == h.val
                    &&& left.shape() == h.left
                    &&& right.shape() == h.right
                    &&& left.sound()
                    &&& right.sound()
                    &&& left.order() == old(self).order()
                    &&& right.order() == old(self).order()
                },
            },
        decreases *old(self),
    {
        let ghost before = self.shape();
        let index = self.position(key);
        if index < self.entries.len() && self.entries[index].0 == key {
            return Inserted::Present(self.entries[index].1);
        }
        let ghost kids = before.kids;
        let below = match &mut self.children {
            Some(children) => {
                assert(kids[index as int] == children@[index as int].shape());
                Some(children[index].insert(key, value))
            },
            None => None,
        };
        match below {
            Some(Inserted::Present(p)) => {
                proof {
                    assert(self.shape().kids =~= kids);
                }
                return Inserted::Present(p);
            },
            Some(Inserted::Fits) => {
                proof {
                    let t = kids[index as int].insert(self.order(), key, value)->Fits_0;
                    assert(self.shape().kids =~= kids.update(index as int, t));
                }
                return Inserted::Fits;
            },
            Some(Inserted::Splits { key: sk, value: sv, left, right }) => {
                let ghost h = kids[index as int].insert(self.order(), key, value)->Splits_0;
                if let Some(children) = &mut self.children {
                    children[index] = left;
                    children.insert(index + 1, right);
                }
                self.entries.insert(index, (sk, sv));
                proof {
                    let t = before.absorb(index as int, h);
                    assert(self.shape().keys =~= t.keys);
                    assert(self.shape().vals =~= t.vals);
                    assert(self.shape().kids =~= t.kids);
                }
            },
            None => {
                self.entries.insert(index, (key, value));
                proof {
                    let t = before.with_entry(index as int, key, value);
                    assert(self.shape().keys =~= t.keys);
                    assert(self.shape().vals =~= t.vals);
                    assert(self.shape().kids =~= t.kids);
                }
            },
        }
        if self.entries.len() == self.k {
            self.split()
        } else {
            Inserted::Fits
        }
    }

    /// This node's own keys, in order.
    fn keys(&self) -> (keys: Vec<u64>)
        ensures
            keys@ == self.shape().keys,
    {
        let mut keys: Vec<u64> = Vec::new();
        let mut i: usize = 0;
        while i < self.entries.len()
            invariant
                i <= self.entries@.len(),
                keys@ == self.shape().keys.take(i as int),
            decreases self.entries@.len() - i,
        {
            keys.push(self.entries[i].0);
            proof {
                assert(keys@ =~= self.shape().keys.take(i + 1));
            }
            i += 1;
        }
        proof {
            assert(keys@ =~= self.shape().keys);
        }
        keys
    }

    /// All keys of the subtree, in the order of a walk from left to right.
    fn to_vec(&self) -> (all: Vec<u64>)
        requires
            self.wf(),
        ensures
            all@ == self.shape().flat(),
        decreases self,
    {
        match &self.children {
            Some(children) => {
                let ghost shape = self.shape();
                let mut all: Vec<u64> = Vec::new();
                let mut i: usize = 0;
                while i < children.len()
                    invariant
                        self.wf(),
                        shape == self.shape(),
                        self.children == Some(*children),
                        shape.kids.len() == children@.len(),
                        shape.kids.len() == shape.keys.len() + 1,
                        shape.keys.len() == self.entries@.len(),
                        i <= children@.len(),
                        i < children@.len() ==> all@ == shape.walk(i as int),
                        i == children@.len() ==> all@ == shape.flat(),
                    decreases children@.len() - i,
                {
                    assert(shape.kids[i as int] == children@[i as int].shape());
                    let mut part = children[i].to_vec();
                    all.append(&mut part);
                    if i < self.entries.len() {
                        all.push(self.entries[i].0);
                        proof {
                            assert(all@ =~= shape.walk(i + 1));
                        }
                    } else {
                        proof {
                            assert(shape.kids.last() == shape.kids[i as int]);
                            assert(all@ =~= shape.flat());
                        }
                    }
                    i += 1;
                }
                all
            },
            None => self.keys(),
        }
    }

    /// A dump of the subtree, one line to a node: the node's depth and its
    /// keys; each node comes before its children. This node is at `depth`.
    fn print(&self, depth: usize) -> (lines: Vec<(usize, Vec<u64>)>)
        requires
            self.wf(),
            self.shape().balanced(),
            depth + self.shape().height() <= usize::MAX,
        ensures
            listed(lines@) == self.shape().lines(depth),
        decreases self,
    {
        let ghost shape = self.shape();
        let mut lines: Vec<(usize, Vec<u64>)> = Vec::new();
        lines.push((depth, self.keys()));
        proof {
            assert(listed(lines@) =~= seq![(depth, shape.keys)]);
        }
        if let Some(children) = &self.children {
            let mut i: usize = 0;
            while i < children.len()
                invariant
                    self.wf(),
                    shape == self.shape(),
                    shape.balanced(),
                    self.children == Some(*children),
                    shape.kids.len() == children@.len(),
                    depth + shape.height() <= usize::MAX,
                    i <= children@.len(),
                    listed(lines@) == seq![(depth, shape.keys)] + shape.lines_below(
                        depth,
                        i as int,
                    ),
                decreases children@.len() - i,
            {
                assert(shape.kids[i as int] == children@[i as int].shape());
                assert(shape.kids[i as int].height() == shape.kids[0].height());
                let ghost so_far = listed(lines@);
                let mut part = children[i].print(depth + 1);
                let ghost added = listed(part@);
                lines.append(&mut part);
                proof {
                    assert(listed(lines@) =~= so_far + added);
                    assert(listed(lines@) =~= seq![(depth, shape.keys)] + shape.lines_below(
                        depth,
                        i + 1,
                    ));
                }
                i += 1;
            }
        } else {
            proof {
                assert(listed(lines@) =~= shape.lines(depth));
            }
        }
        lines
    }
}

/// An ordered map from `u64` keys to values, kept as a balanced tree whose
/// nodes hold their entries and children in growable sequences. The values
/// live in a store of their own, and a lookup gives the handle of a value.
pub struct VecBPTree<T> {
    k: usize,
    root: VecNode,
    store: Vec<T>,
}

impl<T> View for VecBPTree<T> {
    type V = Map<u64, T>;

    /// The value that goes with each key.
    open spec fn view(&self) -> Map<u64, T> {
        contents(self.shape(), self.slots())
    }
}

impl<T> VecBPTree<T> {
    /// The logical form of the tree.
    pub closed spec fn shape(self) -> Shape {
        self.root.shape()
    }

    /// The order: the number of entries at which a node splits.
    pub closed spec fn order(self) -> nat {
        self.k as nat
    }

    /// The stored values, each in its slot.
    pub closed spec fn slots(self) -> Seq<T> {
        self.store@
    }

    /// The nodes are sound and of the tree's order.
    pub closed spec fn sound(self) -> bool {
        self.root.sound() && self.root.order() == self.k
    }

    /// A valid tree.
    pub open spec fn wf(self) -> bool {
        self.sound() && valid(self.shape(), self.order(), self.slots().len())
    }

    /// Every tree is valid, at all times.
    #[verifier::type_invariant]
    spec fn inv(self) -> bool {
        self.wf()
    }

    /// The handle that goes with each key.
    pub open spec fn handles(self) -> Map<u64, Ptr> {
        handles(self.shape())
    }

    /// An empty tree of order `k`. An order below three is refused.
    pub fn new(k: usize) -> (made: Result<Self, ConfigError>)
        ensures
            k < 3 <==> made == Err::<Self, ConfigError>(ConfigError::OrderTooSmall),
            made matches Ok(tree) ==> {
                &&& tree.wf()
                &&& tree.order() == k
                &&& tree@ == Map::<u64, T>::empty()
                &&& tree.slots() == Seq::<T>::empty()
                &&& tree.shape() == (Shape {
                    keys: Seq::empty(),
                    vals: Seq::empty(),
                    kids: Seq::empty(),
                })
            },
    {
        if k < 3 {
            return Err(ConfigError::OrderTooSmall);
        }
        let tree = VecBPTree { k, root: VecNode::new(k), store: Vec::new() };
        proof {
            assert(tree@ =~= Map::<u64, T>::empty());
        }
        Ok(tree)
    }

    /// Inserts `value` under `key`. A key that is already there keeps its
    /// handle and its place, and takes the new value.
    pub fn insert(&mut self, key: u64, value: T)
        ensures
            final(self).wf(),
            final(self).order() == old(self).order(),
            final(self)@ == old(self)@.insert(key, value),
            final(self).shape() == planted(
                old(self).shape(),
                old(self).order(),
                key,
                Ptr::to(old(self).slots().len() as int),
            ),
            final(self).slots() == match old(self).shape().find(key) {
                Some(p) => old(self).slots().update(p.index(), value),
                None => old(self).slots().push(value),
            },
            final(self).handles() == match old(self).shape().find(key) {
                Some(_) => old(self).handles(),
                None => old(self).handles().insert(key, Ptr::to(old(self).slots().len() as int)),
            },
    {
        let ghost s = self.shape();
        let ghost slots = self.slots();
        proof {
            use_type_invariant(&*self);
            assert(slots.len() == self.store.len());
            if s.find(key) is Some {
                lemma_plant_present(s, self.order(), slots.len(), key, Ptr::to(slots.len() as int));
                lemma_replace(s, self.order(), slots, key, value);
            } else {
                lemma_plant_new(s, self.order(), slots, key, value);
            }
        }
        let mut root = VecNode::new(self.k);
        let mut store: Vec<T> = Vec::new();
        core::mem::swap(&mut root, &mut self.root);
        core::mem::swap(&mut store, &mut self.store);
        let fresh = ptr(&mut store, value);
        match root.insert(key, fresh) {
            Inserted::Present(p) => {
                let value = store.pop().unwrap();
                assert(store@ =~= slots);
                store[p.slot()] = value;
            },
            Inserted::Fits => {},
            Inserted::Splits { key, value, left, right } => {
                root = VecNode::grown(self.k, key, value, left, right);
            },
        }
        self.store = store;
        self.root = root;
    }

    /// Looks `key` up: the handle of its value, if the key is there.
    pub fn get(&self, key: u64) -> (found: Option<Ptr>)
        ensures
            self.wf(),
            found == self.shape().find(key),
            found is Some <==> self@.contains_key(key),
            found matches Some(p) ==> {
                &&& self.handles()[key] == p
                &&& p.index() < self.slots().len()
                &&& self.slots()[p.index()] == self@[key]
            },
    {
        proof {
            use_type_invariant(self);
        }
        self.root.get(key)
    }

    /// The value that `p` names, if `p` names a slot of this tree.
    pub fn value(&self, p: Ptr) -> (held: Option<&T>)
        ensures
            held == if p.index() < self.slots().len() {
                Some(&self.slots()[p.index()])
            } else {
                None
            },
    {
        if p.slot() < self.store.len() {
            Some(&self.store[p.slot()])
        } else {
            None
        }
    }

    /// The value that `p` names, to be changed in place.
    pub fn value_mut(&mut self, p: Ptr) -> (held: Option<&mut T>)
        ensures
            final(self).wf(),
            final(self).order() == old(self).order(),
            final(self).shape() == old(self).shape(),
            match held {
                Some(v) => {
                    &&& p.index() < old(self).slots().len()
                    &&& *v == old(self).slots()[p.index()]
                    &&& final(self).slots() == old(self).slots().update(p.index(), *final(v))
                    &&& forall|key: u64|
                        old(self).handles().contains_key(key) && old(self).handles()[key] == p
                            ==> final(self)@ == old(self)@.insert(key, *final(v))
                },
                None => {
                    &&& p.index() >= old(self).slots().len()
                    &&& final(self).slots() == old(self).slots()
                },
            },
    {
        proof {
            use_type_invariant(&*self);
            let s = self.shape();
            let slots = self.slots();
            assert forall|key: u64, value: T|
                self.handles().contains_key(key) && self.handles()[key] == p implies #[trigger] contents(
                s,
                slots.update(p.index(), value),
            ) == (#[trigger] self@.insert(key, value)) by {
                lemma_replace(s, self.order(), slots, key, value);
            }
        }
        if p.slot() < self.store.len() {
            Some(&mut self.store[p.slot()])
        } else {
            None
        }
    }

    /// Puts `value` into the slot that `p` names and hands back what was
    /// there. A lookup of the key that owns the slot sees the new value. A
    /// handle that names no slot of this tree changes nothing.
    pub fn set(&mut self, p: Ptr, value: T) -> (was: Option<T>)
        ensures
            final(self).wf(),
            final(self).order() == old(self).order(),
            final(self).shape() == old(self).shape(),
            p.index() < old(self).slots().len() ==> {
                &&& was == Some(old(self).slots()[p.index()])
                &&& final(self).slots() == old(self).slots().update(p.index(), value)
            },
            p.index() >= old(self).slots().len() ==> {
                &&& was is None
                &&& final(self).slots() == old(self).slots()
            },
            forall|key: u64|
                old(self).handles().contains_key(key) && old(self).handles()[key] == p
                    ==> final(self)@ == old(self)@.insert(key, value),
    {
        let ghost s = self.shape();
        let ghost slots = self.slots();
        proof {
            use_type_invariant(&*self);
        }
        if p.slot() < self.store.len() {
            let mut value = value;
            proof {
                assert forall|key: u64|
                    self.handles().contains_key(key) && self.handles()[key] == p implies contents(
                    s,
                    slots.update(p.index(), value),
                ) == self@.insert(key, value) by {
                    lemma_replace(s, self.order(), slots, key, value);
                }
            }
            core::mem::swap(&mut self.store[p.slot()], &mut value);
            Some(value)
        } else {
            None
        }
    }

    /// All keys, in increasing order.
    pub fn to_vec(&self) -> (all: Vec<u64>)
        ensures
            self.wf(),
            all@ == self.shape().flat(),
            increasing(all@),
            forall|key: u64|
                #![trigger all@.contains(key)]
                #![trigger self@.contains_key(key)]
                all@.contains(key) <==> self@.contains_key(key),
    {
        proof {
            use_type_invariant(self);
            lemma_listing(self.shape(), self.order(), self.slots().len());
            assert forall|key: u64|
                self.handles().contains_key(key) <==> #[trigger] self@.contains_key(key) by {}
        }
        self.root.to_vec()
    }

    /// A dump of the tree, one line to a node: how deep the node lies and
    /// the keys it holds. Each node comes before its children, and the
    /// children from left to right.
    pub fn print(&self) -> (lines: Vec<(usize, Vec<u64>)>)
        ensures
            self.wf(),
            listed(lines@) == self.shape().lines(0),
    {
        proof {
            use_type_invariant(self);
            assert(self.slots().len() == self.store.len());
        }
        self.root.print(0)
    }
}

} // verus!
