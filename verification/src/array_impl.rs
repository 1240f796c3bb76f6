use crate::model::{increasing, lemma_cut_is_rank, listed, rank, Halves, Outcome, Shape};
use crate::store::{contents, handles, lemma_listing, lemma_plant_new, lemma_plant_present, lemma_replace, planted, valid};
use crate::util::{array_insert, ptr, Inserted, Ptr};
use vstd::prelude::*;

verus! {

/// The order of the array-backed tree: a node splits when it holds this many entries.
pub const K: usize = 64;

/// The number of children a node has room for.
pub const FANOUT: usize = K + 1;

/// What is taken on trust of `core::array::from_fn`, as the standard library
/// documents it: it calls `f` once for each index of the array, and each
/// place of the array that it hands back holds what the call for that place
/// gave. So `f` has to accept every index, and each element is as `f`
/// promises for its index.
pub assume_specification<T, const N: usize, F>[ core::array::from_fn::<T, N, F> ](f: F) -> (made: [T; N]) where
    F: FnMut(usize) -> T,

    requires
        forall|i: usize| 0 <= i < N ==> call_requires(f, (i,)),
    ensures
        forall|i: usize| 0 <= i < N ==> call_ensures(f, (i,), #[trigger] made@[i as int]),
;

/// No child: what every place for a child holds in a new node.
fn vacant(_i: usize) -> (child: Option<Box<ArrayNode>>)
    ensures
        child is None,
{
    None
}

/// A node that keeps its entries and its children in arrays of fixed size,
/// of which the first `size` entries and `size + 1` children are in use.
struct ArrayNode {
    size: usize,
    keys: [u64; K],
    values: [Option<Ptr>; K],
    children: [Option<Box<ArrayNode>>; FANOUT],
    /// The number of levels below this node; recursion over nodes goes by it.
    level: Ghost<nat>,
}

impl ArrayNode {
    /// The number of levels below this node.
    spec fn level(self) -> nat {
        self.level@
    }

    /// The logical form of the subtree under this node.
    spec fn shape(self) -> Shape
        decreases self.level(),
    {
        Shape {
            keys: self.keys@.take(self.size as int),
            vals: Seq::new(self.size as nat, |i: int| self.values@[i]->0),
            kids: if self.level@ == 0 {
                Seq::empty()
            } else {
                Seq::new(
                    self.size as nat + 1,
                    |i: int|
                        match self.children@[i] {
                            Some(c) => if c.level@ < self.level@ {
                                c.shape()
                            } else {
                                arbitrary()
                            },
                            None => arbitrary(),
                        },
                )
            },
        }
    }

    /// What the logical form does not show: the entries in use have a
    /// handle each, a leaf has no children, and the children in use of any
    /// other node are there, one level below it.
    spec fn sound(self) -> bool
        decreases self.level(),
    {
        &&& self.size <= K
        &&& forall|i: int| 0 <= i < self.size ==> (#[trigger] self.values@[i]) is Some
        &&& self.level@ == 0 ==> forall|i: int|
            0 <= i < FANOUT ==> (#[trigger] self.children@[i]) is None
        &&& self.level@ > 0 ==> forall|i: int|
            0 <= i <= self.size ==> match #[trigger] self.children@[i] {
                Some(c) => c.level@ == self.level@ - 1 && c.sound(),
                None => false,
            }
    }

    /// A valid node: sound, neat, and under capacity.
    spec fn wf(self) -> bool {
        &&& self.sound()
        &&& self.shape().neat(K as nat)
        &&& self.shape().keys.len() < K
    }

    /// An empty leaf.
    fn new() -> (node: Self)
        ensures
            node.sound(),
            node.level() == 0,
            node.shape() == (Shape { keys: Seq::empty(), vals: Seq::empty(), kids: Seq::empty() }),
    {
        let node = ArrayNode {
            size: 0,
            keys: [0; K],
            values: [None; K],
            children: core::array::from_fn(vacant),
            level: Ghost(0),
        };
        proof {
            assert(node.shape().keys =~= Seq::empty());
            assert(node.shape().vals =~= Seq::empty());
        }
        node
    }

    /// The logical form of the child in place `i`.
    spec fn kid(self, i: int) -> Shape {
        self.children@[i]->0.shape()
    }

    /// The position among this node's keys at which `key` stands or belongs,
    /// by binary search over the entries in use.
    fn position(&self, key: u64) -> (p: usize)
        requires
            self.size <= K,
            increasing(self.shape().keys),
        ensures
            p == rank(self.shape().keys, key),
            p <= self.size,
    {
        let ghost keys = self.shape().keys;
        let mut lo: usize = 0;
        let mut hi: usize = self.size;
        while lo < hi
            invariant
                keys == self.keys@.take(self.size as int),
                increasing(keys),
                lo <= hi <= self.size <= K,
                forall|i: int| 0 <= i < lo ==> keys[i] < key,
                forall|i: int| hi <= i < keys.len() ==> keys[i] >= key,
            decreases hi - lo,
        {
            let mid: usize = lo + (hi - lo) / 2;
            assert(keys[mid as int] == self.keys@[mid as int]);
            if self.keys[mid] < key {
                assert forall|i: int| 0 <= i < mid + 1 implies keys[i] < key by {
                    assert(keys[i] <= keys[mid as int]);
                }
                lo = mid + 1;
            } else {
                assert forall|i: int| mid <= i < keys.len() implies keys[i] >= key by {
                    assert(keys[mid as int] <= keys[i]);
                }
                hi = mid;
            }
        }
        proof {
            lemma_cut_is_rank(keys, key, lo as int);
        }
        lo
    }

    /// Looks `key` up in the subtree: the handle that goes with it, if it is there.
    fn get(&self, key: u64) -> (found: Option<Ptr>)
        requires
            self.wf(),
        ensures
            found == self.shape().find(key),
        decreases self.level(),
    {
        let index = self.position(key);
        if index < self.size && self.keys[index] == key {
            self.values[index]
        } else {
            match &self.children[index] {
                Some(child) => {
                    assert(self.shape().kids[index as int] == child.shape());
                    child.get(key)
                },
                None => None,
            }
        }
    }

    /// The node that gathers the two halves of a split under the promoted entry.
    fn grown(key: u64, value: Ptr, left: ArrayNode, right: ArrayNode) -> (node: Self)
        requires
            left.sound(),
            right.sound(),
            left.level() == right.level(),
        ensures
            node.sound(),
            node.level() == left.level() + 1,
            node.shape() == (Halves {
                key,
                val: value,
                left: left.shape(),
                right: right.shape(),
            }).grown(),
    {
        let mut node = ArrayNode::new();
        node.keys[0] = key;
        node.values[0] = Some(value);
        node.children[0] = Some(Box::new(left));
        node.children[1] = Some(Box::new(right));
        node.size = 1;
        node.level = Ghost(left.level() + 1);
        proof {
            let g = (Halves { key, val: value, left: left.shape(), right: right.shape() }).grown();
            assert(node.shape().keys =~= g.keys);
            assert(node.shape().vals =~= g.vals);
            assert(node.shape().kids =~= g.kids);
        }
        node
    }

    /// A new node made of `count` entries of this one, from `from` on, and of
    /// the children on their two sides, which move over.
    fn part(&mut self, from: usize, count: usize) -> (node: ArrayNode)
        requires
            from + count <= old(self).size <= K,
            forall|i: int| from <= i < from + count ==> (#[trigger] old(self).values@[i]) is Some,
            old(self).level() == 0 ==> forall|i: int|
                0 <= i < FANOUT ==> (#[trigger] old(self).children@[i]) is None,
            old(self).level() > 0 ==> forall|i: int|
                from <= i <= from + count ==> match #[trigger] old(self).children@[i] {
                    Some(c) => c.level() == old(self).level() - 1 && c.sound(),
                    None => false,
                },
        ensures
            node.sound(),
            node.level() == old(self).level(),
            node.shape().keys == old(self).keys@.subrange(from as int, from + count),
            node.shape().vals == Seq::new(
                count as nat,
                |i: int| old(self).values@[from + i]->0,
            ),
            node.shape().kids == if old(self).level() == 0 {
                Seq::<Shape>::empty()
            } else {
                Seq::new(count as nat + 1, |i: int| old(self).kid(from + i))
            },
            final(self).size == old(self).size,
            final(self).keys == old(self).keys,
            final(self).values == old(self).values,
            final(self).level() == old(self).level(),
            forall|i: int|
                0 <= i < from || from + count < i < FANOUT ==> final(self).children@[i] == old(
                    self,
                ).children@[i],
            forall|i: int| from <= i <= from + count ==> final(self).children@[i] is None,
    {
        let mut node = ArrayNode::new();
        node.size = count;
        node.level = Ghost(self.level());
        let mut i: usize = 0;
        while i < count
            invariant
                i <= count,
                from + count <= self.size <= K,
                *self == *old(self),
                node.size == count,
                node.level() == self.level(),
                forall|j: int| 0 <= j < FANOUT ==> (#[trigger] node.children@[j]) is None,
                forall|j: int| 0 <= j < i ==> node.keys@[j] == self.keys@[from + j],
                forall|j: int| 0 <= j < i ==> node.values@[j] == self.values@[from + j],
            decreases count - i,
        {
            node.keys[i] = self.keys[from + i];
            node.values[i] = self.values[from + i];
            i += 1;
        }
        let ghost children = self.children@;
        if self.children[from].is_some() {
            let mut i: usize = 0;
            while i <= count
                invariant
                    i <= count + 1,
                    from + count <= self.size <= K,
                    self.level() > 0,
                    self.size == old(self).size,
                    self.keys == old(self).keys,
                    self.values == old(self).values,
                    self.level() == old(self).level(),
                    children == old(self).children@,
                    node.size == count,
                    node.level() == self.level(),
                    node.keys@.take(count as int) == self.keys@.subrange(
                        from as int,
                        from + count,
                    ),
                    forall|j: int| 0 <= j < count ==> node.values@[j] == self.values@[from + j],
                    forall|j: int| 0 <= j < i ==> node.children@[j] == children[from + j],
                    forall|j: int|
                        0 <= j < from || from + i <= j < FANOUT ==> self.children@[j]
                            == children[j],
                    forall|j: int| from <= j < from + i ==> self.children@[j] is None,
                decreases count + 1 - i,
            {
                node.children[i] = self.children[from + i].take();
                i += 1;
            }
        }
        proof {
            assert(node.shape().keys =~= self.keys@.subrange(from as int, from + count));
            assert(node.shape().vals =~= Seq::new(
                count as nat,
                |i: int| old(self).values@[from + i]->0,
            ));
            if self.level() > 0 {
                assert(node.shape().kids =~= Seq::new(
                    count as nat + 1,
                    |i: int| old(self).kid(from + i),
                ));
            }
        }
        node
    }

    /// Splits a node that has reached capacity into its two halves and the
    /// entry promoted from between them. The node is left spent.
    fn split(&mut self) -> (done: Inserted<ArrayNode>)
        requires
            old(self).sound(),
            old(self).size == K,
        ensures
            done matches Inserted::Splits { key, value, left, right } && {
                let h = old(self).shape().split();
                &&& key == h.key
                &&& value == h.val
                &&& left.shape() == h.left
                &&& right.shape() == h.right
                &&& left.sound()
                &&& right.sound()
                &&& left.level() == old(self).level()
                &&& right.level() == old(self).level()
            },
    {
        let ghost before = self.shape();
        let ghost h = before.split();
        let m: usize = self.size / 2;
        let left = self.part(0, m - 1);
        let right = self.part(m, K - m);
        let key = self.keys[m - 1];
        let value = self.values[m - 1].unwrap();
        proof {
            assert(left.shape().keys =~= h.left.keys);
            assert(left.shape().vals =~= h.left.vals);
            assert(left.shape().kids =~= h.left.kids);
            assert(right.shape().keys =~= h.right.keys);
            assert(right.shape().vals =~= h.right.vals);
            assert(right.shape().kids =~= h.right.kids);
        }
        Inserted::Splits { key, value, left, right }
    }

    /// Inserts `key` with the handle `value` into the subtree. The key goes
    /// down to the leaf where it belongs. A node that reaches capacity splits,
    /// and its parent takes the promoted entry and the two halves in.
    fn insert(&mut self, key: u64, value: Ptr) -> (done: Inserted<ArrayNode>)
        requires
            old(self).wf(),
        ensures
            match old(self).shape().insert(K as nat, key, value) {
                Outcome::Present(p) => {
                    &&& done == Inserted::<ArrayNode>::Present(p)
                    &&& final(self).shape() == old(self).shape()
                    &&& final(self).sound()
                    &&& final(self).level() == old(self).level()
                },
                Outcome::Fits(t) => {
                    &&& done is Fits
                    &&& final(self).shape() == t
                    &&& final(self).sound()
                    &&& final(self).level() == old(self).level()
                },
                Outcome::Splits(h) => {
                    &&& done matches Inserted::Splits { key: sk, value: sv, left, right }
                    &&& sk == h.key
                    &&& sv == h.val
                    &&& left.shape() == h.left
                    &&& right.shape() == h.right
                    &&& left.sound()
                    &&& right.sound()
                    &&& left.level() == old(self).level()
                    &&& right.level() == old(self).level()
                },
            },
        decreases old(self).level(),
    {
        let ghost before = self.shape();
        let ghost kids = before.kids;
        let index = self.position(key);
        if index < self.size && self.keys[index] == key {
            return Inserted::Present(self.values[index].unwrap());
        }
        let below = match &mut self.children[index] {
            Some(child) => {
                assert(kids[index as int] == child.shape());
                Some(child.insert(key, value))
            },
            None => None,
        };
        match below {
            Some(Inserted::Present(p)) => {
                proof {
                    assert(self.shape().kids =~= kids);
                }
                return Inserted::Present(p);
            },
            Some(Inserted::Fits) => {
                proof {
                    let t = kids[index as int].insert(K as nat, key, value)->Fits_0;
                    assert(self.shape().kids =~= kids.update(index as int, t));
                }
                return Inserted::Fits;
            },
            Some(Inserted::Splits { key: sk, value: sv, left, right }) => {
                let ghost h = kids[index as int].insert(K as nat, key, value)->Splits_0;
                self.children[index] = Some(Box::new(left));
                array_insert(&mut self.children, index + 1, Some(Box::new(right)), self.size + 1);
                array_insert(&mut self.keys, index, sk, self.size);
                array_insert(&mut self.values, index, Some(sv), self.size);
                self.size += 1;
                proof {
                    let t = before.absorb(index as int, h);
                    assert(self.shape().keys =~= t.keys);
                    assert(self.shape().vals =~= t.vals);
                    assert(self.shape().kids =~= t.kids);
                }
            },
            None => {
                array_insert(&mut self.keys, index, key, self.size);
                array_insert(&mut self.values, index, Some(value), self.size);
                self.size += 1;
                proof {
                    let t = before.with_entry(index as int, key, value);
                    assert(self.shape().keys =~= t.keys);
                    assert(self.shape().vals =~= t.vals);
                    assert(self.shape().kids =~= t.kids);
                }
            },
        }
        if self.size == K {
            self.split()
        } else {
            Inserted::Fits
        }
    }

    /// This node's own keys, in order.
    fn keys(&self) -> (keys: Vec<u64>)
        requires
            self.size <= K,
        ensures
            keys@ == self.shape().keys,
    {
        let mut keys: Vec<u64> = Vec::new();
        let mut i: usize = 0;
        while i < self.size
            invariant
                i <= self.size <= K,
                keys@ == self.keys@.take(i as int),
            decreases self.size - i,
        {
            keys.push(self.keys[i]);
            proof {
                assert(keys@ =~= self.keys@.take(i + 1));
            }
            i += 1;
        }
        keys
    }

    /// All keys of the subtree, in the order of a walk from left to right.
    fn to_vec(&self) -> (all: Vec<u64>)
        requires
            self.wf(),
        ensures
            all@ == self.shape().flat(),
        decreases self.level(),
    {
        if self.children[0].is_some() {
            let ghost shape = self.shape();
            let mut all: Vec<u64> = Vec::new();
            let mut i: usize = 0;
            while i <= self.size
                invariant
                    self.wf(),
                    self.level() > 0,
                    shape == self.shape(),
                    shape.kids.len() == self.size + 1,
                    shape.keys.len() == self.size,
                    i <= self.size + 1,
                    i <= self.size ==> all@ == shape.walk(i as int),
                    i == self.size + 1 ==> all@ == shape.flat(),
                decreases self.size + 1 - i,
            {
                if let Some(child) = &self.children[i] {
                    assert(shape.kids[i as int] == child.shape());
                    let mut part = child.to_vec();
                    all.append(&mut part);
                }
                if i < self.size {
                    all.push(self.keys[i]);
                    proof {
                        assert(all@ =~= shape.walk(i + 1));
                    }
                } else {
                    proof {
                        assert(shape.kids.last() == shape.kids[i as int]);
                        assert(all@ =~= shape.flat());
                    }
                }
                i += 1;
            }
            all
        } else {
            self.keys()
        }
    }

    /// A dump of the subtree, one line to a node: the node's depth and its
    /// keys; each node comes before its children. This node is at `depth`.
    fn print(&self, depth: usize) -> (lines: Vec<(usize, Vec<u64>)>)
        requires
            self.wf(),
            self.shape().balanced(),
            depth + self.shape().height() <= usize::MAX,
        ensures
            listed(lines@) == self.shape().lines(depth),
        decreases self.level(),
    {
        let ghost shape = self.shape();
        let mut lines: Vec<(usize, Vec<u64>)> = Vec::new();
        lines.push((depth, self.keys()));
        proof {
            assert(listed(lines@) =~= seq![(depth, shape.keys)]);
        }
        if self.children[0].is_some() {
            let mut i: usize = 0;
            while i <= self.size
                invariant
                    self.wf(),
                    self.level() > 0,
                    shape == self.shape(),
                    shape.balanced(),
                    shape.kids.len() == self.size + 1,
                    depth + shape.height() <= usize::MAX,
                    i <= self.size + 1,
                    listed(lines@) == seq![(depth, shape.keys)] + shape.lines_below(
                        depth,
                        i as int,
                    ),
                decreases self.size + 1 - i,
            {
                if let Some(child) = &self.children[i] {
                    assert(shape.kids[i as int] == child.shape());
                    assert(shape.kids[i as int].height() == shape.kids[0].height());
                    let ghost so_far = listed(lines@);
                    let mut part = child.print(depth + 1);
                    let ghost added = listed(part@);
                    lines.append(&mut part);
                    proof {
                        assert(listed(lines@) =~= so_far + added);
                        assert(listed(lines@) =~= seq![(depth, shape.keys)] + shape.lines_below(
                            depth,
                            i + 1,
                        ));
                    }
                }
                i += 1;
            }
        } else {
            proof {
                assert(listed(lines@) =~= shape.lines(depth));
            }
        }
        lines
    }
}

/// An ordered map from `u64` keys to values, kept as a balanced tree whose
/// nodes hold their entries and children in arrays of fixed size. The values
/// live in a store of their own, and a lookup gives the handle of a value.
pub struct ArrayBPTree<T> {
    root: Option<Box<ArrayNode>>,
    store: Vec<T>,
}

impl<T> View for ArrayBPTree<T> {
    type V = Map<u64, T>;

    /// The value that goes with each key.
    open spec fn view(&self) -> Map<u64, T> {
        contents(self.shape(), self.slots())
    }
}

impl<T> ArrayBPTree<T> {
    /// The logical form of the tree.
    pub closed spec fn shape(self) -> Shape {
        match self.root {
            Some(root) => root.shape(),
            None => Shape { keys: Seq::empty(), vals: Seq::empty(), kids: Seq::empty() },
        }
    }

    /// The order: the number of entries at which a node splits.
    pub open spec fn order(self) -> nat {
        K as nat
    }

    /// The stored values, each in its slot.
    pub closed spec fn slots(self) -> Seq<T> {
        self.store@
    }

    /// The nodes are sound.
    pub closed spec fn sound(self) -> bool {
        match self.root {
            Some(root) => root.sound(),
            None => true,
        }
    }

    /// A valid tree.
    pub open spec fn wf(self) -> bool {
        self.sound() && valid(self.shape(), self.order(), self.slots().len())
    }

    /// Every tree is valid, at all times.
    #[verifier::type_invariant]
    spec fn inv(self) -> bool {
        self.wf()
    }

    /// The handle that goes with each key.
    pub open spec fn handles(self) -> Map<u64, Ptr> {
        handles(self.shape())
    }

    /// An empty tree.
    pub fn new() -> (tree: Self)
        ensures
            tree.wf(),
            tree@ == Map::<u64, T>::empty(),
            tree.slots() == Seq::<T>::empty(),
            tree.shape() == (Shape { keys: Seq::empty(), vals: Seq::empty(), kids: Seq::empty() }),
    {
        let tree = ArrayBPTree { root: Some(Box::new(ArrayNode::new())), store: Vec::new() };
        proof {
            assert(tree@ =~= Map::<u64, T>::empty());
        }
        tree
    }

    /// Inserts `value` under `key`. A key that is already there keeps its
    /// handle and its place, and takes the new value.
    pub fn insert(&mut self, key: u64, value: T)
        ensures
            final(self).wf(),
            final(self)@ == old(self)@.insert(key, value),
            final(self).shape() == planted(
                old(self).shape(),
                old(self).order(),
                key,
                Ptr::to(old(self).slots().len() as int),
            ),
            final(self).slots() == match old(self).shape().find(key) {
                Some(p) => old(self).slots().update(p.index(), value),
                None => old(self).slots().push(value),
            },
            final(self).handles() == match old(self).shape().find(key) {
                Some(_) => old(self).handles(),
                None => old(self).handles().insert(key, Ptr::to(old(self).slots().len() as int)),
            },
    {
        let ghost s = self.shape();
        let ghost slots = self.slots();
        proof {
            use_type_invariant(&*self);
            assert(slots.len() == self.store.len());
            if s.find(key) is Some {
                lemma_plant_present(s, self.order(), slots.len(), key, Ptr::to(slots.len() as int));
                lemma_replace(s, self.order(), slots, key, value);
            } else {
                lemma_plant_new(s, self.order(), slots, key, value);
            }
        }
        let mut root: Option<Box<ArrayNode>> = None;
        let mut store: Vec<T> = Vec::new();
        core::mem::swap(&mut root, &mut self.root);
        core::mem::swap(&mut store, &mut self.store);
        let mut root = match root {
            Some(root) => root,
            None => Box::new(ArrayNode::new()),
        };
        let fresh = ptr(&mut store, value);
        match root.insert(key, fresh) {
            Inserted::Present(p) => {
                let value = store.pop().unwrap();
                assert(store@ =~= slots);
                store[p.slot()] = value;
            },
            Inserted::Fits => {},
            Inserted::Splits { key, value, left, right } => {
                root = Box::new(ArrayNode::grown(key, value, left, right));
            },
        }
        self.store = store;
        self.root = Some(root);
    }

    /// Looks `key` up: the handle of its value, if the key is there.
    pub fn get(&self, key: u64) -> (found: Option<Ptr>)
        ensures
            self.wf(),
            found == self.shape().find(key),
            found is Some <==> self@.contains_key(key),
            found matches Some(p) ==> {
                &&& self.handles()[key] == p
                &&& p.index() < self.slots().len()
                &&& self.slots()[p.index()] == self@[key]
            },
    {
        proof {
            use_type_invariant(self);
        }
        match &self.root {
            Some(root) => root.get(key),
            None => None,
        }
    }

    /// The value that `p` names, if `p` names a slot of this tree.
    pub fn value(&self, p: Ptr) -> (held: Option<&T>)
        ensures
            held == if p.index() < self.slots().len() {
                Some(&self.slots()[p.index()])
            } else {
                None
            },
    {
        if p.slot() < self.store.len() {
            Some(&self.store[p.slot()])
        } else {
            None
        }
    }

    /// The value that `p` names, to be changed in place.
    pub fn value_mut(&mut self, p: Ptr) -> (held: Option<&mut T>)
        ensures
            final(self).wf(),
            final(self).shape() == old(self).shape(),
            match held {
                Some(v) => {
                    &&& p.index() < old(self).slots().len()
                    &&& *v == old(self).slots()[p.index()]
                    &&& final(self).slots() == old(self).slots().update(p.index(), *final(v))
                    &&& forall|key: u64|
                        old(self).handles().contains_key(key) && old(self).handles()[key] == p
                            ==> final(self)@ == old(self)@.insert(key, *final(v))
                },
                None => {
                    &&& p.index() >= old(self).slots().len()
                    &&& final(self).slots() == old(self).slots()
                },
            },
    {
        proof {
            use_type_invariant(&*self);
            let s = self.shape();
            let slots = self.slots();
            assert forall|key: u64, value: T|
                self.handles().contains_key(key) && self.handles()[key] == p implies #[trigger] contents(
                s,
                slots.update(p.index(), value),
            ) == (#[trigger] self@.insert(key, value)) by {
                lemma_replace(s, self.order(), slots, key, value);
            }
        }
        if p.slot() < self.store.len() {
            Some(&mut self.store[p.slot()])
        } else {
            None
        }
    }

    /// Puts `value` into the slot that `p` names and hands back what was
    /// there. A lookup of the key that owns the slot sees the new value. A
    /// handle that names no slot of this tree changes nothing.
    pub fn set(&mut self, p: Ptr, value: T) -> (was: Option<T>)
        ensures
            final(self).wf(),
            final(self).shape() == old(self).shape(),
            p.index() < old(self).slots().len() ==> {
                &&& was == Some(old(self).slots()[p.index()])
                &&& final(self).slots() == old(self).slots().update(p.index(), value)
            },
            p.index() >= old(self).slots().len() ==> {
                &&& was is None
                &&& final(self).slots() == old(self).slots()
            },
            forall|key: u64|
                old(self).handles().contains_key(key) && old(self).handles()[key] == p
                    ==> final(self)@ == old(self)@.insert(key, value),
    {
        let ghost s = self.shape();
        let ghost slots = self.slots();
        proof {
            use_type_invariant(&*self);
        }
        if p.slot() < self.store.len() {
            let mut value = value;
            proof {
                assert forall|key: u64|
                    self.handles().contains_key(key) && self.handles()[key] == p implies contents(
                    s,
                    slots.update(p.index(), value),
                ) == self@.insert(key, value) by {
                    lemma_replace(s, self.order(), slots, key, value);
                }
            }
            core::mem::swap(&mut self.store[p.slot()], &mut value);
            Some(value)
        } else {
            None
        }
    }

    /// All keys, in increasing order.
    pub fn to_vec(&self) -> (all: Vec<u64>)
        ensures
            self.wf(),
            all@ == self.shape().flat(),
            increasing(all@),
            forall|key: u64|
                #![trigger all@.contains(key)]
                #![trigger self@.contains_key(key)]
                all@.contains(key) <==> self@.contains_key(key),
    {
        proof {
            use_type_invariant(self);
            lemma_listing(self.shape(), self.order(), self.slots().len());
            assert forall|key: u64|
                self.handles().contains_key(key) <==> #[trigger] self@.contains_key(key) by {}
        }
        match &self.root {
            Some(root) => root.to_vec(),
            None => Vec::new(),
        }
    }

    /// A dump of the tree, one line to a node: how deep the node lies and
    /// the keys it holds. Each node comes before its children, and the
    /// children from left to right.
    pub fn print(&self) -> (lines: Vec<(usize, Vec<u64>)>)
        ensures
            self.wf(),
            listed(lines@) == self.shape().lines(0),
    {
        proof {
            use_type_invariant(self);
            assert(self.slots().len() == self.store.len());
        }
        match &self.root {
            Some(root) => root.print(0),
            None => {
                let mut lines: Vec<(usize, Vec<u64>)> = Vec::new();
                lines.push((0, Vec::new()));
                proof {
                    assert(listed(lines@) =~= self.shape().lines(0));
                }
                lines
            },
        }
    }
}

} // verus!
