use crate::linked::List;
use crate::model::{increasing, lemma_cut_is_rank, listed, rank, Halves, Outcome, Shape};
use crate::store::{contents, handles, lemma_listing, lemma_plant_new, lemma_plant_present, lemma_replace, planted, valid};
use crate::util::{ptr, ConfigError, Inserted, Ptr};
use vstd::prelude::*;

verus! {

/// A node that keeps its keys, its handles and its children in linked sequences.
struct LLNode {
    k: usize,
    keys: List<u64>,
    values: List<Ptr>,
    children: Option<List<LLNode>>,
}

impl LLNode {
    /// The logical form of the subtree under this node.
    spec fn shape(self) -> Shape
        decreases self,
    {
        Shape {
            keys: self.keys@,
            vals: self.values@,
            kids: match self.children {
                Some(c) => Seq::new(
                    c@.len(),
                    |i: int|
                        if 0 <= i < c@.len() {
                            proof {
                                c.lemma_smaller(i);
                            }
                            c@[i].shape()
                        } else {
                            arbitrary()
                        },
                ),
                None => Seq::empty(),
            },
        }
    }

    /// The order that this node was made for.
    spec fn order(self) -> nat {
        self.k as nat
    }

    /// What the logical form does not show: a node with a sequence of
    /// children has at least one, and all nodes are of one order.
    spec fn sound(self) -> bool
        decreases self,
    {
        match self.children {
            Some(c) => c@.len() > 0 && forall|i: int|
                0 <= i < c@.len() ==> {
                    proof {
                        c.lemma_smaller(i);
                    }
                    (#[trigger] c@[i]).k == self.k && c@[i].sound()
                },
            None => true,
        }
    }

    /// A valid node: sound, neat, and under capacity.
    spec fn wf(self) -> bool {
        &&& self.sound()
        &&& self.shape().neat(self.order())
        &&& self.shape().keys.len() < self.order()
    }

    /// An empty leaf of order `k`.
    fn new(k: usize) -> (node: Self)
        ensures
            node.order() == k,
            node.sound(),
            node.shape() == (Shape { keys: Seq::empty(), vals: Seq::empty(), kids: Seq::empty() }),
    {
        LLNode { k, keys: List::new(), values: List::new(), children: None }
    }

    /// The position among this node's keys at which `key` stands or belongs,
    /// found by a walk from the front, and whether it stands there.
    fn position(&self, key: u64) -> (at: (usize, bool))
        requires
            self.shape().keys.len() <= self.order(),
        ensures
            at.0 == rank(self.shape().keys, key),
            at.0 <= self.shape().keys.len(),
            at.1 <==> at.0 < self.shape().keys.len() && self.shape().keys[at.0 as int] == key,
    {
        let ghost keys = self.keys@;
        let mut seen: usize = 0;
        let mut here = self.keys.first();
        proof {
            assert(keys.skip(0) =~= keys);
        }
        loop
            invariant
                keys == self.keys@,
                keys == self.shape().keys,
                keys.len() <= self.k,
                forall|i: int| 0 <= i < seen ==> keys[i] < key,
                match here {
                    Some(cell) => cell.items() == keys.skip(seen as int) && seen < keys.len(),
                    None => seen == keys.len(),
                },
            decreases keys.len() - seen,
        {
            match here {
                Some(cell) => {
                    let ghost rest = cell.items();
                    let item = *cell.item();
                    assert(item == keys[seen as int]);
                    if item >= key {
                        proof {
                            lemma_cut_is_rank(keys, key, seen as int);
                        }
                        return (seen, item == key);
                    }
                    here = cell.next();
                    proof {
                        assert(rest.skip(1) =~= keys.skip(seen + 1));
                        assert(rest.len() == keys.len() - seen);
                    }
                    seen += 1;
                },
                None => {
                    proof {
                        lemma_cut_is_rank(keys, key, seen as int);
                    }
                    return (seen, false);
                },
            }
        }
    }

    /// Looks `key` up in the subtree: the handle that goes with it, if it is there.
    fn get(&self, key: u64) -> (found: Option<Ptr>)
        requires
            self.wf(),
        ensures
            found == self.shape().find(key),
        decreases self,
    {
        let (index, here) = self.position(key);
        if here {
            Some(*self.values.get(index))
        } else {
            match &self.children {
                Some(children) => {
                    proof {
                        children.lemma_smaller(index as int);
                        assert(self.shape().kids[index as int] == children@[index as int].shape());
                    }
                    children.get(index).get(key)
                },
                None => None,
            }
        }
    }

    /// The node that gathers the two halves of a split under the promoted entry.
    fn grown(k: usize, key: u64, value: Ptr, left: LLNode, right: LLNode) -> (node: Self)
        requires
            left.sound(),
            right.sound(),
            left.order() == k,
            right.order() == k,
        ensures
            node.order() == k,
            node.sound(),
            node.shape() == (Halves {
                key,
                val: value,
                left: left.shape(),
                right: right.shape(),
            }).grown(),
    {
        let mut node = LLNode::new(k);
        node.keys.insert(0, key);
        node.values.insert(0, value);
        let mut children: List<LLNode> = List::new();
        children.insert(0, left);
        children.insert(1, right);
        node.children = Some(children);
        proof {
            let g = (Halves { key, val: value, left: left.shape(), right: right.shape() }).grown();
            assert(node.shape().keys =~= g.keys);
            assert(node.shape().vals =~= g.vals);
            assert(node.shape().kids =~= g.kids);
        }
        node
    }

    /// Splits a node that has reached capacity into its two halves and the
    /// entry promoted from between them. Each sequence is cut once, just
    /// before the promoted entry. The node is left spent.
    fn split(&mut self) -> (done: Inserted<LLNode>)
        requires
            old(self).sound(),
            old(self).order() >= 2,
            old(self).shape().keys.len() == old(self).order(),
            old(self).shape().vals.len() == old(self).order(),
            old(self).shape().kids.len() == 0
                || old(self).shape().kids.len() == old(self).shape().keys.len() + 1,
        ensures
            done matches Inserted::Splits { key, value, left, right } && {
                let h = old(self).shape().split();
                &&& key == h.key
                &&& value == h.val
                &&& left.shape() == h.left
                &&& right.shape() == h.right
                &&& left.sound()
                &&& right.sound()
                &&& left.order() == old(self).order()
                &&& right.order() == old(self).order()
            },
    {
        let ghost before = self.shape();
        let ghost h = before.split();
        let m: usize = self.k / 2;
        let mut left = LLNode::new(self.k);
        let mut right = LLNode::new(self.k);
        right.keys = self.keys.split_off(m - 1);
        let key = right.keys.pop_front().unwrap();
        core::mem::swap(&mut left.keys, &mut self.keys);
        right.values = self.values.split_off(m - 1);
        let value = right.values.pop_front().unwrap();
        core::mem::swap(&mut left.values, &mut self.values);
        if let Some(children) = &mut self.children {
            let ghost all = children@;
            let rest = children.split_off(m);
            let mut first: List<LLNode> = List::new();
            core::mem::swap(&mut first, children);
            proof {
                assert forall|i: int| 0 <= i < first@.len() implies (#[trigger] first@[i]).k
                    == left.k && first@[i].sound() by {
                    assert(first@[i] == all[i]);
                }
                assert forall|i: int| 0 <= i < rest@.len() implies (#[trigger] rest@[i]).k
                    == right.k && rest@[i].sound() by {
                    assert(rest@[i] == all[i + m]);
                }
            }
            left.children = Some(first);
            right.children = Some(rest);
            proof {
                assert(left.shape().kids =~= h.left.kids);
                assert(right.shape().kids =~= h.right.kids);
            }
        }
        proof {
            assert(left.shape().keys =~= h.left.keys);
            assert(left.shape().vals =~= h.left.vals);
            assert(left.shape().kids =~= h.left.kids);
            assert(right.shape().keys =~= h.right.keys);
            assert(right.shape().vals =~= h.right.vals);
            assert(right.shape().kids =~= h.right.kids);
        }
        Inserted::Splits { key, value, left, right }
    }

    /// Inserts `key` with the handle `value` into the subtree. The key goes
    /// down to the leaf where it belongs. A node that reaches capacity splits,
    /// and its parent takes the promoted entry and the two halves in.
    fn insert(&mut self, key: u64, value: Ptr) -> (done: Inserted<LLNode>)
        requires
            old(self).wf(),
            old(self).order() >= 2,
        ensures
            match old(self).shape().insert(old(self).order(), key, value) {
                Outcome::Present(p) => {
                    &&& done == Inserted::<LLNode>::Present(p)
                    &&& final(self).shape() == old(self).shape()
                    &&& final(self).sound()
                    &&& final(self).order() == old(self).order()
                },
                Outcome::Fits(t) => {
                    &&& done is Fits
                    &&& final(self).shape() == t
                    &&& final(self).sound()
                    &&& final(self).order() == old(self).order()
                },
                Outcome::Splits(h) => {
                    &&& done matches Inserted::Splits { key: sk, value: sv, left, right }
                    &&& sk == h.key
                    &&& sv == h.val
                    &&& left.shape() == h.left
                    &&& right.shape() == h.right
                    &&& left.sound()
                    &&& right.sound()
                    &&& left.order() == old(self).order()
                    &&& right.order() == old(self).order()
                },
            },
        decreases *old(self),
    {
        let ghost before = self.shape();
        let ghost kids = before.kids;
        let (index, here) = self.position(key);
        if here {
            return Inserted::Present(*self.values.get(index));
        }
        let below = match &mut self.children {
            Some(children) => {
                proof {
                    children.lemma_smaller(index as int);
                    assert(kids[index as int] == children@[index as int].shape());
                }
                Some(children.get_mut(index).insert(key, value))
            },
            None => None,
        };
        match below {
            Some(Inserted::Present(p)) => {
                proof {
                    assert(self.shape().kids =~= kids);
                }
                return Inserted::Present(p);
            },
            Some(Inserted::Fits) => {
                proof {
                    let t = kids[index as int].insert(self.order(), key, value)->Fits_0;
                    assert(self.shape().kids =~= kids.update(index as int, t));
                }
                return Inserted::Fits;
            },
            Some(Inserted::Splits { key: sk, value: sv, left, right }) => {
                let ghost h = kids[index as int].insert(self.order(), key, value)->Splits_0;
                if let Some(children) = &mut self.children {
                    *children.get_mut(index) = left;
                    children.insert(index + 1, right);
                }
                self.keys.insert(index, sk);
                self.values.insert(index, sv);
                proof {
                    let t = before.absorb(index as int, h);
                    assert(self.shape().keys =~= t.keys);
                    assert(self.shape().vals =~= t.vals);
                    assert(self.shape().kids =~= t.kids);
                }
            },
            None => {
                self.keys.insert(index, key);
                self.values.insert(index, value);
                proof {
                    let t = before.with_entry(index as int, key, value);
                    assert(self.shape().keys =~= t.keys);
                    assert(self.shape().vals =~= t.vals);
                    assert(self.shape().kids =~= t.kids);
                }
            },
        }
        if self.keys.has_len(self.k) {
            self.split()
        } else {
            Inserted::Fits
        }
    }

    /// This node's own keys, in order.
    fn keys(&self) -> (keys: Vec<u64>)
        ensures
            keys@ == self.shape().keys,
    {
        let ghost own = self.keys@;
        let mut keys: Vec<u64> = Vec::new();
        let mut here = self.keys.first();
        proof {
            assert(own.skip(0) =~= own);
        }
        loop
            invariant
                own == self.keys@,
                keys@.len() <= own.len(),
                keys@ == own.take(keys@.len() as int),
                match here {
                    Some(cell) => cell.items() == own.skip(keys@.len() as int) && keys@.len()
                        < own.len(),
                    None => keys@.len() == own.len(),
                },
            decreases own.len() - keys@.len(),
        {
            match here {
                Some(cell) => {
                    let ghost rest = cell.items();
                    let ghost seen = keys@.len() as int;
                    keys.push(*cell.item());
                    here = cell.next();
                    proof {
                        assert(rest.skip(1) =~= own.skip(seen + 1));
                        assert(rest.len() == own.len() - seen);
                        assert(keys@ =~= own.take(seen + 1));
                    }
                },
                None => {
                    proof {
                        assert(keys@ =~= own);
                    }
                    return keys;
                },
            }
        }
    }

    /// All keys of the subtree, in the order of a walk from left to right.
    fn to_vec(&self) -> (all: Vec<u64>)
        requires
            self.wf(),
        ensures
            all@ == self.shape().flat(),
        decreases self,
    {
        match &self.children {
            Some(children) => {
                let ghost shape = self.shape();
                let ghost kids = children@;
                let ghost own = self.keys@;
                let ghost mut i: int = 0;
                let mut all: Vec<u64> = Vec::new();
                let mut kid = children.first();
                let mut key = self.keys.first();
                proof {
                    assert(own.skip(0) =~= own);
                    assert(kids.skip(0) =~= kids);
                }
                loop
                    invariant
                        self.wf(),
                        shape == self.shape(),
                        self.children == Some(*children),
                        kids == children@,
                        own == self.keys@,
                        kids.len() == own.len() + 1,
                        0 <= i <= kids.len(),
                        i < kids.len() ==> all@ == shape.walk(i),
                        i == kids.len() ==> all@ == shape.flat(),
                        match kid {
                            Some(cell) => cell.items() == kids.skip(i) && i < kids.len(),
                            None => i == kids.len(),
                        },
                        match key {
                            Some(cell) => cell.items() == own.skip(i) && i < own.len(),
                            None => i >= own.len(),
                        },
                    decreases kids.len() - i,
                {
                    match kid {
                        Some(cell) => {
                            let ghost rest = cell.items();
                            let child = cell.item();
                            proof {
                                children.lemma_smaller(i);
                                assert(*child == kids[i]);
                                assert(shape.kids[i] == kids[i].shape());
                            }
                            let mut part = child.to_vec();
                            all.append(&mut part);
                            kid = cell.next();
                            proof {
                                assert(rest.skip(1) =~= kids.skip(i + 1));
                                assert(rest.len() == kids.len() - i);
                            }
                            match key {
                                Some(entry) => {
                                    let ghost others = entry.items();
                                    all.push(*entry.item());
                                    key = entry.next();
                                    proof {
                                        assert(others.skip(1) =~= own.skip(i + 1));
                                        assert(others.len() == own.len() - i);
                                        assert(all@ =~= shape.walk(i + 1));
                                    }
                                },
                                None => {
                                    proof {
                                        assert(shape.kids.last() == shape.kids[i]);
                                        assert(all@ =~= shape.flat());
                                    }
                                },
                            }
                            proof {
                                i = i + 1;
                            }
                        },
                        None => {
                            return all;
                        },
                    }
                }
            },
            None => self.keys(),
        }
    }

    /// A dump of the subtree, one line to a node: the node's depth and its
    /// keys; each node comes before its children. This node is at `depth`.
    fn print(&self, depth: usize) -> (lines: Vec<(usize, Vec<u64>)>)
        requires
            self.wf(),
            self.shape().balanced(),
            depth + self.shape().height() <= usize::MAX,
        ensures
            listed(lines@) == self.shape().lines(depth),
        decreases self,
    {
        let ghost shape = self.shape();
        let mut lines: Vec<(usize, Vec<u64>)> = Vec::new();
        lines.push((depth, self.keys()));
        proof {
            assert(listed(lines@) =~= seq![(depth, shape.keys)]);
        }
        match &self.children {
            Some(children) => {
                let ghost kids = children@;
                let ghost mut i: int = 0;
                let mut kid = children.first();
                proof {
                    assert(kids.skip(0) =~= kids);
                }
                loop
                    invariant
                        self.wf(),
                        shape == self.shape(),
                        shape.balanced(),
                        self.children == Some(*children),
                        kids == children@,
                        depth + shape.height() <= usize::MAX,
                        0 <= i <= kids.len(),
                        listed(lines@) == seq![(depth, shape.keys)] + shape.lines_below(depth, i),
                        match kid {
                            Some(cell) => cell.items() == kids.skip(i) && i < kids.len(),
                            None => i == kids.len(),
                        },
                    decreases kids.len() - i,
                {
                    match kid {
                        Some(cell) => {
                            let ghost rest = cell.items();
                            let child = cell.item();
                            proof {
                                children.lemma_smaller(i);
                                assert(*child == kids[i]);
                                assert(shape.kids[i] == kids[i].shape());
                                assert(shape.kids[i].height() == shape.kids[0].height());
                            }
                            let ghost so_far = listed(lines@);
                            let mut part = child.print(depth + 1);
                            let ghost added = listed(part@);
                            lines.append(&mut part);
                            kid = cell.next();
                            proof {
                                assert(rest.skip(1) =~= kids.skip(i + 1));
                                assert(rest.len() == kids.len() - i);
                                assert(listed(lines@) =~= so_far + added);
                                assert(listed(lines@) =~= seq![(depth, shape.keys)]
                                    + shape.lines_below(depth, i + 1));
                                i = i + 1;
                            }
                        },
                        None => {
                            return lines;
                        },
                    }
                }
            },
            None => {
                proof {
                    assert(listed(lines@) =~= shape.lines(depth));
                }
                lines
            },
        }
    }
}

/// An ordered map from `u64` keys to values, kept as a balanced tree whose
/// nodes hold their keys, handles and children in linked sequences. The values
/// live in a store of their own, and a lookup gives the handle of a value.
pub struct LLBPTree<T> {
    k: usize,
    root: LLNode,
    store: Vec<T>,
}

impl<T> View for LLBPTree<T> {
    type V = Map<u64, T>;

    /// The value that goes with each key.
    open spec fn view(&self) -> Map<u64, T> {
        contents(self.shape(), self.slots())
    }
}

impl<T> LLBPTree<T> {
    /// The logical form of the tree.
    pub closed spec fn shape(self) -> Shape {
        self.root.shape()
    }

    /// The order: the number of entries at which a node splits.
    pub closed spec fn order(self) -> nat {
        self.k as nat
    }

    /// The stored values, each in its slot.
    pub closed spec fn slots(self) -> Seq<T> {
        self.store@
    }

    /// The nodes are sound and of the tree's order.
    pub closed spec fn sound(self) -> bool {
        self.root.sound() && self.root.order() == self.k
    }

    /// A valid tree.
    pub open spec fn wf(self) -> bool {
        self.sound() && valid(self.shape(), self.order(), self.slots().len())
    }

    /// Every tree is valid, at all times.
    #[verifier::type_invariant]
    spec fn inv(self) -> bool {
        self.wf()
    }

    /// The handle that goes with each key.
    pub open spec fn handles(self) -> Map<u64, Ptr> {
        handles(self.shape())
    }

    /// An empty tree of order `k`. An order below three is refused.
    pub fn new(k: usize) -> (made: Result<Self, ConfigError>)
        ensures
            k < 3 <==> made == Err::<Self, ConfigError>(ConfigError::OrderTooSmall),
            made matches Ok(tree) ==> {
                &&& tree.wf()
                &&& tree.order() == k
                &&& tree@ == Map::<u64, T>::empty()
                &&& tree.slots() == Seq::<T>::empty()
                &&& tree.shape() == (Shape {
                    keys: Seq::empty(),
                    vals: Seq::empty(),
                    kids: Seq::empty(),
                })
            },
    {
        if k < 3 {
            return Err(ConfigError::OrderTooSmall);
        }
        let tree = LLBPTree { k, root: LLNode::new(k), store: Vec::new() };
        proof {
            assert(tree@ =~= Map::<u64, T>::empty());
        }
        Ok(tree)
    }

    /// Inserts `value` under `key`. A key that is already there keeps its
    /// handle and its place, and takes the new value.
    pub fn insert(&mut self, key: u64, value: T)
        ensures
            final(self).wf(),
            final(self).order() == old(self).order(),
            final(self)@ == old(self)@.insert(key, value),
            final(self).shape() == planted(
                old(self).shape(),
                old(self).order(),
                key,
                Ptr::to(old(self).slots().len() as int),
            ),
            final(self).slots() == match old(self).shape().find(key) {
                Some(p) => old(self).slots().update(p.index(), value),
                None => old(self).slots().push(value),
            },
            final(self).handles() == match old(self).shape().find(key) {
                Some(_) => old(self).handles(),
                None => old(self).handles().insert(key, Ptr::to(old(self).slots().len() as int)),
            },
    {
        let ghost s = self.shape();
        let ghost slots = self.slots();
        proof {
            use_type_invariant(&*self);
            assert(slots.len() == self.store.len());
            if s.find(key) is Some {
                lemma_plant_present(s, self.order(), slots.len(), key, Ptr::to(slots.len() as int));
                lemma_replace(s, self.order(), slots, key, value);
            } else {
                lemma_plant_new(s, self.order(), slots, key, value);
            }
        }
        let mut root = LLNode::new(self.k);
        let mut store: Vec<T> = Vec::new();
        core::mem::swap(&mut root, &mut self.root);
        core::mem::swap(&mut store, &mut self.store);
        let fresh = ptr(&mut store, value);
        match root.insert(key, fresh) {
            Inserted::Present(p) => {
                let value = store.pop().unwrap();
                assert(store@ =~= slots);
                store[p.slot()] = value;
            },
            Inserted::Fits => {},
            Inserted::Splits { key, value, left, right } => {
                root = LLNode::grown(self.k, key, value, left, right);
            },
        }
        self.store = store;
        self.root = root;
    }

    /// Looks `key` up: the handle of its value, if the key is there.
    pub fn get(&self, key: u64) -> (found: Option<Ptr>)
        ensures
            self.wf(),
            found == self.shape().find(key),
            found is Some <==> self@.contains_key(key),
            found matches Some(p) ==> {
                &&& self.handles()[key] == p
                &&& p.index() < self.slots().len()
                &&& self.slots()[p.index()] == self@[key]
            },
    {
        proof {
            use_type_invariant(self);
        }
        self.root.get(key)
    }

    /// The value that `p` names, if `p` names a slot of this tree.
    pub fn value(&self, p: Ptr) -> (held: Option<&T>)
        ensures
            held == if p.index() < self.slots().len() {
                Some(&self.slots()[p.index()])
            } else {
                None
            },
    {
        if p.slot() < self.store.len() {
            Some(&self.store[p.slot()])
        } else {
            None
        }
    }

    /// The value that `p` names, to be changed in place.
    pub fn value_mut(&mut self, p: Ptr) -> (held: Option<&mut T>)
        ensures
            final(self).wf(),
            final(self).order() == old(self).order(),
            final(self).shape() == old(self).shape(),
            match held {
                Some(v) => {
                    &&& p.index() < old(self).slots().len()
                    &&& *v == old(self).slots()[p.index()]
                    &&& final(self).slots() == old(self).slots().update(p.index(), *final(v))
                    &&& forall|key: u64|
                        old(self).handles().contains_key(key) && old(self).handles()[key] == p
                            ==> final(self)@ == old(self)@.insert(key, *final(v))
                },
                None => {
                    &&& p.index() >= old(self).slots().len()
                    &&& final(self).slots() == old(self).slots()
                },
            },
    {
        proof {
            use_type_invariant(&*self);
            let s = self.shape();
            let slots = self.slots();
            assert forall|key: u64, value: T|
                self.handles().contains_key(key) && self.handles()[key] == p implies #[trigger] contents(
                s,
                slots.update(p.index(), value),
            ) == (#[trigger] self@.insert(key, value)) by {
                lemma_replace(s, self.order(), slots, key, value);
            }
        }
        if p.slot() < self.store.len() {
            Some(&mut self.store[p.slot()])
        } else {
            None
        }
    }

    /// Puts `value` into the slot that `p` names and hands back what was
    /// there. A lookup of the key that owns the slot sees the new value. A
    /// handle that names no slot of this tree changes nothing.
    pub fn set(&mut self, p: Ptr, value: T) -> (was: Option<T>)
        ensures
            final(self).wf(),
            final(self).order() == old(self).order(),
            final(self).shape() == old(self).shape(),
            p.index() < old(self).slots().len() ==> {
                &&& was == Some(old(self).slots()[p.index()])
                &&& final(self).slots() == old(self).slots().update(p.index(), value)
            },
            p.index() >= old(self).slots().len() ==> {
                &&& was is None
                &&& final(self).slots() == old(self).slots()
            },
            forall|key: u64|
                old(self).handles().contains_key(key) && old(self).handles()[key] == p
                    ==> final(self)@ == old(self)@.insert(key, value),
    {
        let ghost s = self.shape();
        let ghost slots = self.slots();
        proof {
            use_type_invariant(&*self);
        }
        if p.slot() < self.store.len() {
            let mut value = value;
            proof {
                assert forall|key: u64|
                    self.handles().contains_key(key) && self.handles()[key] == p implies contents(
                    s,
                    slots.update(p.index(), value),
                ) == self@.insert(key, value) by {
                    lemma_replace(s, self.order(), slots, key, value);
                }
            }
            core::mem::swap(&mut self.store[p.slot()], &mut value);
            Some(value)
        } else {
            None
        }
    }

    /// All keys, in increasing order.
    pub fn to_vec(&self) -> (all: Vec<u64>)
        ensures
            self.wf(),
            all@ == self.shape().flat(),
            increasing(all@),
            forall|key: u64|
                #![trigger all@.contains(key)]
                #![trigger self@.contains_key(key)]
                all@.contains(key) <==> self@.contains_key(key),
    {
        proof {
            use_type_invariant(self);
            lemma_listing(self.shape(), self.order(), self.slots().len());
            assert forall|key: u64|
                self.handles().contains_key(key) <==> #[trigger] self@.contains_key(key) by {}
        }
        self.root.to_vec()
    }

    /// A dump of the tree, one line to a node: how deep the node lies and
    /// the keys it holds. Each node comes before its children, and the
    /// children from left to right.
    pub fn print(&self) -> (lines: Vec<(usize, Vec<u64>)>)
        ensures
            self.wf(),
            listed(lines@) == self.shape().lines(0),
    {
        proof {
            use_type_invariant(self);
            assert(self.slots().len() == self.store.len());
        }
        self.root.print(0)
    }
}

} // verus!
