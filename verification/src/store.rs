use crate::insertion::{lemma_insert, took};
use crate::listing::{lemma_flat_has, lemma_flat_increasing, lemma_has_flat};
use crate::lookup::lemma_find_has;
use crate::model::{increasing, top, Outcome, Shape};
use crate::util::{lemma_ptr_to, Ptr};
use vstd::prelude::*;

verus! {

/// The handle that goes with each key of a tree.
pub open spec fn handles(s: Shape) -> Map<u64, Ptr> {
    Map::new(|q: u64| s.find(q) is Some, |q: u64| s.find(q)->0)
}

/// The value that goes with each key of a tree whose values live in `slots`.
pub open spec fn contents<T>(s: Shape, slots: Seq<T>) -> Map<u64, T> {
    Map::new(|q: u64| s.find(q) is Some, |q: u64| slots[s.find(q)->0.index()])
}

/// The handles of a tree name slots below `n`, and no two keys share a slot.
pub open spec fn indexed(s: Shape, n: nat) -> bool {
    &&& forall|q: u64| (#[trigger] s.find(q)) is Some ==> 0 <= s.find(q)->0.index() < n
    &&& forall|p: u64, q: u64|
        (#[trigger] s.find(p)) is Some && (#[trigger] s.find(q)) is Some && s.find(p)->0.index()
            == s.find(q)->0.index() ==> p == q
}

/// A valid tree of order `k` over a store of `n` slots: the order allows a
/// split, the nodes are in order, every handle names a slot of its own, and
/// the tree is no higher than the store is long.
pub open spec fn valid(s: Shape, k: nat, n: nat) -> bool {
    &&& k >= 3
    &&& s.wf(k)
    &&& indexed(s, n)
    &&& s.height() <= n
}

/// The tree after `key` was inserted with the handle `val`: unchanged where
/// the key was there, and under a new root where the old root split.
pub open spec fn planted(s: Shape, k: nat, key: u64, val: Ptr) -> Shape {
    match s.insert(k, key, val) {
        Outcome::Present(_) => s,
        Outcome::Fits(t) => t,
        Outcome::Splits(h) => h.grown(),
    }
}

/// A subtree that took a new entry is searched like the old one, but for the
/// new key, which is found with its handle.
pub proof fn lemma_took_find(s: Shape, t: Shape, k: nat, lo: int, hi: int, key: u64, val: Ptr)
    requires
        s.neat(k),
        s.bounded(lo, hi),
        t.neat(k),
        t.bounded(lo, hi),
        took(s, t, key, val),
        s.find(key) is None,
    ensures
        forall|q: u64|
            #[trigger] t.find(q) == if q == key {
                Some(val)
            } else {
                s.find(q)
            },
{
    assert forall|q: u64|
        #[trigger] t.find(q) == if q == key {
            Some(val)
        } else {
            s.find(q)
        } by {
        if q == key {
            assert(t.has(key, val));
            lemma_find_has(t, k, lo, hi, key, val);
        } else {
            match s.find(q) {
                Some(v) => {
                    lemma_find_has(s, k, lo, hi, q, v);
                    assert(t.has(q, v));
                    lemma_find_has(t, k, lo, hi, q, v);
                },
                None => {
                    match t.find(q) {
                        Some(v) => {
                            lemma_find_has(t, k, lo, hi, q, v);
                            assert(t.has(q, v));
                            lemma_find_has(s, k, lo, hi, q, v);
                        },
                        None => {},
                    }
                },
            }
        }
    }
}

/// Inserting a key that is there: the search finds its handle, and the tree stays as it is.
pub proof fn lemma_plant_present(s: Shape, k: nat, n: nat, key: u64, val: Ptr)
    requires
        valid(s, k, n),
        s.find(key) is Some,
    ensures
        s.insert(k, key, val) == Outcome::Present(s.find(key)->0),
        planted(s, k, key, val) == s,
{
    lemma_insert(s, k, -1, top(), key, val);
}

/// Inserting a key that is not there, with the handle of a fresh slot: the
/// tree that comes out is valid over the longer store, finds the new key
/// under the new handle and every other key as before, and holds the new
/// value for the new key.
pub proof fn lemma_plant_new<T>(s: Shape, k: nat, slots: Seq<T>, key: u64, value: T)
    requires
        valid(s, k, slots.len()),
        s.find(key) is None,
        slots.len() <= usize::MAX,
    ensures
        ({
            let t = planted(s, k, key, Ptr::to(slots.len() as int));
            &&& !(s.insert(k, key, Ptr::to(slots.len() as int)) is Present)
            &&& valid(t, k, slots.len() + 1)
            &&& handles(t) == handles(s).insert(key, Ptr::to(slots.len() as int))
            &&& contents(t, slots.push(value)) == contents(s, slots).insert(key, value)
        }),
{
    let fresh = Ptr::to(slots.len() as int);
    lemma_ptr_to(slots.len() as int);
    let t = planted(s, k, key, fresh);
    lemma_insert(s, k, -1, top(), key, fresh);
    lemma_took_find(s, t, k, -1, top(), key, fresh);
    assert(handles(t) =~= handles(s).insert(key, fresh));
    assert(contents(t, slots.push(value)) =~= contents(s, slots).insert(key, value));
}

/// Replacing the value in the slot of a key changes the value of that key and of no other.
pub proof fn lemma_replace<T>(s: Shape, k: nat, slots: Seq<T>, key: u64, value: T)
    requires
        valid(s, k, slots.len()),
        s.find(key) is Some,
    ensures
        contents(s, slots.update(s.find(key)->0.index(), value)) == contents(s, slots).insert(
            key,
            value,
        ),
{
    assert(contents(s, slots.update(s.find(key)->0.index(), value)) =~= contents(s, slots).insert(
        key,
        value,
    ));
}

/// The walk over a valid tree lists its keys: it is increasing, and a key is
/// in it if and only if the tree has a handle for it.
pub proof fn lemma_listing(s: Shape, k: nat, n: nat)
    requires
        valid(s, k, n),
    ensures
        increasing(s.flat()),
        forall|q: u64| s.flat().contains(q) <==> #[trigger] handles(s).contains_key(q),
{
    lemma_flat_increasing(s, k, -1, top());
    assert forall|q: u64| s.flat().contains(q) <==> #[trigger] handles(s).contains_key(q) by {
        if s.flat().contains(q) {
            lemma_flat_has(s, k, q);
            let v = choose|v: Ptr| s.has(q, v);
            lemma_find_has(s, k, -1, top(), q, v);
        }
        if handles(s).contains_key(q) {
            let v = s.find(q)->0;
            lemma_find_has(s, k, -1, top(), q, v);
            lemma_has_flat(s, k, q, v);
        }
    }
}

} // verus!
