use vstd::prelude::*;

verus! {

/// A handle to a stored value: it names the slot of a store in which the value
/// lives. The slot stays the same for as long as the store lives, so a value
/// can be read and replaced through its handle long after the lookup that gave it.
#[derive(Clone, Copy, Debug, PartialEq, Eq, Structural)]
pub struct Ptr {
    slot: usize,
}

impl Ptr {
    /// The position of the slot this handle names.
    pub closed spec fn index(self) -> int {
        self.slot as int
    }

    /// The handle that names the slot at `index`.
    pub closed spec fn to(index: int) -> Ptr {
        Ptr { slot: index as usize }
    }

    /// The position of the slot this handle names.
    pub fn slot(&self) -> (i: usize)
        ensures
            i == self.index(),
    {
        self.slot
    }
}

/// The handle made for a slot names that slot.
pub proof fn lemma_ptr_to(index: int)
    requires
        0 <= index <= usize::MAX,
    ensures
        Ptr::to(index).index() == index,
{
}

/// Puts `a` into a fresh slot at the end of `store` and returns the handle to it.
pub fn ptr<T>(store: &mut Vec<T>, a: T) -> (p: Ptr)
    ensures
        final(store)@ == old(store)@.push(a),
        p == Ptr::to(old(store)@.len() as int),
        p.index() == old(store)@.len(),
{
    let slot: usize = store.len();
    store.push(a);
    Ptr { slot }
}

/// Puts `value` into `array` at `index`, where the first `size` places are in
/// use: what stood at `index` and after it moves one place on, and what stood
/// in the last place of the array drops out. An `index` at or beyond `size`
/// puts the value at `size`, over what stood there. The place that takes the
/// value has to be one of the array.
pub fn array_insert<T>(array: &mut [T], index: usize, value: T, size: usize)
    requires
        index >= size ==> size < old(array)@.len(),
        index < size ==> index < old(array)@.len(),
    ensures
        final(array)@ == if index >= size {
            old(array)@.update(size as int, value)
        } else {
            old(array)@.insert(index as int, value).drop_last()
        },
{
    if index >= size {
        array[size] = value;
    } else {
        let ghost before = array@;
        let mut carry = value;
        let mut i: usize = index;
        while i < array.len()
            invariant
                index <= i <= array@.len(),
                array@.len() == before.len(),
                forall|j: int| 0 <= j < index ==> array@[j] == before[j],
                forall|j: int| index < j < i ==> array@[j] == before[j - 1],
                forall|j: int| i <= j < array@.len() ==> array@[j] == before[j],
                i > index ==> array@[index as int] == value,
                carry == if i == index {
                    value
                } else {
                    before[i - 1]
                },
            decreases array@.len() - i,
        {
            core::mem::swap(&mut array[i], &mut carry);
            i += 1;
        }
        proof {
            assert(array@ =~= before.insert(index as int, value).drop_last());
        }
    }
}

/// Why a tree cannot be made.
#[derive(Clone, Copy, Debug, PartialEq, Eq, Structural)]
pub enum ConfigError {
    /// The order is below three: a node of such an order cannot split into
    /// two halves around a promoted entry and stay useful.
    OrderTooSmall,
}

/// What an insertion into a node came to, as the node's owner has to know it.
pub(crate) enum Inserted<N> {
    /// The key was already there, under this handle. The node is unchanged.
    Present(Ptr),
    /// The node took the key and stays under capacity.
    Fits,
    /// The node reached capacity and split. It is spent: the two halves take
    /// its place, with the promoted entry between them.
    Splits { key: u64, value: Ptr, left: N, right: N },
}

} // verus!
