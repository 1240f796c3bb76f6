use vstd::pervasive::unreached;
use vstd::prelude::*;

verus! {

/// One cell of a linked sequence: an item and the rest of the sequence.
pub struct Link<T> {
    item: T,
    next: Option<Box<Link<T>>>,
}

/// A linked sequence. To reach a position takes a walk from the front; to
/// put an item in there, or to cut the sequence in two, is then a matter of
/// moving one link.
pub struct List<T> {
    head: Option<Box<Link<T>>>,
}

/// The items from a link on, in order.
pub closed spec fn chain<T>(link: Option<Box<Link<T>>>) -> Seq<T>
    decreases link,
{
    match link {
        Some(cell) => seq![cell.item] + chain(cell.next),
        None => Seq::empty(),
    }
}

proof fn lemma_chain_smaller<T>(link: Option<Box<Link<T>>>, i: int)
    requires
        0 <= i < chain(link).len(),
    ensures
        decreases_to!(link => chain(link)[i]),
    decreases link,
{
    if i > 0 {
        lemma_chain_smaller(link->0.next, i - 1);
    }
}

fn insert_at<T>(link: &mut Option<Box<Link<T>>>, index: usize, item: T)
    requires
        index <= chain(*old(link)).len(),
    ensures
        chain(*final(link)) == chain(*old(link)).insert(index as int, item),
    decreases index,
{
    if index == 0 {
        let next = link.take();
        *link = Some(Box::new(Link { item, next }));
        proof {
            assert(chain(*link) =~= chain(*old(link)).insert(0, item));
        }
    } else {
        match link {
            Some(cell) => {
                let ghost rest = chain(cell.next);
                insert_at(&mut cell.next, index - 1, item);
                proof {
                    assert(seq![cell.item] + rest.insert(index - 1, item) =~= (seq![cell.item]
                        + rest).insert(index as int, item));
                }
            },
            None => unreached(),
        }
    }
}

fn item_at<T>(link: &mut Option<Box<Link<T>>>, index: usize) -> (item: &mut T)
    requires
        index < chain(*old(link)).len(),
    ensures
        *item == chain(*old(link))[index as int],
        chain(*final(link)) == chain(*old(link)).update(index as int, *final(item)),
    decreases index,
{
    match link {
        Some(cell) => {
            if index == 0 {
                proof {
                    assert forall|now: T| #[trigger] (seq![now] + chain(cell.next)) =~= (seq![
                        cell.item,
                    ] + chain(cell.next)).update(0, now) by {}
                }
                &mut cell.item
            } else {
                let ghost first = cell.item;
                let ghost rest = chain(cell.next);
                proof {
                    assert forall|now: T| #[trigger] (seq![first] + rest.update(index - 1, now))
                        =~= (seq![first] + rest).update(index as int, now) by {}
                }
                item_at(&mut cell.next, index - 1)
            }
        },
        None => unreached(),
    }
}

fn cut_at<T>(link: &mut Option<Box<Link<T>>>, at: usize) -> (rest: Option<Box<Link<T>>>)
    requires
        at <= chain(*old(link)).len(),
    ensures
        chain(*final(link)) == chain(*old(link)).take(at as int),
        chain(rest) == chain(*old(link)).skip(at as int),
    decreases at,
{
    if at == 0 {
        let rest = link.take();
        proof {
            assert(chain(*link) =~= chain(*old(link)).take(0));
            assert(chain(rest) =~= chain(*old(link)).skip(0));
        }
        rest
    } else {
        match link {
            Some(cell) => {
                let ghost tail = chain(cell.next);
                let rest = cut_at(&mut cell.next, at - 1);
                proof {
                    assert(seq![cell.item] + tail.take(at - 1) =~= (seq![cell.item] + tail).take(
                        at as int,
                    ));
                    assert(tail.skip(at - 1) =~= (seq![cell.item] + tail).skip(at as int));
                }
                rest
            },
            None => unreached(),
        }
    }
}

impl<T> Link<T> {
    /// The items from this cell on, in order.
    pub closed spec fn items(self) -> Seq<T> {
        seq![self.item] + chain(self.next)
    }

    /// The item in this cell.
    pub fn item(&self) -> (item: &T)
        ensures
            *item == self.items()[0],
            self.items().len() > 0,
    {
        &self.item
    }

    /// The cell after this one, if there is one.
    pub fn next(&self) -> (next: Option<&Link<T>>)
        ensures
            match next {
                Some(cell) => cell.items() == self.items().skip(1) && cell.items().len() > 0,
                None => self.items().len() == 1,
            },
    {
        match &self.next {
            Some(cell) => {
                proof {
                    assert(cell.items() =~= self.items().skip(1));
                }
                Some(&**cell)
            },
            None => None,
        }
    }
}

impl<T> View for List<T> {
    type V = Seq<T>;

    closed spec fn view(&self) -> Seq<T> {
        chain(self.head)
    }
}

impl<T> List<T> {
    /// An empty sequence.
    pub fn new() -> (list: Self)
        ensures
            list@ == Seq::<T>::empty(),
    {
        List { head: None }
    }

    /// The first cell, from which the sequence can be walked.
    pub fn first(&self) -> (first: Option<&Link<T>>)
        ensures
            match first {
                Some(cell) => cell.items() == self@ && self@.len() > 0,
                None => self@.len() == 0,
            },
    {
        match &self.head {
            Some(cell) => Some(&**cell),
            None => None,
        }
    }

    /// Whether the sequence holds exactly `n` items. The walk stops after `n` cells.
    pub fn has_len(&self, n: usize) -> (yes: bool)
        ensures
            yes <==> self@.len() == n,
    {
        let mut seen: usize = 0;
        let mut at = self.first();
        loop
            invariant
                seen <= n,
                match at {
                    Some(cell) => cell.items() == self@.skip(seen as int) && seen < self@.len(),
                    None => self@.len() == seen,
                },
            decreases n - seen,
        {
            match at {
                Some(cell) => {
                    if seen == n {
                        return false;
                    }
                    let ghost here = cell.items();
                    at = cell.next();
                    proof {
                        assert(here.skip(1) =~= self@.skip(seen + 1));
                        assert(here.len() == self@.len() - seen);
                    }
                    seen += 1;
                },
                None => {
                    return seen == n;
                },
            }
        }
    }

    /// The item at `index`.
    pub fn get(&self, index: usize) -> (item: &T)
        requires
            index < self@.len(),
        ensures
            *item == self@[index as int],
    {
        let mut seen: usize = 0;
        let mut at = self.first();
        loop
            invariant
                seen <= index < self@.len(),
                at matches Some(cell) && cell.items() == self@.skip(seen as int),
            decreases index - seen,
        {
            match at {
                Some(cell) => {
                    if seen == index {
                        return cell.item();
                    }
                    let ghost here = cell.items();
                    at = cell.next();
                    proof {
                        assert(here.skip(1) =~= self@.skip(seen + 1));
                        assert(here.len() == self@.len() - seen);
                    }
                    seen += 1;
                },
                None => unreached(),
            }
        }
    }

    /// The item at `index`, to be changed in place.
    pub fn get_mut(&mut self, index: usize) -> (item: &mut T)
        requires
            index < old(self)@.len(),
        ensures
            *item == old(self)@[index as int],
            final(self)@ == old(self)@.update(index as int, *final(item)),
    {
        item_at(&mut self.head, index)
    }

    /// Puts `item` in at `index`; what stood there and after it moves one place on.
    pub fn insert(&mut self, index: usize, item: T)
        requires
            index <= old(self)@.len(),
        ensures
            final(self)@ == old(self)@.insert(index as int, item),
    {
        insert_at(&mut self.head, index, item);
    }

    /// Takes the first item out, if there is one.
    pub fn pop_front(&mut self) -> (item: Option<T>)
        ensures
            match item {
                Some(first) => old(self)@.len() > 0 && first == old(self)@[0] && final(self)@
                    == old(self)@.skip(1),
                None => old(self)@.len() == 0 && final(self)@ == old(self)@,
            },
    {
        match self.head.take() {
            Some(cell) => {
                let Link { item, next } = *cell;
                self.head = next;
                proof {
                    assert(self@ =~= old(self)@.skip(1));
                }
                Some(item)
            },
            None => None,
        }
    }

    /// Cuts the sequence in two at `at`: the first `at` items stay, the rest is handed back.
    pub fn split_off(&mut self, at: usize) -> (rest: List<T>)
        requires
            at <= old(self)@.len(),
        ensures
            final(self)@ == old(self)@.take(at as int),
            rest@ == old(self)@.skip(at as int),
    {
        List { head: cut_at(&mut self.head, at) }
    }

    /// Every item of a sequence is smaller than the sequence, in the order
    /// by which recursion over nested sequences ends.
    pub proof fn lemma_smaller(self, i: int)
        requires
            0 <= i < self@.len(),
        ensures
            decreases_to!(self => self@[i]),
    {
        lemma_chain_smaller(self.head, i);
    }
}

} // verus!
