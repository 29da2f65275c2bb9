//! A double-ended list: values are added and removed at either end.
//!
//! The values live in a `VecDeque`, whose contents vstd specifies; the list
//! is the sequence of its values, front first.
use std::collections::VecDeque;
use vstd::prelude::*;

verus! {

/// A double-ended list, front first.
pub struct List<T> {
    items: VecDeque<T>,
}

/// Relies on `VecDeque::front_mut`: a mutable reference to the first value,
/// `None` when the deque is empty.
#[verifier::external_body]
fn deque_front_mut<T>(d: &mut VecDeque<T>) -> (r: Option<&mut T>)
    ensures
        old(d)@.len() == 0 ==> r.is_none() && final(d)@ == old(d)@,
        old(d)@.len() > 0 ==> r.is_some() && *r.unwrap() == old(d)@[0]
            && final(d)@ == old(d)@.update(0, *final(r.unwrap())),
{
    d.front_mut()
}

/// Relies on `VecDeque::back_mut`: a mutable reference to the last value,
/// `None` when the deque is empty.
#[verifier::external_body]
fn deque_back_mut<T>(d: &mut VecDeque<T>) -> (r: Option<&mut T>)
    ensures
        old(d)@.len() == 0 ==> r.is_none() && final(d)@ == old(d)@,
        old(d)@.len() > 0 ==> r.is_some() && *r.unwrap() == old(d)@[old(d)@.len() - 1]
            && final(d)@ == old(d)@.update(old(d)@.len() - 1, *final(r.unwrap())),
{
    d.back_mut()
}

impl<T> View for List<T> {
    type V = Seq<T>;

    closed spec fn view(&self) -> Seq<T> {
        self.items@
    }
}

impl<T> List<T> {
    /// An empty list.
    pub fn new() -> (r: Self)
        ensures
            r@ == Seq::<T>::empty(),
    {
        Self { items: VecDeque::new() }
    }

    /// Adds `elem` at the front.
    pub fn push_front(&mut self, elem: T)
        ensures
            final(self)@ == seq![elem] + old(self)@,
    {
        self.items.push_front(elem);
        assert(self@ =~= seq![elem] + old(self)@);
    }

    /// Adds `elem` at the back.
    pub fn push_back(&mut self, elem: T)
        ensures
            final(self)@ == old(self)@.push(elem),
    {
        self.items.push_back(elem);
    }

    /// Removes and answers the front value, or `None` when empty.
    pub fn pop_front(&mut self) -> (r: Option<T>)
        ensures
            old(self)@.len() == 0 ==> r.is_none() && final(self)@ == old(self)@,
            old(self)@.len() > 0 ==> r == Some(old(self)@[0])
                && final(self)@ == old(self)@.drop_first(),
    {
        self.items.pop_front()
    }

    /// Removes and answers the back value, or `None` when empty.
    pub fn pop_back(&mut self) -> (r: Option<T>)
        ensures
            old(self)@.len() == 0 ==> r.is_none() && final(self)@ == old(self)@,
            old(self)@.len() > 0 ==> r == Some(old(self)@.last())
                && final(self)@ == old(self)@.drop_last(),
    {
        self.items.pop_back()
    }

    /// The front value, or `None` when empty.
    pub fn peek_front(&self) -> (r: Option<&T>)
        ensures
            self@.len() == 0 ==> r.is_none(),
            self@.len() > 0 ==> r == Some(&self@[0]),
    {
        if self.items.len() == 0 {
            None
        } else {
            Some(&self.items[0])
        }
    }

    /// The back value, or `None` when empty.
    pub fn peek_back(&self) -> (r: Option<&T>)
        ensures
            self@.len() == 0 ==> r.is_none(),
            self@.len() > 0 ==> r == Some(&self@.last()),
    {
        let n = self.items.len();
        if n == 0 {
            None
        } else {
            Some(&self.items[n - 1])
        }
    }

    /// A mutable reference to the front value, or `None` when empty.
    pub fn peek_front_mut(&mut self) -> (r: Option<&mut T>)
        ensures
            old(self)@.len() == 0 ==> r.is_none() && final(self)@ == old(self)@,
            old(self)@.len() > 0 ==> r.is_some() && *r.unwrap() == old(self)@[0]
                && final(self)@ == old(self)@.update(0, *final(r.unwrap())),
    {
        deque_front_mut(&mut self.items)
    }

    /// A mutable reference to the back value, or `None` when empty.
    pub fn peek_back_mut(&mut self) -> (r: Option<&mut T>)
        ensures
            old(self)@.len() == 0 ==> r.is_none() && final(self)@ == old(self)@,
            old(self)@.len() > 0 ==> r.is_some() && *r.unwrap() == old(self)@.last()
                && final(self)@ == old(self)@.update(old(self)@.len() - 1, *final(r.unwrap())),
    {
        deque_back_mut(&mut self.items)
    }

    /// Walks the values front to back by shared reference.
    pub fn iter(&self) -> (r: Iter<'_, T>)
        ensures
            r.wf(),
            r@ == self@,
    {
        Iter { list: &self.items, next: 0 }
    }

    /// Turns the list into a walk that hands out its values from either end.
    pub fn into_iter(self) -> (r: IntoIter<T>)
        ensures
            r@ == self@,
    {
        IntoIter(self)
    }
}

/// Hands out the values of a list by value, from either end.
pub struct IntoIter<T>(List<T>);

impl<T> View for IntoIter<T> {
    type V = Seq<T>;

    closed spec fn view(&self) -> Seq<T> {
        self.0@
    }
}

impl<T> IntoIter<T> {
    /// The next value from the front, or `None` at the end.
    pub fn next(&mut self) -> (r: Option<T>)
        ensures
            old(self)@.len() == 0 ==> r.is_none() && final(self)@ == old(self)@,
            old(self)@.len() > 0 ==> r == Some(old(self)@[0])
                && final(self)@ == old(self)@.drop_first(),
    {
        self.0.pop_front()
    }

    /// The next value from the back, or `None` at the end.
    pub fn next_back(&mut self) -> (r: Option<T>)
        ensures
            old(self)@.len() == 0 ==> r.is_none() && final(self)@ == old(self)@,
            old(self)@.len() > 0 ==> r == Some(old(self)@.last())
                && final(self)@ == old(self)@.drop_last(),
    {
        self.0.pop_back()
    }
}

/// Walks the values of a list by shared reference, front first.
pub struct Iter<'a, T> {
    list: &'a VecDeque<T>,
    next: usize,
}

impl<'a, T> View for Iter<'a, T> {
    type V = Seq<T>;

    closed spec fn view(&self) -> Seq<T> {
        self.list@.subrange(self.next as int, self.list@.len() as int)
    }
}

impl<'a, T> Iter<'a, T> {
    /// The position is within the list.
    pub closed spec fn wf(&self) -> bool {
        self.next <= self.list@.len()
    }

    /// The next value, or `None` at the end.
    pub fn next(&mut self) -> (r: Option<&'a T>)
        requires
            old(self).wf(),
        ensures
            final(self).wf(),
            old(self)@.len() == 0 ==> r.is_none() && final(self)@ == old(self)@,
            old(self)@.len() > 0 ==> r == Some(&old(self)@[0])
                && final(self)@ == old(self)@.drop_first(),
    {
        if self.next >= self.list.len() {
            return None;
        }
        let item = &self.list[self.next];
        self.next = self.next + 1;
        assert(self@ =~= old(self)@.drop_first());
        Some(item)
    }
}

} // verus!
