//! A singly linked, prepend-only chain.
//!
//! The list only ever grows and shrinks at its head, so that putting a value
//! in and taking one out cost the same whatever the length.
use vstd::prelude::*;

verus! {

struct Link<T> {
    value: T,
    next: Option<Box<Link<T>>>,
}

/// A chain of values, newest first.
///
/// Its view is the sequence of values from the head to the tail.
pub struct AppendList<T> {
    head: Option<Box<Link<T>>>,
}

spec fn chain<T>(link: Option<Box<Link<T>>>) -> Seq<T>
    decreases link,
{
    match link {
        None => Seq::empty(),
        Some(cell) => seq![cell.value] + chain(cell.next),
    }
}

impl<T> View for AppendList<T> {
    type V = Seq<T>;

    closed spec fn view(&self) -> Seq<T> {
        chain(self.head)
    }
}

impl<T> AppendList<T> {
    /// An empty list.
    pub fn new() -> (list: Self)
        ensures
            list@ == Seq::<T>::empty(),
    {
        AppendList { head: None }
    }

    /// Whether the list holds nothing.
    pub fn is_empty(&self) -> (empty: bool)
        ensures
            empty == (self@.len() == 0),
    {
        self.head.is_none()
    }

    /// Puts `value` in front of everything else.
    pub fn push_front(&mut self, value: T)
        ensures
            final(self)@ == seq![value] + old(self)@,
    {
        let next = self.head.take();
        self.head = Some(Box::new(Link { value, next }));
    }

    /// The value at the head, if there is one.
    pub fn front(&self) -> (first: Option<&T>)
        ensures
            self@.len() == 0 ==> first is None,
            self@.len() > 0 ==> first == Some(&self@[0]),
    {
        match &self.head {
            None => None,
            Some(cell) => Some(&cell.value),
        }
    }

    /// The value at the head, for changing it in place.
    pub fn front_mut(&mut self) -> (first: Option<&mut T>)
        ensures
            old(self)@.len() == 0 ==> first is None && final(self)@ == old(self)@,
            old(self)@.len() > 0 ==> first is Some && *first->0 == old(self)@[0] && final(self)@
                == old(self)@.update(0, *final(first->0)),
    {
        match &mut self.head {
            None => None,
            Some(cell) => Some(&mut cell.value),
        }
    }

    /// Takes the value at the head out of the list.
    pub fn pop_front(&mut self) -> (first: Option<T>)
        ensures
            old(self)@.len() == 0 ==> first is None && final(self)@ == old(self)@,
            old(self)@.len() > 0 ==> first == Some(old(self)@[0]) && final(self)@ == old(
                self,
            )@.skip(1),
    {
        match self.head.take() {
            None => None,
            Some(cell) => {
                let link = *cell;
                self.head = link.next;
                Some(link.value)
            },
        }
    }

    /// Every value, from the head to the tail.
    pub fn iter(&self) -> (items: Vec<&T>)
        ensures
            items@.unref() == self@,
    {
        let mut items: Vec<&T> = Vec::new();
        let mut cursor = &self.head;
        loop
            invariant
                items@.unref() + chain(*cursor) == self@,
            ensures
                items@.unref() == self@,
            decreases chain(*cursor).len(),
        {
            match cursor {
                None => {
                    assert(items@.unref() + chain(*cursor) == items@.unref());
                    break ;
                },
                Some(cell) => {
                    let ghost before = items@.unref();
                    items.push(&cell.value);
                    assert(items@.unref() == before.push(cell.value));
                    assert(before.push(cell.value) + chain(cell.next) == before + chain(*cursor));
                    cursor = &cell.next;
                },
            }
        }
        items
    }

    /// Drops every value.
    pub fn reset(&mut self)
        ensures
            final(self)@ == Seq::<T>::empty(),
    {
        self.head = None;
    }
}

} // verus!
