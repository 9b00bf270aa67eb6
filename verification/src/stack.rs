//! A stack of values.
use vstd::prelude::*;

verus! {

/// A stack; the top is the last element of `inner`.
pub struct Stack<T> {
    pub inner: Vec<T>,
}

impl<T: Clone> Stack<T> {
    /// The elements, bottom first.
    pub open spec fn view(&self) -> Seq<T> {
        self.inner@
    }

    /// An empty stack.
    pub fn new() -> (s: Stack<T>)
        ensures
            s@ == Seq::<T>::empty(),
    {
        Stack { inner: Vec::new() }
    }

    /// Puts `item` on top and returns the new height.
    pub fn push(&mut self, item: T) -> (r: i64)
        requires
            old(self)@.len() < i64::MAX,
        ensures
            final(self)@ == old(self)@.push(item),
            r == final(self)@.len(),
    {
        self.inner.push(item);
        self.inner.len() as i64
    }

    /// Takes the top element off.
    pub fn pop(&mut self) -> (r: Option<T>)
        ensures
            match r {
                Some(x) => old(self)@.len() > 0 && x == old(self)@.last() && final(self)@ == old(
                    self,
                )@.drop_last(),
                None => old(self)@.len() == 0 && final(self)@ == old(self)@,
            },
    {
        self.inner.pop()
    }

    /// A clone of the top element.
    pub fn peek(&self) -> (r: Option<T>)
        ensures
            r.is_some() == (self@.len() > 0),
            r.is_some() ==> cloned(self@.last(), r.unwrap()),
    {
        if self.inner.len() == 0 {
            None
        } else {
            Some(self.inner[self.inner.len() - 1].clone())
        }
    }

    /// The height of the stack.
    pub fn size(&self) -> (r: i64)
        requires
            self@.len() <= i64::MAX,
        ensures
            r == self@.len(),
    {
        self.inner.len() as i64
    }
}

} // verus!
