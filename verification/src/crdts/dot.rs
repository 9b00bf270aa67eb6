//! Dots: the version of one actor.
use vstd::prelude::*;

verus! {

/// A counter of one actor.
pub struct Dot<A> {
    pub actor: A,
    pub counter: u64,
}

impl<A> Dot<A> {
    /// The dot of `actor` at `counter`.
    pub fn new(actor: A, counter: u64) -> (d: Self)
        ensures
            d.actor == actor,
            d.counter == counter,
    {
        Dot { actor, counter }
    }

    /// Moves the dot on by one.
    pub fn apply_inc(&mut self)
        requires
            old(self).counter < u64::MAX,
        ensures
            final(self).counter == old(self).counter + 1,
            final(self).actor == old(self).actor,
    {
        self.counter = self.counter + 1;
    }
}

impl<A: Clone> Dot<A> {
    /// The dot that follows this one: a clone of the actor, and the next
    /// counter.
    pub fn inc(&self) -> (d: Self)
        requires
            self.counter < u64::MAX,
        ensures
            cloned(self.actor, d.actor),
            d.counter == self.counter + 1,
    {
        Dot { actor: self.actor.clone(), counter: self.counter + 1 }
    }
}

/// A dot whose order goes by the actor first.
#[derive(Debug, Clone, PartialEq, Eq, PartialOrd, Ord)]
pub struct OrdDot<A: Ord> {
    pub actor: A,
    pub counter: u64,
}

impl<A: Ord> OrdDot<A> {
    /// The plain dot with the same actor and counter.
    pub fn into_dot(self) -> (d: Dot<A>)
        ensures
            d.actor == self.actor,
            d.counter == self.counter,
    {
        Dot { actor: self.actor, counter: self.counter }
    }

    /// The ordered dot with the actor and counter of `dot`.
    pub fn from_dot(dot: Dot<A>) -> (d: Self)
        ensures
            d.actor == dot.actor,
            d.counter == dot.counter,
    {
        OrdDot { actor: dot.actor, counter: dot.counter }
    }
}

/// The counters of one actor from `start` up to, not including, `end`.
pub struct DotRange<A> {
    pub actor: A,
    pub start: u64,
    pub end: u64,
}

} // verus!
