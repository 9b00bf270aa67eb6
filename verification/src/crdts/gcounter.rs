//! A counter that only grows.
use vstd::prelude::*;
use crate::crdts::dot::Dot;
use crate::crdts::vclock::count_of;
use crate::crdts::vclock::ordered_actors;
use crate::crdts::vclock::VClock;

verus! {

/// A grow-only counter: one count for each actor.
pub struct GCounter<A: Ord> {
    pub inner: VClock<A>,
}

impl<A: Ord + Clone> GCounter<A> {
    /// The counts by actor.
    pub open spec fn view(&self) -> Map<A, u64> {
        self.inner@
    }

    /// The counter at zero.
    pub fn new() -> (c: Self)
        ensures
            c@ == Map::<A, u64>::empty(),
    {
        GCounter { inner: VClock::new() }
    }

    /// The operation that adds one for `actor`.
    pub fn inc(&self, actor: A) -> (d: Dot<A>)
        requires
            ordered_actors::<A>(),
            count_of(self@, actor) < u64::MAX,
        ensures
            cloned(actor, d.actor),
            d.counter == count_of(self@, actor) + 1,
    {
        self.inner.inc(actor)
    }

    /// The operation that adds `steps` for `actor`.
    pub fn inc_many(&self, actor: A, steps: u64) -> (d: Dot<A>)
        requires
            ordered_actors::<A>(),
            count_of(self@, actor) + steps <= u64::MAX,
        ensures
            d.actor == actor,
            d.counter == count_of(self@, actor) + steps,
    {
        let steps = steps + self.inner.get(&actor);
        Dot::new(actor, steps)
    }

    /// Applies an operation: moves the actor of `op` on to its counter.
    pub fn apply(&mut self, op: Dot<A>)
        requires
            ordered_actors::<A>(),
        ensures
            final(self)@ == if count_of(old(self)@, op.actor) < op.counter {
                old(self)@.insert(op.actor, op.counter)
            } else {
                old(self)@
            },
    {
        self.inner.apply(op)
    }
}

} // verus!
