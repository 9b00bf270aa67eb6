//! The causal context that a read hands on to the writes that follow it.
use vstd::prelude::*;
use crate::crdts::dot::Dot;
use crate::crdts::vclock::clones_are_equal;
use crate::crdts::vclock::count_of;
use crate::crdts::vclock::ordered_actors;
use crate::crdts::vclock::VClock;

verus! {

/// What a read returns: the value, and the clocks that an add and a remove
/// of what was read have to carry.
pub struct ReadCtx<V, A: Ord> {
    pub add_clock: VClock<A>,
    pub rm_clock: VClock<A>,
    pub val: V,
}

/// The context of an add.
pub struct AddCtx<A: Ord> {
    pub clock: VClock<A>,
    pub dot: Dot<A>,
}

/// The context of a remove.
pub struct RmCtx<A: Ord> {
    pub clock: VClock<A>,
}

impl<V, A: Ord + Clone> ReadCtx<V, A> {
    /// The context of an add by `actor`: the actor's next dot, and the add
    /// clock moved on to it.
    pub fn derive_add_ctx(self, actor: A) -> (r: AddCtx<A>)
        requires
            ordered_actors::<A>(),
            clones_are_equal::<A>(),
            count_of(self.add_clock@, actor) < u64::MAX,
        ensures
            r.dot.actor == actor,
            r.dot.counter == count_of(self.add_clock@, actor) + 1,
            r.clock@ == self.add_clock@.insert(actor, r.dot.counter),
    {
        let mut clock = self.add_clock;
        let dot = clock.inc(actor);
        let again = dot.actor.clone();
        proof {
            assert(cloned(actor, dot.actor));
            assert(cloned(dot.actor, again));
        }
        clock.apply(Dot::new(again, dot.counter));
        AddCtx { clock, dot }
    }

    /// The context of a remove: the remove clock.
    pub fn derive_rm_ctx(self) -> (r: RmCtx<A>)
        ensures
            r.clock == self.rm_clock,
    {
        RmCtx { clock: self.rm_clock }
    }

    /// Parts the value from the context.
    pub fn split(self) -> (r: (V, ReadCtx<(), A>))
        ensures
            r.0 == self.val,
            r.1.add_clock == self.add_clock,
            r.1.rm_clock == self.rm_clock,
    {
        (self.val, ReadCtx { add_clock: self.add_clock, rm_clock: self.rm_clock, val: () })
    }
}

} // verus!
