//! A register that keeps concurrent writes side by side.
use vstd::prelude::*;
use crate::crdts::ctx::AddCtx;
use crate::crdts::ctx::ReadCtx;
use crate::crdts::vclock::clones_are_equal;
use crate::crdts::vclock::merged;
use crate::crdts::vclock::ordered_actors;
use crate::crdts::vclock::VClock;

verus! {

/// The values of the register, each with the clock of its write.
pub struct MVReg<V, A: Ord> {
    pub vals: Vec<(VClock<A>, V)>,
}

/// An operation on the register.
pub enum Op<V, A: Ord> {
    /// Writes `val` at `clock`.
    Put { clock: VClock<A>, val: V },
}

/// The clock that is as far as the clocks of the first `n` values.
pub open spec fn joined<V, A: Ord>(vals: Seq<(VClock<A>, V)>, n: int) -> Map<A, u64>
    decreases n,
{
    if n <= 0 {
        Map::empty()
    } else {
        merged(joined(vals, n - 1), vals[n - 1].0@)
    }
}

impl<V, A: Ord + Clone> MVReg<V, A> {
    /// A register without a value.
    pub fn new() -> (r: Self)
        ensures
            r.vals@.len() == 0,
    {
        MVReg { vals: Vec::new() }
    }

    /// The operation that writes `val` in the context `ctx`.
    pub fn write(&self, val: V, ctx: AddCtx<A>) -> (op: Op<V, A>)
        ensures
            op == (Op::Put { clock: ctx.clock, val }),
    {
        Op::Put { clock: ctx.clock, val }
    }

    /// The clock that is as far as the clock of every value.
    pub fn clock(&self) -> (r: VClock<A>)
        requires
            ordered_actors::<A>(),
            clones_are_equal::<A>(),
        ensures
            r@ == joined(self.vals@, self.vals@.len() as int),
    {
        let mut accum: VClock<A> = VClock::new();
        let mut i: usize = 0;
        while i < self.vals.len()
            invariant
                ordered_actors::<A>(),
                clones_are_equal::<A>(),
                i <= self.vals.len(),
                accum@ == joined(self.vals@, i as int),
            decreases self.vals.len() - i,
        {
            let copy = VClock { dots: self.vals[i].0.dots.clone() };
            accum.merge(copy);
            i = i + 1;
        }
        accum
    }

    /// The values, with the clocks that an add and a remove of what was
    /// read have to carry.
    pub fn read(&self) -> (r: ReadCtx<Vec<V>, A>) where V: Clone
        requires
            ordered_actors::<A>(),
            clones_are_equal::<A>(),
        ensures
            r.add_clock@ == joined(self.vals@, self.vals@.len() as int),
            r.rm_clock@ == r.add_clock@,
            r.val@.len() == self.vals@.len(),
            forall|i: int| 0 <= i < r.val@.len() ==> cloned(self.vals@[i].1, #[trigger] r.val@[i]),
    {
        let clock = self.clock();
        let mut concurrent_vals: Vec<V> = Vec::new();
        let mut i: usize = 0;
        while i < self.vals.len()
            invariant
                i <= self.vals.len(),
                concurrent_vals@.len() == i,
                forall|j: int|
                    0 <= j < i ==> cloned(self.vals@[j].1, #[trigger] concurrent_vals@[j]),
            decreases self.vals.len() - i,
        {
            concurrent_vals.push(self.vals[i].1.clone());
            i = i + 1;
        }
        let add_clock = VClock { dots: clock.dots.clone() };
        ReadCtx { add_clock, rm_clock: clock, val: concurrent_vals }
    }

    /// The clocks that an add and a remove have to carry, without the
    /// values.
    pub fn read_ctx(&self) -> (r: ReadCtx<(), A>)
        requires
            ordered_actors::<A>(),
            clones_are_equal::<A>(),
        ensures
            r.add_clock@ == joined(self.vals@, self.vals@.len() as int),
            r.rm_clock@ == r.add_clock@,
    {
        let clock = self.clock();
        let add_clock = VClock { dots: clock.dots.clone() };
        ReadCtx { add_clock, rm_clock: clock, val: () }
    }
}

} // verus!
