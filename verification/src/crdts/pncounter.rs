//! A counter that counts up and down.
use vstd::prelude::*;
use crate::crdts::dot::Dot;
use crate::crdts::gcounter::GCounter;
use crate::crdts::vclock::count_of;
use crate::crdts::vclock::ordered_actors;

verus! {

/// A counter made of two grow-only counters: what was added, and what was
/// taken away.
pub struct PNCounter<A: Ord> {
    pub p: GCounter<A>,
    pub n: GCounter<A>,
}

/// The direction of an operation.
#[derive(Debug, Clone, Copy, PartialEq, Eq)]
pub enum Dir {
    Pos,
    Neg,
}

/// An operation on the counter.
pub struct Op<A: Ord> {
    pub dot: Dot<A>,
    pub dir: Dir,
}

impl<A: Ord + Clone> PNCounter<A> {
    /// The counter at zero.
    pub fn new() -> (c: Self)
        ensures
            c.p@ == Map::<A, u64>::empty(),
            c.n@ == Map::<A, u64>::empty(),
    {
        PNCounter { p: GCounter::new(), n: GCounter::new() }
    }

    /// The operation that adds one for `actor`.
    pub fn inc(&self, actor: A) -> (op: Op<A>)
        requires
            ordered_actors::<A>(),
            count_of(self.p@, actor) < u64::MAX,
        ensures
            op.dir == Dir::Pos,
            cloned(actor, op.dot.actor),
            op.dot.counter == count_of(self.p@, actor) + 1,
    {
        Op { dot: self.p.inc(actor), dir: Dir::Pos }
    }

    /// The operation that takes one away for `actor`.
    pub fn dec(&self, actor: A) -> (op: Op<A>)
        requires
            ordered_actors::<A>(),
            count_of(self.n@, actor) < u64::MAX,
        ensures
            op.dir == Dir::Neg,
            cloned(actor, op.dot.actor),
            op.dot.counter == count_of(self.n@, actor) + 1,
    {
        Op { dot: self.n.inc(actor), dir: Dir::Neg }
    }

    /// The operation that adds `steps` for `actor`.
    pub fn inc_many(&self, actor: A, steps: u64) -> (op: Op<A>)
        requires
            ordered_actors::<A>(),
            count_of(self.p@, actor) + steps <= u64::MAX,
        ensures
            op.dir == Dir::Pos,
            op.dot.actor == actor,
            op.dot.counter == count_of(self.p@, actor) + steps,
    {
        Op { dot: self.p.inc_many(actor, steps), dir: Dir::Pos }
    }

    /// The operation that takes `steps` away for `actor`.
    pub fn dec_many(&self, actor: A, steps: u64) -> (op: Op<A>)
        requires
            ordered_actors::<A>(),
            count_of(self.n@, actor) + steps <= u64::MAX,
        ensures
            op.dir == Dir::Neg,
            op.dot.actor == actor,
            op.dot.counter == count_of(self.n@, actor) + steps,
    {
        Op { dot: self.n.inc_many(actor, steps), dir: Dir::Neg }
    }
}

} // verus!
