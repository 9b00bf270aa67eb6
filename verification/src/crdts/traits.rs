//! What the replicated data types have in common.
use vstd::prelude::*;
use crate::crdts::dot::Dot;
use crate::crdts::dot::DotRange;
use crate::crdts::vclock::VClock;

verus! {

/// A type whose replicas converge by exchanging operations.
pub trait CmRDT {
    type Op;

    type Validation;

    /// Whether `op` can be applied to this state.
    fn validate_op(&self, op: &Self::Op) -> Result<(), Self::Validation>;

    /// Applies `op` to this state.
    fn apply(&mut self, op: Self::Op);
}

/// A type whose replicas converge by merging their states.
pub trait CvRDT: Sized {
    type Validation;

    /// Whether `other` can be merged into this state.
    fn validate_merge(&self, other: &Self) -> Result<(), Self::Validation>;

    /// Merges `other` into this state.
    fn merge(&mut self, other: Self);
}

/// A type that can forget what happened up to a clock.
pub trait ResetRemove<A: Ord> {
    /// Forgets what `clock` has seen.
    fn reset_remove(&mut self, clock: &VClock<A>);
}

/// What a value held in a replicated map has to offer.
pub trait Val<A: Ord>: Clone + Default + ResetRemove<A> + CmRDT {

}

/// An operation that knows its place in the causal order.
pub trait CausalOp<A> {
    /// The dot that this operation has to wait for, if any.
    fn happens_after(&self) -> Option<Dot<A>>;

    /// The dot at which this operation took place.
    fn dot(&self) -> Dot<A>;
}

/// Why an operation on a replicated map is refused.
pub enum CmRDTValidation<V: CmRDT, A> {
    /// The dots of the range have not been seen yet.
    SourceOrder(DotRange<A>),
    /// The value refuses the operation.
    Value(V::Validation),
}

/// Why a merge of two replicated maps is refused.
pub enum CvRDTValidation<K, V: CvRDT, A> {
    /// Two different keys were inserted under one dot.
    DoubleSpentDot { dot: Dot<A>, our_key: K, their_key: K },
    /// The value refuses the merge.
    Value(V::Validation),
}

} // verus!
