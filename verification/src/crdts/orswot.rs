//! The errors of the observed-remove set.
use vstd::prelude::*;
use crate::crdts::dot::Dot;

verus! {

/// Why a merge of two observed-remove sets is refused.
pub enum Validation<M, A> {
    /// Two different members were inserted under one dot.
    DoubleSpentDot { dot: Dot<A>, our_member: M, their_member: M },
}

} // verus!
