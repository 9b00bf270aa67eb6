//! A register in which the last write wins.
use vstd::prelude::*;
use vstd::std_specs::cmp::PartialEqSpec;
use vstd::std_specs::cmp::PartialOrdSpec;
use crate::order::key_lt;

verus! {

/// A value with the marker of the write that stored it.
pub struct LWWReg<V, M> {
    pub val: V,
    pub marker: M,
}

/// Why an update of the register is refused.
#[derive(Debug, PartialEq, Eq)]
pub enum Validation {
    /// The marker has been used with another value.
    ConflictingMarker,
}

impl<V: PartialEq, M: Ord> LWWReg<V, M> {
    /// Stores `val` if `marker` is later than the register's marker.
    pub fn update(&mut self, val: V, marker: M)
        ensures
            M::obeys_partial_cmp_spec() ==> if key_lt(old(self).marker, marker) {
                final(self).val == val && final(self).marker == marker
            } else {
                *final(self) == *old(self)
            },
    {
        if self.marker < marker {
            self.val = val;
            self.marker = marker;
        }
    }

    /// Refuses an update that would use the register's marker with
    /// another value.
    pub fn validate_update(&self, val: &V, marker: &M) -> (r: Result<(), Validation>)
        ensures
            M::obeys_eq_spec() && V::obeys_eq_spec() ==> (r is Err <==> self.marker.eq_spec(marker)
                && !val.eq_spec(&self.val)),
    {
        if self.marker == *marker && *val != self.val {
            Err(Validation::ConflictingMarker)
        } else {
            Ok(())
        }
    }
}

} // verus!
