//! A mutex wrapper that always compares equal.
//!
//! A consumer that aggregates scan results shares one collection between the
//! piece that fills it and the pieces that render it.  Frameworks that diff
//! component properties demand `PartialEq` of everything they are handed; a
//! lock is identity, not data, so the wrapper declares every two locks equal
//! and the diffing falls back to other fields.

use vstd::prelude::*;

verus! {

/// Declares `std::sync::Mutex` so that a lock can stand in a field.  Nothing
/// is assumed about it beyond its existence; the library never locks it.
#[verifier::external_type_specification]
#[verifier::external_body]
#[verifier::reject_recursive_types(T)]
pub struct ExMutex<T: ?Sized>(std::sync::Mutex<T>);

/// A shared mutex whose `==` is constantly true.
#[derive(Debug, Default)]
#[verifier::reject_recursive_types(T)]
pub struct PartialEqMutex<T>(pub std::sync::Mutex<T>);

impl<T> PartialEq for PartialEqMutex<T> {
    fn eq(&self, _other: &Self) -> bool {
        true
    }
}

impl<T> vstd::std_specs::cmp::PartialEqSpecImpl for PartialEqMutex<T> {
    open spec fn obeys_eq_spec() -> bool {
        true
    }

    open spec fn eq_spec(&self, _other: &Self) -> bool {
        true
    }
}

} // verus!
