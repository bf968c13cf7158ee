//! The contract of "build, then check": a value is handed on as valid, or the
//! check fails with an error that says why.

use vstd::prelude::*;

verus! {

/// A type whose values can be checked for validity.
pub trait Valid: Sized {
    /// What a failed check reports.
    type Error;

    /// Whether the value is valid.
    spec fn sound(&self) -> bool;

    /// Whether `error` is the report that the check owes for this value.
    spec fn fault(&self, error: Self::Error) -> bool;

    /// Checks the value: `Ok` exactly when it is valid, and otherwise the report
    /// that is owed for it.
    fn validate(&self) -> (outcome: Result<(), Self::Error>)
        ensures
            outcome is Ok <==> self.sound(),
            outcome matches Err(error) ==> self.fault(error),
    ;

    /// Hands the value on unchanged if it is valid, and fails with the owed
    /// report otherwise.
    fn valid(self) -> (outcome: Result<Self, Self::Error>)
        ensures
            outcome is Ok <==> self.sound(),
            outcome matches Ok(value) ==> value == self,
            outcome matches Err(error) ==> self.fault(error),
    {
        match self.validate() {
            Ok(_) => Ok(self),
            Err(error) => Err(error),
        }
    }

    /// Whether the value is valid.
    fn is_valid(&self) -> (b: bool)
        ensures
            b == self.sound(),
    {
        self.validate().is_ok()
    }
}

/// Whether `outcome` is what `valid` owes for `value`: the value itself if it is
/// valid, and the report owed for it otherwise.
pub open spec fn validated<T: Valid>(value: T, outcome: Result<T, T::Error>) -> bool {
    &&& outcome is Ok <==> value.sound()
    &&& outcome matches Ok(handed) ==> handed == value
    &&& outcome matches Err(error) ==> value.fault(error)
}

/// Validation is idempotent: a value that was handed on as valid is handed on
/// again, unchanged, when it is checked once more.
pub proof fn lemma_valid_is_idempotent<T: Valid>(
    value: T,
    once: Result<T, T::Error>,
    twice: Result<T, T::Error>,
)
    requires
        validated(value, once),
        once matches Ok(handed) && validated(handed, twice),
    ensures
        twice == once,
        twice == Ok::<T, T::Error>(value),
{
}

} // verus!
