use vstd::prelude::*;

verus! {

/// Error when executing tested code
///
/// The type is non-exhaustive so that further outcomes (a run budget, a
/// panic in the tested code) can be added without a breaking change.
#[derive(Debug, PartialEq, Eq, Structural, Clone, Copy)]
#[non_exhaustive]
pub enum Error {
    /// The tested code was seen to reach a new label after a decision
    /// prefix that had led elsewhere before: it is not a function of the
    /// decisions alone, and coverage is not guaranteed. Sessions do not
    /// report this as an error yet.
    NonDeterminism,
}

} // verus!
