use vstd::prelude::*;

verus! {

/// Everything that can go wrong while building a vault, answering it, or
/// doing the field arithmetic underneath.  Errors are returned to the
/// immediate caller; nothing is retried.
#[derive(Clone, Copy, PartialEq, Eq, Structural, Debug)]
pub enum VaultError {
    /// A vault needs at least two questions; a single question would make
    /// the sharing trivial.
    DegenerateThreshold,
    /// Question, answer, tag or share counts disagree.
    MismatchedLengths,
    /// Interpolation was given a share index that is zero or repeated.
    DuplicateOrZeroIndex,
    /// A multiplicative inverse was requested for an element that has none.
    NoninvertibleElement,
    /// A supplied answer does not match the stored authentication tag.
    WrongAnswer,
}

} // verus!
