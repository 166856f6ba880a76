//! The outcome of a failed validation.

use vstd::prelude::*;

verus! {

/// Why an archive was rejected. Validation stops at the first violation, so
/// one value of this type describes the whole failure.
#[derive(Debug, PartialEq, Eq)]
pub enum ValidationError {
    /// A position, or a range computed from a stored length, lies outside
    /// the archive.
    OutOfBounds,
    /// A value of fixed width starts inside the archive and crosses its end.
    Overrun,
    /// A position is not a multiple of the alignment its type requires.
    Misaligned,
    /// A tag decodes to no known variant.
    InvalidDiscriminant,
    /// The range of a sub-object intersects a range that was validated
    /// before and belongs to another sub-object.
    OverlappingClaim,
    /// The range of a sub-object intersects a range that is still being
    /// validated further up: the references form a cycle.
    CyclicClaim,
    /// A failure from a rule of the caller's own that wraps the engine's
    /// steps; it carries the failure it wraps.
    Nested(Box<ValidationError>),
}

impl ValidationError {
    /// The failure at the bottom of a chain of `Nested` wrappers.
    pub open spec fn root_cause(self) -> ValidationError
        decreases self,
    {
        match self {
            ValidationError::Nested(inner) => inner.root_cause(),
            _ => self,
        }
    }

    /// Wraps `inner` one level deeper.
    pub fn nested(inner: ValidationError) -> (r: ValidationError)
        ensures
            r == ValidationError::Nested(Box::new(inner)),
            r.root_cause() == inner.root_cause(),
    {
        ValidationError::Nested(Box::new(inner))
    }

    /// Strips every `Nested` wrapper and returns what the innermost one holds.
    pub fn into_root_cause(self) -> (r: ValidationError)
        ensures
            r == self.root_cause(),
            !(r is Nested),
        decreases self,
    {
        match self {
            ValidationError::Nested(inner) => (*inner).into_root_cause(),
            other => other,
        }
    }
}

} // verus!
