use vstd::prelude::*;

verus! {

/// The uniform error type of the library.  The HTTP boundary maps these to
/// status codes; the sampler boundary logs them and rolls back.
#[derive(Clone, Copy, Debug, PartialEq, Eq, Structural)]
pub enum AppError {
    /// A row with the same primary key already exists.
    DuplicateKey,
    /// A required row does not exist.
    NotFound,
    /// Persistent state contradicts what the caller handed in.
    InvariantViolation,
    /// A resource limit was hit; retrying later may succeed.
    Transient,
}

impl AppError {
    /// A short human-readable description, for the unverified boundary.
    pub fn message(&self) -> (r: &'static str)
        ensures
            self is DuplicateKey ==> r@ == "already exists"@,
            self is NotFound ==> r@ == "not found"@,
            self is InvariantViolation ==> r@ == "invariant violation"@,
            self is Transient ==> r@ == "transient store error"@,
    {
        match self {
            AppError::DuplicateKey => "already exists",
            AppError::NotFound => "not found",
            AppError::InvariantViolation => "invariant violation",
            AppError::Transient => "transient store error",
        }
    }
}

} // verus!
