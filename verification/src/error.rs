//! The ways in which an operation on the catalog fails.

use vstd::prelude::*;
use vstd::string::*;

verus! {

/// Why the catalog refused an operation. A refused operation leaves the
/// catalog as it was.
#[derive(Debug, Clone, Copy, PartialEq, Eq, Structural)]
pub enum StoreError {
    /// No row has the identity or the name that was asked for.
    NotFound,
    /// The operation would give two rows the same unique value.
    Conflict,
    /// A parameter of a search is malformed.
    Validation,
    /// The catalog has run out of identities for new rows.
    Full,
}

/// What a caller is told of a refusal.
pub open spec fn store_message(e: StoreError) -> Seq<char> {
    match e {
        StoreError::NotFound => "Not found"@,
        StoreError::Conflict => "Conflict"@,
        StoreError::Validation => "Invalid parameters"@,
        StoreError::Full => "Catalog full"@,
    }
}

impl StoreError {
    /// What a caller is told of this refusal.
    pub fn message(&self) -> (text: &'static str)
        ensures
            text@ == store_message(*self),
    {
        match self {
            StoreError::NotFound => "Not found",
            StoreError::Conflict => "Conflict",
            StoreError::Validation => "Invalid parameters",
            StoreError::Full => "Catalog full",
        }
    }

    /// What a caller is told of this refusal, as a string of its own.
    pub fn to_string(&self) -> (text: String)
        ensures
            text@ == store_message(*self),
    {
        self.message().to_owned()
    }
}

} // verus!
