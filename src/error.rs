use vstd::prelude::*;

verus! {

/// The errors that the cursor layer reports.
///
/// End of range, a missed point lookup and an absent value are ordinary
/// outcomes and are not errors.
#[derive(Debug, Clone, Copy, PartialEq, Eq, Structural)]
pub enum DbErr {
    /// A document value has no canonical key encoding.
    NotAValidKeyType,
    /// The operation is not supported by this cursor.
    Unsupported,
}

} // verus!
