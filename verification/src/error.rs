//! The failures that the embedding client and the store report.

use vstd::prelude::*;

verus! {

/// Why no embedding was obtained for a text.
#[derive(Debug, Clone, Copy, PartialEq, Eq, Structural)]
pub enum EmbedError {
    /// The service could not be reached, or did not answer in time.
    Transport,
    /// The service answered with a status that does not mean success.
    ServiceError { status: u16 },
    /// The body of the answer could not be read as an embedding response.
    Malformed,
    /// The vector in the answer does not have the expected number of
    /// components.
    DimensionMismatch,
}

/// Why the store did not carry out an operation.
///
/// The store itself reports `DimensionMismatch`, `ConstraintViolation` and
/// `NotFound`. `IoError` and `SchemaError` are for a caller that keeps the
/// records on a storage engine as well and reports its failures in the same
/// terms.
#[derive(Debug, Clone, Copy, PartialEq, Eq, Structural)]
pub enum StoreError {
    /// A vector does not have the store's number of components.
    DimensionMismatch,
    /// The storage could not be read or written.
    IoError,
    /// A rule that the stored records must keep would be broken.
    ConstraintViolation,
    /// The storage lacks the structure that the store expects.
    SchemaError,
    /// No item has the identifier asked for.
    NotFound,
}

} // verus!
