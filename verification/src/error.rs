//! The error taxonomy of the core: each variant is one failure class of the
//! ingestion or query path. Transport and storage failures of the
//! surrounding process are mapped into `Provider` and `Internal` at the
//! boundary.

use vstd::prelude::*;

verus! {

#[derive(Debug, Clone)]
pub enum AppError {
    /// Malformed or inverted date input.
    InvalidDate(String),
    /// A conversion or filter references a currency absent from the table.
    InvalidCurrency(String),
    /// Well-formed request, but nothing is stored for the requested key.
    NoDataAvailable,
    /// A provider failed: unreachable, or its payload unusable.
    Provider(String),
    /// A malformed upstream payload.
    Parse(String),
    /// An internal failure, such as a value outside the representable range.
    Internal(String),
}

} // verus!
