//! Error cases surfaced by the extraction library.

use vstd::prelude::*;

verus! {

/// Every failure the library itself can detect. Connection and I/O failures
/// happen outside the library and are reported by the caller's own types.
#[derive(Clone, Copy, Debug, PartialEq, Eq, Structural)]
pub enum Errors {
    /// The metadata query returned no rows: the table does not exist
    /// or has no columns.
    TableNotFoundError,
    /// A reported SQL type token is not one of the known logical types.
    UnknownDataType,
    /// A width, precision or scale string from the metadata query did not
    /// parse as an unsigned 16-bit number.
    MalformedColumnDescription,
    /// A numeric cell's text did not parse as a signed 128-bit integer.
    NumericValueInvalid,
    /// A numeric cell's unscaled value does not fit the column's declared
    /// storage width (or overflows 128 bits once scaled).
    NumericValueTooWide,
    /// A cell value's shape does not match the column's logical type.
    ValueTypeMismatch,
    /// A row's encoded payload does not fit the 32-bit size prefix.
    RowTooLarge,
}

} // verus!
