use crate::types::ColumnType;
use vstd::prelude::*;

verus! {

/// Failure of table construction: two columns share a name.
#[derive(Clone, Copy, Debug, PartialEq, Eq, Structural)]
pub enum SchemaError {
    DuplicateColumnName,
}

/// Failure of an insertion; the table is unmodified on any of these.
#[derive(Clone, Copy, Debug, PartialEq, Eq, Structural)]
pub enum InsertError {
    /// The number of supplied values differs from the number of columns.
    ColumnCountMismatch,
    /// The first position whose value's type differs from the column's type.
    TypeMismatch { index: usize, expected: ColumnType, actual: ColumnType },
    /// An existing row is key-equal to the candidate row.
    DuplicateKey,
}

/// Failure of a projection; the source table is unmodified.
#[derive(Clone, Copy, Debug, PartialEq, Eq, Structural)]
pub enum ProjectionError {
    /// A requested column does not occur in the source table.
    NotASubset,
}

/// Failure of decoding a table from text; no partial table is returned.
#[derive(Clone, Copy, Debug, PartialEq, Eq, Structural)]
pub enum DecodeError {
    /// The input text is empty.
    EmptyInput,
    /// A column descriptor carries a tag other than the two recognized ones.
    UnknownColumnType,
    /// A column descriptor has no quoted name.
    MissingColumnName,
    /// A row line does not consist of one quoted field per column.
    MalformedRow,
    /// The field at this position does not parse as its column's type.
    ValueParseFailure { index: usize },
    /// The decoded header breaks the schema invariant.
    Schema(SchemaError),
    /// Replaying a decoded row into the table failed.
    Insert(InsertError),
}

} // verus!
