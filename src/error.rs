use vstd::prelude::*;

verus! {

/// Why decoding a page, a record or a schema statement failed.
#[derive(Clone, Copy, Debug, PartialEq, Eq, Structural)]
pub enum DbError {
    /// The bytes ended before a varint's terminal byte.
    UnexpectedEnd,
    /// Fewer bytes remain than a column's serial type demands.
    NotEnoughData,
    /// A record holds a different number of values than the schema has columns.
    ColumnCountMismatch { expected: usize, got: usize },
    /// A `CREATE TABLE` statement does not have the expected shape.
    BadCreateTable,
    /// A schema cell pointer lies before the first page's content.
    BadCellPointer,
}

} // verus!
