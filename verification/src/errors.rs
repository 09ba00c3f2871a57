//! Typed error kinds returned by every fallible operation of the engine.

use vstd::prelude::*;

verus! {

/// Every failure of the engine is reported as one of these kinds; no core
/// operation panics.
#[derive(Clone, Copy, Debug, PartialEq, Eq, Structural)]
pub enum Errors {
    /// The statement handed in is not one of the supported kinds.
    ParseDelegationError,
    /// A statement named a table that is not in the registry.
    TableNotFound,
    /// A create statement named a table that already exists.
    TableAlreadyExists,
    /// A statement named a column that the table's schema does not have.
    ColumnNotFound,
    /// A value does not parse in the column's declared type.
    TypeMismatch,
    /// An insert left a column without a value and the column has no default.
    MissingColumnValue,
    /// Update or delete needs a primary-key column and the table has none.
    NoPrimaryKey,
    /// Update or delete needs one primary-key column and the table has several.
    AmbiguousPrimaryKey,
    /// A condition used an operator that has no meaning in its position.
    UnsupportedOperator,
    /// A snapshot file could not be read.
    PersistenceRead,
    /// A snapshot file could not be written.
    PersistenceWrite,
    /// A snapshot's contents are not a valid encoding of a database.
    PersistenceDecode,
}

impl Errors {
    /// A short human-readable description, for the shell to print.
    pub fn message(&self) -> &'static str {
        match self {
            Errors::ParseDelegationError => "unsupported statement",
            Errors::TableNotFound => "table not found",
            Errors::TableAlreadyExists => "table already exists",
            Errors::ColumnNotFound => "column not found",
            Errors::TypeMismatch => "value does not match the column type",
            Errors::MissingColumnValue => "missing value for a column without a default",
            Errors::NoPrimaryKey => "table has no primary key",
            Errors::AmbiguousPrimaryKey => "table has more than one primary key",
            Errors::UnsupportedOperator => "unsupported operator in condition",
            Errors::PersistenceRead => "could not read the snapshot",
            Errors::PersistenceWrite => "could not write the snapshot",
            Errors::PersistenceDecode => "snapshot contents are not a valid database",
        }
    }
}

} // verus!
