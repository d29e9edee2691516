//! The error type shared by table loading, statement parsing and query
//! execution. Every failure is reported as a value of this type; the
//! verified functions of this crate never panic.

use vstd::prelude::*;

verus! {

/// What went wrong, with a diagnostic message.
#[derive(Debug)]
pub enum CIndexError {
    /// Malformed source data: inconsistent row width, duplicate headers.
    InvalidTableInput(String),
    /// A failure of an output sink or an input source.
    IoError(String),
    /// The statement referenced a table that is not loaded.
    InvalidTableName(String),
    /// A value could not be coerced to its declared type at comparison time.
    TypeDiscord(String),
    /// The statement referenced a column absent from the table.
    InvalidColumn(String),
    /// A cell violated its declared type when the table was loaded.
    InvalidDataType(String),
    /// A malformed statement: bad operator, flag, number, order direction,
    /// rename-map length or predicate argument list.
    InvalidQueryStatement(String),
}

/// The kind of a [`CIndexError`], with the diagnostic message left out.
/// Contracts speak of kinds; messages are free-form.
#[derive(PartialEq, Eq, Structural, Clone, Copy, Debug)]
pub enum ErrKind {
    TableInput,
    Io,
    TableName,
    TypeDiscord,
    Column,
    DataType,
    QueryStatement,
}

impl CIndexError {
    /// The kind of this error.
    pub open spec fn kind(&self) -> ErrKind {
        match self {
            CIndexError::InvalidTableInput(_) => ErrKind::TableInput,
            CIndexError::IoError(_) => ErrKind::Io,
            CIndexError::InvalidTableName(_) => ErrKind::TableName,
            CIndexError::TypeDiscord(_) => ErrKind::TypeDiscord,
            CIndexError::InvalidColumn(_) => ErrKind::Column,
            CIndexError::InvalidDataType(_) => ErrKind::DataType,
            CIndexError::InvalidQueryStatement(_) => ErrKind::QueryStatement,
        }
    }
}

/// The result type used throughout the crate.
pub type CIndexResult<T> = Result<T, CIndexError>;

} // verus!
