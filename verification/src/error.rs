//! Error kinds surfaced by the index engine.

use vstd::prelude::*;

verus! {

/// Errors raised while registering or translating fields.
#[derive(Debug, Clone, Copy, PartialEq, Eq, Structural)]
pub enum SchemaError {
    /// A field whose type is unknown or unsupported on a path that
    /// disallows it.
    UnsupportedField,
    /// The registry cannot hold more than 2^16 fields.
    RangeExhausted,
}

impl SchemaError {
    /// A short description, for callers that log or wrap the error.
    pub fn message(&self) -> (r: &'static str)
        ensures
            r@.len() > 0,
    {
        let r: &'static str = match self {
            SchemaError::UnsupportedField => "unsupported field-type",
            SchemaError::RangeExhausted => "cannot support more than 2^16 fields",
        };
        proof {
            reveal_strlit("unsupported field-type");
            reveal_strlit("cannot support more than 2^16 fields");
        }
        r
    }
}

/// Errors raised by the index facade and the segment store.
#[derive(Debug, Clone, PartialEq, Eq)]
pub enum IndexError {
    /// The caller handed an input the store rejects: a missing or
    /// over-large primary key, an unsupported field type on a path that
    /// disallows it.
    IllegalArguments(String),
    /// A failure of the store itself: a corrupt file, a record that does
    /// not decode, a size that cannot be represented.
    SystemError(String),
}

impl IndexError {
    /// A short description, for callers that log or wrap the error.
    pub fn message(&self) -> (r: &str) {
        match self {
            IndexError::IllegalArguments(s) => s.as_str(),
            IndexError::SystemError(s) => s.as_str(),
        }
    }

    /// Wrap a schema error as an index error.
    pub fn from_schema_error(e: SchemaError) -> (r: IndexError)
        ensures
            r is IllegalArguments,
    {
        IndexError::IllegalArguments(String::from_str(e.message()))
    }
}

} // verus!
