//! What can go wrong.

use vstd::prelude::*;

verus! {

/// Bytes that do not follow the format.
#[derive(Debug, Clone, Copy, PartialEq, Eq, Structural)]
pub struct Error;

/// Why a query could not be started.
#[derive(Debug, Clone, Copy, PartialEq, Eq, Structural)]
pub enum StartQueryError {
    /// Every slot is taken, and the table cannot grow.
    NoFreeSlot,
    /// The name is empty, or a label is empty or longer than 63 bytes.
    InvalidName,
    /// The name takes more bytes than a query keeps.
    NameTooLong,
}

impl StartQueryError {
    /// The error in words.
    pub fn message(&self) -> (text: &'static str)
        ensures
            text@ == match *self {
                StartQueryError::NoFreeSlot => "No free slot"@,
                StartQueryError::InvalidName => "Invalid name"@,
                StartQueryError::NameTooLong => "Name too long"@,
            },
    {
        match self {
            StartQueryError::NoFreeSlot => "No free slot",
            StartQueryError::InvalidName => "Invalid name",
            StartQueryError::NameTooLong => "Name too long",
        }
    }
}

/// Why a query has no result to hand back.
#[derive(Debug, Clone, Copy, PartialEq, Eq, Structural)]
pub enum GetQueryResultError {
    /// The query is not done yet.
    Pending,
    /// The query failed.
    Failed,
    /// The target of an SRV answer is longer than the text that is kept.
    SrvTargetTooLong,
}

impl GetQueryResultError {
    /// The error in words.
    pub fn message(&self) -> (text: &'static str)
        ensures
            text@ == match *self {
                GetQueryResultError::Pending => "Query is not done yet"@,
                GetQueryResultError::Failed => "Query failed"@,
                GetQueryResultError::SrvTargetTooLong => "SRV target too long"@,
            },
    {
        match self {
            GetQueryResultError::Pending => "Query is not done yet",
            GetQueryResultError::Failed => "Query failed",
            GetQueryResultError::SrvTargetTooLong => "SRV target too long",
        }
    }
}

} // verus!
