//! The error of a whole query: what went wrong and in which kind of statement.
use vstd::prelude::*;
use crate::errors::execution_err::ExecutionErr;
use crate::errors::parsing_err::ParsingErr;

verus! {

pub type DatabaseResult<T> = Result<T, DatabaseErr>;

/// An error of a query, with the kind of statement it occurred in.
#[derive(Debug)]
pub enum DatabaseErr {
    ParsingError { error: ParsingErr, statement: StatementErr },
    ExecutionError { error: ExecutionErr, statement: StatementErr },
}

/// The kind of statement an error occurred in.
#[derive(Debug, Clone, Copy, PartialEq, Eq, Structural)]
pub enum StatementErr {
    NotSpecified,
    Create,
    Insert,
    Delete,
    Read,
    Save,
    Select,
}

/// The tag a message shows for a kind of statement.
pub open spec fn statement_tag(s: StatementErr) -> Seq<char> {
    match s {
        StatementErr::NotSpecified => "_"@,
        StatementErr::Create => "CREATE"@,
        StatementErr::Insert => "INSERT"@,
        StatementErr::Delete => "DELETE"@,
        StatementErr::Read => "READ_FROM"@,
        StatementErr::Save => "SAVE_AS"@,
        StatementErr::Select => "SELECT"@,
    }
}

impl StatementErr {
    /// The tag shown in error messages.
    pub fn to_string(&self) -> (r: &'static str)
        ensures
            r@ == statement_tag(*self),
    {
        match self {
            StatementErr::NotSpecified => "_",
            StatementErr::Create => "CREATE",
            StatementErr::Insert => "INSERT",
            StatementErr::Delete => "DELETE",
            StatementErr::Read => "READ_FROM",
            StatementErr::Save => "SAVE_AS",
            StatementErr::Select => "SELECT",
        }
    }
}

} // verus!
