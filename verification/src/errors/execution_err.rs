//! Errors found while executing a statement.
use vstd::prelude::*;
use crate::errors::database_result::{DatabaseErr, DatabaseResult, StatementErr};
use crate::model::table::{Value, ValueType};

verus! {

pub type ExecutionResult<T> = Result<T, ExecutionErr>;

/// An error found while executing a statement.
#[derive(Debug)]
pub enum ExecutionErr {
    TableAlreadyPresent(String),
    NoPK(String),
    WrongPKType { expected: ValueType, got: ValueType },
    NoTable(String),
    WrongArgLen { table: String, got: usize, expected: usize },
    BadType { field: String, got: ValueType, expected: ValueType },
    NoDef(String),
    RepeatedColumn(String),
    RepeatedRecord(Value),
    /// The key text of a `DELETE` does not stand for a key of the database's type.
    CouldntParse(String, ValueType),
    /// No record with the key (first) in the table (second).
    NoKeyStr(String, String),
    /// A file could not be read or written.
    BadFile(String),
    /// A query read from a file failed.
    ExecutingError(Box<DatabaseErr>),
}

impl ExecutionErr {
    /// Tags an execution error with the kind of statement it occurred in.
    pub fn wrap_result<T>(er: ExecutionResult<T>, st: StatementErr) -> (r: DatabaseResult<T>)
        ensures
            match er {
                Ok(x) => r == Ok::<T, DatabaseErr>(x),
                Err(e) => r == Err::<T, DatabaseErr>(DatabaseErr::ExecutionError { error: e, statement: st }),
            },
    {
        match er {
            Ok(x) => Ok(x),
            Err(e) => Err(DatabaseErr::ExecutionError { error: e, statement: st }),
        }
    }
}

} // verus!
