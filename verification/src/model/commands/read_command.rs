//! `READ_FROM`: runs the queries of a file on the database.
//!
//! Reading the file and running what it holds are done by the caller; this module says
//! which file is read and what the statement gives back for each way that can go.
use vstd::prelude::*;
use crate::errors::{DatabaseErr, DatabaseResult, ExecutionErr, StatementErr};
use crate::model::database::{Database, DatabaseKey};
use crate::parsing::statements::ReadSt;
use crate::text::{trim_text, trimmed};

verus! {

/// A `READ_FROM` statement bound to the database it runs on.
pub struct Read<'a, K: DatabaseKey> {
    pub db: &'a mut Database<K>,
    pub st: ReadSt,
}

impl<'a, K: DatabaseKey> Read<'a, K> {
    pub fn new(db: &'a mut Database<K>, st: ReadSt) -> (r: Self)
        ensures
            *r.db == *old(db),
            *final(db) == *final(r.db),
            r.st == st,
    {
        Self { db, st }
    }
}

impl ReadSt {
    /// The file to read: the path without surrounding white space.
    pub fn source(&self) -> (p: String)
        ensures
            p@ == trim_text(self.path@),
    {
        trimmed(self.path.as_str())
    }

    /// What the statement gives back. `nested` is `None` where the file could not be
    /// read, and otherwise what running its text on the database gave.
    pub fn outcome(&self, nested: Option<DatabaseResult<Option<String>>>) -> (r: DatabaseResult<Option<String>>)
        ensures
            match nested {
                None => r matches Err(DatabaseErr::ExecutionError { error: ExecutionErr::BadFile(p), statement })
                    && p@ == trim_text(self.path@) && statement == StatementErr::Read,
                Some(Ok(o)) => r == Ok::<Option<String>, DatabaseErr>(o),
                Some(Err(e)) => r == Err::<Option<String>, DatabaseErr>(DatabaseErr::ExecutionError {
                    error: ExecutionErr::ExecutingError(Box::new(e)),
                    statement: StatementErr::Read,
                }),
            },
    {
        match nested {
            None => Err(DatabaseErr::ExecutionError {
                error: ExecutionErr::BadFile(self.source()),
                statement: StatementErr::Read,
            }),
            Some(Ok(o)) => Ok(o),
            Some(Err(e)) => Err(DatabaseErr::ExecutionError {
                error: ExecutionErr::ExecutingError(Box::new(e)),
                statement: StatementErr::Read,
            }),
        }
    }
}

} // verus!
