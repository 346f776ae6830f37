//! `SAVE_AS`: writes the log of the session to a file, one query per line.
//!
//! Writing the file is done by the caller; this module gives the text to write and what
//! the statement gives back.
use vstd::prelude::*;
use crate::errors::{DatabaseErr, DatabaseResult, ExecutionErr, StatementErr};
use crate::model::database::{Database, DatabaseKey};
use crate::parsing::statements::{SaveSt, StatementView, statement_text};

verus! {

/// The statements of `log` in query syntax, each followed by a line break.
pub open spec fn log_text(log: Seq<StatementView>) -> Seq<char>
    decreases log.len(),
{
    if log.len() == 0 {
        Seq::empty()
    } else {
        log_text(log.drop_last()) + statement_text(log.last()) + "\n"@
    }
}

/// A `SAVE_AS` statement bound to the database whose log it writes.
pub struct Save<'a, K: DatabaseKey> {
    pub db: &'a mut Database<K>,
    pub st: SaveSt,
}

impl<'a, K: DatabaseKey> Save<'a, K> {
    pub fn new(db: &'a mut Database<K>, st: SaveSt) -> (r: Self)
        ensures
            *r.db == *old(db),
            *final(db) == *final(r.db),
            r.st == st,
    {
        Self { db, st }
    }

    /// The text to write: every statement of the log, one per line.
    pub fn contents(&self) -> (s: String)
        ensures
            s@ == log_text(old(self.db)@.log),
    {
        let log = self.db.get_log();
        let ghost views = old(self.db)@.log;
        let mut s = String::new();
        let mut i: usize = 0;
        while i < log.len()
            invariant
                i <= log@.len(),
                views == log@.map_values(|st: crate::parsing::statements::Statement| st@),
                s@ == log_text(views.take(i as int)),
            decreases log@.len() - i,
        {
            let q = log[i].to_query();
            s.append(q.as_str());
            s.append("\n");
            proof {
                assert(views.take(i + 1).drop_last() =~= views.take(i as int));
                assert(views.take(i + 1).last() == log@[i as int]@);
            }
            i = i + 1;
        }
        assert(views.take(i as int) =~= views);
        s
    }
}

impl SaveSt {
    /// What the statement gives back, from whether its file was written.
    pub fn outcome(&self, written: bool) -> (r: DatabaseResult<()>)
        ensures
            written ==> r is Ok,
            !written ==> (r matches Err(DatabaseErr::ExecutionError { error: ExecutionErr::BadFile(p), statement })
                && p@ == self.path@ && statement == StatementErr::Save),
    {
        if written {
            Ok(())
        } else {
            Err(DatabaseErr::ExecutionError { error: ExecutionErr::BadFile(self.path.clone()), statement: StatementErr::Save })
        }
    }
}

} // verus!
