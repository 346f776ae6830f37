//! Running statements and whole queries on a database.
//!
//! A query is run one statement at a time by `QueryRun`. Statements that read or write
//! a file hand that work to the caller as an `Action`, and the caller reports back what
//! came of it with `QueryRun::resume`.
use vstd::prelude::*;
use crate::errors::{DatabaseErr, DatabaseResult, ExecutionErr, StatementErr};
use crate::model::commands::create_command::{Create, create_result};
use crate::model::commands::delete_command::{Delete, delete_db_result};
use crate::model::commands::insert_command::{Insert, insert_db_result};
use crate::model::commands::save_command::{Save, log_text};
use crate::model::commands::select_command::{Select, select_result, format_text};
use crate::model::database::{Database, DatabaseKey, DatabaseView};
use crate::parsing::parser::{SQLParser, statements_view, query_matches};
use crate::parsing::grammar::parse_query;
use crate::parsing::statements::{ReadSt, SaveSt, Statement, StatementView};

verus! {

/// What running one statement leaves to be done.
pub enum Outcome {
    /// The statement is done; a `SELECT` gives its table as text.
    Output(Option<String>),
    /// A `READ_FROM`: its file is to be read and run.
    ReadFile(ReadSt),
    /// A `SAVE_AS`: the text is to be written to its file.
    WriteFile(SaveSt, String),
}

/// What running `st` on a database `old` may give, leaving the database `new`.
pub open spec fn run_result<K: DatabaseKey>(
    old: DatabaseView<K::V>,
    new: DatabaseView<K::V>,
    st: StatementView,
    r: DatabaseResult<Outcome>,
) -> bool {
    match st {
        StatementView::NoStatement => new == old && r matches Ok(Outcome::Output(None)),
        StatementView::Create(c) => match r {
            Ok(Outcome::Output(None)) => create_result::<K>(old, new, c, Ok(())),
            Err(DatabaseErr::ExecutionError { error, statement }) => statement == StatementErr::Create
                && create_result::<K>(old, new, c, Err(error)),
            _ => false,
        },
        StatementView::Insert(i) => match r {
            Ok(Outcome::Output(None)) => insert_db_result::<K>(old, new, i, Ok(())),
            Err(DatabaseErr::ExecutionError { error, statement }) => statement == StatementErr::Insert
                && insert_db_result::<K>(old, new, i, Err(error)),
            _ => false,
        },
        StatementView::Delete(d) => match r {
            Ok(Outcome::Output(None)) => delete_db_result::<K>(old, new, d, Ok(())),
            Err(DatabaseErr::ExecutionError { error, statement }) => statement == StatementErr::Delete
                && delete_db_result::<K>(old, new, d, Err(error)),
            _ => false,
        },
        StatementView::Select(s) => new == old && match r {
            Ok(Outcome::Output(Some(text))) => exists|h: Seq<Seq<char>>, rows: Seq<Seq<Seq<char>>>|
                #[trigger] select_result::<K>(old, s, Ok((h, rows))) && text@ == format_text(h, rows),
            Err(DatabaseErr::ExecutionError { error, statement }) => statement == StatementErr::Save
                && select_result::<K>(old, s, Err(error)),
            _ => false,
        },
        StatementView::Read(p) => new == old && (r matches Ok(Outcome::ReadFile(rs)) && rs.path@ == p),
        StatementView::Save(p) => new == logged(old, st) && (r matches Ok(Outcome::WriteFile(ss, text)) && ss.path@
            == p && text@ == log_text(new.log)),
    }
}

impl Statement {
    /// Runs the statement on `db`. A `SELECT` gives its table as text; a `READ_FROM` gives
    /// the file to read; a `SAVE_AS` adds itself to the log and gives the log's text to
    /// be written.
    pub fn run<K: DatabaseKey>(self, db: &mut Database<K>) -> (r: DatabaseResult<Outcome>)
        requires
            old(db).wf(),
        ensures
            final(db).wf(),
            run_result::<K>(old(db)@, final(db)@, self@, r),
    {
        match self {
            Statement::NoStatement => Ok(Outcome::Output(None)),
            Statement::Create(c) => {
                match Create::build_exec(db, c) {
                    Ok(_) => Ok(Outcome::Output(None)),
                    Err(e) => Err(e),
                }
            },
            Statement::Insert(i) => {
                match Insert::build_exec(db, i) {
                    Ok(_) => Ok(Outcome::Output(None)),
                    Err(e) => Err(e),
                }
            },
            Statement::Delete(d) => {
                match Delete::build_exec(db, d) {
                    Ok(_) => Ok(Outcome::Output(None)),
                    Err(e) => Err(e),
                }
            },
            Statement::Select(s) => {
                match Select::build_exec(db, s) {
                    Ok(text) => Ok(Outcome::Output(Some(text))),
                    Err(e) => Err(e),
                }
            },
            Statement::Read(r) => Ok(Outcome::ReadFile(r)),
            Statement::Save(s) => {
                db.add_log(Statement::Save(SaveSt { path: s.path.clone() }));
                let sv = Save::new(db, s);
                let text = sv.contents();
                Ok(Outcome::WriteFile(sv.st, text))
            },
        }
    }
}

/// The text a query gives back: every output followed by a line break, or nothing
/// where no statement gave output.
pub open spec fn output_text(outputs: Seq<Seq<char>>) -> Option<Seq<char>> {
    if outputs.len() == 0 {
        None
    } else {
        Some(lines_text(outputs))
    }
}

/// Each text followed by a line break.
pub open spec fn lines_text(outputs: Seq<Seq<char>>) -> Seq<char>
    decreases outputs.len(),
{
    if outputs.len() == 0 {
        Seq::empty()
    } else {
        lines_text(outputs.drop_last()) + outputs.last() + "\n"@
    }
}

/// The model of an optional text.
pub open spec fn opt_text(o: Option<String>) -> Option<Seq<char>> {
    match o {
        Some(s) => Some(s@),
        None => None,
    }
}

/// The database `db` with `st` added to its log.
pub open spec fn logged<KV>(db: DatabaseView<KV>, st: StatementView) -> DatabaseView<KV> {
    DatabaseView { tables: db.tables, log: db.log.push(st) }
}

/// What the caller of `QueryRun` is to do next.
pub enum Action {
    /// Call `step` again.
    Continue,
    /// Read the file of this statement, run its text, and report with `resume`.
    ReadFile(ReadSt),
    /// Write the text to the file of this statement and report with `resume`.
    WriteFile(SaveSt, String),
    /// The query is over, with this result.
    Finished(DatabaseResult<Option<String>>),
}

/// The model of a query being run.
pub struct QueryRunView {
    pub statements: Seq<StatementView>,
    /// The position of the next statement to run.
    pub next: nat,
    /// The outputs so far, in order.
    pub outputs: Seq<Seq<char>>,
}

/// A query being run: its statements, how far it has got, and its outputs so far.
pub struct QueryRun {
    statements: Vec<Statement>,
    next: usize,
    outputs: Vec<String>,
}

impl QueryRun {
    pub closed spec fn statement_items(&self) -> Seq<Statement> {
        self.statements@
    }

    pub closed spec fn position(&self) -> usize {
        self.next
    }

    pub closed spec fn output_items(&self) -> Seq<String> {
        self.outputs@
    }
}

impl View for QueryRun {
    type V = QueryRunView;

    open spec fn view(&self) -> QueryRunView {
        QueryRunView {
            statements: statements_view(self.statement_items()),
            next: self.position() as nat,
            outputs: self.output_items().map_values(|s: String| s@),
        }
    }
}

/// The database `db` with its log replaced by `log`.
pub open spec fn with_log<KV>(db: DatabaseView<KV>, log: Seq<StatementView>) -> DatabaseView<KV> {
    DatabaseView { tables: db.tables, log }
}

/// One step of a run: what running statement `st` on `db` gave, how the outputs grew, and
/// the action that follows. A statement that is done without error is added to the log,
/// and so is a `SAVE_AS`, before the text of its file is built; a failed statement and a
/// `READ_FROM` are not.
pub open spec fn step_result<K: DatabaseKey>(
    db: DatabaseView<K::V>,
    new: DatabaseView<K::V>,
    st: StatementView,
    outs: Seq<Seq<char>>,
    new_outs: Seq<Seq<char>>,
    a: Action,
) -> bool {
    match a {
        Action::Continue => new.log == db.log.push(st) && ((new_outs == outs && run_result::<K>(
            db,
            with_log(new, db.log),
            st,
            Ok(Outcome::Output(None)),
        )) || (exists|s: String|
            #[trigger] run_result::<K>(db, with_log(new, db.log), st, Ok(Outcome::Output(Some(s)))) && new_outs
                == outs.push(s@))),
        Action::ReadFile(rs) => new_outs == outs && run_result::<K>(db, new, st, Ok(Outcome::ReadFile(rs))),
        Action::WriteFile(ss, text) => new_outs == outs && run_result::<K>(db, new, st, Ok(Outcome::WriteFile(ss, text))),
        Action::Finished(Err(e)) => new_outs == outs && run_result::<K>(db, new, st, Err(e)),
        Action::Finished(Ok(_)) => false,
    }
}

impl QueryRun {
    /// Reads `query`; the run starts before its first statement.
    pub fn start(query: &str) -> (r: DatabaseResult<QueryRun>)
        requires
            query@.len() + 8 < usize::MAX,
        ensures
            match r {
                Ok(run) => parse_query(query@) == Ok::<Seq<StatementView>, crate::parsing::grammar::ParseFailure>(run@.statements)
                    && run@.next == 0 && run@.outputs.len() == 0,
                Err(e) => query_matches(Err(e), parse_query(query@)),
            },
    {
        match SQLParser::parse_sql(query) {
            Ok(statements) => {
                let run = QueryRun { statements, next: 0, outputs: Vec::new() };
                assert(run@.outputs =~= Seq::<Seq<char>>::empty());
                Ok(run)
            },
            Err(e) => Err(e),
        }
    }

    /// Runs the next statement; one done without error, and a `SAVE_AS`, is added to the
    /// log of `db`. At the end of the query, finishes with the outputs.
    pub fn step<K: DatabaseKey>(&mut self, db: &mut Database<K>) -> (a: Action)
        requires
            old(db).wf(),
        ensures
            final(db).wf(),
            final(self)@.statements == old(self)@.statements,
            old(self)@.next >= old(self)@.statements.len() ==> {
                &&& final(self)@ == old(self)@
                &&& final(db)@ == old(db)@
                &&& a matches Action::Finished(Ok(o))
                &&& opt_text(o) == output_text(old(self)@.outputs)
            },
            old(self)@.next < old(self)@.statements.len() ==> {
                &&& final(self)@.next == old(self)@.next + 1
                &&& step_result::<K>(
                    old(db)@,
                    final(db)@,
                    old(self)@.statements[old(self)@.next as int],
                    old(self)@.outputs,
                    final(self)@.outputs,
                    a,
                )
            },
    {
        if self.next >= self.statements.len() {
            return Action::Finished(Ok(self.output()));
        }
        let st = self.statements[self.next].copy();
        let keep = st.copy();
        let ghost stv = st@;
        let ghost outs = self@.outputs;
        let ghost db0 = db@;
        self.next = self.next + 1;
        match st.run(db) {
            Err(e) => Action::Finished(Err(e)),
            Ok(Outcome::Output(None)) => {
                let ghost db1 = db@;
                assert(db1.log == db0.log);
                db.add_log(keep);
                assert(with_log(db@, db0.log) == db1);
                Action::Continue
            },
            Ok(Outcome::Output(Some(s))) => {
                let ghost db1 = db@;
                assert(db1.log == db0.log);
                db.add_log(keep);
                assert(with_log(db@, db0.log) == db1);
                proof {
                    assert(run_result::<K>(db0, with_log(db@, db0.log), stv, Ok(Outcome::Output(Some(s)))));
                }
                let ghost sv = s@;
                self.outputs.push(s);
                assert(self@.outputs =~= outs.push(sv));
                Action::Continue
            },
            Ok(Outcome::ReadFile(r)) => Action::ReadFile(r),
            Ok(Outcome::WriteFile(sv, text)) => Action::WriteFile(sv, text),
        }
    }

    /// Takes in what came of the file work of the last statement: its output, or the
    /// error that ends the query.
    pub fn resume(&mut self, r: DatabaseResult<Option<String>>) -> (a: Action)
        ensures
            final(self)@.statements == old(self)@.statements,
            final(self)@.next == old(self)@.next,
            match r {
                Ok(Some(s)) => final(self)@.outputs == old(self)@.outputs.push(s@) && a is Continue,
                Ok(None) => final(self)@.outputs == old(self)@.outputs && a is Continue,
                Err(e) => final(self)@.outputs == old(self)@.outputs && a == Action::Finished(Err(e)),
            },
    {
        match r {
            Ok(Some(s)) => {
                let ghost outs = self@.outputs;
                let ghost sv = s@;
                self.outputs.push(s);
                assert(self@.outputs =~= outs.push(sv));
                Action::Continue
            },
            Ok(None) => Action::Continue,
            Err(e) => Action::Finished(Err(e)),
        }
    }

    /// The text the query gives back so far.
    fn output(&self) -> (o: Option<String>)
        ensures
            opt_text(o) == output_text(self@.outputs),
    {
        if self.outputs.len() == 0 {
            return None;
        }
        let ghost views = self@.outputs;
        let mut s = String::new();
        let mut i: usize = 0;
        while i < self.outputs.len()
            invariant
                i <= self.outputs@.len(),
                views == self@.outputs,
                s@ == lines_text(views.take(i as int)),
            decreases self.outputs@.len() - i,
        {
            s.append(self.outputs[i].as_str());
            s.append("\n");
            proof {
                assert(views.take(i + 1).drop_last() =~= views.take(i as int));
            }
            i = i + 1;
        }
        assert(views.take(i as int) =~= views);
        Some(s)
    }
}

} // verus!
