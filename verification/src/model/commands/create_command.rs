//! `CREATE`: adds an empty table.
use vstd::prelude::*;
use crate::errors::{DatabaseErr, DatabaseResult, ExecutionErr, ExecutionResult, StatementErr};
use crate::model::database::{Database, DatabaseKey, DatabaseView};
use crate::model::field_map::{has_key, lookup};
use crate::model::table::{Table, TableView, ValueType, RecordView};
use crate::parsing::statements::{CreateSt, CreateStView};

verus! {

/// The empty table a `CREATE` statement describes.
pub open spec fn created_table<KV>(st: CreateStView) -> TableView<KV> {
    TableView {
        records: Seq::<(KV, RecordView)>::empty(),
        schema: st.schema,
        key_name: st.key_name,
        table_name: st.table_name,
    }
}

/// What executing `st` on a database whose tables are `tables` gives: the new tables,
/// or the error, as the contract of `Create::execute` states it.
pub open spec fn create_succeeds<K: DatabaseKey>(tables: Seq<(Seq<char>, TableView<K::V>)>, st: CreateStView) -> bool {
    &&& !has_key(tables, st.table_name)
    &&& lookup(st.schema, st.key_name) == Some(K::key_type())
}

/// The outcome of `CREATE` on `old`: `Ok` with the new database, or which error.
pub open spec fn create_result<K: DatabaseKey>(
    old: DatabaseView<K::V>,
    new: DatabaseView<K::V>,
    st: CreateStView,
    r: ExecutionResult<()>,
) -> bool {
    match r {
        Ok(_) => create_succeeds::<K>(old.tables, st) && new.tables == old.tables.push(
            (st.table_name, created_table::<K::V>(st)),
        ) && new.log == old.log,
        Err(ExecutionErr::TableAlreadyPresent(n)) => n@ == st.table_name && has_key(old.tables, st.table_name)
            && new == old,
        Err(ExecutionErr::NoPK(n)) => n@ == st.key_name && !has_key(old.tables, st.table_name) && !has_key(
            st.schema,
            st.key_name,
        ) && new == old,
        Err(ExecutionErr::WrongPKType { expected, got }) => expected == K::key_type() && !has_key(
            old.tables,
            st.table_name,
        ) && lookup(st.schema, st.key_name) == Some(got) && got != expected && new == old,
        Err(_) => false,
    }
}

/// A `CREATE` statement bound to the database it runs on.
pub struct Create<'a, K: DatabaseKey> {
    pub db: &'a mut Database<K>,
    pub st: CreateSt,
}

impl<'a, K: DatabaseKey> Create<'a, K> {
    /// Runs `st` on `db`, tagging an error with `CREATE`.
    pub fn build_exec(db: &'a mut Database<K>, st: CreateSt) -> (r: DatabaseResult<()>)
        requires
            old(db).wf(),
        ensures
            final(db).wf(),
            match r {
                Ok(_) => create_result::<K>(old(db)@, final(db)@, st@, Ok(())),
                Err(DatabaseErr::ExecutionError { error, statement }) => statement == StatementErr::Create
                    && create_result::<K>(old(db)@, final(db)@, st@, Err(error)),
                Err(_) => false,
            },
    {
        let c = Self::new(db, st);
        let ghost stv = c.st@;
        let res = c.execute();
        ExecutionErr::wrap_result(res, StatementErr::Create)
    }

    pub fn new(db: &'a mut Database<K>, st: CreateSt) -> (r: Self)
        ensures
            *r.db == *old(db),
            *final(db) == *final(r.db),
            r.st == st,
    {
        Self { db, st }
    }

    /// Adds the table `st` describes, empty, unless the name is taken or the key field is
    /// missing from the schema or has a type other than the database's key type.
    pub fn execute(self) -> (r: ExecutionResult<()>)
        requires
            old(self.db).wf(),
        ensures
            final(self.db).wf(),
            create_result::<K>(old(self.db)@, final(self.db)@, self.st@, r),
    {
        if self.db.contains_table(&self.st.table_name) {
            return Err(ExecutionErr::TableAlreadyPresent(self.st.table_name.clone()));
        }
        let pk = self.st.schema.get(self.st.key_name.as_str());
        let vt = match pk {
            None => return Err(ExecutionErr::NoPK(self.st.key_name.clone())),
            Some(x) => *x,
        };
        let expected = K::get_type();
        if vt != expected {
            return Err(ExecutionErr::WrongPKType { expected, got: vt });
        }
        let ghost stv = self.st@;
        let name = self.st.table_name.clone();
        let taken = self.st.table_name.clone();
        let tb: Table<K> = Table::new_empty(self.st.schema, self.st.key_name, self.st.table_name);
        assert(tb@ == created_table::<K::V>(stv));
        if self.db.insert(name, tb).is_some() {
            return Err(ExecutionErr::TableAlreadyPresent(taken));
        }
        Ok(())
    }
}

impl<'a, K: DatabaseKey> super::Command for Create<'a, K> {
    open spec fn ready(&self) -> bool {
        self.db.wf()
    }

    fn execute(self) -> (r: ExecutionResult<()>)
        ensures
            final(self.db).wf(),
            create_result::<K>(old(self.db)@, final(self.db)@, self.st@, r),
    {
        Create::execute(self)
    }
}

} // verus!
