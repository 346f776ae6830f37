//! `DELETE`: removes the record with a given key.
use vstd::prelude::*;
use crate::errors::{DatabaseErr, DatabaseResult, ExecutionErr, ExecutionResult, StatementErr};
use crate::model::database::{Database, DatabaseKey, DatabaseView};
use crate::model::field_map::{has_key, lookup, key_index, keys_distinct};
use crate::model::table::{Table, TableView, has_record_key};
use crate::parsing::statements::{DeleteSt, DeleteStView};

verus! {

/// The outcome of `DELETE` on table `old`, giving table `new`.
pub open spec fn delete_result<K: DatabaseKey>(
    old: TableView<K::V>,
    new: TableView<K::V>,
    st: DeleteStView,
    r: ExecutionResult<()>,
) -> bool {
    match r {
        Ok(_) => K::key_of_text(st.key) is Some && new.schema == old.schema && new.key_name == old.key_name
            && new.table_name == old.table_name && exists|i: int|
            0 <= i < old.records.len() && #[trigger] old.records[i].0 == K::key_of_text(st.key).unwrap()
                && new.records == old.records.remove(i),
        Err(ExecutionErr::CouldntParse(k, t)) => k@ == st.key && t == K::key_type() && K::key_of_text(
            st.key,
        ) is None && new == old,
        Err(ExecutionErr::NoKeyStr(k, t)) => k@ == st.key && t@ == st.table_name && K::key_of_text(st.key) is Some
            && !has_record_key(old.records, K::key_of_text(st.key).unwrap()) && new == old,
        Err(_) => false,
    }
}

/// The outcome of `DELETE` on a database: no such table, or the outcome on the table.
pub open spec fn delete_db_result<K: DatabaseKey>(
    old: DatabaseView<K::V>,
    new: DatabaseView<K::V>,
    st: DeleteStView,
    r: ExecutionResult<()>,
) -> bool {
    match r {
        Err(ExecutionErr::NoTable(n)) => n@ == st.table_name && !has_key(old.tables, st.table_name) && new == old,
        _ => {
            &&& has_key(old.tables, st.table_name)
            &&& new.log == old.log
            &&& exists|nt: TableView<K::V>|
                delete_result::<K>(lookup(old.tables, st.table_name).unwrap(), nt, st, r) && new.tables
                    == #[trigger] old.tables.update(key_index(old.tables, st.table_name), (st.table_name, nt))
        },
    }
}

/// A `DELETE` statement bound to the table it removes from.
pub struct Delete<'a, K: DatabaseKey> {
    pub table: &'a mut Table<K>,
    pub st: DeleteSt,
}

impl<'a, K: DatabaseKey> Delete<'a, K> {
    /// Runs `st` on `db`, tagging an error with `DELETE`.
    pub fn build_exec(db: &'a mut Database<K>, st: DeleteSt) -> (r: DatabaseResult<()>)
        requires
            old(db).wf(),
        ensures
            final(db).wf(),
            match r {
                Ok(_) => delete_db_result::<K>(old(db)@, final(db)@, st@, Ok(())),
                Err(DatabaseErr::ExecutionError { error, statement }) => statement == StatementErr::Delete
                    && delete_db_result::<K>(old(db)@, final(db)@, st@, Err(error)),
                Err(_) => false,
            },
    {
        let d = match Self::from(db, st) {
            Ok(d) => d,
            Err(e) => return Err(DatabaseErr::ExecutionError { error: e, statement: StatementErr::Delete }),
        };
        let res = d.execute();
        match res {
            Ok(x) => Ok(x),
            Err(e) => Err(DatabaseErr::ExecutionError { error: e, statement: StatementErr::Delete }),
        }
    }

    /// Binds `st` to the table it names.
    pub fn from(db: &'a mut Database<K>, st: DeleteSt) -> (r: ExecutionResult<Self>)
        requires
            old(db).wf(),
        ensures
            match r {
                Ok(del) => {
                    &&& has_key(old(db)@.tables, st@.table_name)
                    &&& lookup(old(db)@.tables, st@.table_name) == Some(del.table@)
                    &&& del.st == st
                    &&& final(db)@.log == old(db)@.log
                    &&& keys_distinct(old(db)@.tables.update(key_index(old(db)@.tables, st@.table_name), (st@.table_name, final(del.table)@)))
                    &&& final(db)@.tables == old(db)@.tables.update(
                        key_index(old(db)@.tables, st@.table_name),
                        (st@.table_name, final(del.table)@),
                    )
                },
                Err(ExecutionErr::NoTable(n)) => n@ == st@.table_name && !has_key(old(db)@.tables, st@.table_name)
                    && final(db)@ == old(db)@,
                Err(_) => false,
            },
    {
        let table = match db.get_table(&st.table_name) {
            None => return Err(ExecutionErr::NoTable(st.table_name.clone())),
            Some(x) => x,
        };
        Ok(Self::new(table, st))
    }

    pub fn new(tb: &'a mut Table<K>, st: DeleteSt) -> (r: Self)
        ensures
            *r.table == *old(tb),
            *final(tb) == *final(r.table),
            r.st == st,
    {
        Self { table: tb, st }
    }

    /// Removes the record whose key the statement's key text stands for.
    pub fn execute(self) -> (r: ExecutionResult<()>)
        ensures
            delete_result::<K>(old(self.table)@, final(self.table)@, self.st@, r),
    {
        let k_st = self.st.key;
        let key = match K::as_key_string(k_st.clone()) {
            None => return Err(ExecutionErr::CouldntParse(k_st, K::get_type())),
            Some(x) => x,
        };
        if self.table.delete_record(&key).is_none() {
            return Err(ExecutionErr::NoKeyStr(k_st, self.st.table_name));
        }
        Ok(())
    }
}

impl<'a, K: DatabaseKey> super::Command for Delete<'a, K> {
    open spec fn ready(&self) -> bool {
        true
    }

    fn execute(self) -> (r: ExecutionResult<()>)
        ensures
            delete_result::<K>(old(self.table)@, final(self.table)@, self.st@, r),
    {
        Delete::execute(self)
    }
}

} // verus!
