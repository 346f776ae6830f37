//! `INSERT`: adds a record to a table.
use vstd::prelude::*;
use crate::errors::{DatabaseErr, DatabaseResult, ExecutionErr, ExecutionResult, StatementErr};
use crate::model::database::{Database, DatabaseKey, DatabaseView};
use crate::model::field_map::{has_key, lookup, key_index, keys_distinct};
use crate::model::table::{Record, RecordView, Table, TableView, Value, ValueView, ValueType, value_type, has_record_key};
use crate::parsing::statements::{InsertSt, InsertStView};

verus! {

/// The fields of `s` other than `k`, in order.
pub open spec fn without_field(s: Seq<(Seq<char>, ValueView)>, k: Seq<char>) -> Seq<(Seq<char>, ValueView)>
    decreases s.len(),
{
    if s.len() == 0 {
        s
    } else if s.last().0 == k {
        without_field(s.drop_last(), k)
    } else {
        without_field(s.drop_last(), k).push(s.last())
    }
}

/// A field of an `INSERT` fits the schema: it is the key field, or the schema has it with
/// the value's type.
pub open spec fn field_fits(schema: Seq<(Seq<char>, ValueType)>, pk: Seq<char>, f: (Seq<char>, ValueView)) -> bool {
    f.0 == pk || lookup(schema, f.0) == Some(value_type(f.1))
}

/// The first `n` fields fit the schema.
pub open spec fn fields_fit(schema: Seq<(Seq<char>, ValueType)>, pk: Seq<char>, fields: Seq<(Seq<char>, ValueView)>, n: int) -> bool {
    forall|j: int| 0 <= j < n ==> #[trigger] field_fits(schema, pk, fields[j])
}

/// The checks before the fields: argument count, key present, key type, key new.
pub open spec fn insert_header_ok<K: DatabaseKey>(t: TableView<K::V>, st: InsertStView) -> bool {
    &&& t.schema.len() == st.fields.len()
    &&& has_key(st.fields, t.key_name)
    &&& K::key_of_value(lookup(st.fields, t.key_name).unwrap()) is Some
    &&& !has_record_key(t.records, K::key_of_value(lookup(st.fields, t.key_name).unwrap()).unwrap())
}

/// The outcome of `INSERT` on table `old`, giving table `new`: `Ok`, or which error.
/// Fields are checked in the order of the statement; the first that does not fit decides
/// the error.
pub open spec fn insert_result<K: DatabaseKey>(
    old: TableView<K::V>,
    new: TableView<K::V>,
    st: InsertStView,
    r: ExecutionResult<()>,
) -> bool {
    let pk = old.key_name;
    let pkv = lookup(st.fields, pk).unwrap();
    match r {
        Ok(_) => {
            &&& insert_header_ok::<K>(old, st)
            &&& fields_fit(old.schema, pk, st.fields, st.fields.len() as int)
            &&& new.schema == old.schema && new.key_name == old.key_name && new.table_name == old.table_name
            &&& exists|i: int|
                0 <= i <= old.records.len() && new.records == old.records.insert(
                    i,
                    (K::key_of_value(pkv).unwrap(), without_field(st.fields, pk)),
                )
        },
        Err(ExecutionErr::WrongArgLen { table, got, expected }) => table@ == st.table_name && got
            == st.fields.len() && expected == old.schema.len() && old.schema.len() != st.fields.len()
            && new == old,
        Err(ExecutionErr::NoPK(n)) => n@ == pk && old.schema.len() == st.fields.len() && !has_key(
            st.fields,
            pk,
        ) && new == old,
        Err(ExecutionErr::WrongPKType { expected, got }) => old.schema.len() == st.fields.len()
            && has_key(st.fields, pk) && K::key_of_value(pkv) is None && expected == K::key_type() && got
            == value_type(pkv) && new == old,
        Err(ExecutionErr::RepeatedRecord(v)) => old.schema.len() == st.fields.len() && has_key(st.fields, pk)
            && K::key_of_value(pkv) is Some && has_record_key(old.records, K::key_of_value(pkv).unwrap())
            && v@ == pkv && new == old,
        Err(ExecutionErr::NoDef(f)) => insert_header_ok::<K>(old, st) && exists|i: int|
            0 <= i < st.fields.len() && fields_fit(old.schema, pk, st.fields, i) && !field_fits(
                old.schema,
                pk,
                st.fields[i],
            ) && !has_key(old.schema, st.fields[i].0) && f@ == st.fields[i].0 && new == old,
        Err(ExecutionErr::BadType { field, got, expected }) => insert_header_ok::<K>(old, st) && exists|i: int|
            0 <= i < st.fields.len() && fields_fit(old.schema, pk, st.fields, i) && !field_fits(
                old.schema,
                pk,
                st.fields[i],
            ) && lookup(old.schema, st.fields[i].0) == Some(expected) && got == value_type(st.fields[i].1)
                && field@ == st.fields[i].0 && new == old,
        Err(_) => false,
    }
}

/// The outcome of `INSERT` on a database: no such table, or the outcome on the table.
pub open spec fn insert_db_result<K: DatabaseKey>(
    old: DatabaseView<K::V>,
    new: DatabaseView<K::V>,
    st: InsertStView,
    r: ExecutionResult<()>,
) -> bool {
    match r {
        Err(ExecutionErr::NoTable(n)) => n@ == st.table_name && !has_key(old.tables, st.table_name) && new == old,
        _ => {
            &&& has_key(old.tables, st.table_name)
            &&& new.log == old.log
            &&& exists|nt: TableView<K::V>|
                insert_result::<K>(lookup(old.tables, st.table_name).unwrap(), nt, st, r) && new.tables
                    == #[trigger] old.tables.update(key_index(old.tables, st.table_name), (st.table_name, nt))
        },
    }
}

/// Removing the key field keeps only names of `s`.
proof fn lemma_without_field_keys(s: Seq<(Seq<char>, ValueView)>, k: Seq<char>, x: Seq<char>)
    ensures
        has_key(without_field(s, k), x) ==> has_key(s, x),
    decreases s.len(),
{
    if s.len() > 0 {
        lemma_without_field_keys(s.drop_last(), k, x);
        let w = without_field(s.drop_last(), k);
        if has_key(without_field(s, k), x) {
            let j = choose|j: int| 0 <= j < without_field(s, k).len() && #[trigger] without_field(s, k)[j].0 == x;
            if s.last().0 != k && j == w.len() {
                assert(s[s.len() - 1].0 == x);
            } else {
                assert(w[j].0 == x);
                let m = choose|m: int| 0 <= m < s.drop_last().len() && #[trigger] s.drop_last()[m].0 == x;
                assert(s[m].0 == x);
            }
        }
    }
}

/// An `INSERT` statement bound to the table it adds to.
pub struct Insert<'a, K: DatabaseKey> {
    pub table: &'a mut Table<K>,
    pub st: InsertSt,
}

impl<'a, K: DatabaseKey> Insert<'a, K> {
    /// Runs `st` on `db`, tagging an error with `INSERT`.
    pub fn build_exec(db: &'a mut Database<K>, st: InsertSt) -> (r: DatabaseResult<()>)
        requires
            old(db).wf(),
        ensures
            final(db).wf(),
            match r {
                Ok(_) => insert_db_result::<K>(old(db)@, final(db)@, st@, Ok(())),
                Err(DatabaseErr::ExecutionError { error, statement }) => statement == StatementErr::Insert
                    && insert_db_result::<K>(old(db)@, final(db)@, st@, Err(error)),
                Err(_) => false,
            },
    {
        let ghost stv = st@;
        let i = match Self::from(db, st) {
            Ok(i) => i,
            Err(e) => return Err(DatabaseErr::ExecutionError { error: e, statement: StatementErr::Insert }),
        };
        let res = i.execute();
        match res {
            Ok(x) => Ok(x),
            Err(e) => Err(DatabaseErr::ExecutionError { error: e, statement: StatementErr::Insert }),
        }
    }

    /// Binds `st` to the table it names.
    pub fn from(db: &'a mut Database<K>, st: InsertSt) -> (r: ExecutionResult<Self>)
        requires
            old(db).wf(),
        ensures
            match r {
                Ok(ins) => {
                    &&& has_key(old(db)@.tables, st@.table_name)
                    &&& lookup(old(db)@.tables, st@.table_name) == Some(ins.table@)
                    &&& ins.st == st
                    &&& final(db)@.log == old(db)@.log
                    &&& keys_distinct(old(db)@.tables.update(key_index(old(db)@.tables, st@.table_name), (st@.table_name, final(ins.table)@)))
                    &&& final(db)@.tables == old(db)@.tables.update(
                        key_index(old(db)@.tables, st@.table_name),
                        (st@.table_name, final(ins.table)@),
                    )
                },
                Err(ExecutionErr::NoTable(n)) => n@ == st@.table_name && !has_key(old(db)@.tables, st@.table_name)
                    && final(db)@ == old(db)@,
                Err(_) => false,
            },
    {
        let table = match db.get_table(&st.table_name) {
            None => return Err(ExecutionErr::NoTable(st.table_name.clone())),
            Some(x) => x,
        };
        Ok(Self::new(table, st))
    }

    pub fn new(tb: &'a mut Table<K>, st: InsertSt) -> (r: Self)
        ensures
            *r.table == *old(tb),
            *final(tb) == *final(r.table),
            r.st == st,
    {
        Self { table: tb, st }
    }

    fn check_len(&self) -> (r: ExecutionResult<()>)
        ensures
            match r {
                Ok(_) => old(self.table)@.schema.len() == self.st@.fields.len(),
                Err(ExecutionErr::WrongArgLen { table, got, expected }) => table@ == self.st@.table_name
                    && got == self.st@.fields.len() && expected == old(self.table)@.schema.len()
                    && old(self.table)@.schema.len() != self.st@.fields.len(),
                Err(_) => false,
            },
    {
        let schema = self.table.get_schema();
        if schema.len() != self.st.fields.len() {
            return Err(ExecutionErr::WrongArgLen {
                table: self.st.table_name.clone(),
                expected: schema.len(),
                got: self.st.fields.len(),
            });
        }
        Ok(())
    }

    fn handle_pk(&self) -> (r: ExecutionResult<(&String, Value, K)>)
        ensures
            match r {
                Ok((pk, pkv, key)) => pk@ == old(self.table)@.key_name && has_key(self.st@.fields, pk@)
                    && lookup(self.st@.fields, pk@) == Some(pkv@) && K::key_of_value(pkv@) == Some(key@)
                    && !has_record_key(old(self.table)@.records, key@),
                Err(ExecutionErr::NoPK(n)) => n@ == old(self.table)@.key_name && !has_key(
                    self.st@.fields,
                    old(self.table)@.key_name,
                ),
                Err(ExecutionErr::WrongPKType { expected, got }) => has_key(self.st@.fields, old(self.table)@.key_name)
                    && K::key_of_value(lookup(self.st@.fields, old(self.table)@.key_name).unwrap()) is None
                    && expected == K::key_type() && got == value_type(
                    lookup(self.st@.fields, old(self.table)@.key_name).unwrap(),
                ),
                Err(ExecutionErr::RepeatedRecord(v)) => has_key(self.st@.fields, old(self.table)@.key_name)
                    && v@ == lookup(self.st@.fields, old(self.table)@.key_name).unwrap() && K::key_of_value(v@) is Some
                    && has_record_key(old(self.table)@.records, K::key_of_value(v@).unwrap()),
                Err(_) => false,
            },
    {
        let pk = self.table.get_pk();
        let pk_v = match self.st.fields.get(pk.as_str()) {
            None => return Err(ExecutionErr::NoPK(pk.clone())),
            Some(x) => x.copy(),
        };
        let val_key = match K::as_key_value(pk_v.copy()) {
            None => return Err(ExecutionErr::WrongPKType { expected: K::get_type(), got: pk_v.get_type() }),
            Some(x) => x,
        };
        if self.table.contains(&val_key) {
            return Err(ExecutionErr::RepeatedRecord(pk_v.copy()));
        }
        Ok((pk, pk_v, val_key))
    }

    fn fill_and_validate(&self, rec: &mut Record, pk: &String) -> (r: ExecutionResult<()>)
        requires
            old(rec)@ == Seq::<(Seq<char>, ValueView)>::empty(),
            pk@ == old(self.table)@.key_name,
        ensures
            match r {
                Ok(_) => fields_fit(old(self.table)@.schema, pk@, self.st@.fields, self.st@.fields.len() as int)
                    && final(rec)@ == without_field(self.st@.fields, pk@),
                Err(ExecutionErr::NoDef(f)) => exists|i: int|
                    0 <= i < self.st@.fields.len() && fields_fit(old(self.table)@.schema, pk@, self.st@.fields, i)
                        && !field_fits(old(self.table)@.schema, pk@, self.st@.fields[i]) && !has_key(
                        old(self.table)@.schema,
                        self.st@.fields[i].0,
                    ) && f@ == self.st@.fields[i].0,
                Err(ExecutionErr::BadType { field, got, expected }) => exists|i: int|
                    0 <= i < self.st@.fields.len() && fields_fit(old(self.table)@.schema, pk@, self.st@.fields, i)
                        && !field_fits(old(self.table)@.schema, pk@, self.st@.fields[i]) && lookup(
                        old(self.table)@.schema,
                        self.st@.fields[i].0,
                    ) == Some(expected) && got == value_type(self.st@.fields[i].1) && field@
                        == self.st@.fields[i].0,
                Err(_) => false,
            },
    {
        let schema = self.table.get_schema();
        let entries = self.st.fields.entries();
        let ghost fields = self.st@.fields;
        proof {
            use_type_invariant(&self.st.fields);
        }
        let mut i: usize = 0;
        while i < entries.len()
            invariant
                i <= entries@.len(),
                entries@ == self.st.fields.items(),
                fields == self.st@.fields,
                keys_distinct(fields),
                crate::model::field_map::names_sorted(fields),
                *schema == self.table.schema_map(),
                pk@ == self.table@.key_name,
                fields_fit(self.table@.schema, pk@, fields, i as int),
                rec@ == without_field(fields.take(i as int), pk@),
            decreases entries@.len() - i,
        {
            let field = &entries[i].0;
            let val = &entries[i].1;
            proof {
                assert(fields.take(i + 1).drop_last() =~= fields.take(i as int));
                assert(fields.take(i + 1).last() == fields[i as int]);
            }
            if crate::text::str_eq(field.as_str(), pk.as_str()) {
                i = i + 1;
                continue;
            }
            let ex_vt = match schema.get(field.as_str()) {
                None => {
                    return Err(ExecutionErr::NoDef(field.clone()));
                },
                Some(vt) => *vt,
            };
            let got_vt = val.get_type();
            if ex_vt != got_vt {
                return Err(ExecutionErr::BadType { field: field.clone(), got: got_vt, expected: ex_vt });
            }
            proof {
                lemma_without_field_keys(fields.take(i as int), pk@, fields[i as int].0);
                if has_key(fields.take(i as int), fields[i as int].0) {
                    let m = choose|m: int| 0 <= m < fields.take(i as int).len() && #[trigger] fields.take(i as int)[m].0 == fields[i as int].0;
                    assert(fields[m].0 != fields[i as int].0);
                }
            }
            proof {
                let rv = rec@;
                assert forall|m: int| 0 <= m < rv.len() implies crate::text::text_lt(#[trigger] rv[m].0, fields[i as int].0) by {
                    let x = rv[m].0;
                    assert(has_key(rv, x));
                    lemma_without_field_keys(fields.take(i as int), pk@, x);
                    let p = choose|p: int| 0 <= p < fields.take(i as int).len() && #[trigger] fields.take(i as int)[p].0 == x;
                    assert(fields[p].0 == x);
                }
                crate::model::field_map::lemma_insert_by_name_last(rv, (fields[i as int].0, fields[i as int].1));
            }
            if rec.add(field.clone(), val.copy()).is_some() {
                return Err(ExecutionErr::RepeatedColumn(field.clone()));
            }
            i = i + 1;
        }
        assert(fields.take(i as int) =~= fields);
        Ok(())
    }

    /// Adds the record `st` describes, if it has as many fields as the schema, a key of the
    /// database's key type that no record has yet, and every other field in the schema with
    /// the schema's type.
    pub fn execute(self) -> (r: ExecutionResult<()>)
        ensures
            insert_result::<K>(old(self.table)@, final(self.table)@, self.st@, r),
    {
        let mut rec = Record::new();
        match self.check_len() {
            Ok(_) => {},
            Err(e) => return Err(e),
        }
        let (pk, pk_v, val_key) = match self.handle_pk() {
            Ok(x) => x,
            Err(e) => return Err(e),
        };
        match self.fill_and_validate(&mut rec, pk) {
            Ok(_) => {},
            Err(e) => return Err(e),
        }
        if self.table.add_record(val_key, rec).is_some() {
            return Err(ExecutionErr::RepeatedRecord(pk_v));
        }
        Ok(())
    }
}

impl<'a, K: DatabaseKey> super::Command for Insert<'a, K> {
    open spec fn ready(&self) -> bool {
        true
    }

    fn execute(self) -> (r: ExecutionResult<()>)
        ensures
            insert_result::<K>(old(self.table)@, final(self.table)@, self.st@, r),
    {
        Insert::execute(self)
    }
}

} // verus!
