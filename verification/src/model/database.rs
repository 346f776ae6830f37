//! Keys, databases of tables, and the choice between string- and integer-keyed databases.
use vstd::prelude::*;
use crate::model::table::{Value, ValueView, ValueType, Table, TableView, value_text};
use crate::model::field_map::{FieldMap, has_key, lookup, key_index};
use crate::text::{text_lt, int_text, parse_i64_text, lemma_text_order, str_lt, str_eq, chars_of, parse_i64, i64_to_string};

verus! {

/// A type that can serve as a primary key: strings or integers.
pub trait DatabaseKey: Sized + View {
    /// The order of keys; records are kept in this order.
    spec fn key_lt(a: Self::V, b: Self::V) -> bool;

    /// The column type that keys of this kind have.
    spec fn key_type() -> ValueType;

    /// The key a value stands for, when it has the key's type.
    spec fn key_of_value(v: ValueView) -> Option<Self::V>;

    /// The key that a text (as in `DELETE <key> FROM ...`) stands for.
    spec fn key_of_text(s: Seq<char>) -> Option<Self::V>;

    /// The key as a value.
    spec fn key_value(k: Self::V) -> ValueView;

    /// `key_lt` is a strict total order.
    proof fn lemma_key_order(a: Self::V, b: Self::V, c: Self::V)
        ensures
            !Self::key_lt(a, a),
            Self::key_lt(a, b) && Self::key_lt(b, c) ==> Self::key_lt(a, c),
            a == b || Self::key_lt(a, b) || Self::key_lt(b, a),
            Self::key_lt(a, b) ==> !Self::key_lt(b, a),
    ;

    /// A key turned into a value is read back as the same key.
    proof fn lemma_key_value(k: Self::V)
        ensures
            Self::key_of_value(Self::key_value(k)) == Some(k),
            crate::model::table::value_type(Self::key_value(k)) == Self::key_type(),
    ;

    /// The text shown for a key reads back as the same key.
    proof fn lemma_key_text(k: Self::V)
        ensures
            Self::key_of_text(value_text(Self::key_value(k))) == Some(k),
    ;

    /// A value that stands for a key is that key as a value.
    proof fn lemma_key_of_value(v: ValueView)
        ensures
            Self::key_of_value(v) matches Some(k) ==> Self::key_value(k) == v,
    ;

    /// The column type of keys.
    fn get_type() -> (t: ValueType)
        ensures
            t == Self::key_type(),
    ;

    /// The key inside `val`, when `val` has the key's type.
    fn to_type(val: &Value) -> (r: Option<&Self>)
        ensures
            match r {
                Some(k) => Self::key_of_value(val@) == Some(k@),
                None => Self::key_of_value(val@) == None::<Self::V>,
            },
    ;

    /// The key that `val` stands for, when `val` has the key's type.
    fn as_key_value(val: Value) -> (r: Option<Self>)
        ensures
            match r {
                Some(k) => Self::key_of_value(val@) == Some(k@),
                None => Self::key_of_value(val@) == None::<Self::V>,
            },
    ;

    /// The key that the text `s` stands for.
    fn as_key_string(s: String) -> (r: Option<Self>)
        ensures
            match r {
                Some(k) => Self::key_of_text(s@) == Some(k@),
                None => Self::key_of_text(s@) == None::<Self::V>,
            },
    ;

    /// `self < other` in key order.
    fn key_less(&self, other: &Self) -> (r: bool)
        ensures
            r == Self::key_lt(self@, other@),
    ;

    /// `self == other`.
    fn key_eq(&self, other: &Self) -> (r: bool)
        ensures
            r == (self@ == other@),
    ;

    /// An exact copy.
    fn key_copy(&self) -> (r: Self)
        ensures
            r@ == self@,
    ;

    /// The text shown for the key in `SELECT` results.
    fn to_display(&self) -> (s: String)
        ensures
            s@ == value_text(Self::key_value(self@)),
    ;

    /// The key as a value.
    fn to_value(&self) -> (v: Value)
        ensures
            v@ == Self::key_value(self@),
    ;
}

impl DatabaseKey for String {
    open spec fn key_lt(a: Seq<char>, b: Seq<char>) -> bool {
        text_lt(a, b)
    }

    open spec fn key_type() -> ValueType {
        ValueType::String
    }

    open spec fn key_of_value(v: ValueView) -> Option<Seq<char>> {
        match v {
            ValueView::String(s) => Some(s),
            _ => None,
        }
    }

    open spec fn key_of_text(s: Seq<char>) -> Option<Seq<char>> {
        Some(s)
    }

    open spec fn key_value(k: Seq<char>) -> ValueView {
        ValueView::String(k)
    }

    proof fn lemma_key_order(a: Seq<char>, b: Seq<char>, c: Seq<char>) {
        lemma_text_order(a, b, c);
    }

    proof fn lemma_key_value(k: Seq<char>) {
    }

    proof fn lemma_key_text(k: Seq<char>) {
    }

    proof fn lemma_key_of_value(v: ValueView) {
    }

    fn get_type() -> (t: ValueType) {
        ValueType::String
    }

    fn to_type(val: &Value) -> (r: Option<&String>) {
        match val {
            Value::String(s) => Some(s),
            _ => None,
        }
    }

    fn as_key_value(val: Value) -> (r: Option<String>) {
        match val {
            Value::String(s) => Some(s),
            _ => None,
        }
    }

    fn as_key_string(s: String) -> (r: Option<String>) {
        Some(s)
    }

    fn key_less(&self, other: &String) -> (r: bool) {
        str_lt(self.as_str(), other.as_str())
    }

    fn key_eq(&self, other: &String) -> (r: bool) {
        str_eq(self.as_str(), other.as_str())
    }

    fn key_copy(&self) -> (r: String) {
        self.clone()
    }

    fn to_display(&self) -> (s: String) {
        self.clone()
    }

    fn to_value(&self) -> (v: Value) {
        Value::String(self.clone())
    }
}

impl DatabaseKey for i64 {
    open spec fn key_lt(a: i64, b: i64) -> bool {
        a < b
    }

    open spec fn key_type() -> ValueType {
        ValueType::Int
    }

    open spec fn key_of_value(v: ValueView) -> Option<i64> {
        match v {
            ValueView::Int(i) => Some(i),
            _ => None,
        }
    }

    open spec fn key_of_text(s: Seq<char>) -> Option<i64> {
        parse_i64_text(s)
    }

    open spec fn key_value(k: i64) -> ValueView {
        ValueView::Int(k)
    }

    proof fn lemma_key_order(a: i64, b: i64, c: i64) {
    }

    proof fn lemma_key_value(k: i64) {
    }

    proof fn lemma_key_text(k: i64) {
        crate::parsing::round_trip::lemma_int_text(k);
    }

    proof fn lemma_key_of_value(v: ValueView) {
    }

    fn get_type() -> (t: ValueType) {
        ValueType::Int
    }

    fn to_type(val: &Value) -> (r: Option<&i64>) {
        match val {
            Value::Int(i) => Some(i),
            _ => None,
        }
    }

    fn as_key_value(val: Value) -> (r: Option<i64>) {
        match val {
            Value::Int(i) => Some(i),
            _ => None,
        }
    }

    fn as_key_string(s: String) -> (r: Option<i64>) {
        let v = chars_of(s.as_str());
        assert(v@.subrange(0, v@.len() as int) =~= v@);
        parse_i64(&v, 0, v.len())
    }

    fn key_less(&self, other: &i64) -> (r: bool) {
        *self < *other
    }

    fn key_eq(&self, other: &i64) -> (r: bool) {
        *self == *other
    }

    fn key_copy(&self) -> (r: i64) {
        *self
    }

    fn to_display(&self) -> (s: String) {
        i64_to_string(*self)
    }

    fn to_value(&self) -> (v: Value) {
        Value::Int(*self)
    }
}

} // verus!

verus! {

/// The model of a database: its tables by name, and the log of statements run on it.
pub struct DatabaseView<KV> {
    pub tables: Seq<(Seq<char>, TableView<KV>)>,
    pub log: Seq<crate::parsing::statements::StatementView>,
}

/// A database: tables by name, with keys of one type, and the log of the statements
/// executed on it.
pub struct Database<K: DatabaseKey> {
    tables: Vec<(String, Table<K>)>,
    log: Vec<crate::parsing::statements::Statement>,
}

impl<K: DatabaseKey> View for Database<K> {
    type V = DatabaseView<K::V>;

    open spec fn view(&self) -> DatabaseView<K::V> {
        DatabaseView {
            tables: self.table_items().map_values(|e: (String, Table<K>)| (e.0@, e.1@)),
            log: self.log_items().map_values(|s: crate::parsing::statements::Statement| s@),
        }
    }
}

impl<K: DatabaseKey> Database<K> {
    pub closed spec fn table_items(&self) -> Seq<(String, Table<K>)> {
        self.tables@
    }

    pub closed spec fn log_items(&self) -> Seq<crate::parsing::statements::Statement> {
        self.log@
    }

    /// Each table name occurs once.
    pub open spec fn wf(&self) -> bool {
        crate::model::field_map::keys_distinct(self@.tables)
    }

    /// An empty database.
    pub fn new() -> (db: Self)
        ensures
            db.wf(),
            db@.tables == Seq::<(Seq<char>, TableView<K::V>)>::empty(),
            db@.log == Seq::<crate::parsing::statements::StatementView>::empty(),
    {
        let db = Self { tables: Vec::new(), log: Vec::new() };
        assert(db@.tables =~= Seq::<(Seq<char>, TableView<K::V>)>::empty());
        assert(db@.log =~= Seq::<crate::parsing::statements::StatementView>::empty());
        db
    }

    fn find_table(&self, name: &str) -> (r: Option<usize>)
        requires
            self.wf(),
        ensures
            match r {
                Some(i) => i < self@.tables.len() && self@.tables[i as int].0 == name@
                    && key_index(self@.tables, name@) == i && has_key(self@.tables, name@),
                None => !has_key(self@.tables, name@),
            },
    {
        let mut i: usize = 0;
        while i < self.tables.len()
            invariant
                self.wf(),
                i <= self.tables@.len(),
                forall|j: int| 0 <= j < i ==> self@.tables[j].0 != name@,
            decreases self.tables@.len() - i,
        {
            if str_eq(self.tables[i].0.as_str(), name) {
                proof {
                    crate::model::field_map::lemma_lookup_at(self@.tables, i as int);
                }
                return Some(i);
            }
            i = i + 1;
        }
        None
    }

    /// Whether a table with this name exists.
    pub fn contains_table(&self, table_name: &String) -> (b: bool)
        requires
            self.wf(),
        ensures
            b == has_key(self@.tables, table_name@),
    {
        self.find_table(table_name.as_str()).is_some()
    }

    /// Stores the table under `table_name`; gives back the table that had that name.
    pub fn insert(&mut self, table_name: String, tb: Table<K>) -> (r: Option<Table<K>>)
        requires
            old(self).wf(),
        ensures
            final(self).wf(),
            final(self)@.log == old(self)@.log,
            match r {
                Some(prev) => has_key(old(self)@.tables, table_name@) && lookup(old(self)@.tables, table_name@)
                    == Some(prev@) && final(self)@.tables == old(self)@.tables.update(
                    key_index(old(self)@.tables, table_name@),
                    (table_name@, tb@),
                ),
                None => !has_key(old(self)@.tables, table_name@) && final(self)@.tables == old(
                    self,
                )@.tables.push((table_name@, tb@)),
            },
    {
        match self.find_table(table_name.as_str()) {
            Some(i) => {
                let (_n, prev) = self.tables.remove(i);
                self.tables.insert(i, (table_name, tb));
                proof {
                    let ghost s = old(self)@.tables;
                    assert(self@.tables =~= s.update(i as int, (table_name@, tb@)));
                    crate::model::field_map::lemma_lookup_at(s, i as int);
                    assert forall|a: int, b: int| 0 <= a < b < self@.tables.len() implies #[trigger] self@.tables[a].0
                        != #[trigger] self@.tables[b].0 by {
                        assert(s[a].0 != s[b].0);
                    }
                    assert(self@.log =~= old(self)@.log);
                }
                Some(prev)
            },
            None => {
                self.tables.push((table_name, tb));
                proof {
                    let ghost s = old(self)@.tables;
                    assert(self@.tables =~= s.push((table_name@, tb@)));
                    assert forall|a: int, b: int| 0 <= a < b < self@.tables.len() implies #[trigger] self@.tables[a].0
                        != #[trigger] self@.tables[b].0 by {
                        if b < s.len() {
                            assert(s[a].0 != s[b].0);
                        } else {
                            assert(s[a].0 == self@.tables[a].0);
                        }
                    }
                    assert(self@.log =~= old(self)@.log);
                }
                None
            },
        }
    }

    /// The tables with their names.
    pub fn get_tables(&self) -> (t: &Vec<(String, Table<K>)>)
        ensures
            t@ == self.table_items(),
    {
        &self.tables
    }

    /// The table with this name.
    pub fn table(&self, table_name: &str) -> (r: Option<&Table<K>>)
        requires
            self.wf(),
        ensures
            match r {
                Some(t) => has_key(self@.tables, table_name@) && lookup(self@.tables, table_name@) == Some(t@),
                None => !has_key(self@.tables, table_name@),
            },
    {
        match self.find_table(table_name) {
            Some(i) => {
                proof {
                    crate::model::field_map::lemma_lookup_at(self@.tables, i as int);
                }
                Some(&self.tables[i].1)
            },
            None => None,
        }
    }

    /// The table with this name, to be changed in place.
    pub fn get_table(&mut self, table_name: &String) -> (r: Option<&mut Table<K>>)
        requires
            old(self).wf(),
        ensures
            final(self)@.log == old(self)@.log,
            match r {
                Some(t) => {
                    &&& has_key(old(self)@.tables, table_name@)
                    &&& crate::model::field_map::keys_distinct(old(self)@.tables.update(
                        key_index(old(self)@.tables, table_name@),
                        (table_name@, final(t)@),
                    ))
                    &&& lookup(old(self)@.tables, table_name@) == Some(t@)
                    &&& final(self)@.tables == old(self)@.tables.update(
                        key_index(old(self)@.tables, table_name@),
                        (table_name@, final(t)@),
                    )
                },
                None => !has_key(old(self)@.tables, table_name@) && final(self)@ == old(self)@,
            },
    {
        match self.find_table(table_name.as_str()) {
            Some(i) => {
                proof {
                    crate::model::field_map::lemma_lookup_at(old(self)@.tables, i as int);
                }
                proof {
                    lemma_update_keeps_distinct(old(self)@.tables, i as int, table_name@);
                }
                let r = &mut self.tables[i].1;
                Some(r)
            },
            None => None,
        }
    }

    /// Appends a statement to the log.
    pub fn add_log(&mut self, st: crate::parsing::statements::Statement)
        ensures
            final(self)@.tables == old(self)@.tables,
            final(self)@.log == old(self)@.log.push(st@),
            final(self).wf() == old(self).wf(),
    {
        self.log.push(st);
        proof {
            assert(self@.tables =~= old(self)@.tables);
            assert(self@.log =~= old(self)@.log.push(st@));
        }
    }

    /// The statements executed so far, oldest first.
    pub fn get_log(&self) -> (l: &Vec<crate::parsing::statements::Statement>)
        ensures
            l@ == self.log_items(),
    {
        &self.log
    }
}

/// Changing the value at one position keeps the names distinct.
pub proof fn lemma_update_keeps_distinct<A>(s: Seq<(Seq<char>, A)>, i: int, k: Seq<char>)
    requires
        crate::model::field_map::keys_distinct(s),
        0 <= i < s.len(),
        s[i].0 == k,
    ensures
        forall|y: A| crate::model::field_map::keys_distinct(#[trigger] s.update(i, (k, y))),
{
    assert forall|y: A| crate::model::field_map::keys_distinct(#[trigger] s.update(i, (k, y))) by {
        let t = s.update(i, (k, y));
        assert forall|a: int, b: int| 0 <= a < b < t.len() implies #[trigger] t[a].0 != #[trigger] t[b].0 by {
            assert(s[a].0 != s[b].0);
        }
    }
}

/// A database keyed by strings or by integers, as chosen when the program starts.
pub enum AnyDatabase {
    StringDatabase(Database<String>),
    IntDatabase(Database<i64>),
}

impl AnyDatabase {
    pub open spec fn wf(&self) -> bool {
        match self {
            AnyDatabase::StringDatabase(db) => db.wf(),
            AnyDatabase::IntDatabase(db) => db.wf(),
        }
    }

    /// Whether a table with this name exists.
    pub fn contains_table(&self, table: &String) -> (b: bool)
        requires
            self.wf(),
        ensures
            b == match self {
                AnyDatabase::StringDatabase(db) => has_key(db@.tables, table@),
                AnyDatabase::IntDatabase(db) => has_key(db@.tables, table@),
            },
    {
        match self {
            AnyDatabase::StringDatabase(db) => db.contains_table(table),
            AnyDatabase::IntDatabase(db) => db.contains_table(table),
        }
    }

    /// Runs a `CREATE` on the database, whichever its key type.
    pub fn visit_create(&mut self, st: crate::parsing::statements::CreateSt) -> (r: crate::errors::ExecutionResult<()>)
        requires
            old(self).wf(),
        ensures
            final(self).wf(),
            match *old(self) {
                AnyDatabase::StringDatabase(a) => *final(self) matches AnyDatabase::StringDatabase(b)
                    && crate::model::commands::create_command::create_result::<String>(a@, b@, st@, r),
                AnyDatabase::IntDatabase(a) => *final(self) matches AnyDatabase::IntDatabase(b)
                    && crate::model::commands::create_command::create_result::<i64>(a@, b@, st@, r),
            },
    {
        match self {
            AnyDatabase::StringDatabase(db) => crate::model::commands::create_command::Create::new(db, st).execute(),
            AnyDatabase::IntDatabase(db) => crate::model::commands::create_command::Create::new(db, st).execute(),
        }
    }
}

} // verus!
