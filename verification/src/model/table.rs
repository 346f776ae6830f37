//! Values, records and tables.
use vstd::prelude::*;
use crate::model::database::DatabaseKey;
use crate::model::decimal::{Decimal, DecimalView, decimal_text, decimal_query_text, decimal_order};
use crate::model::field_map::{FieldMap, has_key, lookup, keys_distinct};
use crate::text::{int_text, text_lt, str_lt, str_eq, i64_to_string};

verus! {

/// The type of a column.
#[derive(Debug, Clone, Copy, PartialEq, Eq, Structural)]
pub enum ValueType {
    Bool,
    String,
    Int,
    Float,
}

impl View for ValueType {
    type V = ValueType;

    open spec fn view(&self) -> ValueType {
        *self
    }
}

/// How a type is written in `CREATE ... FIELDS`.
pub open spec fn type_query_name(t: ValueType) -> Seq<char> {
    match t {
        ValueType::Bool => "Bool"@,
        ValueType::String => "String"@,
        ValueType::Int => "Int"@,
        ValueType::Float => "Float"@,
    }
}

impl ValueType {
    /// The name of the type as the `CREATE ... FIELDS` syntax writes it.
    pub fn to_query_name(&self) -> (r: &'static str)
        ensures
            r@ == type_query_name(*self),
    {
        match self {
            ValueType::Bool => "Bool",
            ValueType::String => "String",
            ValueType::Int => "Int",
            ValueType::Float => "Float",
        }
    }
}

/// A value stored in a record. A fractional number is held exactly, as the decimal
/// digits it was written with.
#[derive(Debug, Clone, PartialEq)]
pub enum Value {
    Bool(bool),
    String(String),
    Int(i64),
    Float(Decimal),
}

/// The model of a value.
pub enum ValueView {
    Bool(bool),
    String(Seq<char>),
    Int(i64),
    Float(DecimalView),
}

impl View for Value {
    type V = ValueView;

    open spec fn view(&self) -> ValueView {
        match self {
            Value::Bool(b) => ValueView::Bool(*b),
            Value::String(s) => ValueView::String(s@),
            Value::Int(i) => ValueView::Int(*i),
            Value::Float(d) => ValueView::Float(d@),
        }
    }
}

pub open spec fn value_type(v: ValueView) -> ValueType {
    match v {
        ValueView::Bool(_) => ValueType::Bool,
        ValueView::String(_) => ValueType::String,
        ValueView::Int(_) => ValueType::Int,
        ValueView::Float(_) => ValueType::Float,
    }
}

/// The text a `SELECT` shows for a value.
pub open spec fn value_text(v: ValueView) -> Seq<char> {
    match v {
        ValueView::Bool(b) => if b {
            "true"@
        } else {
            "false"@
        },
        ValueView::Int(i) => int_text(i as int),
        ValueView::Float(d) => decimal_text(d),
        ValueView::String(s) => s,
    }
}

/// The text a query uses for a value: like `value_text`, but a whole fractional number keeps `.0`.
pub open spec fn value_query_text(v: ValueView) -> Seq<char> {
    match v {
        ValueView::Float(d) => decimal_query_text(d),
        _ => value_text(v),
    }
}

/// The order used by `ORDER_BY`: -1, 0 or 1. Values of different types are not ordered
/// against each other (0).
pub open spec fn value_order(a: ValueView, b: ValueView) -> int {
    match (a, b) {
        (ValueView::Int(x), ValueView::Int(y)) => if x < y {
            -1
        } else if x == y {
            0
        } else {
            1
        },
        (ValueView::Float(x), ValueView::Float(y)) => decimal_order(x, y),
        (ValueView::String(x), ValueView::String(y)) => if text_lt(x, y) {
            -1
        } else if x == y {
            0
        } else {
            1
        },
        (ValueView::Bool(x), ValueView::Bool(y)) => if !x && y {
            -1
        } else if x == y {
            0
        } else {
            1
        },
        _ => 0,
    }
}

pub open spec fn ordering_of(i: int) -> std::cmp::Ordering {
    if i < 0 {
        std::cmp::Ordering::Less
    } else if i == 0 {
        std::cmp::Ordering::Equal
    } else {
        std::cmp::Ordering::Greater
    }
}

impl Value {
    /// The type of the value.
    pub fn get_type(&self) -> (t: ValueType)
        ensures
            t == value_type(self@),
    {
        match self {
            Value::Bool(_) => ValueType::Bool,
            Value::Int(_) => ValueType::Int,
            Value::Float(_) => ValueType::Float,
            Value::String(_) => ValueType::String,
        }
    }

    /// An exact copy.
    pub fn copy(&self) -> (r: Value)
        ensures
            r@ == self@,
    {
        match self {
            Value::Bool(b) => Value::Bool(*b),
            Value::Int(i) => Value::Int(*i),
            Value::Float(d) => Value::Float(d.copy()),
            Value::String(s) => Value::String(s.clone()),
        }
    }

    /// The text shown for the value in `SELECT` results.
    pub fn to_display(&self) -> (s: String)
        ensures
            s@ == value_text(self@),
    {
        match self {
            Value::Bool(b) => {
                if *b {
                    String::from_str("true")
                } else {
                    String::from_str("false")
                }
            },
            Value::Int(i) => i64_to_string(*i),
            Value::Float(d) => d.to_display(),
            Value::String(s) => s.clone(),
        }
    }

    /// The text of the value in query syntax: a whole fractional number keeps its `.0`,
    /// so that it is read back as a fractional number.
    pub fn to_query_value(&self) -> (s: String)
        ensures
            s@ == value_query_text(self@),
    {
        match self {
            Value::Float(d) => d.to_query_text(),
            other => other.to_display(),
        }
    }

    /// Compares two values for `ORDER_BY`; values of different types count as equal.
    pub fn compare(&self, other: &Value) -> (r: std::cmp::Ordering)
        ensures
            r == ordering_of(value_order(self@, other@)),
    {
        match (self, other) {
            (Value::Int(a), Value::Int(b)) => {
                if *a < *b {
                    std::cmp::Ordering::Less
                } else if *a == *b {
                    std::cmp::Ordering::Equal
                } else {
                    std::cmp::Ordering::Greater
                }
            },
            (Value::Float(a), Value::Float(b)) => {
                let c = a.order_with(b);
                if c < 0 {
                    std::cmp::Ordering::Less
                } else if c == 0 {
                    std::cmp::Ordering::Equal
                } else {
                    std::cmp::Ordering::Greater
                }
            },
            (Value::String(a), Value::String(b)) => {
                if str_lt(a.as_str(), b.as_str()) {
                    std::cmp::Ordering::Less
                } else if str_eq(a.as_str(), b.as_str()) {
                    std::cmp::Ordering::Equal
                } else {
                    std::cmp::Ordering::Greater
                }
            },
            (Value::Bool(a), Value::Bool(b)) => {
                if !*a && *b {
                    std::cmp::Ordering::Less
                } else if *a == *b {
                    std::cmp::Ordering::Equal
                } else {
                    std::cmp::Ordering::Greater
                }
            },
            _ => std::cmp::Ordering::Equal,
        }
    }
}

/// The model of a record: its fields, by name.
pub type RecordView = Seq<(Seq<char>, ValueView)>;

/// A row of a table, without its key: field name to value.
pub struct Record {
    fields: FieldMap<Value>,
}

impl View for Record {
    type V = RecordView;

    open spec fn view(&self) -> RecordView {
        self.fields()@
    }
}

impl Record {
    pub closed spec fn fields(&self) -> FieldMap<Value> {
        self.fields
    }

    /// Each field occurs once.
    pub open spec fn wf(&self) -> bool {
        self.fields().wf()
    }

    /// A record without fields.
    pub fn new() -> (r: Self)
        ensures
            r.wf(),
            r@ == Seq::<(Seq<char>, ValueView)>::empty(),
    {
        Self { fields: FieldMap::new() }
    }

    /// Sets field `key` to `val`; gives back the value it had before, if any.
    pub fn add(&mut self, key: String, val: Value) -> (r: Option<Value>)
        ensures
            final(self).wf(),
            match r {
                Some(prev) => has_key(old(self)@, key@) && lookup(old(self)@, key@) == Some(prev@)
                    && final(self)@ == old(self)@.update(
                    crate::model::field_map::key_index(old(self)@, key@),
                    (key@, val@),
                ),
                None => !has_key(old(self)@, key@) && final(self)@ == crate::model::field_map::insert_by_name(
                    old(self)@,
                    (key@, val@),
                ),
            },
    {
        self.fields.insert(key, val)
    }

    /// The value of field `name`.
    pub fn get(&self, name: &str) -> (r: Option<&Value>)
        ensures
            match r {
                Some(v) => lookup(self@, name@) == Some(v@),
                None => lookup(self@, name@) == None::<ValueView>,
            },
    {
        self.fields.get(name)
    }

    /// The number of fields.
    pub fn len(&self) -> (n: usize)
        ensures
            n == self@.len(),
    {
        self.fields.len()
    }

    /// The fields, in the order they were added.
    pub fn get_fields(&self) -> (f: &FieldMap<Value>)
        ensures
            *f == self.fields(),
    {
        &self.fields
    }
}

impl Default for Record {
    fn default() -> (r: Self)
        ensures
            r.wf(),
            r@ == Seq::<(Seq<char>, ValueView)>::empty(),
    {
        Self::new()
    }
}

/// The model of a table.
pub struct TableView<KV> {
    /// The records with their keys, in increasing key order.
    pub records: Seq<(KV, RecordView)>,
    pub schema: Seq<(Seq<char>, ValueType)>,
    pub key_name: Seq<char>,
    pub table_name: Seq<char>,
}

/// The keys of `s` increase strictly.
pub open spec fn keys_increasing<K: DatabaseKey, R>(s: Seq<(K::V, R)>) -> bool {
    forall|i: int, j: int| 0 <= i < j < s.len() ==> K::key_lt(#[trigger] s[i].0, #[trigger] s[j].0)
}

/// `k` is the key of some record of `s`.
pub open spec fn has_record_key<KV, R>(s: Seq<(KV, R)>, k: KV) -> bool {
    exists|i: int| 0 <= i < s.len() && #[trigger] s[i].0 == k
}

/// A table: records kept in key order, a schema, the name of the key field and the
/// table's own name.
pub struct Table<K: DatabaseKey> {
    records: Vec<(K, Record)>,
    schema: FieldMap<ValueType>,
    key_name: String,
    table_name: String,
}

impl<K: DatabaseKey> View for Table<K> {
    type V = TableView<K::V>;

    open spec fn view(&self) -> TableView<K::V> {
        TableView {
            records: self.items().map_values(|e: (K, Record)| (e.0@, e.1@)),
            schema: self.schema_map()@,
            key_name: self.key_field()@,
            table_name: self.name()@,
        }
    }
}

impl<K: DatabaseKey> Table<K> {
    pub closed spec fn items(&self) -> Seq<(K, Record)> {
        self.records@
    }

    pub closed spec fn schema_map(&self) -> FieldMap<ValueType> {
        self.schema
    }

    pub closed spec fn key_field(&self) -> String {
        self.key_name
    }

    pub closed spec fn name(&self) -> String {
        self.table_name
    }

    /// Keys increase strictly.
    #[verifier::type_invariant]
    pub open spec fn wf(&self) -> bool {
        keys_increasing::<K, RecordView>(self@.records)
    }

    /// An empty table with the given schema.
    pub fn new_empty(schema: FieldMap<ValueType>, key_name: String, table_name: String) -> (t: Self)
        ensures
            t.wf(),
            t@.records == Seq::<(K::V, RecordView)>::empty(),
            t@.schema == schema@,
            t.schema_map() == schema,
            t@.key_name == key_name@,
            t@.table_name == table_name@,
    {
        let t = Self { records: Vec::new(), schema, key_name, table_name };
        assert(t@.records =~= Seq::<(K::V, RecordView)>::empty());
        t
    }

    /// The number of leading records whose key is below `key`.
    fn position(&self, key: &K) -> (i: usize)
        ensures
            i <= self@.records.len(),
            forall|j: int| 0 <= j < i ==> K::key_lt(#[trigger] self@.records[j].0, key@),
            forall|j: int| i <= j < self@.records.len() ==> !K::key_lt(#[trigger] self@.records[j].0, key@),
    {
        proof {
            use_type_invariant(self);
        }
        let mut i: usize = 0;
        while i < self.records.len() && self.records[i].0.key_less(key)
            invariant
                self.wf(),
                i <= self@.records.len(),
                forall|j: int| 0 <= j < i ==> K::key_lt(#[trigger] self@.records[j].0, key@),
            decreases self@.records.len() - i,
        {
            i = i + 1;
        }
        proof {
            if i < self@.records.len() {
                assert forall|j: int| i <= j < self@.records.len() implies !K::key_lt(
                    #[trigger] self@.records[j].0,
                    key@,
                ) by {
                    if j > i {
                        K::lemma_key_order(self@.records[i as int].0, self@.records[j].0, key@);
                    }
                }
            }
        }
        i
    }

    /// Whether a record with `key` is present.
    pub fn contains(&self, key: &K) -> (b: bool)
        ensures
            b == has_record_key(self@.records, key@),
    {
        proof {
            use_type_invariant(self);
        }
        let i = self.position(key);
        let b = i < self.records.len() && self.records[i].0.key_eq(key);
        proof {
            if b {
                assert(self@.records[i as int].0 == key@);
            }
            if !b && has_record_key(self@.records, key@) {
                let j = choose|j: int| 0 <= j < self@.records.len() && #[trigger] self@.records[j].0 == key@;
                K::lemma_key_order(key@, key@, key@);
                if j > i {
                    K::lemma_key_order(self@.records[i as int].0, key@, key@);
                }
            }
        }
        b
    }

    /// The record with `key`, if present.
    pub fn get_record(&self, key: &K) -> (r: Option<&Record>)
        ensures
            match r {
                Some(rec) => exists|i: int|
                    0 <= i < self@.records.len() && #[trigger] self@.records[i].0 == key@
                        && self@.records[i].1 == rec@,
                None => !has_record_key(self@.records, key@),
            },
    {
        proof {
            use_type_invariant(self);
        }
        let i = self.position(key);
        if i < self.records.len() && self.records[i].0.key_eq(key) {
            assert(self@.records[i as int].0 == key@);
            Some(&self.records[i].1)
        } else {
            proof {
                if has_record_key(self@.records, key@) {
                    let j = choose|j: int| 0 <= j < self@.records.len() && #[trigger] self@.records[j].0 == key@;
                    K::lemma_key_order(key@, key@, key@);
                    if j > i {
                        K::lemma_key_order(self@.records[i as int].0, key@, key@);
                    }
                }
            }
            None
        }
    }

    /// Stores `val` under `key`, in key order; gives back the record that had that key.
    pub fn add_record(&mut self, key: K, val: Record) -> (r: Option<Record>)
        ensures
            final(self).wf(),
            final(self)@.schema == old(self)@.schema,
            final(self)@.key_name == old(self)@.key_name,
            final(self)@.table_name == old(self)@.table_name,
            match r {
                Some(prev) => exists|i: int|
                    0 <= i < old(self)@.records.len() && #[trigger] old(self)@.records[i].0 == key@
                        && old(self)@.records[i].1 == prev@ && final(self)@.records == old(
                    self,
                )@.records.update(i, (key@, val@)),
                None => !has_record_key(old(self)@.records, key@) && exists|i: int|
                    0 <= i <= old(self)@.records.len() && final(self)@.records == old(
                        self,
                    )@.records.insert(i, (key@, val@)),
            },
    {
        proof {
            use_type_invariant(&*self);
        }
        let i = self.position(&key);
        let mut records: Vec<(K, Record)> = Vec::new();
        std::mem::swap(&mut records, &mut self.records);
        if i < records.len() && records[i].0.key_eq(&key) {
            let (_k, prev) = records.remove(i);
            records.insert(i, (key, val));
            proof {
                let ghost s = old(self)@.records;
                let ghost n = records@.map_values(|e: (K, Record)| (e.0@, e.1@));
                assert(n =~= s.update(i as int, (key@, val@)));
                assert(s[i as int].0 == key@);
                assert forall|a: int, b: int| 0 <= a < b < n.len() implies K::key_lt(
                    #[trigger] n[a].0,
                    #[trigger] n[b].0,
                ) by {
                    assert(K::key_lt(s[a].0, s[b].0));
                }
            }
            self.records = records;
            proof {
                let ghost s = old(self)@.records;
                assert(self.records@ =~= old(self).records@.update(i as int, (key, val)));
                assert(self@.records =~= s.update(i as int, (key@, val@)));
                assert(old(self)@.records[i as int].0 == key@);
            }
            Some(prev)
        } else {
            proof {
                if has_record_key(old(self)@.records, key@) {
                    let j = choose|j: int| 0 <= j < old(self)@.records.len() && #[trigger] old(self)@.records[j].0 == key@;
                    K::lemma_key_order(key@, key@, key@);
                    if j > i {
                        K::lemma_key_order(old(self)@.records[i as int].0, key@, key@);
                    }
                }
            }
            records.insert(i, (key, val));
            proof {
                let ghost s = old(self)@.records;
                let ghost n = records@.map_values(|e: (K, Record)| (e.0@, e.1@));
                assert(n =~= s.insert(i as int, (key@, val@)));
                assert forall|a: int, b: int| 0 <= a < b < n.len() implies K::key_lt(
                    #[trigger] n[a].0,
                    #[trigger] n[b].0,
                ) by {
                    if b < i {
                    } else if b == i {
                    } else if a < i {
                        if i < s.len() {
                            K::lemma_key_order(s[a].0, key@, s[i as int].0);
                            K::lemma_key_order(key@, s[i as int].0, s[b - 1].0);
                            K::lemma_key_order(s[a].0, s[i as int].0, s[b - 1].0);
                        }
                    } else if a == i {
                        if b - 1 > i {
                            K::lemma_key_order(key@, s[i as int].0, s[b - 1].0);
                        } else {
                            K::lemma_key_order(key@, s[i as int].0, s[i as int].0);
                        }
                    } else {
                        assert(K::key_lt(s[a - 1].0, s[b - 1].0));
                    }
                }
            }
            self.records = records;
            proof {
                let ghost s = old(self)@.records;
                assert(self@.records =~= s.insert(i as int, (key@, val@)));
                assert forall|a: int, b: int| 0 <= a < b < self@.records.len() implies K::key_lt(
                    #[trigger] self@.records[a].0,
                    #[trigger] self@.records[b].0,
                ) by {
                    if b < i {
                    } else if b == i {
                    } else if a < i {
                        // s[a] < key <= s[b-1]
                        if i < s.len() {
                            K::lemma_key_order(s[a].0, key@, s[i as int].0);
                            K::lemma_key_order(key@, s[i as int].0, s[b - 1].0);
                            K::lemma_key_order(s[a].0, s[i as int].0, s[b - 1].0);
                        }
                    } else if a == i {
                        if b - 1 > i {
                            K::lemma_key_order(key@, s[i as int].0, s[b - 1].0);
                        } else {
                            K::lemma_key_order(key@, s[i as int].0, s[i as int].0);
                        }
                    } else {
                        assert(K::key_lt(s[a - 1].0, s[b - 1].0));
                    }
                }
            }
            None
        }
    }

    /// Removes the record with `key`; gives it back if it was there.
    pub fn delete_record(&mut self, key: &K) -> (r: Option<Record>)
        ensures
            final(self).wf(),
            final(self)@.schema == old(self)@.schema,
            final(self)@.key_name == old(self)@.key_name,
            final(self)@.table_name == old(self)@.table_name,
            match r {
                Some(prev) => exists|i: int|
                    0 <= i < old(self)@.records.len() && #[trigger] old(self)@.records[i].0 == key@
                        && old(self)@.records[i].1 == prev@ && final(self)@.records == old(
                    self,
                )@.records.remove(i),
                None => !has_record_key(old(self)@.records, key@) && final(self)@ == old(self)@,
            },
    {
        proof {
            use_type_invariant(&*self);
        }
        let i = self.position(key);
        if i < self.records.len() && self.records[i].0.key_eq(key) {
            let mut records: Vec<(K, Record)> = Vec::new();
            std::mem::swap(&mut records, &mut self.records);
            let (_k, prev) = records.remove(i);
            proof {
                let ghost s = old(self)@.records;
                let ghost n = records@.map_values(|e: (K, Record)| (e.0@, e.1@));
                assert(n =~= s.remove(i as int));
                assert(s[i as int].0 == key@);
                assert forall|a: int, b: int| 0 <= a < b < n.len() implies K::key_lt(
                    #[trigger] n[a].0,
                    #[trigger] n[b].0,
                ) by {
                    if a < i && b >= i {
                        assert(K::key_lt(s[a].0, s[b + 1].0));
                    } else if a >= i {
                        assert(K::key_lt(s[a + 1].0, s[b + 1].0));
                    }
                }
            }
            self.records = records;
            proof {
                assert(self@.records =~= old(self)@.records.remove(i as int));
            }
            Some(prev)
        } else {
            proof {
                if has_record_key(old(self)@.records, key@) {
                    let j = choose|j: int| 0 <= j < old(self)@.records.len() && #[trigger] old(self)@.records[j].0 == key@;
                    K::lemma_key_order(key@, key@, key@);
                    if j > i {
                        K::lemma_key_order(old(self)@.records[i as int].0, key@, key@);
                    }
                }
            }
            None
        }
    }

    /// The records with their keys, in increasing key order.
    pub fn get_records(&self) -> (r: &Vec<(K, Record)>)
        ensures
            r@ == self.items(),
    {
        &self.records
    }

    /// The schema: field name to type.
    pub fn get_schema(&self) -> (s: &FieldMap<ValueType>)
        ensures
            *s == self.schema_map(),
    {
        &self.schema
    }

    /// The name of the primary key field.
    pub fn get_pk(&self) -> (s: &String)
        ensures
            s@ == self@.key_name,
    {
        &self.key_name
    }

    /// The name of the table.
    pub fn get_tk(&self) -> (s: &String)
        ensures
            s@ == self@.table_name,
    {
        &self.table_name
    }
}

} // verus!

verus! {

/// Among values of one type, `value_order(_, _) <= 0` is total and transitive.
pub proof fn lemma_value_order(a: ValueView, b: ValueView, c: ValueView)
    requires
        value_type(a) == value_type(b),
        value_type(b) == value_type(c),
    ensures
        value_order(a, b) <= 0 || value_order(b, a) <= 0,
        value_order(a, b) <= 0 && value_order(b, c) <= 0 ==> value_order(a, c) <= 0,
{
    match (a, b, c) {
        (ValueView::Float(x), ValueView::Float(y), ValueView::Float(z)) => {
            crate::model::decimal::lemma_decimal_order(x, y, z);
        },
        (ValueView::String(x), ValueView::String(y), ValueView::String(z)) => {
            crate::text::lemma_text_order(x, y, z);
            crate::text::lemma_text_order(y, z, x);
            crate::text::lemma_text_order(x, z, y);
            crate::text::lemma_text_order(y, x, z);
        },
        _ => {},
    }
}

} // verus!
