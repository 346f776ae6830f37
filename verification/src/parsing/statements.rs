//! The statements a query is made of, and their text in query syntax.
use vstd::prelude::*;
use crate::model::field_map::FieldMap;
use crate::model::table::{Value, ValueView, ValueType, type_query_name, value_query_text};
use crate::sorting::{sort_by, sort_positions};
use crate::text::{join, join_strings, text_lt, str_lt, nat_text, u64_to_string, push_str};
use crate::parsing::grammar::{ParseFailure, parse_query};
use crate::parsing::round_trip::{statement_words, law_statement_reads_back};

verus! {

/// `CREATE <table> KEY <key> FIELDS <field>: <Type>, ...`
#[derive(Debug, PartialEq)]
pub struct CreateSt {
    pub table_name: String,
    pub key_name: String,
    pub schema: FieldMap<ValueType>,
}

/// `INSERT <field> = <value>, ... INTO <table>`
#[derive(Debug, PartialEq)]
pub struct InsertSt {
    pub fields: FieldMap<Value>,
    pub table_name: String,
}

/// `DELETE <key> FROM <table>`
#[derive(Debug, PartialEq, Clone)]
pub struct DeleteSt {
    pub table_name: String,
    pub key: String,
}

/// `READ_FROM <path>`
#[derive(Debug, PartialEq, Clone)]
pub struct ReadSt {
    pub path: String,
}

/// `SAVE_AS <path>`
#[derive(Debug, PartialEq, Clone)]
pub struct SaveSt {
    pub path: String,
}

/// `SELECT <columns | *> FROM <table> [ORDER_BY <field>] [LIMIT <n>]`
#[derive(Debug, Clone)]
pub struct SelectSt {
    pub rows: Vec<String>,
    pub all_rows: bool,
    pub table_name: String,
    pub limit: Option<LimitSt>,
    pub order_by: Option<OrderBySt>,
}

/// `LIMIT <n>`
#[derive(Debug, Clone, Copy)]
pub struct LimitSt(pub u64);

/// `ORDER_BY <field>`
#[derive(Debug, Clone)]
pub struct OrderBySt(pub String);

/// One statement of a query; `NoStatement` stands for the end of the query.
#[derive(Debug)]
pub enum Statement {
    NoStatement,
    Create(CreateSt),
    Insert(InsertSt),
    Delete(DeleteSt),
    Read(ReadSt),
    Save(SaveSt),
    Select(SelectSt),
}

pub struct CreateStView {
    pub table_name: Seq<char>,
    pub key_name: Seq<char>,
    pub schema: Seq<(Seq<char>, ValueType)>,
}

pub struct InsertStView {
    pub fields: Seq<(Seq<char>, ValueView)>,
    pub table_name: Seq<char>,
}

pub struct DeleteStView {
    pub table_name: Seq<char>,
    pub key: Seq<char>,
}

pub struct SelectStView {
    pub rows: Seq<Seq<char>>,
    pub all_rows: bool,
    pub table_name: Seq<char>,
    pub limit: Option<u64>,
    pub order_by: Option<Seq<char>>,
}

/// The model of a statement.
pub enum StatementView {
    NoStatement,
    Create(CreateStView),
    Insert(InsertStView),
    Delete(DeleteStView),
    Read(Seq<char>),
    Save(Seq<char>),
    Select(SelectStView),
}

impl View for CreateSt {
    type V = CreateStView;

    open spec fn view(&self) -> CreateStView {
        CreateStView { table_name: self.table_name@, key_name: self.key_name@, schema: self.schema@ }
    }
}

impl View for InsertSt {
    type V = InsertStView;

    open spec fn view(&self) -> InsertStView {
        InsertStView { fields: self.fields@, table_name: self.table_name@ }
    }
}

impl View for DeleteSt {
    type V = DeleteStView;

    open spec fn view(&self) -> DeleteStView {
        DeleteStView { table_name: self.table_name@, key: self.key@ }
    }
}

impl View for SelectSt {
    type V = SelectStView;

    open spec fn view(&self) -> SelectStView {
        SelectStView {
            rows: self.rows@.map_values(|r: String| r@),
            all_rows: self.all_rows,
            table_name: self.table_name@,
            limit: match self.limit {
                Some(l) => Some(l.0),
                None => None,
            },
            order_by: match self.order_by {
                Some(o) => Some(o.0@),
                None => None,
            },
        }
    }
}

impl View for Statement {
    type V = StatementView;

    open spec fn view(&self) -> StatementView {
        match self {
            Statement::NoStatement => StatementView::NoStatement,
            Statement::Create(c) => StatementView::Create(c@),
            Statement::Insert(i) => StatementView::Insert(i@),
            Statement::Delete(d) => StatementView::Delete(d@),
            Statement::Read(r) => StatementView::Read(r.path@),
            Statement::Save(s) => StatementView::Save(s.path@),
            Statement::Select(s) => StatementView::Select(s@),
        }
    }
}

/// Positions `0..names.len()` in increasing order of the names.
pub open spec fn name_order(names: Seq<Seq<char>>) -> Seq<usize> {
    sort_by(
        Seq::new(names.len(), |i: int| i as usize),
        |a: usize, b: usize| !text_lt(names[b as int], names[a as int]),
    )
}

/// `name: Type` for each field, by increasing name, separated by `, `.
pub open spec fn schema_text(schema: Seq<(Seq<char>, ValueType)>) -> Seq<char> {
    let order = name_order(schema.map_values(|e: (Seq<char>, ValueType)| e.0));
    join(
        order.map_values(|i: usize| schema[i as int].0 + ": "@ + type_query_name(schema[i as int].1)),
        ", "@,
    )
}

/// `name = value` for each field, by increasing name, separated by `, `.
pub open spec fn assignments_text(fields: Seq<(Seq<char>, ValueView)>) -> Seq<char> {
    let order = name_order(fields.map_values(|e: (Seq<char>, ValueView)| e.0));
    join(
        order.map_values(|i: usize| fields[i as int].0 + " = "@ + value_query_text(fields[i as int].1)),
        ", "@,
    )
}

/// The query text of a `SELECT`.
pub open spec fn select_text(s: SelectStView) -> Seq<char> {
    "SELECT "@ + (if s.all_rows {
        "*"@
    } else {
        join(s.rows, ", "@)
    }) + " FROM "@ + s.table_name + (match s.order_by {
        Some(o) => " ORDER_BY "@ + o,
        None => Seq::empty(),
    }) + (match s.limit {
        Some(l) => " LIMIT "@ + nat_text(l as nat),
        None => Seq::empty(),
    })
}

/// The query text of a statement, which reads back as the same statement.
pub open spec fn statement_text(s: StatementView) -> Seq<char> {
    match s {
        StatementView::NoStatement => Seq::empty(),
        StatementView::Create(c) => "CREATE "@ + c.table_name + " KEY "@ + c.key_name + " FIELDS "@
            + schema_text(c.schema),
        StatementView::Insert(i) => "INSERT "@ + assignments_text(i.fields) + " INTO "@ + i.table_name,
        StatementView::Delete(d) => "DELETE "@ + d.key + " FROM "@ + d.table_name,
        StatementView::Read(p) => "READ_FROM "@ + p,
        StatementView::Save(p) => "SAVE_AS "@ + p,
        StatementView::Select(s) => select_text(s),
    }
}

/// The positions of `names` in increasing order of the names.
pub fn names_in_order(names: &Vec<String>) -> (r: Vec<usize>)
    ensures
        r@ == name_order(names@.map_values(|s: String| s@)),
        forall|i: int| 0 <= i < r@.len() ==> #[trigger] r@[i] < names@.len(),
        r@.len() == names@.len(),
{
    let ghost nv = names@.map_values(|s: String| s@);
    let ghost le = |a: usize, b: usize| !text_lt(nv[b as int], nv[a as int]);
    let n = names.len();
    let le_exec = |a: usize, b: usize| -> (r: bool)
        requires
            a < names@.len(),
            b < names@.len(),
        ensures
            r == !text_lt(names@[b as int]@, names@[a as int]@),
        { !str_lt(names[b].as_str(), names[a].as_str()) };
    let r = sort_positions(n, le_exec, Ghost(le));
    assert(Seq::new(names@.len(), |i: int| i as usize) =~= Seq::new(n as nat, |i: int| i as usize));
    r
}

impl CreateSt {
    pub fn new(table_name: String, key_name: String, schema: FieldMap<ValueType>) -> (r: Self)
        ensures
            r.table_name == table_name,
            r.key_name == key_name,
            r.schema == schema,
    {
        Self { table_name, key_name, schema }
    }

    /// An exact copy.
    pub fn copy(&self) -> (r: Self)
        ensures
            r@ == self@,
    {
        Self { table_name: self.table_name.clone(), key_name: self.key_name.clone(), schema: self.schema.copy() }
    }

    /// The statement in query syntax; fields are listed by name.
    pub fn to_query(&self) -> (s: String)
        ensures
            s@ == statement_text(StatementView::Create(self@)),
    {
        let entries = self.schema.entries();
        let mut names: Vec<String> = Vec::new();
        let mut k: usize = 0;
        while k < entries.len()
            invariant
                k <= entries@.len(),
                entries@ == self.schema.items(),
                names@.len() == k,
                forall|j: int| 0 <= j < k ==> #[trigger] names@[j]@ == self.schema@[j].0,
            decreases entries@.len() - k,
        {
            names.push(entries[k].0.clone());
            k = k + 1;
        }
        let order = names_in_order(&names);
        let ghost nv = names@.map_values(|s: String| s@);
        assert(nv =~= self.schema@.map_values(|e: (Seq<char>, ValueType)| e.0));
        let mut parts: Vec<String> = Vec::new();
        let mut i: usize = 0;
        while i < order.len()
            invariant
                i <= order@.len(),
                order@.len() == entries@.len(),
                entries@ == self.schema.items(),
                forall|j: int| 0 <= j < order@.len() ==> #[trigger] order@[j] < entries@.len(),
                parts@.len() == i,
                forall|j: int| 0 <= j < i ==> #[trigger] parts@[j]@ == self.schema@[order@[j] as int].0
                    + ": "@ + type_query_name(self.schema@[order@[j] as int].1),
            decreases order@.len() - i,
        {
            let e = &entries[order[i]];
            let mut p = e.0.clone();
            p.append(": ");
            p.append(e.1.to_query_name());
            parts.push(p);
            i = i + 1;
        }
        let fields = join_strings(&parts, ", ");
        assert(parts@.map_values(|p: String| p@) =~= order@.map_values(
            |i: usize| self.schema@[i as int].0 + ": "@ + type_query_name(self.schema@[i as int].1),
        ));
        let mut s = String::from_str("CREATE ");
        s.append(self.table_name.as_str());
        s.append(" KEY ");
        s.append(self.key_name.as_str());
        s.append(" FIELDS ");
        s.append(fields.as_str());
        s
    }
}

impl InsertSt {
    pub fn new(table_name: String, fields: FieldMap<Value>) -> (r: Self)
        ensures
            r.table_name == table_name,
            r.fields == fields,
    {
        Self { table_name, fields }
    }

    /// An exact copy.
    pub fn copy(&self) -> (r: Self)
        ensures
            r@ == self@,
    {
        Self { table_name: self.table_name.clone(), fields: self.fields.copy() }
    }

    /// The statement in query syntax; fields are listed by name.
    pub fn to_query(&self) -> (s: String)
        ensures
            s@ == statement_text(StatementView::Insert(self@)),
    {
        let entries = self.fields.entries();
        let mut names: Vec<String> = Vec::new();
        let mut k: usize = 0;
        while k < entries.len()
            invariant
                k <= entries@.len(),
                entries@ == self.fields.items(),
                names@.len() == k,
                forall|j: int| 0 <= j < k ==> #[trigger] names@[j]@ == self.fields@[j].0,
            decreases entries@.len() - k,
        {
            names.push(entries[k].0.clone());
            k = k + 1;
        }
        let order = names_in_order(&names);
        let ghost nv = names@.map_values(|s: String| s@);
        assert(nv =~= self.fields@.map_values(|e: (Seq<char>, ValueView)| e.0));
        let mut parts: Vec<String> = Vec::new();
        let mut i: usize = 0;
        while i < order.len()
            invariant
                i <= order@.len(),
                order@.len() == entries@.len(),
                entries@ == self.fields.items(),
                forall|j: int| 0 <= j < order@.len() ==> #[trigger] order@[j] < entries@.len(),
                parts@.len() == i,
                forall|j: int| 0 <= j < i ==> #[trigger] parts@[j]@ == self.fields@[order@[j] as int].0
                    + " = "@ + value_query_text(self.fields@[order@[j] as int].1),
            decreases order@.len() - i,
        {
            let e = &entries[order[i]];
            let mut p = e.0.clone();
            p.append(" = ");
            let v = e.1.to_query_value();
            p.append(v.as_str());
            parts.push(p);
            i = i + 1;
        }
        let assigns = join_strings(&parts, ", ");
        assert(parts@.map_values(|p: String| p@) =~= order@.map_values(
            |i: usize| self.fields@[i as int].0 + " = "@ + value_query_text(self.fields@[i as int].1),
        ));
        let mut s = String::from_str("INSERT ");
        s.append(assigns.as_str());
        s.append(" INTO ");
        s.append(self.table_name.as_str());
        s
    }
}

impl DeleteSt {
    pub fn new(table_name: String, key: String) -> (r: Self)
        ensures
            r.table_name == table_name,
            r.key == key,
    {
        Self { table_name, key }
    }

    /// The statement in query syntax.
    pub fn to_query(&self) -> (s: String)
        ensures
            s@ == statement_text(StatementView::Delete(self@)),
    {
        let mut s = String::from_str("DELETE ");
        s.append(self.key.as_str());
        s.append(" FROM ");
        s.append(self.table_name.as_str());
        s
    }
}

impl ReadSt {
    pub fn new(path: String) -> (r: Self)
        ensures
            r.path == path,
    {
        Self { path }
    }

    /// The statement in query syntax.
    pub fn to_query(&self) -> (s: String)
        ensures
            s@ == statement_text(StatementView::Read(self.path@)),
    {
        let mut s = String::from_str("READ_FROM ");
        s.append(self.path.as_str());
        s
    }
}

impl SaveSt {
    pub fn new(path: String) -> (r: Self)
        ensures
            r.path == path,
    {
        Self { path }
    }

    /// The statement in query syntax.
    pub fn to_query(&self) -> (s: String)
        ensures
            s@ == statement_text(StatementView::Save(self.path@)),
    {
        let mut s = String::from_str("SAVE_AS ");
        s.append(self.path.as_str());
        s
    }
}

impl SelectSt {
    /// A `SELECT` without `ORDER_BY` or `LIMIT`.
    pub fn new(rows: Vec<String>, all_rows: bool, table_name: String) -> (r: Self)
        ensures
            r.rows == rows,
            r.all_rows == all_rows,
            r.table_name == table_name,
            r.limit.is_none(),
            r.order_by.is_none(),
    {
        Self { rows, all_rows, table_name, limit: None, order_by: None }
    }

    /// An exact copy.
    pub fn copy(&self) -> (r: Self)
        ensures
            r@ == self@,
    {
        let mut rows: Vec<String> = Vec::new();
        let mut i: usize = 0;
        while i < self.rows.len()
            invariant
                i <= self.rows@.len(),
                rows@.len() == i,
                forall|j: int| 0 <= j < i ==> #[trigger] rows@[j]@ == self.rows@[j]@,
            decreases self.rows@.len() - i,
        {
            rows.push(self.rows[i].clone());
            i = i + 1;
        }
        assert(rows@.map_values(|r: String| r@) =~= self.rows@.map_values(|r: String| r@));
        let order_by = match &self.order_by {
            Some(o) => Some(OrderBySt(o.0.clone())),
            None => None,
        };
        let limit = match &self.limit {
            Some(l) => Some(LimitSt(l.0)),
            None => None,
        };
        Self { rows, all_rows: self.all_rows, table_name: self.table_name.clone(), limit, order_by }
    }

    /// The statement in query syntax.
    pub fn to_query(&self) -> (s: String)
        ensures
            s@ == statement_text(StatementView::Select(self@)),
    {
        let cols = if self.all_rows {
            String::from_str("*")
        } else {
            join_strings(&self.rows, ", ")
        };
        let mut query = String::from_str("SELECT ");
        query.append(cols.as_str());
        query.append(" FROM ");
        query.append(self.table_name.as_str());
        let ghost q1 = query@;
        if let Some(ob) = &self.order_by {
            query.append(" ORDER_BY ");
            query.append(ob.0.as_str());
        }
        let ghost q2 = query@;
        if let Some(l) = &self.limit {
            query.append(" LIMIT ");
            let n = u64_to_string(l.0);
            query.append(n.as_str());
        }
        proof {
            let v = self@;
            let c = if v.all_rows { "*"@ } else { join(v.rows, ", "@) };
            let o = match v.order_by { Some(o) => " ORDER_BY "@ + o, None => Seq::<char>::empty() };
            let l = match v.limit { Some(l) => " LIMIT "@ + nat_text(l as nat), None => Seq::<char>::empty() };
            assert(q1 =~= "SELECT "@ + c + " FROM "@ + v.table_name);
            assert(q2 =~= q1 + o);
            assert(query@ =~= q2 + l);
        }
        query
    }
}

impl Statement {
    /// An exact copy.
    pub fn copy(&self) -> (r: Self)
        ensures
            r@ == self@,
    {
        match self {
            Statement::NoStatement => Statement::NoStatement,
            Statement::Create(c) => Statement::Create(c.copy()),
            Statement::Insert(i) => Statement::Insert(i.copy()),
            Statement::Delete(d) => Statement::Delete(DeleteSt { table_name: d.table_name.clone(), key: d.key.clone() }),
            Statement::Read(r) => Statement::Read(ReadSt { path: r.path.clone() }),
            Statement::Save(s) => Statement::Save(SaveSt { path: s.path.clone() }),
            Statement::Select(s) => Statement::Select(s.copy()),
        }
    }

    /// The statement in query syntax; empty for `NoStatement`. Where its names and values
    /// are single words, the text reads back as the same statement.
    pub fn to_query(&self) -> (s: String)
        ensures
            s@ == statement_text(self@),
            statement_words(self@) && s@.len() < usize::MAX ==> parse_query(s@) == Ok::<
                Seq<StatementView>,
                ParseFailure,
            >(seq![self@, StatementView::NoStatement]),
    {
        let s = match self {
            Statement::NoStatement => String::new(),
            Statement::Create(c) => c.to_query(),
            Statement::Insert(i) => i.to_query(),
            Statement::Delete(d) => d.to_query(),
            Statement::Read(r) => r.to_query(),
            Statement::Save(s) => s.to_query(),
            Statement::Select(s) => s.to_query(),
        };
        match self {
            Statement::Create(c) => {
                let _n = c.schema.len();
                proof {
                    use_type_invariant(&c.schema);
                }
            },
            Statement::Insert(i) => {
                let _n = i.fields.len();
                proof {
                    use_type_invariant(&i.fields);
                }
            },
            _ => {},
        }
        proof {
            if statement_words(self@) && s@.len() < usize::MAX {
                law_statement_reads_back(self@);
            }
        }
        s
    }
}

} // verus!
