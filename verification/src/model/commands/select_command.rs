//! `SELECT`: reads rows of a table, optionally ordered by a field and limited in number.
use vstd::prelude::*;
use crate::errors::{DatabaseErr, DatabaseResult, ExecutionErr, ExecutionResult, StatementErr};
use crate::model::database::{Database, DatabaseKey, DatabaseView};
use crate::model::field_map::{has_key, lookup, FieldMap};
use crate::model::table::{Record, RecordView, Table, TableView, Value, ValueView, ValueType, value_text, value_order};
use crate::parsing::statements::{SelectSt, SelectStView, name_order};
use crate::sorting::{sort_by, sort_positions, positions};
use crate::text::{join, push_char, push_str, str_eq, text_lt, str_lt};

verus! {

/// Whether record `a` may come before record `b` when ordering by field `f`; records
/// lacking the field, or holding values of different types, count as equal.
pub open spec fn field_le(a: RecordView, b: RecordView, f: Seq<char>) -> bool {
    match (lookup(a, f), lookup(b, f)) {
        (Some(x), Some(y)) => value_order(x, y) <= 0,
        _ => true,
    }
}

/// The order of the records of `t` for `ORDER_BY ob`: key order when there is no `ORDER_BY`
/// or it names the key field; otherwise sorted by the field, equal records in key order.
pub open spec fn row_order<KV>(t: TableView<KV>, ob: Option<Seq<char>>) -> Seq<usize> {
    match ob {
        Some(f) => if f == t.key_name {
            positions(t.records.len())
        } else {
            sort_by(positions(t.records.len()), |a: usize, b: usize| field_le(t.records[a as int].1, t.records[b as int].1, f))
        },
        None => positions(t.records.len()),
    }
}

/// The first `l` of `order`, or all of it when there are fewer.
pub open spec fn limited(order: Seq<usize>, limit: Option<u64>) -> Seq<usize> {
    match limit {
        Some(l) => if (l as int) < order.len() {
            order.take(l as int)
        } else {
            order
        },
        None => order,
    }
}

/// The columns a `SELECT` shows: all fields by name for `*`, else those it names.
pub open spec fn select_columns<KV>(t: TableView<KV>, st: SelectStView) -> Seq<Seq<char>> {
    if st.all_rows {
        name_order(t.schema.map_values(|e: (Seq<char>, ValueType)| e.0)).map_values(|i: usize| t.schema[i as int].0)
    } else {
        st.rows
    }
}

/// The text of column `c` of record `i`: the key for the key field, the field's value
/// otherwise, empty when the record lacks the field.
pub open spec fn cell_text<K: DatabaseKey>(t: TableView<K::V>, i: int, c: Seq<char>) -> Seq<char> {
    if c == t.key_name {
        value_text(K::key_value(t.records[i].0))
    } else {
        match lookup(t.records[i].1, c) {
            Some(v) => value_text(v),
            None => Seq::empty(),
        }
    }
}

/// The rows a `SELECT` shows.
pub open spec fn select_rows<K: DatabaseKey>(t: TableView<K::V>, st: SelectStView, cols: Seq<Seq<char>>) -> Seq<Seq<Seq<char>>> {
    limited(row_order(t, st.order_by), st.limit).map_values(
        |i: usize| cols.map_values(|c: Seq<char>| cell_text::<K>(t, i as int, c)),
    )
}

/// The columns named by the `SELECT` are all in the schema.
pub open spec fn columns_known<KV>(t: TableView<KV>, cols: Seq<Seq<char>>, n: int) -> bool {
    forall|j: int| 0 <= j < n ==> has_key(t.schema, #[trigger] cols[j])
}

/// The outcome of `SELECT` on a database: the column names and the rows, or which error.
pub open spec fn select_result<K: DatabaseKey>(
    db: DatabaseView<K::V>,
    st: SelectStView,
    r: ExecutionResult<(Seq<Seq<char>>, Seq<Seq<Seq<char>>>)>,
) -> bool {
    let t = lookup(db.tables, st.table_name).unwrap();
    let cols = select_columns(t, st);
    match r {
        Err(ExecutionErr::NoTable(n)) => n@ == st.table_name && !has_key(db.tables, st.table_name),
        Err(ExecutionErr::NoDef(c)) => has_key(db.tables, st.table_name) && ((exists|j: int|
            0 <= j < cols.len() && columns_known(t, cols, j) && !has_key(t.schema, cols[j]) && c@ == cols[j])
            || (columns_known(t, cols, cols.len() as int) && st.order_by is Some && !has_key(t.schema, st.order_by.unwrap())
            && c@ == st.order_by.unwrap())),
        Ok((h, rows)) => has_key(db.tables, st.table_name) && columns_known(t, cols, cols.len() as int)
            && (st.order_by is Some ==> has_key(t.schema, st.order_by.unwrap())) && h == cols && rows == select_rows::<K>(
            t,
            st,
            cols,
        ),
        Err(_) => false,
    }
}

/// Whether record `a` may come before record `b` when ordering by field `f`.
fn records_le(a: &Record, b: &Record, f: &str) -> (r: bool)
    ensures
        r == field_le(a@, b@, f@),
{
    match (a.get(f), b.get(f)) {
        (Some(x), Some(y)) => match x.compare(y) {
            std::cmp::Ordering::Greater => false,
            _ => true,
        },
        _ => true,
    }
}

/// The first `limit` positions of `order`, or all.
fn apply_limit(order: Vec<usize>, limit: Option<u64>) -> (r: Vec<usize>)
    ensures
        r@ == limited(order@, limit),
{
    let ghost before = order@;
    let mut order = order;
    match limit {
        Some(l) => {
            if (l as u128) < (order.len() as u128) {
                order.truncate(l as usize);
                assert(order@ =~= limited(before, limit));
            }
            order
        },
        None => order,
    }
}

/// A `SELECT` statement bound to the database it reads.
pub struct Select<'a, K: DatabaseKey> {
    pub db: &'a mut Database<K>,
    pub st: SelectSt,
}

impl<'a, K: DatabaseKey> Select<'a, K> {
    /// Runs `st` on `db` and formats the result; an error is tagged with `StatementErr::Save`.
    pub fn build_exec(db: &'a mut Database<K>, st: SelectSt) -> (r: DatabaseResult<String>)
        requires
            old(db).wf(),
        ensures
            *final(db) == *old(db),
            match r {
                Ok(s) => exists|h: Seq<Seq<char>>, rows: Seq<Seq<Seq<char>>>|
                    #[trigger] select_result::<K>(old(db)@, st@, Ok((h, rows))) && s@ == format_text(h, rows),
                Err(DatabaseErr::ExecutionError { error, statement }) => statement == StatementErr::Save
                    && select_result::<K>(old(db)@, st@, Err(error)),
                Err(_) => false,
            },
    {
        let s = Self::new(db, st);
        let res = s.execute();
        match res {
            Err(e) => Err(DatabaseErr::ExecutionError { error: e, statement: StatementErr::Save }),
            Ok(s) => Ok(s),
        }
    }

    pub fn new(db: &'a mut Database<K>, st: SelectSt) -> (r: Self)
        ensures
            *r.db == *old(db),
            *final(db) == *final(r.db),
            r.st == st,
    {
        Self { db, st }
    }

    /// The column names and the rows as text, without formatting.
    #[verifier::loop_isolation(false)]
    pub fn collect_rows(&self) -> (r: ExecutionResult<(Vec<String>, Vec<Vec<String>>)>)
        requires
            old(self.db).wf(),
        ensures
            match r {
                Ok((h, rows)) => select_result::<K>(
                    old(self.db)@,
                    self.st@,
                    Ok((h@.map_values(|s: String| s@), rows@.map_values(|row: Vec<String>| row@.map_values(|s: String| s@)))),
                ) && forall|i: int| 0 <= i < rows@.len() ==> #[trigger] rows@[i]@.len() == h@.len(),
                Err(e) => select_result::<K>(old(self.db)@, self.st@, Err(e)),
            },
    {
        let tb = match self.db.table(self.st.table_name.as_str()) {
            None => return Err(ExecutionErr::NoTable(self.st.table_name.clone())),
            Some(t) => t,
        };
        let ghost t = tb@;
        let ghost stv = self.st@;
        let schema = tb.get_schema();
        // 1. the columns to show
        let columns: Vec<String> = if self.st.all_rows {
            let entries = schema.entries();
            let mut names: Vec<String> = Vec::new();
            let mut k: usize = 0;
            while k < entries.len()
                invariant
                    k <= entries@.len(),
                    entries@ == schema.items(),
                    names@.len() == k,
                    forall|j: int| 0 <= j < k ==> #[trigger] names@[j]@ == schema@[j].0,
                decreases entries@.len() - k,
            {
                names.push(entries[k].0.clone());
                k = k + 1;
            }
            let order = crate::parsing::statements::names_in_order(&names);
            assert(names@.map_values(|s: String| s@) =~= schema@.map_values(|e: (Seq<char>, ValueType)| e.0));
            let mut cols: Vec<String> = Vec::new();
            let mut i: usize = 0;
            while i < order.len()
                invariant
                    i <= order@.len(),
                    order@.len() == names@.len(),
                    forall|j: int| 0 <= j < order@.len() ==> #[trigger] order@[j] < names@.len(),
                    forall|j: int| 0 <= j < names@.len() ==> #[trigger] names@[j]@ == schema@[j].0,
                    cols@.len() == i,
                    forall|j: int| 0 <= j < i ==> #[trigger] cols@[j]@ == schema@[order@[j] as int].0,
                decreases order@.len() - i,
            {
                cols.push(names[order[i]].clone());
                i = i + 1;
            }
            assert(cols@.map_values(|s: String| s@) =~= select_columns(t, stv));
            cols
        } else {
            let mut cols: Vec<String> = Vec::new();
            let mut i: usize = 0;
            while i < self.st.rows.len()
                invariant
                    i <= self.st.rows@.len(),
                    cols@.len() == i,
                    forall|j: int| 0 <= j < i ==> #[trigger] cols@[j]@ == self.st.rows@[j]@,
                decreases self.st.rows@.len() - i,
            {
                cols.push(self.st.rows[i].clone());
                i = i + 1;
            }
            assert(cols@.map_values(|s: String| s@) =~= select_columns(t, stv));
            cols
        };
        let ghost cols = columns@.map_values(|s: String| s@);
        // every column must be in the schema
        let mut j: usize = 0;
        while j < columns.len()
            invariant
                j <= columns@.len(),
                cols == columns@.map_values(|s: String| s@),
                *schema == tb.schema_map(),
                schema@ == t.schema,
                columns_known(t, cols, j as int),
            decreases columns@.len() - j,
        {
            if !schema.contains_key(columns[j].as_str()) {
                assert(columns_known(t, cols, j as int) && !has_key(t.schema, cols[j as int]) && columns@[j as int]@ == cols[j as int]);
                assert(cols == select_columns(t, stv));
                assert(lookup(old(self.db)@.tables, stv.table_name) == Some(t));
                return Err(ExecutionErr::NoDef(columns[j].clone()));
            }
            j = j + 1;
        }
        let pk = tb.get_pk();
        let recs = tb.get_records();
        let n = recs.len();
        // 2. the order of the records
        let order: Vec<usize> = match &self.st.order_by {
            Some(ob) => {
                if !schema.contains_key(ob.0.as_str()) {
                    return Err(ExecutionErr::NoDef(ob.0.clone()));
                }
                if str_eq(ob.0.as_str(), pk.as_str()) {
                    let mut ord: Vec<usize> = Vec::new();
                    let mut i: usize = 0;
                    while i < n
                        invariant
                            i <= n,
                            ord@ == positions(i as nat),
                        decreases n - i,
                    {
                        ord.push(i);
                        i = i + 1;
                        assert(ord@ =~= positions(i as nat));
                    }
                    ord
                } else {
                    let f = ob.0.as_str();
                    let ghost fv = ob.0@;
                    let le_exec = |a: usize, b: usize| -> (r: bool)
                        requires
                            a < recs@.len(),
                            b < recs@.len(),
                        ensures
                            r == field_le(recs@[a as int].1@, recs@[b as int].1@, f@),
                        { records_le(&recs[a].1, &recs[b].1, f) };
                    let ghost le = |a: usize, b: usize| field_le(t.records[a as int].1, t.records[b as int].1, fv);
                    sort_positions(n, le_exec, Ghost(le))
                }
            },
            None => {
                let mut ord: Vec<usize> = Vec::new();
                let mut i: usize = 0;
                while i < n
                    invariant
                        i <= n,
                        ord@ == positions(i as nat),
                    decreases n - i,
                {
                    ord.push(i);
                    i = i + 1;
                    assert(ord@ =~= positions(i as nat));
                }
                ord
            },
        };
        assert(order@ == row_order(t, stv.order_by));
        // 3. the limit
        let limit: Option<u64> = match &self.st.limit {
            Some(l) => Some(l.0),
            None => None,
        };
        let order = apply_limit(order, limit);
        // 4. the rows
        let mut rows: Vec<Vec<String>> = Vec::new();
        let mut i: usize = 0;
        while i < order.len()
            invariant
                i <= order@.len(),
                order@ == limited(row_order(t, stv.order_by), stv.limit),
                forall|k: int| 0 <= k < order@.len() ==> #[trigger] order@[k] < recs@.len(),
                rows@.len() == i,
                forall|k: int| 0 <= k < i ==> (#[trigger] rows@[k])@.map_values(|s: String| s@) == cols.map_values(
                    |c: Seq<char>| cell_text::<K>(t, order@[k] as int, c),
                ),
                forall|k: int| 0 <= k < i ==> #[trigger] rows@[k]@.len() == columns@.len(),
            decreases order@.len() - i,
        {
            let idx = order[i];
            let key = &recs[idx].0;
            let rec = &recs[idx].1;
            let mut row: Vec<String> = Vec::new();
            let mut c: usize = 0;
            while c < columns.len()
                invariant
                    c <= columns@.len(),
                    row@.len() == c,
                    forall|k: int| 0 <= k < c ==> #[trigger] row@[k]@ == cell_text::<K>(t, idx as int, cols[k]),
                decreases columns@.len() - c,
            {
                let col = &columns[c];
                let text = if str_eq(col.as_str(), pk.as_str()) {
                    key.to_display()
                } else {
                    match rec.get(col.as_str()) {
                        Some(v) => v.to_display(),
                        None => String::new(),
                    }
                };
                row.push(text);
                c = c + 1;
            }
            assert(row@.map_values(|s: String| s@) =~= cols.map_values(|c: Seq<char>| cell_text::<K>(t, idx as int, c)));
            rows.push(row);
            i = i + 1;
        }
        assert(rows@.map_values(|row: Vec<String>| row@.map_values(|s: String| s@)) =~= select_rows::<K>(t, stv, cols));
        Ok((columns, rows))
    }

    /// Runs the `SELECT` and formats its result as an aligned text table.
    pub fn execute(self) -> (r: ExecutionResult<String>)
        requires
            old(self.db).wf(),
        ensures
            *final(self.db) == *old(self.db),
            match r {
                Ok(s) => exists|h: Seq<Seq<char>>, rows: Seq<Seq<Seq<char>>>|
                    #[trigger] select_result::<K>(old(self.db)@, self.st@, Ok((h, rows))) && s@ == format_text(h, rows),
                Err(e) => select_result::<K>(old(self.db)@, self.st@, Err(e)),
            },
    {
        let data = match self.collect_rows() {
            Ok(d) => d,
            Err(e) => return Err(e),
        };
        Ok(format_data(data))
    }
}

/// Number of bytes of the UTF-8 encoding, as `str::len` gives it.
pub open spec fn byte_len(s: Seq<char>) -> nat {
    (vstd::utf8::encode_utf8(s).len() as usize) as nat
}

/// Width of column `i` over the header and the first `n` rows: the largest byte length
/// (a row too short to have the column adds nothing).
pub open spec fn column_width(headers: Seq<Seq<char>>, rows: Seq<Seq<Seq<char>>>, i: int, n: int) -> nat
    decreases n,
{
    if n <= 0 {
        byte_len(headers[i])
    } else {
        let w = column_width(headers, rows, i, n - 1);
        let b = if i < rows[n - 1].len() { byte_len(rows[n - 1][i]) } else { 0 };
        if b > w {
            b
        } else {
            w
        }
    }
}

/// The width of each column.
pub open spec fn widths(headers: Seq<Seq<char>>, rows: Seq<Seq<Seq<char>>>) -> Seq<nat> {
    Seq::new(headers.len(), |i: int| column_width(headers, rows, i, rows.len() as int))
}

/// `s` followed by spaces up to `w` characters.
pub open spec fn pad(s: Seq<char>, w: nat) -> Seq<char> {
    if s.len() < w {
        s + Seq::new((w - s.len()) as nat, |k: int| ' ')
    } else {
        s
    }
}

/// One line of the table: the cells padded to their column's width, separated by ` | `.
pub open spec fn render(cells: Seq<Seq<char>>, w: Seq<nat>) -> Seq<char> {
    join(Seq::new(cells.len(), |i: int| pad(cells[i], w[i])), " | "@)
}

/// The dashes under the header: one per unit of width, three per separator.
pub open spec fn rule_text(w: Seq<nat>) -> Seq<char>
    decreases w.len(),
{
    if w.len() == 0 {
        Seq::empty()
    } else if w.len() == 1 {
        Seq::new(w[0], |k: int| '-')
    } else {
        rule_text(w.drop_last()) + Seq::new((w.last() + 3) as nat, |k: int| '-')
    }
}

/// The lines of the rows, each preceded by a line break.
pub open spec fn rows_text(rows: Seq<Seq<Seq<char>>>, w: Seq<nat>) -> Seq<char>
    decreases rows.len(),
{
    if rows.len() == 0 {
        Seq::empty()
    } else {
        rows_text(rows.drop_last(), w) + seq!['\n'] + render(rows.last(), w)
    }
}

/// The text table for headers and rows: header line, rule, row lines.
pub open spec fn format_text(headers: Seq<Seq<char>>, rows: Seq<Seq<Seq<char>>>) -> Seq<char> {
    let w = widths(headers, rows);
    render(headers, w) + seq!['\n'] + rule_text(w) + rows_text(rows, w)
}

/// Lays out headers and rows as an aligned text table.
#[verifier::loop_isolation(false)]
pub fn format_data(data: (Vec<String>, Vec<Vec<String>>)) -> (s: String)
    requires
        forall|i: int| 0 <= i < data.1@.len() ==> #[trigger] data.1@[i]@.len() <= data.0@.len(),
    ensures
        s@ == format_text(
            data.0@.map_values(|x: String| x@),
            data.1@.map_values(|row: Vec<String>| row@.map_values(|x: String| x@)),
        ),
{
    let (headers, rows) = data;
    let ghost hv = headers@.map_values(|x: String| x@);
    let ghost rv = rows@.map_values(|row: Vec<String>| row@.map_values(|x: String| x@));
    // widths
    let mut ws: Vec<usize> = Vec::new();
    let mut i: usize = 0;
    while i < headers.len()
        invariant
            i <= headers@.len(),
            hv == headers@.map_values(|x: String| x@),
            rv == rows@.map_values(|row: Vec<String>| row@.map_values(|x: String| x@)),
            forall|k: int| 0 <= k < rows@.len() ==> #[trigger] rows@[k]@.len() <= headers@.len(),
            ws@.len() == i,
            forall|k: int| 0 <= k < i ==> #[trigger] ws@[k] as nat == column_width(hv, rv, k, rv.len() as int),
        decreases headers@.len() - i,
    {
        let mut w: usize = headers[i].as_str().len();
        assert(hv[i as int] == headers@[i as int]@);
        let mut r: usize = 0;
        while r < rows.len()
            invariant
                i < headers@.len(),
                r <= rows@.len(),
                hv == headers@.map_values(|x: String| x@),
                rv == rows@.map_values(|row: Vec<String>| row@.map_values(|x: String| x@)),
                forall|k: int| 0 <= k < rows@.len() ==> #[trigger] rows@[k]@.len() <= headers@.len(),
                w as nat == column_width(hv, rv, i as int, r as int),
            decreases rows@.len() - r,
        {
            let b = if i < rows[r].len() { rows[r][i].as_str().len() } else { 0 };
            if i < rows[r].len() {
                assert(rv[r as int][i as int] == rows@[r as int]@[i as int]@);
            }
            if b > w {
                w = b;
            }
            r = r + 1;
        }
        ws.push(w);
        i = i + 1;
    }
    let ghost wv = widths(hv, rv);
    assert(ws@.map_values(|x: usize| x as nat) =~= wv);
    let mut out = String::new();
    push_rendered(&mut out, &headers, &ws);
    push_char(&mut out, '\n');
    // the rule
    let mut c: usize = 0;
    let ghost before_rule = out@;
    while c < ws.len()
        invariant
            c <= ws@.len(),
            ws@.map_values(|x: usize| x as nat) == wv,
            out@ == before_rule + rule_text(wv.take(c as int)),
        decreases ws@.len() - c,
    {
        let ghost before = out@;
        let mut count: usize = ws[c];
        if c > 0 {
            push_char(&mut out, '-');
            push_char(&mut out, '-');
            push_char(&mut out, '-');
        }
        let ghost mid = out@;
        let mut k: usize = 0;
        while k < count
            invariant
                k <= count,
                out@ == mid + Seq::new(k as nat, |q: int| '-'),
            decreases count - k,
        {
            push_char(&mut out, '-');
            k = k + 1;
            assert(out@ =~= mid + Seq::new(k as nat, |q: int| '-'));
        }
        proof {
            assert(wv.take(c + 1).drop_last() =~= wv.take(c as int));
            assert(wv.take(c + 1).last() == wv[c as int]);
            if c > 0 {
                assert(mid =~= before + seq!['-', '-', '-']);
                assert(seq!['-', '-', '-'] + Seq::new(count as nat, |q: int| '-') =~= Seq::new((count + 3) as nat, |q: int| '-'));
                assert(out@ =~= before_rule + rule_text(wv.take(c + 1)));
            } else {
                assert(wv.take(1).len() == 1);
                assert(out@ =~= before_rule + rule_text(wv.take(c + 1)));
            }
        }
        c = c + 1;
    }
    assert(wv.take(c as int) =~= wv);
    // the rows
    let mut r: usize = 0;
    let ghost before_rows = out@;
    while r < rows.len()
        invariant
            r <= rows@.len(),
            rv == rows@.map_values(|row: Vec<String>| row@.map_values(|x: String| x@)),
            forall|k: int| 0 <= k < rows@.len() ==> #[trigger] rows@[k]@.len() <= headers@.len(),
            ws@.map_values(|x: usize| x as nat) == wv,
            wv.len() == headers@.len(),
            out@ == before_rows + rows_text(rv.take(r as int), wv),
        decreases rows@.len() - r,
    {
        push_char(&mut out, '\n');
        push_rendered(&mut out, &rows[r], &ws);
        proof {
            assert(rv.take(r + 1).drop_last() =~= rv.take(r as int));
            assert(rv.take(r + 1).last() == rv[r as int]);
            assert(rv[r as int] == rows@[r as int]@.map_values(|x: String| x@));
        }
        r = r + 1;
    }
    assert(rv.take(r as int) =~= rv);
    out
}

/// Appends one line: each cell padded with spaces to its width, separated by ` | `.
#[verifier::loop_isolation(false)]
fn push_rendered(out: &mut String, cells: &Vec<String>, ws: &Vec<usize>)
    requires
        cells@.len() <= ws@.len(),
    ensures
        final(out)@ == old(out)@ + render(
            cells@.map_values(|x: String| x@),
            ws@.map_values(|x: usize| x as nat),
        ),
{
    let ghost cv = cells@.map_values(|x: String| x@);
    let ghost wv = ws@.map_values(|x: usize| x as nat);
    let ghost parts = Seq::new(cv.len(), |i: int| pad(cv[i], wv[i]));
    let ghost start = out@;
    let mut i: usize = 0;
    while i < cells.len()
        invariant
            i <= cells@.len(),
            cells@.len() <= ws@.len(),
            cv == cells@.map_values(|x: String| x@),
            wv == ws@.map_values(|x: usize| x as nat),
            parts == Seq::new(cv.len(), |i: int| pad(cv[i], wv[i])),
            out@ == start + join(parts.take(i as int), " | "@),
        decreases cells@.len() - i,
    {
        let ghost before = out@;
        if i > 0 {
            out.append(" | ");
        }
        let ghost mid = out@;
        out.append(cells[i].as_str());
        let count = cells[i].as_str().unicode_len();
        let mut k = count;
        while k < ws[i]
            invariant
                count <= k,
                k <= ws@[i as int] || k == count,
                out@ == mid + cv[i as int] + Seq::new((k - count) as nat, |q: int| ' '),
            decreases ws@[i as int] - k,
        {
            push_char(out, ' ');
            k = k + 1;
            assert(out@ =~= mid + cv[i as int] + Seq::new((k - count) as nat, |q: int| ' '));
        }
        proof {
            assert(cv[i as int] == cells@[i as int]@);
            assert(count == cv[i as int].len());
            if count < ws@[i as int] {
                assert(out@ =~= mid + pad(cv[i as int], wv[i as int]));
            } else {
                assert(out@ =~= mid + pad(cv[i as int], wv[i as int]));
            }
            assert(parts.take(i + 1).drop_last() =~= parts.take(i as int));
            assert(parts.take(i + 1).last() == pad(cv[i as int], wv[i as int]));
            if i == 0 {
                assert(parts.take(1) =~= seq![parts[0]]);
            }
        }
        i = i + 1;
    }
    assert(parts.take(i as int) =~= parts);
}

} // verus!
