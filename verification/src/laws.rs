//! Properties of the database that span several operations.
use vstd::prelude::*;
use crate::errors::DatabaseResult;
use crate::model::commands::create_command::{create_result, created_table};
use crate::model::commands::delete_command::delete_result;
use crate::model::commands::insert_command::{insert_result, without_field, insert_header_ok};
use crate::model::database::{DatabaseKey, DatabaseView};
use crate::model::field_map::{has_key, lookup, key_index};
use crate::model::table::{RecordView, TableView, keys_increasing, has_record_key};
use crate::model::commands::select_command::{field_le, limited, row_order, select_columns};
use crate::parsing::statements::name_order;
use crate::text::text_lt;
use crate::model::table::{ValueType, value_type, lemma_value_order};
use crate::parsing::runner::{Outcome, run_result};
use crate::sorting::{sorted_by, total_preorder_on, lemma_sort_by_sorted, positions};
use crate::parsing::statements::{CreateStView, DeleteStView, InsertStView, SelectStView, StatementView};

verus! {

/// The record stored under key `k`, if any.
pub open spec fn record_under<KV>(recs: Seq<(KV, RecordView)>, k: KV) -> Option<RecordView> {
    if has_record_key(recs, k) {
        Some(recs[choose|i: int| 0 <= i < recs.len() && #[trigger] recs[i].0 == k].1)
    } else {
        None
    }
}

/// The key under which an `INSERT` stores its record: the value of the key field.
pub open spec fn inserted_key<K: DatabaseKey>(t: TableView<K::V>, st: InsertStView) -> K::V {
    K::key_of_value(lookup(st.fields, t.key_name).unwrap()).unwrap()
}

/// No key occurs twice.
pub open spec fn record_keys_distinct<KV>(recs: Seq<(KV, RecordView)>) -> bool {
    forall|i: int, j: int| 0 <= i < j < recs.len() ==> #[trigger] recs[i].0 != #[trigger] recs[j].0
}

/// Keys in increasing order are distinct.
pub proof fn lemma_increasing_distinct<K: DatabaseKey>(recs: Seq<(K::V, RecordView)>)
    requires
        keys_increasing::<K, RecordView>(recs),
    ensures
        record_keys_distinct(recs),
{
    assert forall|i: int, j: int| 0 <= i < j < recs.len() implies #[trigger] recs[i].0 != #[trigger] recs[j].0 by {
        K::lemma_key_order(recs[i].0, recs[j].0, recs[j].0);
        K::lemma_key_order(recs[j].0, recs[j].0, recs[j].0);
    }
}

/// With distinct keys, the record at position `i` is the one stored under its key.
pub proof fn lemma_record_at<KV>(recs: Seq<(KV, RecordView)>, i: int)
    requires
        record_keys_distinct(recs),
        0 <= i < recs.len(),
    ensures
        record_under(recs, recs[i].0) == Some(recs[i].1),
{
    assert(has_record_key(recs, recs[i].0));
    let j = choose|j: int| 0 <= j < recs.len() && #[trigger] recs[j].0 == recs[i].0;
    if j < i {
        assert(recs[j].0 != recs[i].0);
    } else if j > i {
        assert(recs[i].0 != recs[j].0);
    }
}

/// Inserting a record under a new key at position `i` keeps keys distinct.
pub proof fn lemma_insert_distinct<KV>(recs: Seq<(KV, RecordView)>, i: int, e: (KV, RecordView))
    requires
        record_keys_distinct(recs),
        !has_record_key(recs, e.0),
        0 <= i <= recs.len(),
    ensures
        record_keys_distinct(recs.insert(i, e)),
{
    let n = recs.insert(i, e);
    assert forall|a: int, b: int| 0 <= a < b < n.len() implies #[trigger] n[a].0 != #[trigger] n[b].0 by {
        if a < i && b < i {
            assert(recs[a].0 != recs[b].0);
        } else if a < i && b == i {
            assert(recs[a].0 != e.0);
        } else if a < i {
            assert(recs[a].0 != recs[b - 1].0);
        } else if a == i {
            assert(recs[b - 1].0 != e.0);
        } else {
            assert(recs[a - 1].0 != recs[b - 1].0);
        }
    }
}

/// Reading after writing: once an `INSERT` has succeeded, the table holds under the
/// statement's key exactly the statement's fields other than the key field, and every
/// other key keeps the record it had.
pub proof fn law_insert_then_read<K: DatabaseKey>(old: TableView<K::V>, new: TableView<K::V>, st: InsertStView)
    requires
        keys_increasing::<K, RecordView>(old.records),
        insert_result::<K>(old, new, st, Ok(())),
    ensures
        record_under(new.records, inserted_key::<K>(old, st)) == Some(without_field(st.fields, old.key_name)),
        forall|k: K::V| k != inserted_key::<K>(old, st) ==> #[trigger] record_under(new.records, k) == record_under(
            old.records,
            k,
        ),
{
    lemma_increasing_distinct::<K>(old.records);
    let key = inserted_key::<K>(old, st);
    let e = (key, without_field(st.fields, old.key_name));
    let i = choose|i: int| 0 <= i <= old.records.len() && new.records == old.records.insert(i, e);
    lemma_insert_distinct(old.records, i, e);
    assert(new.records[i] == e);
    lemma_record_at(new.records, i);
    assert forall|k: K::V| k != key implies #[trigger] record_under(new.records, k) == record_under(old.records, k) by {
        if has_record_key(old.records, k) {
            let j = choose|j: int| 0 <= j < old.records.len() && #[trigger] old.records[j].0 == k;
            lemma_record_at(old.records, j);
            let m = if j < i { j } else { j + 1 };
            assert(new.records[m] == old.records[j]);
            lemma_record_at(new.records, m);
        } else if has_record_key(new.records, k) {
            let m = choose|m: int| 0 <= m < new.records.len() && #[trigger] new.records[m].0 == k;
            if m < i {
                assert(old.records[m].0 == k);
            } else if m > i {
                assert(old.records[m - 1].0 == k);
            }
        }
    }
}

/// A `DELETE` of the key an `INSERT` has just added, written as the key field's value is
/// shown, always succeeds and gives back the table as it was before the `INSERT`.
pub proof fn law_delete_undoes_insert<K: DatabaseKey>(
    t0: TableView<K::V>,
    t1: TableView<K::V>,
    t2: TableView<K::V>,
    ins: InsertStView,
    del: DeleteStView,
    r: crate::errors::ExecutionResult<()>,
)
    requires
        keys_increasing::<K, RecordView>(t0.records),
        insert_result::<K>(t0, t1, ins, Ok(())),
        del.key == crate::model::table::value_text(lookup(ins.fields, t0.key_name).unwrap()),
        delete_result::<K>(t1, t2, del, r),
    ensures
        r is Ok,
        t2 == t0,
{
    lemma_increasing_distinct::<K>(t0.records);
    let key = inserted_key::<K>(t0, ins);
    K::lemma_key_of_value(lookup(ins.fields, t0.key_name).unwrap());
    K::lemma_key_text(key);
    assert(K::key_of_text(del.key) == Some(key));
    let e = (key, without_field(ins.fields, t0.key_name));
    let i = choose|i: int| 0 <= i <= t0.records.len() && t1.records == t0.records.insert(i, e);
    lemma_insert_distinct(t0.records, i, e);
    assert(t1.records[i].0 == key);
    assert(has_record_key(t1.records, key));
    let j = choose|j: int| 0 <= j < t1.records.len() && #[trigger] t1.records[j].0 == key && t2.records
        == t1.records.remove(j);
    if j < i {
        assert(t1.records[j].0 != t1.records[i].0);
    } else if j > i {
        assert(t1.records[i].0 != t1.records[j].0);
    }
    assert(t2.records =~= t0.records);
}

/// After a `CREATE` succeeds, the database has an empty table under the new name, with
/// the statement's schema and key field; the tables it had before are unchanged.
pub proof fn law_create_then_table<K: DatabaseKey>(old: DatabaseView<K::V>, new: DatabaseView<K::V>, st: CreateStView)
    requires
        crate::model::field_map::keys_distinct(old.tables),
        create_result::<K>(old, new, st, Ok(())),
    ensures
        lookup(new.tables, st.table_name) == Some(created_table::<K::V>(st)),
        forall|n: Seq<char>| n != st.table_name ==> #[trigger] lookup(new.tables, n) == lookup(old.tables, n),
{
    let e = (st.table_name, created_table::<K::V>(st));
    let n = new.tables;
    assert(n == old.tables.push(e));
    assert(crate::model::field_map::keys_distinct(n)) by {
        assert forall|a: int, b: int| 0 <= a < b < n.len() implies #[trigger] n[a].0 != #[trigger] n[b].0 by {
            if b == old.tables.len() {
                assert(n[a].0 == old.tables[a].0);
            } else {
                assert(old.tables[a].0 != old.tables[b].0);
            }
        }
    }
    crate::model::field_map::lemma_lookup_at(n, old.tables.len() as int);
    assert forall|m: Seq<char>| m != st.table_name implies #[trigger] lookup(n, m) == lookup(old.tables, m) by {
        if has_key(old.tables, m) {
            let j = key_index(old.tables, m);
            crate::model::field_map::lemma_lookup_at(old.tables, j);
            assert(n[j] == old.tables[j]);
            crate::model::field_map::lemma_lookup_at(n, j);
        } else if has_key(n, m) {
            let j = choose|j: int| 0 <= j < n.len() && #[trigger] n[j].0 == m;
            if j < old.tables.len() {
                assert(old.tables[j].0 == m);
            }
        }
    }
}

/// Replacing an entry by itself changes nothing.
proof fn lemma_update_same<A>(s: Seq<(Seq<char>, A)>, k: Seq<char>)
    requires
        has_key(s, k),
    ensures
        s.update(key_index(s, k), (k, lookup(s, k).unwrap())) =~= s,
{
}

/// A refused statement leaves the database as it was: whatever statement fails, its
/// tables and its log are unchanged.
pub proof fn law_refused_statement_changes_nothing<K: DatabaseKey>(
    old: DatabaseView<K::V>,
    new: DatabaseView<K::V>,
    st: StatementView,
    r: DatabaseResult<Outcome>,
)
    requires
        run_result::<K>(old, new, st, r),
        r is Err,
    ensures
        new == old,
{
    match st {
        StatementView::Insert(i) => {
            if has_key(old.tables, i.table_name) {
                let t = lookup(old.tables, i.table_name).unwrap();
                lemma_update_same(old.tables, i.table_name);
                assert(new.tables =~= old.tables);
            }
        },
        StatementView::Delete(d) => {
            if has_key(old.tables, d.table_name) {
                lemma_update_same(old.tables, d.table_name);
                assert(new.tables =~= old.tables);
            }
        },
        _ => {},
    }
}

/// Every record holds field `f`, with a value of type `ty`.
pub open spec fn field_typed<KV>(recs: Seq<(KV, RecordView)>, f: Seq<char>, ty: ValueType) -> bool {
    forall|i: int|
        0 <= i < recs.len() ==> lookup(#[trigger] recs[i].1, f) is Some && value_type(lookup(recs[i].1, f).unwrap())
            == ty
}

/// The positions of the records a `SELECT` lists, in the order it lists them.
pub open spec fn listed<KV>(t: TableView<KV>, st: SelectStView) -> Seq<usize> {
    limited(row_order(t, st.order_by), st.limit)
}

/// `LIMIT n` keeps the first `n` rows of the order, or all rows when there are fewer;
/// without `LIMIT` all rows are listed.
pub proof fn law_limit_keeps_first_rows<KV>(t: TableView<KV>, st: SelectStView)
    ensures
        listed(t, st).len() == match st.limit {
            Some(l) => if (l as int) < t.records.len() { l as int } else { t.records.len() as int },
            None => t.records.len() as int,
        },
        forall|i: int| 0 <= i < listed(t, st).len() ==> #[trigger] listed(t, st)[i] == row_order(t, st.order_by)[i],
{
    lemma_row_order_len(t, st.order_by);
}

proof fn lemma_row_order_len<KV>(t: TableView<KV>, ob: Option<Seq<char>>)
    ensures
        row_order(t, ob).len() == t.records.len(),
{
    match ob {
        Some(f) => {
            if f != t.key_name {
                let n = t.records.len();
                let le = |a: usize, b: usize| field_le(t.records[a as int].1, t.records[b as int].1, f);
                let dom = |a: usize| (a as int) < n;
                crate::sorting::lemma_sort_by_len(positions(n), le);
            }
        },
        None => {},
    }
}

/// Without `ORDER_BY` (or ordering by the key field) a `SELECT` lists records in
/// increasing key order.
pub proof fn law_rows_in_key_order<K: DatabaseKey>(t: TableView<K::V>, st: SelectStView)
    requires
        keys_increasing::<K, RecordView>(t.records),
        t.records.len() <= usize::MAX,
        st.order_by is None || st.order_by == Some(t.key_name),
    ensures
        forall|i: int, j: int|
            0 <= i < j < listed(t, st).len() ==> K::key_lt(
                #[trigger] t.records[listed(t, st)[i] as int].0,
                #[trigger] t.records[listed(t, st)[j] as int].0,
            ),
{
    let o = listed(t, st);
    let p = row_order(t, st.order_by);
    assert(p == positions(t.records.len()));
    law_limit_keeps_first_rows(t, st);
    assert forall|i: int, j: int| 0 <= i < j < o.len() implies K::key_lt(
        #[trigger] t.records[o[i] as int].0,
        #[trigger] t.records[o[j] as int].0,
    ) by {
        assert(o[i] == p[i] && o[j] == p[j]);
        assert(p[i] as int == i && p[j] as int == j);
    }
}

/// `ORDER_BY f` lists records in ascending order of field `f`, when every record holds
/// `f` with a value of the field's type (as every `INSERT` ensures).
pub proof fn law_order_by_sorts<KV>(t: TableView<KV>, st: SelectStView, f: Seq<char>, ty: ValueType)
    requires
        st.order_by == Some(f),
        f != t.key_name,
        field_typed(t.records, f, ty),
    ensures
        forall|i: int, j: int|
            0 <= i < j < listed(t, st).len() ==> field_le(
                #[trigger] t.records[listed(t, st)[i] as int].1,
                #[trigger] t.records[listed(t, st)[j] as int].1,
                f,
            ),
{
    let n = t.records.len();
    let le = |a: usize, b: usize| field_le(t.records[a as int].1, t.records[b as int].1, f);
    let dom = |a: usize| (a as int) < n;
    assert(total_preorder_on(le, dom)) by {
        assert forall|a: usize, b: usize| #![trigger le(a, b)] dom(a) && dom(b) implies le(a, b) || le(b, a) by {
            let x = lookup(t.records[a as int].1, f).unwrap();
            let y = lookup(t.records[b as int].1, f).unwrap();
            lemma_value_order(x, y, y);
        }
        assert forall|a: usize, b: usize, c: usize| #![trigger le(a, b), le(b, c)]
            dom(a) && dom(b) && dom(c) && le(a, b) && le(b, c) implies le(a, c) by {
            let x = lookup(t.records[a as int].1, f).unwrap();
            let y = lookup(t.records[b as int].1, f).unwrap();
            let z = lookup(t.records[c as int].1, f).unwrap();
            lemma_value_order(x, y, z);
        }
    }
    let p = positions(n);
    assert forall|i: int| 0 <= i < p.len() implies dom(#[trigger] p[i]) by {}
    lemma_sort_by_sorted(p, le, dom);
    let r = row_order(t, st.order_by);
    assert(r == crate::sorting::sort_by(p, le));
    let o = listed(t, st);
    assert forall|i: int, j: int| 0 <= i < j < o.len() implies field_le(
        #[trigger] t.records[o[i] as int].1,
        #[trigger] t.records[o[j] as int].1,
        f,
    ) by {
        assert(o[i] == r[i] && o[j] == r[j]);
        assert(le(r[i], r[j]));
    }
}

/// `SELECT *` lists the table's fields in increasing order of name.
pub proof fn law_star_columns_sorted<KV>(t: TableView<KV>, st: SelectStView)
    requires
        st.all_rows,
        t.schema.len() <= usize::MAX,
    ensures
        select_columns(t, st).len() == t.schema.len(),
        forall|i: int, j: int|
            0 <= i < j < select_columns(t, st).len() ==> !text_lt(
                #[trigger] select_columns(t, st)[j],
                #[trigger] select_columns(t, st)[i],
            ),
{
    let names = t.schema.map_values(|e: (Seq<char>, ValueType)| e.0);
    let n = names.len();
    let le = |a: usize, b: usize| !text_lt(names[b as int], names[a as int]);
    let dom = |a: usize| (a as int) < n;
    assert(total_preorder_on(le, dom)) by {
        assert forall|a: usize, b: usize| #![trigger le(a, b)] dom(a) && dom(b) implies le(a, b) || le(b, a) by {
            crate::text::lemma_text_order(names[a as int], names[b as int], names[b as int]);
        }
        assert forall|a: usize, b: usize, c: usize| #![trigger le(a, b), le(b, c)]
            dom(a) && dom(b) && dom(c) && le(a, b) && le(b, c) implies le(a, c) by {
            crate::text::lemma_text_order(names[c as int], names[b as int], names[a as int]);
            crate::text::lemma_text_order(names[a as int], names[b as int], names[c as int]);
            crate::text::lemma_text_order(names[b as int], names[c as int], names[a as int]);
        }
    }
    let p = Seq::new(n, |i: int| i as usize);
    assert forall|i: int| 0 <= i < p.len() implies dom(#[trigger] p[i]) by {}
    lemma_sort_by_sorted(p, le, dom);
    let order = name_order(names);
    assert(order == crate::sorting::sort_by(p, le));
    let cols = select_columns(t, st);
    assert forall|i: int, j: int| 0 <= i < j < cols.len() implies !text_lt(#[trigger] cols[j], #[trigger] cols[i]) by {
        assert(le(order[i], order[j]));
        assert(dom(order[i]) && dom(order[j]));
        assert(cols[i] == t.schema[order[i] as int].0);
        assert(cols[j] == t.schema[order[j] as int].0);
        assert(names[order[i] as int] == t.schema[order[i] as int].0);
        assert(names[order[j] as int] == t.schema[order[j] as int].0);
    }
}

/// `ORDER_BY` is stable: records whose values of the field are equal keep increasing key
/// order.
pub proof fn law_order_by_stable<K: DatabaseKey>(t: TableView<K::V>, st: SelectStView, f: Seq<char>)
    requires
        keys_increasing::<K, RecordView>(t.records),
        t.records.len() <= usize::MAX,
        st.order_by == Some(f),
    ensures
        forall|i: int, j: int|
            0 <= i < j < listed(t, st).len() && field_le(
                t.records[listed(t, st)[j] as int].1,
                t.records[listed(t, st)[i] as int].1,
                f,
            ) ==> K::key_lt(
                #[trigger] t.records[listed(t, st)[i] as int].0,
                #[trigger] t.records[listed(t, st)[j] as int].0,
            ),
{
    let n = t.records.len();
    let o = listed(t, st);
    let r = row_order(t, st.order_by);
    law_limit_keeps_first_rows(t, st);
    if f == t.key_name {
        law_rows_in_key_order::<K>(t, st);
    } else {
        let le = |a: usize, b: usize| field_le(t.records[a as int].1, t.records[b as int].1, f);
        crate::sorting::lemma_sort_positions_stable(n, le);
        assert(r == crate::sorting::sort_by(positions(n), le));
        assert forall|i: int, j: int|
            0 <= i < j < o.len() && field_le(t.records[o[j] as int].1, t.records[o[i] as int].1, f) implies K::key_lt(
            #[trigger] t.records[o[i] as int].0,
            #[trigger] t.records[o[j] as int].0,
        ) by {
            assert(o[i] == r[i] && o[j] == r[j]);
            assert(le(r[j], r[i]));
            assert(r[i] < r[j]);
        }
    }
}

} // verus!
