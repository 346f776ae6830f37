use database::errors::{DatabaseResult, ExecutionErr};
use database::model::{AnyDatabase, Database, Select};
use database::parsing::{Action, LimitSt, OrderBySt, QueryRun, SelectSt};

type QueryResult = (Vec<String>, Vec<Vec<String>>);

/// Runs a query that touches no file, statement by statement.
fn run_query(query: &str, db: &mut AnyDatabase) -> DatabaseResult<Option<String>> {
    let mut run = QueryRun::start(query)?;
    loop {
        let action = match db {
            AnyDatabase::StringDatabase(d) => run.step(d),
            AnyDatabase::IntDatabase(d) => run.step(d),
        };
        match action {
            Action::Continue => {}
            Action::Finished(r) => return r,
            _ => panic!("the query needs a file"),
        }
    }
}

fn seeded_db() -> Database<String> {
    let mut db = AnyDatabase::StringDatabase(Database::new());

    let create = "CREATE scientists KEY name FIELDS name: String, publication_count: Int,";
    run_query(create, &mut db).unwrap();

    let inserts = "
            INSERT name = Newton   publication_count = 3 INTO scientists,
            INSERT name = Curie    publication_count = 7 INTO scientists,
            INSERT name = Einstein publication_count = 5 INTO scientists,
            INSERT name = Darwin   publication_count = 1 INTO scientists,
        ";
    run_query(inserts, &mut db).unwrap();

    match db {
        AnyDatabase::StringDatabase(st) => st,
        _ => unreachable!(),
    }
}

fn run_select(
    db: &mut Database<String>,
    rows: &[&str],
    limit: Option<u64>,
    order_by: Option<&str>,
) -> QueryResult {
    let mut st = SelectSt::new(rows.iter().map(|s| s.to_string()).collect(), false, "scientists".to_string());
    st.limit = limit.map(LimitSt);
    st.order_by = order_by.map(|f| OrderBySt(f.to_string()));

    Select::new(db, st).collect_rows().unwrap()
}

#[test]
fn select_with_limit_without_order_by_returns_first_n_by_key() {
    let mut db = seeded_db();
    let (headers, rows) = run_select(&mut db, &["publication_count"], Some(2), None);

    assert_eq!(headers, vec!["publication_count"]);
    assert_eq!(rows, vec![vec!["7"], vec!["1"]]);
}

#[test]
fn select_with_order_by_sorts_by_field() {
    let mut db = seeded_db();
    let (_, rows) = run_select(&mut db, &["publication_count"], None, Some("publication_count"));

    assert_eq!(rows, vec![vec!["1"], vec!["3"], vec!["5"], vec!["7"]]);
}

#[test]
fn select_with_order_by_and_limit_sorts_then_truncates() {
    let mut db = seeded_db();
    let (_, rows) = run_select(&mut db, &["publication_count"], Some(2), Some("publication_count"));

    assert_eq!(rows, vec![vec!["1"], vec!["3"]]);
}

#[test]
fn select_without_modifiers_returns_all_in_key_order() {
    let mut db = seeded_db();
    let (_, rows) = run_select(&mut db, &["publication_count"], None, None);

    assert_eq!(rows, vec![vec!["7"], vec!["1"], vec!["5"], vec!["3"]]);
}

#[test]
fn select_star_returns_all_columns_sorted() {
    let mut db = seeded_db();

    let mut st = SelectSt::new(vec![], true, "scientists".to_string());
    st.order_by = Some(OrderBySt("publication_count".to_string()));
    st.limit = Some(LimitSt(1));

    let (headers, rows) = Select::new(&mut db, st).collect_rows().unwrap();

    assert_eq!(headers, vec!["name", "publication_count"]);
    assert_eq!(rows, vec![vec!["Darwin", "1"]]);
}

#[test]
fn select_unknown_column_errors() {
    let mut db = seeded_db();

    let st = SelectSt::new(vec!["nonexistent".to_string()], false, "scientists".to_string());
    let err = Select::new(&mut db, st).collect_rows();

    assert!(matches!(err, Err(ExecutionErr::NoDef(_))));
}

#[test]
fn test() {
    let mut db = seeded_db();

    let mut st = SelectSt::new(vec![], true, "scientists".to_string());
    st.order_by = Some(OrderBySt("publication_count".to_string()));
    st.limit = Some(LimitSt(10));

    let headers = Select::new(&mut db, st).execute().unwrap();
    println!("{}", headers);
}
