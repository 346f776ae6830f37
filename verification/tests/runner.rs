use database::errors::{DatabaseErr, DatabaseResult, ExecutionErr, StatementErr};
use database::model::{AnyDatabase, Database};
use database::parsing::{Action, QueryRun, ReadSt, Statement};

/// Runs a query, answering file work from the given files; written files are recorded.
fn run_with_files(
    query: &str,
    db: &mut Database<String>,
    files: &mut Vec<(String, String)>,
) -> DatabaseResult<Option<String>> {
    let mut run = QueryRun::start(query)?;
    loop {
        let action = match run.step(db) {
            Action::ReadFile(st) => {
                let path = st.source();
                let text = files.iter().find(|(p, _)| *p == path).map(|(_, t)| t.clone());
                let nested = match text {
                    Some(t) => Some(run_with_files(&t, db, files)),
                    None => None,
                };
                run.resume(st.outcome(nested))
            }
            Action::WriteFile(st, text) => {
                files.retain(|(p, _)| *p != st.path);
                files.push((st.path.clone(), text));
                run.resume(st.outcome(true).map(|_| None))
            }
            other => other,
        };
        match action {
            Action::Continue => {}
            Action::Finished(r) => return r,
            _ => unreachable!(),
        }
    }
}

#[test]
fn select_output_is_followed_by_a_line_break() {
    let mut db: Database<String> = Database::new();
    let mut files = Vec::new();
    let out = run_with_files(
        "CREATE s KEY name FIELDS name: String, n: Int
         INSERT name = Curie n = 7 INTO s
         SELECT name, n FROM s",
        &mut db,
        &mut files,
    )
    .unwrap()
    .unwrap();
    assert_eq!(out, "name  | n\n---------\nCurie | 7\n");
}

#[test]
fn query_without_output_gives_nothing() {
    let mut db: Database<String> = Database::new();
    let mut files = Vec::new();
    let out = run_with_files("CREATE s KEY name FIELDS name: String", &mut db, &mut files).unwrap();
    assert!(out.is_none());
}

#[test]
fn only_statements_that_succeed_are_logged() {
    let mut db: Database<String> = Database::new();
    let mut files = Vec::new();
    let r = run_with_files(
        "CREATE s KEY name FIELDS name: String
         INSERT name = 5 INTO s",
        &mut db,
        &mut files,
    );
    match r {
        Err(DatabaseErr::ExecutionError { error: ExecutionErr::WrongPKType { .. }, statement }) => {
            assert_eq!(statement, StatementErr::Insert)
        }
        other => panic!("{other:?}"),
    }
    let log = db.get_log();
    assert_eq!(log.len(), 1);
    assert!(matches!(log[0], Statement::Create(_)));
}

#[test]
fn save_then_read_replays_the_session() {
    let mut db: Database<String> = Database::new();
    let mut files = Vec::new();
    run_with_files(
        "CREATE s KEY name FIELDS name: String, n: Int
         INSERT name = Curie n = 7 INTO s
         INSERT name = Darwin n = 1 INTO s
         DELETE Curie FROM s
         SAVE_AS log.txt",
        &mut db,
        &mut files,
    )
    .unwrap();
    assert_eq!(files.len(), 1);
    assert_eq!(
        files[0].1,
        "CREATE s KEY name FIELDS n: Int, name: String\nINSERT n = 7, name = Curie INTO s\n\
         INSERT n = 1, name = Darwin INTO s\nDELETE Curie FROM s\nSAVE_AS log.txt\n"
    );

    let mut fresh: Database<String> = Database::new();
    let out = run_with_files("READ_FROM log.txt SELECT * FROM s", &mut fresh, &mut files).unwrap();
    assert_eq!(out, Some("n | name  \n----------\n1 | Darwin\n".to_string()));
}

#[test]
fn reading_a_missing_file_fails_with_its_path() {
    let mut db: Database<String> = Database::new();
    let mut files = Vec::new();
    match run_with_files("READ_FROM nowhere.txt", &mut db, &mut files) {
        Err(DatabaseErr::ExecutionError { error: ExecutionErr::BadFile(p), statement }) => {
            assert_eq!(p, "nowhere.txt");
            assert_eq!(statement, StatementErr::Read);
        }
        other => panic!("{other:?}"),
    }
}

#[test]
fn an_error_inside_a_read_file_is_wrapped() {
    let mut db: Database<String> = Database::new();
    let mut files = vec![("bad.txt".to_string(), "DELETE x FROM missing".to_string())];
    match run_with_files("READ bad.txt", &mut db, &mut files) {
        Err(DatabaseErr::ExecutionError { error: ExecutionErr::ExecutingError(inner), statement }) => {
            assert_eq!(statement, StatementErr::Read);
            match *inner {
                DatabaseErr::ExecutionError { error: ExecutionErr::NoTable(t), statement } => {
                    assert_eq!(t, "missing");
                    assert_eq!(statement, StatementErr::Delete);
                }
                other => panic!("{other:?}"),
            }
        }
        other => panic!("{other:?}"),
    }
}

#[test]
fn read_source_drops_surrounding_white_space() {
    let st = ReadSt::new("\u{a0} data.txt\u{3000}".to_string());
    assert_eq!(st.source(), "data.txt");
}

#[test]
fn start_reports_reading_errors() {
    assert!(matches!(
        QueryRun::start("SELECT FROM"),
        Err(DatabaseErr::ParsingError { statement: StatementErr::NotSpecified, .. })
    ));
}

#[test]
fn int_database_runs_queries() {
    let mut any = AnyDatabase::IntDatabase(Database::new());
    let mut run = QueryRun::start("CREATE t KEY id FIELDS id: Int, v: Bool INSERT id = 3 v = true INTO t SELECT v FROM t").unwrap();
    let out = loop {
        let a = match &mut any {
            AnyDatabase::IntDatabase(d) => run.step(d),
            AnyDatabase::StringDatabase(d) => run.step(d),
        };
        match a {
            Action::Continue => {}
            Action::Finished(r) => break r,
            _ => panic!(),
        }
    };
    assert_eq!(out.unwrap(), Some("v   \n----\ntrue\n".to_string()));
    let t = "t".to_string();
    assert!(any.contains_table(&t));
}

#[test]
fn a_session_with_refused_statements_saves_and_loads() {
    let mut db: Database<String> = Database::new();
    let mut files = Vec::new();
    run_with_files("CREATE s KEY name FIELDS name: String, n: Int", &mut db, &mut files).unwrap();
    assert!(run_with_files("INSERT name = 5 n = 1 INTO s", &mut db, &mut files).is_err());
    assert!(run_with_files("DELETE Nobody FROM s", &mut db, &mut files).is_err());
    run_with_files("INSERT name = Curie n = 7 INTO s", &mut db, &mut files).unwrap();
    run_with_files("SAVE_AS all.txt", &mut db, &mut files).unwrap();
    let saved = run_with_files("SELECT * FROM s", &mut db, &mut files).unwrap();

    let mut fresh: Database<String> = Database::new();
    run_with_files("READ_FROM all.txt", &mut fresh, &mut files).unwrap();
    let loaded = run_with_files("SELECT * FROM s", &mut fresh, &mut files).unwrap();
    assert_eq!(saved, loaded);
    assert_eq!(loaded, Some("n | name \n---------\n7 | Curie\n".to_string()));
}

#[test]
fn a_save_is_logged_before_its_file_is_written() {
    let mut db: Database<String> = Database::new();
    let mut files = Vec::new();
    run_with_files("CREATE s KEY name FIELDS name: String SAVE_AS one.txt", &mut db, &mut files).unwrap();
    assert_eq!(files[0].1, "CREATE s KEY name FIELDS name: String\nSAVE_AS one.txt\n");
    let log = db.get_log();
    assert_eq!(log.len(), 3);
    assert!(matches!(log[1], Statement::Save(_)));
}

#[test]
fn select_errors_carry_the_save_tag() {
    let mut db: Database<String> = Database::new();
    let mut files = Vec::new();
    match run_with_files("SELECT * FROM missing", &mut db, &mut files) {
        Err(DatabaseErr::ExecutionError { error: ExecutionErr::NoTable(t), statement }) => {
            assert_eq!(t, "missing");
            assert_eq!(statement, StatementErr::Save);
        }
        other => panic!("{other:?}"),
    }
}
