use database::errors::{DatabaseErr, ExecutionErr, ParsingErr, StatementErr};
use database::help::help;
use database::model::{Create, Database, Decimal, Delete, Insert, Record, Select, Table, Value, ValueType};
use database::model::commands::select_command::format_data;
use database::parsing::{DeleteSt, LimitSt, OrderBySt, SQLParser, SelectSt, Statement};
use database::text::{trimmed, u64_to_string};
use database::shell::{shell_command, ShellCommand};
use database::model::Command;

fn setup(query: &str) -> Database<String> {
    let mut db: Database<String> = Database::new();
    for st in SQLParser::parse_sql(query).unwrap() {
        match st {
            Statement::Create(c) => Create::new(&mut db, c).execute().unwrap(),
            Statement::Insert(i) => Insert::from(&mut db, i).unwrap().execute().unwrap(),
            _ => {}
        }
    }
    db
}

#[test]
fn insert_then_read_gives_the_fields_back() {
    let db = setup("CREATE t KEY id FIELDS id: String, a: Int, b: Bool INSERT id = x a = 4 b = false INTO t");
    let rec = db.table("t").unwrap().get_record(&"x".to_string()).unwrap();
    assert_eq!(rec.len(), 2);
    assert_eq!(rec.get("a"), Some(&Value::Int(4)));
    assert_eq!(rec.get("b"), Some(&Value::Bool(false)));
    assert_eq!(rec.get("id"), None);
}

#[test]
fn delete_after_insert_restores_the_table() {
    let mut db = setup("CREATE t KEY id FIELDS id: String, a: Int INSERT id = x a = 1 INTO t");
    let before = db.table("t").unwrap().get_records().len();
    let sts = SQLParser::parse_sql("INSERT id = y a = 2 INTO t").unwrap();
    if let Statement::Insert(i) = sts[0].copy() {
        Insert::from(&mut db, i).unwrap().execute().unwrap();
    }
    Delete::new(db.get_table(&"t".to_string()).unwrap(), DeleteSt::new("t".to_string(), "y".to_string()))
        .execute()
        .unwrap();
    let t = db.table("t").unwrap();
    assert_eq!(t.get_records().len(), before);
    assert!(t.contains(&"x".to_string()));
    assert!(!t.contains(&"y".to_string()));
}

#[test]
fn refused_statements_leave_the_database_unchanged() {
    let mut db = setup("CREATE t KEY id FIELDS id: String, a: Int INSERT id = x a = 1 INTO t");
    for q in [
        "INSERT id = x a = 2 INTO t",
        "INSERT id = z a = true INTO t",
        "INSERT id = z INTO t",
        "INSERT id = z b = 1 INTO t",
        "INSERT id = z a = 1 INTO nope",
    ] {
        let sts = SQLParser::parse_sql(q).unwrap();
        if let Statement::Insert(i) = sts[0].copy() {
            match Insert::from(&mut db, i) {
                Ok(ins) => assert!(ins.execute().is_err()),
                Err(e) => assert!(matches!(e, ExecutionErr::NoTable(_))),
            }
        }
        let t = db.table("t").unwrap();
        assert_eq!(t.get_records().len(), 1);
        assert_eq!(t.get_record(&"x".to_string()).unwrap().get("a"), Some(&Value::Int(1)));
    }
}

#[test]
fn insert_errors_are_precise() {
    let mut db = setup("CREATE t KEY id FIELDS id: String, a: Int INSERT id = x a = 1 INTO t");
    let mut run = |q: &str| {
        let sts = SQLParser::parse_sql(q).unwrap();
        match sts[0].copy() {
            Statement::Insert(i) => Insert::from(&mut db, i).and_then(|ins| ins.execute()),
            _ => panic!(),
        }
    };
    assert!(matches!(run("INSERT id = x a = 2 INTO t"), Err(ExecutionErr::RepeatedRecord(Value::String(s))) if s == "x"));
    assert!(matches!(
        run("INSERT id = z a = true INTO t"),
        Err(ExecutionErr::BadType { got: ValueType::Bool, expected: ValueType::Int, .. })
    ));
    assert!(matches!(run("INSERT id = z INTO t"), Err(ExecutionErr::WrongArgLen { got: 1, expected: 2, .. })));
    assert!(matches!(run("INSERT id = z b = 1 INTO t"), Err(ExecutionErr::NoDef(f)) if f == "b"));
    assert!(matches!(run("INSERT x = z a = 1 INTO t"), Err(ExecutionErr::NoPK(k)) if k == "id"));
    assert!(matches!(
        run("INSERT id = 3 a = 1 INTO t"),
        Err(ExecutionErr::WrongPKType { expected: ValueType::String, got: ValueType::Int })
    ));
    assert!(matches!(run("INSERT id = z a = 1 INTO u"), Err(ExecutionErr::NoTable(n)) if n == "u"));
}

#[test]
fn delete_errors_are_precise() {
    let mut db: Database<i64> = Database::new();
    let sts = SQLParser::parse_sql("CREATE t KEY id FIELDS id: Int").unwrap();
    if let Statement::Create(c) = sts[0].copy() {
        Create::new(&mut db, c).execute().unwrap();
    }
    let r = Delete::new(db.get_table(&"t".to_string()).unwrap(), DeleteSt::new("t".to_string(), "abc".to_string()))
        .execute();
    assert!(matches!(r, Err(ExecutionErr::CouldntParse(k, ValueType::Int)) if k == "abc"));
    let r = Delete::new(db.get_table(&"t".to_string()).unwrap(), DeleteSt::new("t".to_string(), "5".to_string()))
        .execute();
    assert!(matches!(r, Err(ExecutionErr::NoKeyStr(k, t)) if k == "5" && t == "t"));
    assert!(matches!(Delete::from(&mut db, DeleteSt::new("u".to_string(), "5".to_string())), Err(ExecutionErr::NoTable(_))));
}

#[test]
fn order_by_sorts_ascending_and_limit_truncates() {
    let mut db = setup(
        "CREATE t KEY id FIELDS id: String, f: Float, s: String
         INSERT id = a f = 2.5 s = pear INTO t
         INSERT id = b f = -1.25 s = apple INTO t
         INSERT id = c f = 10.0 s = fig INTO t
         INSERT id = d f = 0.75 s = kiwi INTO t",
    );
    let mut st = SelectSt::new(vec!["id".to_string(), "f".to_string()], false, "t".to_string());
    st.order_by = Some(OrderBySt("f".to_string()));
    let (_, rows) = Select::new(&mut db, st).collect_rows().unwrap();
    assert_eq!(rows, vec![vec!["b", "-1.25"], vec!["d", "0.75"], vec!["a", "2.5"], vec!["c", "10"]]);

    let mut st = SelectSt::new(vec!["s".to_string()], false, "t".to_string());
    st.order_by = Some(OrderBySt("s".to_string()));
    st.limit = Some(LimitSt(3));
    let (_, rows) = Select::new(&mut db, st).collect_rows().unwrap();
    assert_eq!(rows, vec![vec!["apple"], vec!["fig"], vec!["kiwi"]]);

    let mut st = SelectSt::new(vec!["id".to_string()], false, "t".to_string());
    st.limit = Some(LimitSt(0));
    let (_, rows) = Select::new(&mut db, st).collect_rows().unwrap();
    assert!(rows.is_empty());
}

#[test]
fn select_errors() {
    let mut db = setup("CREATE t KEY id FIELDS id: String");
    let st = SelectSt::new(vec![], true, "u".to_string());
    assert!(matches!(Select::new(&mut db, st).collect_rows(), Err(ExecutionErr::NoTable(n)) if n == "u"));
    let mut st = SelectSt::new(vec![], true, "t".to_string());
    st.order_by = Some(OrderBySt("zz".to_string()));
    assert!(matches!(Select::new(&mut db, st).collect_rows(), Err(ExecutionErr::NoDef(n)) if n == "zz"));
}

#[test]
fn format_data_aligns_columns() {
    let text = format_data((
        vec!["a".to_string(), "long".to_string()],
        vec![vec!["xyz".to_string(), "1".to_string()], vec!["q".to_string(), "22".to_string()]],
    ));
    assert_eq!(text, "a   | long\n----------\nxyz | 1   \nq   | 22  ");
}

#[test]
fn values_show_and_write_as_queries_expect() {
    assert_eq!(Value::Float(Decimal::parse("3.0").unwrap()).to_display(), "3");
    assert_eq!(Value::Float(Decimal::parse("3.0").unwrap()).to_query_value(), "3.0");
    assert_eq!(Value::Float(Decimal::parse("-0.250").unwrap()).to_query_value(), "-0.25");
    assert_eq!(Value::Int(-42).to_display(), "-42");
    assert_eq!(Value::Bool(true).to_query_value(), "true");
    assert_eq!(Value::String("w".to_string()).get_type(), ValueType::String);
    assert_eq!(ValueType::Float.to_query_name(), "Float");
    assert_eq!(Value::Int(1).compare(&Value::Int(2)), std::cmp::Ordering::Less);
    assert_eq!(Value::Int(1).compare(&Value::Bool(true)), std::cmp::Ordering::Equal);
    assert!(Decimal::parse("1.").is_none());
    assert!(Decimal::parse("12").is_none());
}

#[test]
fn table_keeps_records_in_key_order() {
    let mut schema = database::model::FieldMap::new();
    schema.insert("k".to_string(), ValueType::Int);
    let mut t: Table<i64> = Table::new_empty(schema, "k".to_string(), "t".to_string());
    for k in [5i64, -3, 9, 0] {
        assert!(t.add_record(k, Record::new()).is_none());
    }
    let keys: Vec<i64> = t.get_records().iter().map(|(k, _)| *k).collect();
    assert_eq!(keys, vec![-3, 0, 5, 9]);
    assert!(t.add_record(5, Record::new()).is_some());
    assert!(t.delete_record(&0).is_some());
    assert!(t.delete_record(&0).is_none());
    assert_eq!(t.get_pk(), "k");
    assert_eq!(t.get_tk(), "t");
}

#[test]
fn error_messages() {
    let e = DatabaseErr::ExecutionError { error: ExecutionErr::NoTable("t".to_string()), statement: StatementErr::Select };
    assert_eq!(e.message(), "[SELECT] No table 't' in database'");
    let e = DatabaseErr::ParsingError { error: ParsingErr::SyntaxError(4), statement: StatementErr::NotSpecified };
    assert_eq!(e.message(), "[_] Syntax error at character 4 (format of command is incorrect)");
    let e = ExecutionErr::WrongArgLen { table: "t".to_string(), got: 1, expected: 3 };
    assert_eq!(e.message(), "Bad amount of arguments in 't', expected 3 but got 1");
    let e = ExecutionErr::RepeatedRecord(Value::String("x".to_string()));
    assert_eq!(e.message(), "Value 'String(\"x\")' appeared more than once");
    let e = ExecutionErr::ExecutingError(Box::new(DatabaseErr::ParsingError {
        error: ParsingErr::RepeatedModifier,
        statement: StatementErr::Select,
    }));
    assert_eq!(e.message(), "Error while executing file: [SELECT] Modifier appeared more than once");
    assert_eq!(StatementErr::Read.to_string(), "READ_FROM");
    assert_eq!(database::errors::parsing_err::StatementErr::Insert.to_string(), "INSERT");
}

#[test]
fn help_lists_the_commands() {
    let h = help();
    assert!(h.contains("CREATE (C)"));
    assert!(h.contains("READ_FROM (READ, R_F, R)"));
}

#[test]
fn text_helpers() {
    assert_eq!(trimmed("  a b \t"), "a b");
    assert_eq!(u64_to_string(1234567890123), "1234567890123");
    assert_eq!(u64_to_string(0), "0");
}

#[test]
fn order_by_keeps_key_order_for_equal_values() {
    let mut db = setup(
        "CREATE t KEY id FIELDS id: String, g: Int
         INSERT id = d g = 1 INTO t
         INSERT id = b g = 2 INTO t
         INSERT id = a g = 1 INTO t
         INSERT id = c g = 2 INTO t",
    );
    let mut st = SelectSt::new(vec!["id".to_string()], false, "t".to_string());
    st.order_by = Some(OrderBySt("g".to_string()));
    let (_, rows) = Select::new(&mut db, st).collect_rows().unwrap();
    assert_eq!(rows, vec![vec!["a"], vec!["d"], vec!["b"], vec!["c"]]);
}

#[test]
fn each_statement_text_reads_back_as_itself() {
    let query = "CREATE t KEY id FIELDS a: Bool, id: Int, z: Float
                 INSERT a = true, id = -12, z = 0.5 INTO t
                 DELETE 7 FROM t
                 SELECT a, z FROM t ORDER_BY z LIMIT 3
                 SELECT * FROM t
                 SAVE_AS out.txt
                 READ_FROM in.txt";
    for st in SQLParser::parse_sql(query).unwrap() {
        let text = st.to_query();
        if text.is_empty() {
            continue;
        }
        let again = SQLParser::parse_sql(&text).unwrap();
        assert_eq!(again.len(), 2);
        assert_eq!(again[0].to_query(), text);
        assert!(matches!(again[1], Statement::NoStatement));
    }
}

#[test]
fn format_data_leaves_missing_cells_out() {
    let text = format_data((
        vec!["a".to_string(), "long".to_string()],
        vec![vec!["q".to_string(), "22".to_string()], vec!["xyz".to_string()]],
    ));
    assert_eq!(text, "a   | long\n----------\nq   | 22  \nxyz");
}

#[test]
fn shell_lines_are_read_as_commands() {
    assert_eq!(shell_command("exit"), ShellCommand::Exit);
    assert_eq!(shell_command("  /EXIT \n"), ShellCommand::Exit);
    assert_eq!(shell_command("Help"), ShellCommand::Help);
    assert_eq!(shell_command(" \t "), ShellCommand::Skip);
    assert_eq!(shell_command(""), ShellCommand::Skip);
    assert_eq!(shell_command("exits"), ShellCommand::Query);
    assert_eq!(shell_command("SELECT * FROM t"), ShellCommand::Query);
}

#[test]
fn commands_execute_through_the_trait() {
    let mut db: Database<String> = Database::new();
    let sts = SQLParser::parse_sql("CREATE t KEY k FIELDS k: String").unwrap();
    match sts[0].copy() {
        Statement::Create(st) => Command::execute(Create::new(&mut db, st)).unwrap(),
        _ => panic!(),
    }
    assert!(db.table("t").is_some());
}
