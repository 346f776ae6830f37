use database::errors::{DatabaseErr, ExecutionErr, StatementErr};
use database::model::{Create, Database, Decimal, Delete, FieldMap, Insert, Save, Value, ValueType};
use database::parsing::{CreateSt, SQLParser, SaveSt, Statement};

fn float(text: &str) -> Value {
    Value::Float(Decimal::parse(text).unwrap())
}

#[test]
fn execute_create_string() {
    let query = "CREATE a KEY a FIELDS a: String, c: Int, 
            CREATE b KEY a FIELDS a: String, b: Float c: Bool";

    let sts = SQLParser::parse_sql(query).unwrap();
    let mut db: Database<String> = Database::new();

    if let Statement::Create(st) = sts[0].copy() {
        Create::new(&mut db, st).execute().unwrap()
    } else {
        panic!();
    }

    if let Statement::Create(st) = sts[1].copy() {
        Create::new(&mut db, st).execute().unwrap()
    } else {
        panic!();
    }

    let tb = db.table("a").unwrap();
    assert!(tb.get_records().is_empty());
    assert_eq!(tb.get_schema().len(), 2);
    assert_eq!(tb.get_schema().get("a"), Some(&ValueType::String));
    assert_eq!(tb.get_schema().get("c"), Some(&ValueType::Int));
    assert_eq!(tb.get_pk(), "a");

    let tb = db.table("b").unwrap();
    assert!(tb.get_records().is_empty());
    assert_eq!(tb.get_schema().len(), 3);
    assert_eq!(tb.get_schema().get("a"), Some(&ValueType::String));
    assert_eq!(tb.get_schema().get("b"), Some(&ValueType::Float));
    assert_eq!(tb.get_schema().get("c"), Some(&ValueType::Bool));
    assert_eq!(tb.get_pk(), "a");
}

#[test]
fn execute_create_int() {
    let query = "CREATE users KEY user_id FIELDS user_id: Int, age: Int,
            CREATE orders KEY order_id FIELDS order_id: Int, amount: Int quantity: Int";

    let sts = SQLParser::parse_sql(query).unwrap();
    let mut db: Database<i64> = Database::new();

    if let Statement::Create(st) = sts[0].copy() {
        Create::new(&mut db, st).execute().unwrap()
    } else {
        panic!();
    }

    if let Statement::Create(st) = sts[1].copy() {
        Create::new(&mut db, st).execute().unwrap()
    } else {
        panic!();
    }

    let tb = db.table("users").unwrap();
    assert!(tb.get_records().is_empty());
    assert_eq!(tb.get_schema().len(), 2);
    assert_eq!(tb.get_schema().get("user_id"), Some(&ValueType::Int));
    assert_eq!(tb.get_schema().get("age"), Some(&ValueType::Int));
    assert_eq!(tb.get_pk(), "user_id");

    let tb = db.table("orders").unwrap();
    assert!(tb.get_records().is_empty());
    assert_eq!(tb.get_schema().len(), 3);
    assert_eq!(tb.get_schema().get("order_id"), Some(&ValueType::Int));
    assert_eq!(tb.get_schema().get("amount"), Some(&ValueType::Int));
    assert_eq!(tb.get_schema().get("quantity"), Some(&ValueType::Int));
    assert_eq!(tb.get_pk(), "order_id");
}

#[test]
fn execute_delete_string() {
    let query = "CREATE t KEY id FIELDS id: String, qty: Int price: Int
            Insert id = a, qty = 5 price = 100 into t
            Insert id = b, qty = 3 price = 50 into t
            DELETE a FROM t
            DELETE b FROM t";

    let sts = SQLParser::parse_sql(query).unwrap();
    let mut db: Database<String> = Database::new();

    if let Statement::Create(st) = sts[0].copy() {
        Create::new(&mut db, st).execute().unwrap()
    } else {
        panic!();
    }
    if let Statement::Insert(st) = sts[1].copy() {
        Insert::from(&mut db, st).unwrap().execute().unwrap()
    } else {
        panic!();
    }
    if let Statement::Insert(st) = sts[2].copy() {
        Insert::from(&mut db, st).unwrap().execute().unwrap()
    } else {
        panic!();
    }
    if let Statement::Delete(st) = sts[3].copy() {
        Delete::new(db.get_table(&"t".to_string()).unwrap(), st).execute().unwrap()
    } else {
        panic!();
    }
    if let Statement::Delete(st) = sts[4].copy() {
        Delete::new(db.get_table(&"t".to_string()).unwrap(), st).execute().unwrap()
    } else {
        panic!();
    }

    let table = db.get_table(&"t".to_string()).unwrap();
    let rec = table.get_records();
    assert!(rec.is_empty());
}

#[test]
fn execute_delete_int() {
    let query = "CREATE t KEY id FIELDS id: Int, qty: Int price: Int
            Insert id = 1, qty = 5 price = 100 into t
            Insert id = 2, qty = 3 price = 50 into t
            DELETE 1 FROM t";

    let sts = SQLParser::parse_sql(query).unwrap();
    let mut db: Database<i64> = Database::new();

    if let Statement::Create(st) = sts[0].copy() {
        Create::new(&mut db, st).execute().unwrap()
    } else {
        panic!();
    }
    if let Statement::Insert(st) = sts[1].copy() {
        Insert::from(&mut db, st).unwrap().execute().unwrap()
    } else {
        panic!();
    }
    if let Statement::Insert(st) = sts[2].copy() {
        Insert::from(&mut db, st).unwrap().execute().unwrap()
    } else {
        panic!();
    }
    if let Statement::Delete(st) = sts[3].copy() {
        Delete::new(db.get_table(&"t".to_string()).unwrap(), st).execute().unwrap()
    } else {
        panic!();
    }

    let table = db.get_table(&"t".to_string()).unwrap();
    let rec = table.get_records();
    assert_eq!(rec.len(), 1);
    let record = table.get_record(&2_i64).unwrap();
    assert_eq!(record.len(), 2);
    assert_eq!(record.get("qty"), Some(&Value::Int(3)));
    assert_eq!(record.get("price"), Some(&Value::Int(50)));
}

#[test]
fn execute_insert_string() {
    let query = "CREATE t KEY a FIELDS a: String, c: Bool,  b : Float
            Insert a =  a, b = 1.0 c = false into t
            Insert a =  b, b = 3.0 c = true into t";

    let sts = SQLParser::parse_sql(query).unwrap();
    let mut db: Database<String> = Database::new();

    if let Statement::Create(st) = sts[0].copy() {
        Create::new(&mut db, st).execute().unwrap()
    } else {
        panic!();
    }
    if let Statement::Insert(st) = sts[1].copy() {
        Insert::from(&mut db, st).unwrap().execute().unwrap()
    } else {
        panic!();
    }
    if let Statement::Insert(st) = sts[2].copy() {
        Insert::from(&mut db, st).unwrap().execute().unwrap()
    } else {
        panic!();
    }

    let table = db.get_table(&"t".to_string()).unwrap();
    let rec = table.get_record(&"a".to_string()).unwrap();
    assert_eq!(rec.len(), 2);
    assert_eq!(rec.get("b"), Some(&float("1.0")));
    assert_eq!(rec.get("c"), Some(&Value::Bool(false)));

    let rec = table.get_record(&"b".to_string()).unwrap();
    assert_eq!(rec.len(), 2);
    assert_eq!(rec.get("b"), Some(&float("3.0")));
    assert_eq!(rec.get("c"), Some(&Value::Bool(true)));
}

#[test]
fn execute_insert_int() {
    let query = "CREATE t KEY id FIELDS id: Int, qty: Int, price: Int
        Insert id = 1, qty = 5 price = 100 into t
        Insert id = 2, qty = 3 price = 50 into t";

    let sts = SQLParser::parse_sql(query).unwrap();
    let mut db: Database<i64> = Database::new();

    if let Statement::Create(st) = sts[0].copy() {
        Create::new(&mut db, st).execute().unwrap()
    } else {
        panic!();
    }
    if let Statement::Insert(st) = sts[1].copy() {
        Insert::from(&mut db, st).unwrap().execute().unwrap()
    } else {
        panic!();
    }
    if let Statement::Insert(st) = sts[2].copy() {
        Insert::from(&mut db, st).unwrap().execute().unwrap()
    } else {
        panic!();
    }

    let table = db.get_table(&"t".to_string()).unwrap();
    let rec = table.get_record(&1).unwrap();
    assert_eq!(rec.len(), 2);
    assert_eq!(rec.get("qty"), Some(&Value::Int(5)));
    assert_eq!(rec.get("price"), Some(&Value::Int(100)));

    let rec = table.get_record(&2).unwrap();
    assert_eq!(rec.len(), 2);
    assert_eq!(rec.get("qty"), Some(&Value::Int(3)));
    assert_eq!(rec.get("price"), Some(&Value::Int(50)));
}

#[test]
fn execute_save() {
    let mut db: Database<String> = Database::new();

    let mut schema = FieldMap::new();
    schema.insert("key".to_string(), ValueType::String);
    schema.insert("f".to_string(), ValueType::String);
    let st = CreateSt::new("t".to_string(), "key".to_string(), schema);
    let c = Create::new(&mut db, st);
    c.execute().unwrap();

    let st = SaveSt::new("path".to_string());
    let sv = Save::new(&mut db, st);
    let text = sv.contents();
    println!("{:#?}", text);
    assert_eq!(text, "");
    assert!(sv.st.outcome(true).is_ok());
}

#[test]
fn save_contents_list_the_log_one_query_per_line() {
    let mut db: Database<String> = Database::new();
    let sts = SQLParser::parse_sql("CREATE t KEY key FIELDS key: String, f: String").unwrap();
    db.add_log(sts[0].copy());
    db.add_log(Statement::Save(SaveSt::new("path".to_string())));
    let sv = Save::new(&mut db, SaveSt::new("path".to_string()));
    assert_eq!(sv.contents(), "CREATE t KEY key FIELDS f: String, key: String\nSAVE_AS path\n");
    match sv.st.outcome(false) {
        Err(DatabaseErr::ExecutionError { error: ExecutionErr::BadFile(p), statement }) => {
            assert_eq!(p, "path");
            assert_eq!(statement, StatementErr::Save);
        }
        other => panic!("{other:?}"),
    }
}

#[test]
fn create_errors_name_their_cause() {
    let mut db: Database<i64> = Database::new();
    let sts = SQLParser::parse_sql(
        "CREATE t KEY id FIELDS id: Int
         CREATE t KEY id FIELDS id: Int
         CREATE u KEY id FIELDS x: Int
         CREATE v KEY id FIELDS id: String",
    )
    .unwrap();
    let mut results = Vec::new();
    for st in sts.iter().take(4) {
        if let Statement::Create(c) = st.copy() {
            results.push(Create::new(&mut db, c).execute());
        }
    }
    assert!(results[0].is_ok());
    assert!(matches!(&results[1], Err(ExecutionErr::TableAlreadyPresent(n)) if n == "t"));
    assert!(matches!(&results[2], Err(ExecutionErr::NoPK(n)) if n == "id"));
    assert!(matches!(
        &results[3],
        Err(ExecutionErr::WrongPKType { expected: ValueType::Int, got: ValueType::String })
    ));
}
