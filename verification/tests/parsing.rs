use database::errors::{DatabaseErr, ParsingErr, StatementErr};
use database::model::{Decimal, FieldMap, Value, ValueType};
use database::parsing::{CreateSt, DeleteSt, InsertSt, ReadSt, SQLParser, Statement};

fn schema(entries: &[(&str, ValueType)]) -> FieldMap<ValueType> {
    let mut m = FieldMap::new();
    for (k, v) in entries {
        m.insert(k.to_string(), *v);
    }
    m
}

fn float(text: &str) -> Value {
    Value::Float(Decimal::parse(text).unwrap())
}

#[test]
fn build_statement_type_test() {
    let query = "CREATE library KEY id FIELDS id: String, title: String, 
                CREATE lib Key i F i:String,
                INSERT a = 2,  b = true, c = true, d = 9.33 INTO t1
                DELETE a  FROM t1
                READ_FROM ./some/path/to/somewhere
                DELETE b FROM ty
                SAVE path  ";
    let sts = SQLParser::parse_sql(query).unwrap();

    assert!(matches!(sts[0], Statement::Create(_)));
    assert!(matches!(sts[1], Statement::Create(_)));
    assert!(matches!(sts[2], Statement::Insert(_)));
    assert!(matches!(sts[3], Statement::Delete(_)));
    assert!(matches!(sts[4], Statement::Read(_)));
    assert!(matches!(sts[5], Statement::Delete(_)));
    assert!(matches!(sts[6], Statement::Save(_)));
    assert!(matches!(sts[7], Statement::NoStatement));
}

#[test]
fn build_statement_should_fail() {
    let query = "CRTE library KEY id FIELDS id: String, title: String,";
    let sts = SQLParser::parse_sql(query);
    assert!(sts.is_err());

    let query = "CREATE library KEY id FIELDS id STRING id STRING";
    let sts = SQLParser::parse_sql(query);
    assert!(sts.is_err());

    let query = "INSERT a = a a = b INTO a";
    let sts = SQLParser::parse_sql(query);
    assert!(sts.is_err());

    let query = "D a ";
    let sts = SQLParser::parse_sql(query);
    assert!(sts.is_err());

    let query = "R  ";
    let sts = SQLParser::parse_sql(query);
    assert!(sts.is_err());
}

#[test]
fn build_select_should_work() {
    let query = "SELECT * FROM tabela Order_BY row Limit 12";

    let st = SQLParser::parse_sql(query);

    println!("{:#?}", st);
    match &st.unwrap()[0] {
        Statement::Select(s) => {
            assert!(s.all_rows);
            assert_eq!(s.table_name, "tabela");
            assert_eq!(s.limit.as_ref().map(|l| l.0), Some(12));
            assert_eq!(s.order_by.as_ref().map(|o| o.0.clone()), Some("row".to_string()));
        }
        _ => panic!(),
    }
}

#[test]
fn build_create_statement_test() {
    let query = "CREATE library KEY id FIELDS id: String, title: Int, 
                CREATE lib Key i F i:float j: Bool k: Int";

    let sts = SQLParser::parse_sql(query).unwrap();

    match &sts[0] {
        Statement::Create(actual) => {
            let expected_fields = schema(&[("id", ValueType::String), ("title", ValueType::Int)]);
            let expected = CreateSt::new("library".to_string(), "id".to_string(), expected_fields);
            assert_eq!(&expected, actual);
        }
        _ => panic!(),
    }

    match &sts[1] {
        Statement::Create(actual) => {
            let expected_fields =
                schema(&[("i", ValueType::Float), ("j", ValueType::Bool), ("k", ValueType::Int)]);
            let expected = CreateSt::new("lib".to_string(), "i".to_string(), expected_fields);
            assert_eq!(&expected, actual);
        }
        _ => panic!(),
    }
}

#[test]
fn build_insert_statement_test() {
    let query = "INsert a = 1 b= 2.0 c = abc d = false into a, 
                INsert a = was b= 0.0 c = c d = true into a";

    let sts = SQLParser::parse_sql(query).unwrap();

    match &sts[0] {
        Statement::Insert(actual) => {
            let mut expected_fields = FieldMap::new();
            expected_fields.insert("a".to_string(), Value::Int(1));
            expected_fields.insert("b".to_string(), float("2.0"));
            expected_fields.insert("c".to_string(), Value::String("abc".to_string()));
            expected_fields.insert("d".to_string(), Value::Bool(false));
            let expected = InsertSt::new("a".to_string(), expected_fields);
            assert_eq!(&expected, actual);
        }
        _ => panic!(),
    }

    match &sts[1] {
        Statement::Insert(actual) => {
            let mut expected_fields = FieldMap::new();
            expected_fields.insert("a".to_string(), Value::String("was".to_string()));
            expected_fields.insert("b".to_string(), float("0.0"));
            expected_fields.insert("c".to_string(), Value::String("c".to_string()));
            expected_fields.insert("d".to_string(), Value::Bool(true));
            let expected = InsertSt::new("a".to_string(), expected_fields);
            assert_eq!(&expected, actual);
        }
        _ => panic!(),
    }
}

#[test]
fn build_delete_statement_test() {
    let query = "DELETE a FROM b,
            DELETE b FROM a";

    let sts = SQLParser::parse_sql(query).unwrap();

    match &sts[0] {
        Statement::Delete(actual) => {
            let expected = DeleteSt::new("b".to_string(), "a".to_string());
            assert_eq!(&expected, actual);
        }
        _ => panic!(),
    }

    match &sts[1] {
        Statement::Delete(actual) => {
            let expected = DeleteSt::new("a".to_string(), "b".to_string());
            assert_eq!(&expected, actual);
        }
        _ => panic!(),
    }
}

#[test]
fn build_read_statement_test() {
    let query = "READ_FROM ./data/input.txt
            READ .\\some\\path\\to\\somewhere";

    let sts = SQLParser::parse_sql(query).unwrap();

    match &sts[0] {
        Statement::Read(actual) => {
            let expected = ReadSt::new("./data/input.txt".to_string());
            assert_eq!(&expected, actual);
        }
        _ => panic!(),
    }

    match &sts[1] {
        Statement::Read(actual) => {
            let expected = ReadSt::new(".\\some\\path\\to\\somewhere".to_string());
            assert_eq!(&expected, actual);
        }
        _ => panic!(),
    }
}

#[test]
fn to_query_round_trips() {
    let query = "
            CREATE t KEY id FIELDS id: String, n: Int, r: Float, ok: Bool
            INSERT id = \"a\", n = 5, r = 3.0, ok = true INTO t
            DELETE \"a\" FROM t
            SELECT n, r FROM t ORDER_BY n LIMIT 2
            SELECT * FROM t
        ";

    let first: Vec<String> = SQLParser::parse_sql(query)
        .unwrap()
        .iter()
        .map(Statement::to_query)
        .filter(|q| !q.is_empty())
        .collect();

    assert!(first.iter().any(|q| q.contains("r = 3.0")), "a whole fraction lost its point: {first:?}");

    let rejoined = first.join("\n");
    let second: Vec<String> = SQLParser::parse_sql(&rejoined)
        .unwrap()
        .iter()
        .map(Statement::to_query)
        .filter(|q| !q.is_empty())
        .collect();

    assert_eq!(first, second, "to_query is not stable when read again");
}

#[test]
fn syntax_error_reports_position_and_no_kind() {
    match SQLParser::parse_sql("CREATE t KEY id FIELDS id STRING") {
        Err(DatabaseErr::ParsingError { error: ParsingErr::SyntaxError(pos), statement }) => {
            assert_eq!(pos, 23);
            assert_eq!(statement, StatementErr::NotSpecified);
        }
        other => panic!("{other:?}"),
    }
    match SQLParser::parse_sql("R  ") {
        Err(DatabaseErr::ParsingError { error: ParsingErr::SyntaxError(pos), .. }) => assert_eq!(pos, 3),
        other => panic!("{other:?}"),
    }
}

#[test]
fn repeated_column_is_reported_with_its_statement() {
    match SQLParser::parse_sql("INSERT a = a a = b INTO a") {
        Err(DatabaseErr::ParsingError { error: ParsingErr::RepeatedColumn(c), statement }) => {
            assert_eq!(c, "a");
            assert_eq!(statement, StatementErr::Insert);
        }
        other => panic!("{other:?}"),
    }
    match SQLParser::parse_sql("CREATE t KEY a FIELDS a: Int a: Bool") {
        Err(DatabaseErr::ParsingError { error: ParsingErr::RepeatedColumn(c), statement }) => {
            assert_eq!(c, "a");
            assert_eq!(statement, StatementErr::Create);
        }
        other => panic!("{other:?}"),
    }
}

#[test]
fn repeated_modifier_and_large_numbers() {
    match SQLParser::parse_sql("SELECT * FROM t LIMIT 1 LIMIT 2") {
        Err(DatabaseErr::ParsingError { error: ParsingErr::RepeatedModifier, statement }) => {
            assert_eq!(statement, StatementErr::Select);
        }
        other => panic!("{other:?}"),
    }
    match SQLParser::parse_sql("INSERT a = 99999999999999999999 INTO t") {
        Err(DatabaseErr::ParsingError { error: ParsingErr::ParsingFromString(s, t), statement }) => {
            assert_eq!(s, "99999999999999999999");
            assert_eq!(t, ValueType::Int);
            assert_eq!(statement, StatementErr::Insert);
        }
        other => panic!("{other:?}"),
    }
}

#[test]
fn values_and_keywords_are_read_case_insensitively() {
    let sts = SQLParser::parse_sql("i x = -7 y = TRUE z = -0.50 w = hello i t").unwrap();
    match &sts[0] {
        Statement::Insert(st) => {
            assert_eq!(st.table_name, "t");
            assert_eq!(st.fields.get("x"), Some(&Value::Int(-7)));
            assert_eq!(st.fields.get("y"), Some(&Value::Bool(true)));
            assert_eq!(st.fields.get("z"), Some(&float("-0.5")));
            assert_eq!(st.fields.get("w"), Some(&Value::String("hello".to_string())));
        }
        _ => panic!(),
    }
    assert!(matches!(sts[1], Statement::NoStatement));
    assert_eq!(sts.len(), 2);
}

#[test]
fn empty_query_is_only_the_end() {
    let sts = SQLParser::parse_sql("  , \n").unwrap();
    assert_eq!(sts.len(), 1);
    assert!(matches!(sts[0], Statement::NoStatement));
}

#[test]
fn statements_with_the_same_fields_are_equal_in_any_order() {
    let a = CreateSt::new(
        "t".to_string(),
        "k".to_string(),
        schema(&[("k", ValueType::String), ("f", ValueType::Int)]),
    );
    let b = CreateSt::new(
        "t".to_string(),
        "k".to_string(),
        schema(&[("f", ValueType::Int), ("k", ValueType::String)]),
    );
    assert_eq!(a, b);
    assert_eq!(a.to_query(), "CREATE t KEY k FIELDS f: Int, k: String");

    let mut f1 = FieldMap::new();
    f1.insert("z".to_string(), Value::Int(1));
    f1.insert("a".to_string(), Value::Bool(true));
    let mut f2 = FieldMap::new();
    f2.insert("a".to_string(), Value::Bool(true));
    f2.insert("z".to_string(), Value::Int(1));
    assert_eq!(InsertSt::new("t".to_string(), f1), InsertSt::new("t".to_string(), f2));
}

#[test]
fn create_text_with_names_out_of_order_reads_back() {
    let st = CreateSt::new(
        "t".to_string(),
        "k".to_string(),
        schema(&[("k", ValueType::String), ("f", ValueType::Int)]),
    );
    let sts = SQLParser::parse_sql(&st.to_query()).unwrap();
    assert_eq!(sts.len(), 2);
    match &sts[0] {
        Statement::Create(actual) => assert_eq!(&st, actual),
        _ => panic!(),
    }
    assert!(matches!(sts[1], Statement::NoStatement));
}

#[test]
fn type_names_read_back_as_their_types() {
    for ty in [ValueType::String, ValueType::Int, ValueType::Float, ValueType::Bool] {
        let query = format!("CREATE t KEY k FIELDS k: String, f: {}", ty.to_query_name());
        let sts = SQLParser::parse_sql(&query).unwrap();
        match &sts[0] {
            Statement::Create(c) => assert_eq!(c.schema.get("f"), Some(&ty)),
            _ => panic!(),
        }
    }
}
