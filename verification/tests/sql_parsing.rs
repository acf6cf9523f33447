use yamldb::odbc::connect_path;
use yamldb::query::QueryOp;
use yamldb::sql::{
    matches_pattern, parse_comparison, parse_condition, parse_dsn, parse_query, pattern_match,
    unquote_ident, Parse,
};
use yamldb::value::Value;
use yamldb::Record;

fn read_float(s: &str) -> Option<u64> {
    s.parse::<f64>().ok().map(f64::to_bits)
}

fn record(fields: &[(&str, Value)]) -> Record {
    let mut r = Record::new("r");
    for (k, v) in fields {
        r.set_field(k, v.deep_clone());
    }
    r
}

#[test]
fn dsn_reads_dbq_and_file_keys() {
    assert_eq!(parse_dsn("Driver=YamlDB;DBQ= /tmp/data.yaml ;"), Some("/tmp/data.yaml".to_string()));
    assert_eq!(parse_dsn("file=./dir"), Some("./dir".to_string()));
    assert_eq!(parse_dsn("Driver=YamlDB;Server=x"), None);
    assert_eq!(parse_dsn("plain/path.yaml"), None);
    assert_eq!(parse_dsn(" dbq =a=b"), Some("a=b".to_string()));
}

#[test]
fn connect_path_falls_back_to_the_whole_string() {
    assert_eq!(connect_path("DBQ=x.yaml"), "x.yaml");
    assert_eq!(connect_path("data.yaml"), "data.yaml");
}

#[test]
fn identifiers_lose_one_pair_of_quotes() {
    assert_eq!(unquote_ident("  \"users\" "), Some("users".to_string()));
    assert_eq!(unquote_ident("`teams`"), Some("teams".to_string()));
    assert_eq!(unquote_ident("plain"), Some("plain".to_string()));
    assert_eq!(unquote_ident("   "), None);
    assert_eq!(unquote_ident("\"\""), Some(String::new()));
}

#[test]
fn like_patterns() {
    assert!(pattern_match(b"users", b"%"));
    assert!(pattern_match(b"users", b"us%"));
    assert!(pattern_match(b"USERS", b"users"));
    assert!(pattern_match(b"users", b"u_ers"));
    assert!(!pattern_match(b"users", b"u_rs"));
    assert!(!pattern_match(b"", b"_"));
    assert!(pattern_match(b"", b"%%"));
    assert!(matches_pattern("anything", None));
    assert!(matches_pattern("anything", Some("")));
    assert!(matches_pattern("anything", Some("%")));
    assert!(!matches_pattern("teams", Some("us%")));
}

#[test]
fn comparison_symbols_are_tried_in_order() {
    match parse_comparison(" Age >= 30 ", &read_float) {
        Parse::Parsed(QueryOp::Gte(k, v)) => {
            assert_eq!(k, "age");
            assert_eq!(v.as_i64(), Some(30));
        }
        _ => panic!("expected >="),
    }
    match parse_comparison("name = 'Alice'", &read_float) {
        Parse::Parsed(QueryOp::Eq(k, v)) => {
            assert_eq!(k, "name");
            assert_eq!(v.as_str(), Some("Alice"));
        }
        _ => panic!("expected ="),
    }
    match parse_comparison("city != Beijing", &read_float) {
        Parse::Parsed(QueryOp::Ne(_, v)) => assert_eq!(v.as_str(), Some("Beijing")),
        _ => panic!("expected !="),
    }
    match parse_comparison("score < 2.5", &read_float) {
        Parse::Parsed(QueryOp::Lt(_, Value::Number(n))) => {
            assert!(n.is_float());
            assert_eq!(n.f64_bits(), 2.5f64.to_bits());
        }
        _ => panic!("expected a float"),
    }
    assert!(matches!(parse_comparison("no symbol here", &read_float), Parse::Rejected));
    assert!(matches!(parse_comparison("name = '", &read_float), Parse::Malformed));
}

#[test]
fn and_binds_tighter_than_or() {
    let op = match parse_condition("a = 1 OR b = 2 AND c = 3", &read_float) {
        Parse::Parsed(op) => op,
        _ => panic!("expected a condition"),
    };
    assert!(matches!(op, QueryOp::Or(_)));
    let only_a = record(&[("a", Value::from_i64(1)), ("b", Value::from_i64(0)), ("c", Value::from_i64(0))]);
    let b_and_c = record(&[("b", Value::from_i64(2)), ("c", Value::from_i64(3))]);
    let only_b = record(&[("b", Value::from_i64(2))]);
    assert!(op.matches(&only_a));
    assert!(op.matches(&b_and_c));
    assert!(!op.matches(&only_b));
    let op = match parse_condition("a = 1 AND b = 2 or c = 3", &read_float) {
        Parse::Parsed(op) => op,
        _ => panic!("expected a condition"),
    };
    let only_c = record(&[("c", Value::from_i64(3))]);
    let only_a = record(&[("a", Value::from_i64(1))]);
    assert!(op.matches(&only_c));
    assert!(!op.matches(&only_a));
}

#[test]
fn select_statements() {
    match parse_query("select * from users;", &read_float) {
        Parse::Parsed(q) => {
            assert_eq!(q.table, "users");
            match q.op {
                QueryOp::And(ops) => assert!(ops.is_empty()),
                _ => panic!("expected every row"),
            }
        }
        _ => panic!("expected a query"),
    }
    match parse_query("SELECT * FROM \"data\" WHERE age > 20", &read_float) {
        Parse::Parsed(q) => {
            assert_eq!(q.table, "data");
            assert!(matches!(q.op, QueryOp::Gt(_, _)));
        }
        _ => panic!("expected a query"),
    }
    assert!(matches!(parse_query("SELECT name FROM users", &read_float), Parse::Rejected));
    assert!(matches!(parse_query("DELETE FROM users", &read_float), Parse::Rejected));
    assert!(matches!(parse_query("SELECT * FROM users WHERE nothing", &read_float), Parse::Rejected));
    assert!(matches!(parse_query("SELECT * FROM \"", &read_float), Parse::Malformed));
}
