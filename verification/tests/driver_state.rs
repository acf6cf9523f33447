use yamldb::odbc::{
    copy_len, slot_alloc, val_str, Allocated, Cell, ExecPlan, OdbcState, SQL_ERROR,
    SQL_HANDLE_DBC, SQL_HANDLE_ENV, SQL_HANDLE_STMT, SQL_NO_DATA, SQL_SUCCESS,
};
use yamldb::{Record, Value, YamlDb};

fn read_float(s: &str) -> Option<u64> {
    s.parse::<f64>().ok().map(f64::to_bits)
}

fn handle(a: Allocated) -> usize {
    match a {
        Allocated::Handle(h) => h,
        _ => panic!("expected a handle"),
    }
}

#[test]
fn slots_are_reused_first_free_first() {
    let mut store: Vec<Option<u8>> = Vec::new();
    assert_eq!(slot_alloc(&mut store, 1), 0);
    assert_eq!(slot_alloc(&mut store, 2), 1);
    assert_eq!(slot_alloc(&mut store, 3), 2);
    store[1] = None;
    assert_eq!(slot_alloc(&mut store, 4), 1);
    assert_eq!(store, vec![Some(1), Some(4), Some(3)]);
}

#[test]
fn handles_are_slot_plus_one() {
    let mut st = OdbcState::new();
    assert!(matches!(st.alloc_handle(SQL_HANDLE_ENV, 0), Allocated::Environment));
    assert!(matches!(st.alloc_handle(SQL_HANDLE_DBC, 0), Allocated::Failed));
    let dbc = handle(st.alloc_handle(SQL_HANDLE_DBC, 1));
    assert_eq!(dbc, 1);
    assert!(matches!(st.alloc_handle(SQL_HANDLE_STMT, 7), Allocated::Failed));
    let stmt = handle(st.alloc_handle(SQL_HANDLE_STMT, dbc));
    assert_eq!(stmt, 1);
    assert!(matches!(st.alloc_handle(99, dbc), Allocated::Failed));
    assert_eq!(st.free_handle(SQL_HANDLE_STMT, stmt), SQL_SUCCESS);
    assert_eq!(st.fetch(stmt), SQL_ERROR);
    assert_eq!(st.free_handle(SQL_HANDLE_STMT, 0), SQL_ERROR);
}

#[test]
fn statements_run_against_a_loaded_table() {
    let mut st = OdbcState::new();
    let dbc = handle(st.alloc_handle(SQL_HANDLE_DBC, 1));
    let stmt = handle(st.alloc_handle(SQL_HANDLE_STMT, dbc));
    assert!(matches!(st.plan_exec(stmt, "SELECT * FROM data", &read_float), ExecPlan::Failed));
    assert_eq!(st.connect(dbc, "data.yaml".to_string(), false), SQL_ERROR);
    assert_eq!(st.connect(dbc, "data.yaml".to_string(), true), SQL_SUCCESS);
    let op = match st.plan_exec(stmt, "SELECT * FROM data WHERE age >= 30", &read_float) {
        ExecPlan::Read { source, table, op } => {
            assert_eq!(source, "data.yaml");
            assert_eq!(table, "data");
            op
        }
        _ => panic!("expected a read"),
    };
    let mut db = YamlDb::memory();
    let mut a = Record::new("b-user");
    a.set("age", Value::from_i64(30)).set("name", Value::from_str_slice("Bo"));
    db.create(a).unwrap();
    let mut b = Record::new("a-user");
    b.set("age", Value::from_i64(20));
    db.create(b).unwrap();
    assert_eq!(st.finish_exec(stmt, &db, &op), SQL_SUCCESS);
    assert_eq!(st.row_count(stmt), Some(1));
    assert_eq!(st.num_result_cols(stmt), Some(3));
    assert_eq!(st.describe_col(stmt, 1), Some("age".to_string()));
    assert_eq!(st.describe_col(stmt, 2), Some("id".to_string()));
    assert_eq!(st.describe_col(stmt, 3), Some("name".to_string()));
    assert_eq!(st.describe_col(stmt, 4), None);
    assert!(st.get_data(stmt, 1).is_none());
    assert_eq!(st.fetch(stmt), SQL_SUCCESS);
    match st.get_data(stmt, 1) {
        Some(Cell::Text(t)) => assert_eq!(t, "30"),
        _ => panic!("expected text"),
    }
    match st.get_data(stmt, 2) {
        Some(Cell::Text(t)) => assert_eq!(t, "b-user"),
        _ => panic!("expected the id"),
    }
    match st.get_data(stmt, 3) {
        Some(Cell::Text(t)) => assert_eq!(t, "Bo"),
        _ => panic!("expected text"),
    }
    assert_eq!(st.fetch(stmt), SQL_NO_DATA);
    assert_eq!(st.disconnect(dbc), SQL_SUCCESS);
    assert!(matches!(st.plan_exec(stmt, "SELECT * FROM data", &read_float), ExecPlan::Failed));
}

#[test]
fn cells_of_values() {
    let mut r = Record::new("r");
    r.set("neg", Value::from_i64(-42))
        .set("t", Value::from_bool(true))
        .set("nul", Value::null())
        .set("f", Value::Number(yamldb::number::Number::from_f64_bits(1.5f64.to_bits())))
        .set("inf", Value::Number(yamldb::number::Number::from_f64_bits(f64::NEG_INFINITY.to_bits())))
        .set("seq", Value::Sequence(vec![Value::from_i64(1)]));
    let text = |c: Cell| match c {
        Cell::Text(t) => t,
        _ => panic!("expected text"),
    };
    assert_eq!(text(val_str(&r, "neg")), "-42");
    assert_eq!(text(val_str(&r, "t")), "true");
    assert_eq!(text(val_str(&r, "nul")), "NULL");
    assert_eq!(text(val_str(&r, "missing")), "");
    assert_eq!(text(val_str(&r, "inf")), "-.inf");
    assert!(matches!(val_str(&r, "f"), Cell::FiniteFloat(b) if b == 1.5f64.to_bits()));
    assert!(matches!(val_str(&r, "seq"), Cell::Json(_)));
}

#[test]
fn buffers_keep_a_byte_for_the_terminator() {
    assert_eq!(copy_len(10, 4), 3);
    assert_eq!(copy_len(2, 4), 2);
    assert_eq!(copy_len(5, 1), 0);
}

#[test]
fn catalog_rows() {
    let mut st = OdbcState::new();
    let dbc = handle(st.alloc_handle(SQL_HANDLE_DBC, 1));
    let stmt = handle(st.alloc_handle(SQL_HANDLE_STMT, dbc));
    let tables = vec!["teams".to_string(), "users".to_string()];
    assert_eq!(st.catalog_tables(stmt, &tables, Some("us%")), SQL_SUCCESS);
    assert_eq!(st.row_count(stmt), Some(1));
    assert_eq!(st.fetch(stmt), SQL_SUCCESS);
    match st.get_data(stmt, 1) {
        Some(Cell::Text(t)) => assert_eq!(t, "users"),
        _ => panic!("expected the table name"),
    }
    match st.get_data(stmt, 2) {
        Some(Cell::Text(t)) => assert_eq!(t, "TABLE"),
        _ => panic!("expected the table type"),
    }
    let mut db = YamlDb::memory();
    let mut r = Record::new("u1");
    r.set("name", Value::from_str_slice("A")).set("age", Value::from_i64(3));
    db.create(r).unwrap();
    let rows = yamldb::odbc::column_records("users", &db, None);
    assert_eq!(rows.len(), 2);
    assert_eq!(rows[0].id, "users.age");
    assert_eq!(rows[0].get_i64("ORDINAL_POSITION"), Some(1));
    assert_eq!(rows[1].get_str("COLUMN_NAME"), Some("name"));
    assert_eq!(rows[1].get_i64("ORDINAL_POSITION"), Some(2));
    let mut bare = YamlDb::memory();
    bare.create(Record::new("only-id")).unwrap();
    assert!(yamldb::odbc::column_records("bare", &bare, None).is_empty());
    assert_eq!(st.catalog_columns(stmt, rows), SQL_SUCCESS);
    assert_eq!(st.num_result_cols(stmt), Some(4));
    assert_eq!(st.describe_col(stmt, 4), Some("ORDINAL_POSITION".to_string()));
}

#[test]
fn result_columns_hold_the_id() {
    let mut r = Record::new("u1");
    r.set("zeta", Value::from_i64(1)).set("alpha", Value::from_i64(2));
    let cols = yamldb::odbc::query_columns(&[r]);
    assert_eq!(cols, vec!["alpha".to_string(), "id".to_string(), "zeta".to_string()]);
    assert!(yamldb::odbc::query_columns(&[]).is_empty());
    let r = Record::new("u2");
    match yamldb::odbc::row_cell(&r, "id") {
        Cell::Text(t) => assert_eq!(t, "u2"),
        _ => panic!("expected the id"),
    }
}

#[test]
fn handles_are_never_null() {
    let mut st = OdbcState::new();
    for _ in 0..3 {
        match st.alloc_handle(SQL_HANDLE_DBC, 1) {
            yamldb::odbc::Allocated::Handle(h) => assert!(h > 0),
            _ => panic!("expected a handle"),
        }
    }
}

#[test]
fn malformed_statements_are_refused() {
    let mut st = OdbcState::new();
    let dbc = handle(st.alloc_handle(SQL_HANDLE_DBC, 1));
    let stmt = handle(st.alloc_handle(SQL_HANDLE_STMT, dbc));
    assert_eq!(st.connect(dbc, "data.yaml".to_string(), true), SQL_SUCCESS);
    assert!(matches!(st.plan_exec(stmt, "SELECT * FROM data WHERE a = '", &read_float), ExecPlan::Failed));
    assert!(matches!(st.plan_exec(stmt, "SELECT * FROM \"", &read_float), ExecPlan::Failed));
}
