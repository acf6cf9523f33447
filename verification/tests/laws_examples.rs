use yamldb::cli::url_decode;
use yamldb::catalog::sort_tables;
use yamldb::odbc::slot_alloc;
use yamldb::sql::pattern_match;
use yamldb::{QueryOp, Record, Value, YamlDb};

#[test]
fn last_upsert_wins() {
    let mut db = YamlDb::memory();
    let mut a = Record::new("k");
    a.set("v", Value::from_i64(1));
    let mut b = Record::new("k");
    b.set("v", Value::from_i64(2));
    db.upsert(a).unwrap();
    db.upsert(b).unwrap();
    assert_eq!(db.count(), 1);
    assert_eq!(db.read("k").unwrap().get_i64("v"), Some(2));
}

#[test]
fn delete_undoes_create() {
    let mut db = YamlDb::memory();
    db.create(Record::new("x")).unwrap();
    db.create(Record::new("z")).unwrap();
    let ids = |db: &YamlDb| db.read_all().iter().map(|r| r.id.clone()).collect::<Vec<String>>();
    let before = ids(&db);
    db.create(Record::new("y")).unwrap();
    db.delete("y").unwrap();
    assert_eq!(ids(&db), before);
    assert!(!db.contains_id("y"));
}

#[test]
fn get_after_set() {
    let mut r = Record::new("r");
    r.set("a", Value::from_i64(1)).set("b", Value::from_i64(2));
    r.set("a", Value::from_i64(3));
    assert_eq!(r.get_i64("a"), Some(3));
    assert_eq!(r.get_i64("b"), Some(2));
    assert_eq!(r.data.len(), 2);
}

#[test]
fn not_and_empty_combinations() {
    let mut r = Record::new("r");
    r.set("a", Value::from_i64(1));
    let eq = QueryOp::eq("a", Value::from_i64(1));
    assert!(eq.matches(&r));
    assert!(!QueryOp::negate(QueryOp::eq("a", Value::from_i64(1))).matches(&r));
    assert!(QueryOp::and(vec![]).matches(&r));
    assert!(!QueryOp::or(vec![]).matches(&r));
}

#[test]
fn selections_keep_id_order() {
    let mut db = YamlDb::memory();
    for id in ["c", "a", "b"] {
        let mut r = Record::new(id);
        r.set("keep", Value::from_bool(id != "b"));
        db.create(r).unwrap();
    }
    let result = db.query(&QueryOp::eq("keep", Value::from_bool(true)));
    assert_eq!(result.ids(), vec!["a", "c"]);
    let all = db.query(&QueryOp::and(vec![]));
    let mut joined = all.limit(1);
    joined.extend(all.skip(1));
    assert_eq!(joined.len(), 3);
    assert_eq!(joined[0].id, "a");
    assert_eq!(joined[2].id, "c");
}

#[test]
fn freed_slot_is_reused() {
    let mut store: Vec<Option<&str>> = Vec::new();
    slot_alloc(&mut store, "a");
    slot_alloc(&mut store, "b");
    store[0] = None;
    assert_eq!(slot_alloc(&mut store, "c"), 0);
}

#[test]
fn percent_matches_everything_and_literals_ignore_case() {
    for v in [&b""[..], b"x", b"Hello World"] {
        assert!(pattern_match(v, b"%"));
    }
    assert!(pattern_match(b"HeLLo", b"hello"));
    assert!(!pattern_match(b"hello!", b"hello"));
}

#[test]
fn plain_text_decodes_to_itself() {
    assert_eq!(url_decode("users-2024_x.y~").ok(), Some("users-2024_x.y~".to_string()));
}

#[test]
fn sorted_tables_keep_every_name() {
    let names = vec!["b".to_string(), "C".to_string(), "a".to_string(), "B".to_string()];
    let sorted = sort_tables(names);
    assert_eq!(sorted, vec!["a".to_string(), "b".to_string(), "B".to_string(), "C".to_string()]);
}
