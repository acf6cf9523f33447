use yamldb::number::{Number, Order};
use yamldb::order::{partial_order_of, total_order_of};
use yamldb::{QueryOp, Record, Value, YamlDb};

fn f(x: f64) -> Value {
    Value::Number(Number::from_f64_bits(x.to_bits()))
}

#[test]
fn values_order_by_kind_then_contents() {
    assert!(partial_order_of(&Value::null(), &Value::from_bool(false)) == Some(Order::Less));
    assert!(partial_order_of(&Value::from_i64(3), &Value::from_str_slice("a")) == Some(Order::Less));
    assert!(partial_order_of(&Value::from_i64(-1), &Value::from_i64(2)) == Some(Order::Less));
    assert!(partial_order_of(&Value::from_i64(2), &f(1.0)) == Some(Order::Less));
    assert!(partial_order_of(&f(f64::NAN), &f(1.0)).is_none());
    assert!(partial_order_of(&f(f64::NAN), &f(f64::NAN)) == Some(Order::Equal));
    assert!(total_order_of(&f(f64::NAN), &f(1.0)) == Order::Greater);
    let a = Value::Sequence(vec![Value::from_i64(1), Value::from_i64(2)]);
    let b = Value::Sequence(vec![Value::from_i64(1)]);
    assert!(partial_order_of(&a, &b) == Some(Order::Greater));
}

#[test]
fn mappings_compare_by_sorted_entries() {
    let m1 = Value::Mapping(vec![
        (Value::from_str_slice("b"), Value::from_i64(1)),
        (Value::from_str_slice("a"), Value::from_i64(2)),
    ]);
    let m2 = Value::Mapping(vec![
        (Value::from_str_slice("a"), Value::from_i64(2)),
        (Value::from_str_slice("b"), Value::from_i64(1)),
    ]);
    let m3 = Value::Mapping(vec![(Value::from_str_slice("a"), Value::from_i64(3))]);
    assert!(partial_order_of(&m1, &m2) == Some(Order::Equal));
    assert!(total_order_of(&m1, &m2) == Order::Greater);
    assert!(partial_order_of(&m1, &m3) == Some(Order::Less));
    let t1 = Value::Tagged("!x".to_string(), Box::new(Value::from_i64(1)));
    let t2 = Value::Tagged("x".to_string(), Box::new(Value::from_i64(2)));
    assert!(partial_order_of(&t1, &t2) == Some(Order::Less));
}

#[test]
fn query_results_sort_by_a_field() {
    let mut db = YamlDb::memory();
    for (id, age) in [("a", 30), ("b", 10), ("c", 20)] {
        let mut r = Record::new(id);
        r.set("age", Value::from_i64(age));
        db.create(r).unwrap();
    }
    db.create(Record::new("d")).unwrap();
    let mut result = db.query(&QueryOp::and(vec![]));
    result.sort_by_key("age", true);
    assert_eq!(result.ids(), vec!["d", "b", "c", "a"]);
    result.sort_by_key("age", false);
    assert_eq!(result.ids(), vec!["a", "c", "b", "d"]);
    assert_eq!(result.iter().len(), 4);
    assert_eq!(result.first().map(|r| r.id.as_str()), Some("a"));
    assert_eq!(result.last().map(|r| r.id.as_str()), Some("d"));
}
