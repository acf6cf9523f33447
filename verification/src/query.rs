use crate::number::{float_partial_order, int_order, i64_order, float_partial_order_exec, Order};
use crate::record::{lookup, FieldsView, Record};
use crate::text::{
    compare_str, seq_contains, seq_ends_with, seq_starts_with, str_contains, str_ends_with,
    str_order, str_starts_with,
};
use crate::value::{view_as_str, yaml_eq, Value, ValueView};
use vstd::prelude::*;

verus! {

/// A condition on the fields of a record.
#[derive(Debug)]
pub enum QueryOp {
    Eq(String, Value),
    Ne(String, Value),
    Gt(String, Value),
    Lt(String, Value),
    Gte(String, Value),
    Lte(String, Value),
    Contains(String, String),
    StartsWith(String, String),
    EndsWith(String, String),
    And(Vec<QueryOp>),
    Or(Vec<QueryOp>),
    Not(Box<QueryOp>),
}

/// The ordered comparison of a field with a query value: numbers as `i64`
/// where both fit, otherwise as doubles; strings lexicographically;
/// anything else never compares.
pub open spec fn compare_matches(field: Option<ValueView>, q: ValueView, ord: Order) -> bool {
    match (field, q) {
        (Some(ValueView::Number(a)), ValueView::Number(b)) => match (
            a.spec_as_i64(),
            b.spec_as_i64(),
        ) {
            (Some(x), Some(y)) => int_order(x as int, y as int) == ord,
            _ => float_partial_order(a.spec_f64_bits(), b.spec_f64_bits()) == Some(ord),
        },
        (Some(ValueView::String(a)), ValueView::String(b)) => str_order(a, b) == ord,
        _ => false,
    }
}

/// The field equals the query value.
pub open spec fn field_equals(field: Option<ValueView>, q: ValueView) -> bool {
    field matches Some(v) && yaml_eq(v, q)
}

/// The field holds a string (looking through tags) for which `pred` holds.
pub open spec fn field_str_satisfies(
    field: Option<ValueView>,
    p: Seq<char>,
    kind: int,
) -> bool {
    match field {
        Some(v) => match view_as_str(v) {
            Some(s) => if kind == 0 {
                seq_contains(s, p)
            } else if kind == 1 {
                seq_starts_with(s, p)
            } else {
                seq_ends_with(s, p)
            },
            None => false,
        },
        None => false,
    }
}

/// Whether a record with fields `d` satisfies the condition.
pub open spec fn op_matches(op: QueryOp, d: FieldsView) -> bool
    decreases op,
{
    match op {
        QueryOp::Eq(k, v) => field_equals(lookup(d, k@), v@),
        QueryOp::Ne(k, v) => match lookup(d, k@) {
            Some(x) => !yaml_eq(x, v@),
            None => true,
        },
        QueryOp::Gt(k, v) => compare_matches(lookup(d, k@), v@, Order::Greater),
        QueryOp::Lt(k, v) => compare_matches(lookup(d, k@), v@, Order::Less),
        QueryOp::Gte(k, v) => compare_matches(lookup(d, k@), v@, Order::Greater) || field_equals(
            lookup(d, k@),
            v@,
        ),
        QueryOp::Lte(k, v) => compare_matches(lookup(d, k@), v@, Order::Less) || field_equals(
            lookup(d, k@),
            v@,
        ),
        QueryOp::Contains(k, p) => field_str_satisfies(lookup(d, k@), p@, 0),
        QueryOp::StartsWith(k, p) => field_str_satisfies(lookup(d, k@), p@, 1),
        QueryOp::EndsWith(k, p) => field_str_satisfies(lookup(d, k@), p@, 2),
        QueryOp::And(ops) => forall|i: int| 0 <= i < ops@.len() ==> op_matches(#[trigger] ops@[i], d),
        QueryOp::Or(ops) => exists|i: int| 0 <= i < ops@.len() && op_matches(#[trigger] ops@[i], d),
        QueryOp::Not(b) => !op_matches(*b, d),
    }
}

/// The ordered comparison of a field with a query value.
pub fn compare_values(field: Option<&Value>, q: &Value, ord: Order) -> (r: bool)
    ensures
        r == compare_matches(
            match field {
                Some(v) => Some(v@),
                None => None,
            },
            q@,
            ord,
        ),
{
    match (field, q) {
        (Some(Value::Number(a)), Value::Number(b)) => {
            match (a.as_i64(), b.as_i64()) {
                (Some(x), Some(y)) => i64_order(x, y) == ord,
                _ => {
                    let o = float_partial_order_exec(a.f64_bits(), b.f64_bits());
                    match o {
                        Some(o) => o == ord,
                        None => false,
                    }
                },
            }
        },
        (Some(Value::String(a)), Value::String(b)) => compare_str(a.as_str(), b.as_str()) == ord,
        _ => false,
    }
}

impl QueryOp {
    pub fn eq(key: &str, value: Value) -> (r: QueryOp)
        ensures
            r matches QueryOp::Eq(k, v) && k@ == key@ && v == value,
    {
        QueryOp::Eq(key.to_owned(), value)
    }

    pub fn ne(key: &str, value: Value) -> (r: QueryOp)
        ensures
            r matches QueryOp::Ne(k, v) && k@ == key@ && v == value,
    {
        QueryOp::Ne(key.to_owned(), value)
    }

    pub fn gt(key: &str, value: Value) -> (r: QueryOp)
        ensures
            r matches QueryOp::Gt(k, v) && k@ == key@ && v == value,
    {
        QueryOp::Gt(key.to_owned(), value)
    }

    pub fn lt(key: &str, value: Value) -> (r: QueryOp)
        ensures
            r matches QueryOp::Lt(k, v) && k@ == key@ && v == value,
    {
        QueryOp::Lt(key.to_owned(), value)
    }

    pub fn gte(key: &str, value: Value) -> (r: QueryOp)
        ensures
            r matches QueryOp::Gte(k, v) && k@ == key@ && v == value,
    {
        QueryOp::Gte(key.to_owned(), value)
    }

    pub fn lte(key: &str, value: Value) -> (r: QueryOp)
        ensures
            r matches QueryOp::Lte(k, v) && k@ == key@ && v == value,
    {
        QueryOp::Lte(key.to_owned(), value)
    }

    pub fn contains(key: &str, value: &str) -> (r: QueryOp)
        ensures
            r matches QueryOp::Contains(k, v) && k@ == key@ && v@ == value@,
    {
        QueryOp::Contains(key.to_owned(), value.to_owned())
    }

    pub fn starts_with(key: &str, value: &str) -> (r: QueryOp)
        ensures
            r matches QueryOp::StartsWith(k, v) && k@ == key@ && v@ == value@,
    {
        QueryOp::StartsWith(key.to_owned(), value.to_owned())
    }

    pub fn ends_with(key: &str, value: &str) -> (r: QueryOp)
        ensures
            r matches QueryOp::EndsWith(k, v) && k@ == key@ && v@ == value@,
    {
        QueryOp::EndsWith(key.to_owned(), value.to_owned())
    }

    pub fn and(ops: Vec<QueryOp>) -> (r: QueryOp)
        ensures
            r == QueryOp::And(ops),
    {
        QueryOp::And(ops)
    }

    pub fn or(ops: Vec<QueryOp>) -> (r: QueryOp)
        ensures
            r == QueryOp::Or(ops),
    {
        QueryOp::Or(ops)
    }

    pub fn negate(op: QueryOp) -> (r: QueryOp)
        ensures
            r == QueryOp::Not(Box::new(op)),
    {
        QueryOp::Not(Box::new(op))
    }

    /// Whether the record satisfies the condition.
    #[verifier::loop_isolation(false)]
    pub fn matches(&self, record: &Record) -> (r: bool)
        ensures
            r == op_matches(*self, record.fields()),
        decreases self,
    {
        match self {
            QueryOp::Eq(key, value) => match record.get(key.as_str()) {
                Some(v) => v.equals(value),
                None => false,
            },
            QueryOp::Ne(key, value) => match record.get(key.as_str()) {
                Some(v) => !v.equals(value),
                None => true,
            },
            QueryOp::Gt(key, value) => compare_values(record.get(key.as_str()), value, Order::Greater),
            QueryOp::Lt(key, value) => compare_values(record.get(key.as_str()), value, Order::Less),
            QueryOp::Gte(key, value) => {
                let f = record.get(key.as_str());
                compare_values(f, value, Order::Greater) || match f {
                    Some(v) => v.equals(value),
                    None => false,
                }
            },
            QueryOp::Lte(key, value) => {
                let f = record.get(key.as_str());
                compare_values(f, value, Order::Less) || match f {
                    Some(v) => v.equals(value),
                    None => false,
                }
            },
            QueryOp::Contains(key, p) => match record.get_str(key.as_str()) {
                Some(s) => str_contains(s, p.as_str()),
                None => false,
            },
            QueryOp::StartsWith(key, p) => match record.get_str(key.as_str()) {
                Some(s) => str_starts_with(s, p.as_str()),
                None => false,
            },
            QueryOp::EndsWith(key, p) => match record.get_str(key.as_str()) {
                Some(s) => str_ends_with(s, p.as_str()),
                None => false,
            },
            QueryOp::And(ops) => {
                let mut i: usize = 0;
                while i < ops.len()
                    invariant
                        i <= ops.len(),
                        forall|j: int| 0 <= j < i ==> op_matches(#[trigger] ops@[j], record.fields()),
                    decreases ops.len() - i,
                {
                    proof {
                        vstd::std_specs::vec::axiom_vec_index_decreases(*ops, i as int);
                    }
                    if !ops[i].matches(record) {
                        return false;
                    }
                    i += 1;
                }
                true
            },
            QueryOp::Or(ops) => {
                let mut i: usize = 0;
                while i < ops.len()
                    invariant
                        i <= ops.len(),
                        forall|j: int| 0 <= j < i ==> !op_matches(#[trigger] ops@[j], record.fields()),
                    decreases ops.len() - i,
                {
                    proof {
                        vstd::std_specs::vec::axiom_vec_index_decreases(*ops, i as int);
                    }
                    if ops[i].matches(record) {
                        return true;
                    }
                    i += 1;
                }
                false
            },
            QueryOp::Not(b) => !b.matches(record),
        }
    }
}

} // verus!
