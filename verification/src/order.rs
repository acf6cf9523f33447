use crate::number::{int_order, u64_order, Number, Order};
use crate::text::{chars_of, compare_str, str_order, string_from_range};
use crate::value::{lemma_pair_views, lemma_views, nobang, pair_views, views, Value, ValueView};
use vstd::prelude::*;

verus! {

/// The position of a value's kind in the order of kinds: null, boolean,
/// number, string, sequence, mapping, tagged value.
pub open spec fn rank(v: ValueView) -> int {
    match v {
        ValueView::Null => 0,
        ValueView::Bool(_) => 1,
        ValueView::Number(_) => 2,
        ValueView::String(_) => 3,
        ValueView::Sequence(_) => 4,
        ValueView::Mapping(_) => 5,
        ValueView::Tagged(_, _) => 6,
    }
}

/// `false` before `true`.
pub open spec fn bool_order(a: bool, b: bool) -> Order {
    int_order(if a { 1int } else { 0int }, if b { 1int } else { 0int })
}

/// Lexicographic order from position `i` on, given the orders of the
/// elements at each position: the first that is not `Equal`, else the
/// order of the lengths.
pub open spec fn lex_from(orders: Seq<Order>, i: int, la: int, lb: int) -> Order
    decreases orders.len() - i,
{
    if i < 0 || i >= orders.len() {
        int_order(la, lb)
    } else if orders[i] != Order::Equal {
        orders[i]
    } else {
        lex_from(orders, i + 1, la, lb)
    }
}

/// Lexicographic partial order from position `i` on: the first element
/// order that is not `Some(Equal)` (perhaps none), else the order of the
/// lengths.
pub open spec fn lex_partial_from(orders: Seq<Option<Order>>, i: int, la: int, lb: int) -> Option<
    Order,
>
    decreases orders.len() - i,
{
    if i < 0 || i >= orders.len() {
        Some(int_order(la, lb))
    } else if orders[i] != Some(Order::Equal) {
        orders[i]
    } else {
        lex_partial_from(orders, i + 1, la, lb)
    }
}

pub open spec fn min_len(a: int, b: int) -> int {
    if a < b {
        a
    } else {
        b
    }
}

/// The total orders of the elements at each position both sequences have.
pub open spec fn elem_orders(xs: Seq<ValueView>, ys: Seq<ValueView>) -> Seq<Order>
    decreases xs,
{
    Seq::new(
        min_len(xs.len() as int, ys.len() as int) as nat,
        |i: int|
            if 0 <= i < xs.len() && i < ys.len() {
                value_total(xs[i], ys[i])
            } else {
                Order::Equal
            },
    )
}

/// The total orders of the entries at each position both mappings have:
/// key, then value.
pub open spec fn entry_orders(
    xs: Seq<(ValueView, ValueView)>,
    ys: Seq<(ValueView, ValueView)>,
) -> Seq<Order>
    decreases xs,
{
    Seq::new(
        min_len(xs.len() as int, ys.len() as int) as nat,
        |i: int|
            if 0 <= i < xs.len() && i < ys.len() {
                value_total(xs[i].0, ys[i].0).spec_then(value_total(xs[i].1, ys[i].1))
            } else {
                Order::Equal
            },
    )
}

/// The total order YAML uses to sort mapping keys: by kind, then by
/// contents; numbers by their total order, strings by characters,
/// sequences and mappings (entries in insertion order, key then value)
/// lexicographically, tagged values by tag (without `!`) then value.
pub open spec fn value_total(a: ValueView, b: ValueView) -> Order
    decreases a,
{
    if rank(a) != rank(b) {
        int_order(rank(a), rank(b))
    } else {
        match (a, b) {
            (ValueView::Bool(x), ValueView::Bool(y)) => bool_order(x, y),
            (ValueView::Number(x), ValueView::Number(y)) => x.spec_total_order(y),
            (ValueView::String(x), ValueView::String(y)) => str_order(x, y),
            (ValueView::Sequence(xs), ValueView::Sequence(ys)) => lex_from(
                elem_orders(xs, ys),
                0,
                xs.len() as int,
                ys.len() as int,
            ),
            (ValueView::Mapping(xs), ValueView::Mapping(ys)) => lex_from(
                entry_orders(xs, ys),
                0,
                xs.len() as int,
                ys.len() as int,
            ),
            (ValueView::Tagged(t, x), ValueView::Tagged(u, y)) => str_order(
                nobang(t),
                nobang(u),
            ).spec_then(value_total(*x, *y)),
            _ => Order::Equal,
        }
    }
}

/// Where entry `x` goes among the entries at the positions `t` (sorted by
/// key): before the first whose key is greater, looking from `j` on.
pub open spec fn entry_insert_pos(
    xs: Seq<(ValueView, ValueView)>,
    t: Seq<int>,
    x: int,
    j: int,
) -> int
    decreases t.len() - j,
{
    if j < 0 || j >= t.len() {
        t.len() as int
    } else if value_total(xs[t[j]].0, xs[x].0) == Order::Greater {
        j
    } else {
        entry_insert_pos(xs, t, x, j + 1)
    }
}

/// The positions of the first `n` entries, stably sorted by key.
pub open spec fn sorted_entries(xs: Seq<(ValueView, ValueView)>, n: nat) -> Seq<int>
    decreases n,
{
    if n == 0 {
        Seq::empty()
    } else {
        let t = sorted_entries(xs, (n - 1) as nat);
        t.insert(entry_insert_pos(xs, t, n - 1, 0), n - 1)
    }
}

/// The partial orders of the elements at each position both sequences
/// have.
pub open spec fn elem_partials(xs: Seq<ValueView>, ys: Seq<ValueView>) -> Seq<Option<Order>>
    decreases xs, 0int,
{
    Seq::new(
        min_len(xs.len() as int, ys.len() as int) as nat,
        |i: int|
            if 0 <= i < xs.len() && i < ys.len() {
                value_partial(xs[i], ys[i])
            } else {
                Some(Order::Equal)
            },
    )
}

/// The partial order of two entries: key, then value.
pub open spec fn entry_partial(
    xs: Seq<(ValueView, ValueView)>,
    ys: Seq<(ValueView, ValueView)>,
    a: int,
    b: int,
) -> Option<Order>
    decreases xs, 0int,
{
    if 0 <= a < xs.len() && 0 <= b < ys.len() {
        match value_partial(xs[a].0, ys[b].0) {
            Some(Order::Equal) => value_partial(xs[a].1, ys[b].1),
            o => o,
        }
    } else {
        Some(Order::Equal)
    }
}

/// The partial orders of the entries of two mappings, each sorted by key,
/// at each position both have.
pub open spec fn entry_partials(
    xs: Seq<(ValueView, ValueView)>,
    ys: Seq<(ValueView, ValueView)>,
) -> Seq<Option<Order>>
    decreases xs, 1int,
{
    let pa = sorted_entries(xs, xs.len());
    let pb = sorted_entries(ys, ys.len());
    Seq::new(
        min_len(xs.len() as int, ys.len() as int) as nat,
        |i: int|
            if 0 <= i < pa.len() && i < pb.len() {
                entry_partial(xs, ys, pa[i], pb[i])
            } else {
                Some(Order::Equal)
            },
    )
}

/// YAML's `partial_cmp` of values: by kind, then by contents; numbers by
/// their partial order, sequences lexicographically, mappings by their
/// entries sorted by key (key then value), tagged values by tag then
/// value. `None` where doubles do not compare.
pub open spec fn value_partial(a: ValueView, b: ValueView) -> Option<Order>
    decreases a, 0int,
{
    if rank(a) != rank(b) {
        Some(int_order(rank(a), rank(b)))
    } else {
        match (a, b) {
            (ValueView::Bool(x), ValueView::Bool(y)) => Some(bool_order(x, y)),
            (ValueView::Number(x), ValueView::Number(y)) => x.spec_partial_order(y),
            (ValueView::String(x), ValueView::String(y)) => Some(str_order(x, y)),
            (ValueView::Sequence(xs), ValueView::Sequence(ys)) => lex_partial_from(
                elem_partials(xs, ys),
                0,
                xs.len() as int,
                ys.len() as int,
            ),
            (ValueView::Mapping(xs), ValueView::Mapping(ys)) => lex_partial_from(
                entry_partials(xs, ys),
                0,
                xs.len() as int,
                ys.len() as int,
            ),
            (ValueView::Tagged(t, x), ValueView::Tagged(u, y)) => match str_order(
                nobang(t),
                nobang(u),
            ) {
                Order::Equal => value_partial(*x, *y),
                o => Some(o),
            },
            _ => Some(Order::Equal),
        }
    }
}


fn rank_of(v: &Value) -> (r: u64)
    ensures
        r == rank(v@),
{
    match v {
        Value::Null => 0,
        Value::Bool(_) => 1,
        Value::Number(_) => 2,
        Value::String(_) => 3,
        Value::Sequence(_) => 4,
        Value::Mapping(_) => 5,
        Value::Tagged(_, _) => 6,
    }
}

fn bool_order_exec(a: bool, b: bool) -> (r: Order)
    ensures
        r == bool_order(a, b),
{
    u64_order(if a { 1 } else { 0 }, if b { 1 } else { 0 })
}

/// Tags compared without their leading `!`.
fn tag_order(t: &str, u: &str) -> (r: Order)
    ensures
        r == str_order(nobang(t@), nobang(u@)),
{
    let x = chars_of(t);
    let y = chars_of(u);
    let a: usize = if x.len() > 1 && x[0] == '!' {
        1
    } else {
        0
    };
    let b: usize = if y.len() > 1 && y[0] == '!' {
        1
    } else {
        0
    };
    let xs = string_from_range(x.as_slice(), a, x.len());
    let ys = string_from_range(y.as_slice(), b, y.len());
    proof {
        assert(x@.subrange(0, x.len() as int) =~= x@);
        assert(y@.subrange(0, y.len() as int) =~= y@);
    }
    compare_str(xs.as_str(), ys.as_str())
}

/// Lexicographic total order of two sequences of values.
#[verifier::loop_isolation(false)]
fn seq_total(xs: &Vec<Value>, ys: &Vec<Value>) -> (r: Order)
    ensures
        r == lex_from(elem_orders(views(xs@), views(ys@)), 0, xs@.len() as int, ys@.len() as int),
    decreases xs,
{
    proof {
        lemma_views(xs@);
        lemma_views(ys@);
    }
    let ghost vx = views(xs@);
    let ghost vy = views(ys@);
    let ghost orders = elem_orders(vx, vy);
    let m = if xs.len() < ys.len() {
        xs.len()
    } else {
        ys.len()
    };
    let mut i: usize = 0;
    while i < m
        invariant
            i <= m,
            m == orders.len(),
            lex_from(orders, 0, vx.len() as int, vy.len() as int) == lex_from(
                orders,
                i as int,
                vx.len() as int,
                vy.len() as int,
            ),
        decreases m - i,
    {
        proof {
            vstd::std_specs::vec::axiom_vec_index_decreases(*xs, i as int);
        }
        let c = total_order_of(&xs[i], &ys[i]);
        assert(orders[i as int] == c);
        if c != Order::Equal {
            return c;
        }
        i += 1;
    }
    u64_order(xs.len() as u64, ys.len() as u64)
}

/// Lexicographic total order of two mappings' entries in insertion order.
#[verifier::loop_isolation(false)]
fn map_total(xs: &Vec<(Value, Value)>, ys: &Vec<(Value, Value)>) -> (r: Order)
    ensures
        r == lex_from(
            entry_orders(pair_views(xs@), pair_views(ys@)),
            0,
            xs@.len() as int,
            ys@.len() as int,
        ),
    decreases xs,
{
    proof {
        lemma_pair_views(xs@);
        lemma_pair_views(ys@);
    }
    let ghost vx = pair_views(xs@);
    let ghost vy = pair_views(ys@);
    let ghost orders = entry_orders(vx, vy);
    let m = if xs.len() < ys.len() {
        xs.len()
    } else {
        ys.len()
    };
    let mut i: usize = 0;
    while i < m
        invariant
            i <= m,
            m == orders.len(),
            lex_from(orders, 0, vx.len() as int, vy.len() as int) == lex_from(
                orders,
                i as int,
                vx.len() as int,
                vy.len() as int,
            ),
        decreases m - i,
    {
        proof {
            vstd::std_specs::vec::axiom_vec_index_decreases(*xs, i as int);
        }
        let ck = total_order_of(&xs[i].0, &ys[i].0);
        let c = if ck != Order::Equal {
            ck
        } else {
            total_order_of(&xs[i].1, &ys[i].1)
        };
        assert(orders[i as int] == c);
        if c != Order::Equal {
            return c;
        }
        i += 1;
    }
    u64_order(xs.len() as u64, ys.len() as u64)
}

/// The total order YAML sorts mapping keys by (`value_total`).
pub fn total_order_of(a: &Value, b: &Value) -> (r: Order)
    ensures
        r == value_total(a@, b@),
    decreases a,
{
    let ra = rank_of(a);
    let rb = rank_of(b);
    if ra != rb {
        return u64_order(ra, rb);
    }
    match (a, b) {
        (Value::Null, Value::Null) => Order::Equal,
        (Value::Bool(x), Value::Bool(y)) => bool_order_exec(*x, *y),
        (Value::Number(x), Value::Number(y)) => x.total_order(y),
        (Value::String(x), Value::String(y)) => compare_str(x.as_str(), y.as_str()),
        (Value::Sequence(xs), Value::Sequence(ys)) => {
            proof {
                lemma_views(xs@);
                lemma_views(ys@);
            }
            seq_total(xs, ys)
        },
        (Value::Mapping(xs), Value::Mapping(ys)) => {
            proof {
                lemma_pair_views(xs@);
                lemma_pair_views(ys@);
            }
            map_total(xs, ys)
        },
        (Value::Tagged(t, x), Value::Tagged(u, y)) => {
            let c = tag_order(t.as_str(), u.as_str());
            if c != Order::Equal {
                c
            } else {
                total_order_of(x, y)
            }
        },
        _ => Order::Equal,
    }
}

pub proof fn lemma_sorted_entries(xs: Seq<(ValueView, ValueView)>, n: nat)
    ensures
        sorted_entries(xs, n).len() == n,
        forall|i: int| 0 <= i < n ==> 0 <= #[trigger] sorted_entries(xs, n)[i] < n,
    decreases n,
{
    if n > 0 {
        let t = sorted_entries(xs, (n - 1) as nat);
        lemma_sorted_entries(xs, (n - 1) as nat);
        lemma_entry_insert_pos(xs, t, n - 1, 0);
        let p = entry_insert_pos(xs, t, n - 1, 0);
        assert forall|i: int| 0 <= i < n implies 0 <= #[trigger] sorted_entries(xs, n)[i] < n by {
            if i < p {
                assert(sorted_entries(xs, n)[i] == t[i]);
            } else if i > p {
                assert(sorted_entries(xs, n)[i] == t[i - 1]);
            }
        }
    }
}

proof fn lemma_entry_insert_pos(xs: Seq<(ValueView, ValueView)>, t: Seq<int>, x: int, j: int)
    requires
        0 <= j <= t.len(),
    ensures
        j <= entry_insert_pos(xs, t, x, j) <= t.len(),
    decreases t.len() - j,
{
    if j < t.len() && value_total(xs[t[j]].0, xs[x].0) != Order::Greater {
        lemma_entry_insert_pos(xs, t, x, j + 1);
    }
}

pub open spec fn index_view(v: Seq<usize>) -> Seq<int> {
    v.map_values(|x: usize| x as int)
}

/// The positions of the entries of a mapping, stably sorted by key.
fn sort_entry_indices(xs: &Vec<(Value, Value)>) -> (r: Vec<usize>)
    ensures
        index_view(r@) == sorted_entries(pair_views(xs@), xs@.len()),
        r@.len() == xs@.len(),
        forall|i: int| 0 <= i < r@.len() ==> #[trigger] r@[i] < xs@.len(),
{
    proof {
        lemma_pair_views(xs@);
    }
    let ghost vx = pair_views(xs@);
    let mut t: Vec<usize> = Vec::new();
    let mut n: usize = 0;
    assert(index_view(t@) =~= sorted_entries(vx, 0));
    while n < xs.len()
        invariant
            n <= xs.len(),
            vx == pair_views(xs@),
            vx.len() == xs@.len(),
            forall|i: int| 0 <= i < xs@.len() ==> #[trigger] vx[i] == (xs@[i].0@, xs@[i].1@),
            index_view(t@) == sorted_entries(vx, n as nat),
            t@.len() == n,
            forall|i: int| 0 <= i < t@.len() ==> #[trigger] t@[i] < n,
        decreases xs.len() - n,
    {
        let ghost tv = index_view(t@);
        let mut j: usize = 0;
        while j < t.len() && !(total_order_of(&xs[t[j]].0, &xs[n].0) == Order::Greater)
            invariant
                j <= t.len(),
                n < xs@.len(),
                tv == index_view(t@),
                forall|i: int| 0 <= i < t@.len() ==> #[trigger] t@[i] < n,
                forall|i: int| 0 <= i < xs@.len() ==> #[trigger] vx[i] == (xs@[i].0@, xs@[i].1@),
                entry_insert_pos(vx, tv, n as int, 0) == entry_insert_pos(vx, tv, n as int, j as int),
            decreases t.len() - j,
        {
            assert(tv[j as int] == t@[j as int] as int);
            j += 1;
        }
        proof {
            if j < t.len() {
                assert(tv[j as int] == t@[j as int] as int);
            }
            lemma_sorted_entries(vx, n as nat);
        }
        let ghost before = t@;
        t.insert(j, n);
        proof {
            assert(index_view(t@) =~= tv.insert(j as int, n as int));
            assert forall|i: int| 0 <= i < t@.len() implies #[trigger] t@[i] < n + 1 by {
                if i < j {
                    assert(t@[i] == before[i]);
                } else if i > j {
                    assert(t@[i] == before[i - 1]);
                }
            }
        }
        n += 1;
    }
    t
}

/// Lexicographic partial order of two sequences of values.
#[verifier::loop_isolation(false)]
fn seq_partial(xs: &Vec<Value>, ys: &Vec<Value>) -> (r: Option<Order>)
    ensures
        r == lex_partial_from(
            elem_partials(views(xs@), views(ys@)),
            0,
            xs@.len() as int,
            ys@.len() as int,
        ),
    decreases xs,
{
    proof {
        lemma_views(xs@);
        lemma_views(ys@);
    }
    let ghost vx = views(xs@);
    let ghost vy = views(ys@);
    let ghost orders = elem_partials(vx, vy);
    let m = if xs.len() < ys.len() {
        xs.len()
    } else {
        ys.len()
    };
    let mut i: usize = 0;
    while i < m
        invariant
            i <= m,
            m == orders.len(),
            lex_partial_from(orders, 0, vx.len() as int, vy.len() as int) == lex_partial_from(
                orders,
                i as int,
                vx.len() as int,
                vy.len() as int,
            ),
        decreases m - i,
    {
        proof {
            vstd::std_specs::vec::axiom_vec_index_decreases(*xs, i as int);
        }
        let c = partial_order_of(&xs[i], &ys[i]);
        assert(orders[i as int] == c);
        if c != Some(Order::Equal) {
            return c;
        }
        i += 1;
    }
    Some(u64_order(xs.len() as u64, ys.len() as u64))
}

/// Partial order of two mappings by their entries sorted by key.
#[verifier::loop_isolation(false)]
fn map_partial(xs: &Vec<(Value, Value)>, ys: &Vec<(Value, Value)>) -> (r: Option<Order>)
    ensures
        r == lex_partial_from(
            entry_partials(pair_views(xs@), pair_views(ys@)),
            0,
            xs@.len() as int,
            ys@.len() as int,
        ),
    decreases xs,
{
    proof {
        lemma_pair_views(xs@);
        lemma_pair_views(ys@);
    }
    let ghost vx = pair_views(xs@);
    let ghost vy = pair_views(ys@);
    let pa = sort_entry_indices(xs);
    let pb = sort_entry_indices(ys);
    let ghost ga = sorted_entries(vx, vx.len());
    let ghost gb = sorted_entries(vy, vy.len());
    let ghost orders = entry_partials(vx, vy);
    proof {
        lemma_sorted_entries(vx, vx.len());
        lemma_sorted_entries(vy, vy.len());
    }
    let m = if xs.len() < ys.len() {
        xs.len()
    } else {
        ys.len()
    };
    let mut i: usize = 0;
    while i < m
        invariant
            i <= m,
            m == orders.len(),
            lex_partial_from(orders, 0, vx.len() as int, vy.len() as int) == lex_partial_from(
                orders,
                i as int,
                vx.len() as int,
                vy.len() as int,
            ),
        decreases m - i,
    {
        let ka = pa[i];
        let kb = pb[i];
        assert(index_view(pa@)[i as int] == ka as int);
        assert(index_view(pb@)[i as int] == kb as int);
        proof {
            vstd::std_specs::vec::axiom_vec_index_decreases(*xs, ka as int);
        }
        let ck = partial_order_of(&xs[ka].0, &ys[kb].0);
        let c = if ck == Some(Order::Equal) {
            partial_order_of(&xs[ka].1, &ys[kb].1)
        } else {
            ck
        };
        assert(orders[i as int] == entry_partial(vx, vy, ga[i as int], gb[i as int]));
        assert(orders[i as int] == c);
        if c != Some(Order::Equal) {
            return c;
        }
        i += 1;
    }
    Some(u64_order(xs.len() as u64, ys.len() as u64))
}

/// YAML's `partial_cmp` of two values (`value_partial`).
pub fn partial_order_of(a: &Value, b: &Value) -> (r: Option<Order>)
    ensures
        r == value_partial(a@, b@),
    decreases a,
{
    let ra = rank_of(a);
    let rb = rank_of(b);
    if ra != rb {
        return Some(u64_order(ra, rb));
    }
    match (a, b) {
        (Value::Null, Value::Null) => Some(Order::Equal),
        (Value::Bool(x), Value::Bool(y)) => Some(bool_order_exec(*x, *y)),
        (Value::Number(x), Value::Number(y)) => x.partial_order(y),
        (Value::String(x), Value::String(y)) => Some(compare_str(x.as_str(), y.as_str())),
        (Value::Sequence(xs), Value::Sequence(ys)) => {
            proof {
                lemma_views(xs@);
                lemma_views(ys@);
            }
            seq_partial(xs, ys)
        },
        (Value::Mapping(xs), Value::Mapping(ys)) => {
            proof {
                lemma_pair_views(xs@);
                lemma_pair_views(ys@);
            }
            map_partial(xs, ys)
        },
        (Value::Tagged(t, x), Value::Tagged(u, y)) => {
            let c = tag_order(t.as_str(), u.as_str());
            if c != Order::Equal {
                Some(c)
            } else {
                partial_order_of(x, y)
            }
        },
        _ => Some(Order::Equal),
    }
}

} // verus!
