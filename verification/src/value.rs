use crate::number::Number;
use crate::text::{chars_of, str_eq, string_from_range};
use vstd::prelude::*;

verus! {

/// The mathematical form of a YAML value.
pub enum ValueView {
    Null,
    Bool(bool),
    Number(Number),
    String(Seq<char>),
    Sequence(Seq<ValueView>),
    Mapping(Seq<(ValueView, ValueView)>),
    Tagged(Seq<char>, Box<ValueView>),
}

/// A YAML value: null, boolean, number, string, sequence, mapping (entries
/// in insertion order) or a tagged value.
#[derive(Debug)]
pub enum Value {
    Null,
    Bool(bool),
    Number(Number),
    String(String),
    Sequence(Vec<Value>),
    Mapping(Vec<(Value, Value)>),
    Tagged(String, Box<Value>),
}

impl View for Value {
    type V = ValueView;

    open spec fn view(&self) -> ValueView {
        value_view(*self)
    }
}

/// The view of a value.
pub open spec fn value_view(v: Value) -> ValueView
    decreases v,
{
    match v {
        Value::Null => ValueView::Null,
        Value::Bool(b) => ValueView::Bool(b),
        Value::Number(n) => ValueView::Number(n),
        Value::String(s) => ValueView::String(s@),
        Value::Sequence(xs) => ValueView::Sequence(views(xs@)),
        Value::Mapping(xs) => ValueView::Mapping(pair_views(xs@)),
        Value::Tagged(t, b) => ValueView::Tagged(t@, Box::new(value_view(*b))),
    }
}

/// The views of a sequence of values.
pub open spec fn views(s: Seq<Value>) -> Seq<ValueView>
    decreases s,
{
    if s.len() == 0 {
        Seq::empty()
    } else {
        seq![value_view(s[0])] + views(s.subrange(1, s.len() as int))
    }
}

/// The views of a sequence of key-value entries.
pub open spec fn pair_views(s: Seq<(Value, Value)>) -> Seq<(ValueView, ValueView)>
    decreases s,
{
    if s.len() == 0 {
        Seq::empty()
    } else {
        seq![(value_view(s[0].0), value_view(s[0].1))] + pair_views(s.subrange(1, s.len() as int))
    }
}

pub proof fn lemma_views(s: Seq<Value>)
    ensures
        views(s).len() == s.len(),
        forall|i: int| 0 <= i < s.len() ==> #[trigger] views(s)[i] == s[i]@,
    decreases s.len(),
{
    if s.len() > 0 {
        lemma_views(s.subrange(1, s.len() as int));
    }
}

pub proof fn lemma_pair_views(s: Seq<(Value, Value)>)
    ensures
        pair_views(s).len() == s.len(),
        forall|i: int|
            0 <= i < s.len() ==> #[trigger] pair_views(s)[i] == (s[i].0@, s[i].1@),
    decreases s.len(),
{
    if s.len() > 0 {
        lemma_pair_views(s.subrange(1, s.len() as int));
    }
}

/// The value under any number of tags.
pub open spec fn untag(v: ValueView) -> ValueView
    decreases v,
{
    match v {
        ValueView::Tagged(_, b) => untag(*b),
        _ => v,
    }
}

/// `as_str`: the string, looking through tags.
pub open spec fn view_as_str(v: ValueView) -> Option<Seq<char>> {
    match untag(v) {
        ValueView::String(s) => Some(s),
        _ => None,
    }
}

/// `as_i64`: an integer that fits `i64`, looking through tags.
pub open spec fn view_as_i64(v: ValueView) -> Option<i64> {
    match untag(v) {
        ValueView::Number(n) => n.spec_as_i64(),
        _ => None,
    }
}

/// `as_bool`, looking through tags.
pub open spec fn view_as_bool(v: ValueView) -> Option<bool> {
    match untag(v) {
        ValueView::Bool(b) => Some(b),
        _ => None,
    }
}

/// A tag without its leading `!` (a lone `!` stays as it is).
pub open spec fn nobang(t: Seq<char>) -> Seq<char> {
    if t.len() > 1 && t[0] == '!' {
        t.subrange(1, t.len() as int)
    } else {
        t
    }
}

/// Equality of YAML values: same kind and equal contents. Numbers by
/// `Number::spec_eq`, sequences element by element, mappings of equal size
/// where each entry's key finds (first match) an entry with an equal value
/// in the other mapping, tags compared without their leading `!`.
pub open spec fn yaml_eq(a: ValueView, b: ValueView) -> bool
    decreases a,
{
    match a {
        ValueView::Null => b is Null,
        ValueView::Bool(x) => b matches ValueView::Bool(y) && x == y,
        ValueView::Number(x) => b matches ValueView::Number(y) && x.spec_eq(y),
        ValueView::String(x) => b matches ValueView::String(y) && x == y,
        ValueView::Sequence(xs) => b matches ValueView::Sequence(ys) && xs.len() == ys.len()
            && forall|i: int| 0 <= i < xs.len() ==> yaml_eq(#[trigger] xs[i], ys[i]),
        ValueView::Mapping(xs) => b matches ValueView::Mapping(ys) && xs.len() == ys.len()
            && forall|i: int| 0 <= i < xs.len() ==> entry_found(#[trigger] xs[i], ys),
        ValueView::Tagged(t, x) => b matches ValueView::Tagged(u, y) && nobang(t) == nobang(u)
            && yaml_eq(*x, *y),
    }
}

/// The first entry of `ys` whose key equals the key of `x` exists and holds
/// a value equal to the value of `x` (a mapping lookup).
pub open spec fn entry_found(x: (ValueView, ValueView), ys: Seq<(ValueView, ValueView)>) -> bool
    decreases x,
{
    exists|j: int|
        0 <= j < ys.len() && yaml_eq(x.0, #[trigger] ys[j].0) && (forall|k: int|
            0 <= k < j ==> !yaml_eq(x.0, #[trigger] ys[k].0)) && yaml_eq(x.1, ys[j].1)
}

/// A tag compared without its leading `!`.
pub fn tag_eq(t: &str, u: &str) -> (r: bool)
    ensures
        r == (nobang(t@) == nobang(u@)),
{
    let x = chars_of(t);
    let y = chars_of(u);
    let a: usize = if x.len() > 1 && x[0] == '!' {
        1
    } else {
        0
    };
    let b: usize = if y.len() > 1 && y[0] == '!' {
        1
    } else {
        0
    };
    let xs = string_from_range(x.as_slice(), a, x.len());
    let ys = string_from_range(y.as_slice(), b, y.len());
    proof {
        assert(x@.subrange(0, x.len() as int) =~= x@);
        assert(y@.subrange(0, y.len() as int) =~= y@);
    }
    str_eq(xs.as_str(), ys.as_str())
}

impl Value {
    pub fn null() -> (r: Value)
        ensures
            r@ == ValueView::Null,
    {
        Value::Null
    }

    pub fn from_bool(b: bool) -> (r: Value)
        ensures
            r@ == ValueView::Bool(b),
    {
        Value::Bool(b)
    }

    pub fn from_i64(n: i64) -> (r: Value)
        ensures
            r@ == ValueView::Number(
                if n < 0 {
                    Number::NegInt(n)
                } else {
                    Number::PosInt(n as u64)
                },
            ),
    {
        Value::Number(Number::from_i64(n))
    }

    pub fn from_u64(n: u64) -> (r: Value)
        ensures
            r@ == ValueView::Number(Number::PosInt(n)),
    {
        Value::Number(Number::from_u64(n))
    }

    pub fn from_str_slice(s: &str) -> (r: Value)
        ensures
            r@ == ValueView::String(s@),
    {
        Value::String(s.to_owned())
    }

    /// A copy with the same view.
    #[verifier::loop_isolation(false)]
    pub fn deep_clone(&self) -> (r: Value)
        ensures
            r@ == self@,
        decreases self,
    {
        match self {
            Value::Null => Value::Null,
            Value::Bool(b) => Value::Bool(*b),
            Value::Number(n) => Value::Number(*n),
            Value::String(s) => Value::String(s.clone()),
            Value::Sequence(v) => {
                let mut w: Vec<Value> = Vec::new();
                let mut i: usize = 0;
                while i < v.len()
                    invariant
                        i <= v.len(),
                        w.len() == i,
                        forall|j: int| 0 <= j < i ==> (#[trigger] w@[j])@ == v@[j]@,
                    decreases v.len() - i,
                {
                    proof {
                        vstd::std_specs::vec::axiom_vec_index_decreases(*v, i as int);
                    }
                    let c = v[i].deep_clone();
                    w.push(c);
                    i += 1;
                }
                let r = Value::Sequence(w);
                assert(r@ == self@) by {
                    if let ValueView::Sequence(a) = r@ {
                        if let ValueView::Sequence(b) = self@ {
                            lemma_views(w@);
                            lemma_views(v@);
                            assert(a =~= b);
                        }
                    }
                }
                r
            },
            Value::Mapping(v) => {
                let mut w: Vec<(Value, Value)> = Vec::new();
                let mut i: usize = 0;
                while i < v.len()
                    invariant
                        i <= v.len(),
                        w.len() == i,
                        forall|j: int|
                            0 <= j < i ==> (#[trigger] w@[j]).0@ == v@[j].0@ && w@[j].1@
                                == v@[j].1@,
                    decreases v.len() - i,
                {
                    proof {
                        vstd::std_specs::vec::axiom_vec_index_decreases(*v, i as int);
                    }
                    let k = v[i].0.deep_clone();
                    let x = v[i].1.deep_clone();
                    w.push((k, x));
                    i += 1;
                }
                let r = Value::Mapping(w);
                assert(r@ == self@) by {
                    if let ValueView::Mapping(a) = r@ {
                        if let ValueView::Mapping(b) = self@ {
                            lemma_pair_views(w@);
                            lemma_pair_views(v@);
                            assert(a =~= b);
                        }
                    }
                }
                r
            },
            Value::Tagged(t, b) => Value::Tagged(t.clone(), Box::new(b.deep_clone())),
        }
    }

    /// The value under any number of tags.
    pub fn untag_ref(&self) -> (r: &Value)
        ensures
            r@ == untag(self@),
        decreases self,
    {
        match self {
            Value::Tagged(_, b) => b.untag_ref(),
            _ => self,
        }
    }

    pub fn as_str(&self) -> (r: Option<&str>)
        ensures
            match r {
                Some(s) => view_as_str(self@) == Some(s@),
                None => view_as_str(self@) is None,
            },
    {
        match self.untag_ref() {
            Value::String(s) => Some(s.as_str()),
            _ => None,
        }
    }

    pub fn as_i64(&self) -> (r: Option<i64>)
        ensures
            r == view_as_i64(self@),
    {
        match self.untag_ref() {
            Value::Number(n) => n.as_i64(),
            _ => None,
        }
    }

    pub fn as_bool(&self) -> (r: Option<bool>)
        ensures
            r == view_as_bool(self@),
    {
        match self.untag_ref() {
            Value::Bool(b) => Some(*b),
            _ => None,
        }
    }

    /// YAML equality of two values (`yaml_eq`).
    #[verifier::loop_isolation(false)]
    pub fn equals(&self, other: &Value) -> (r: bool)
        ensures
            r == yaml_eq(self@, other@),
        decreases self,
    {
        match (self, other) {
            (Value::Null, Value::Null) => true,
            (Value::Bool(a), Value::Bool(b)) => *a == *b,
            (Value::Number(a), Value::Number(b)) => a.number_eq(b),
            (Value::String(a), Value::String(b)) => str_eq(a.as_str(), b.as_str()),
            (Value::Sequence(xs), Value::Sequence(ys)) => {
                proof {
                    lemma_views(xs@);
                    lemma_views(ys@);
                }
                if xs.len() != ys.len() {
                    return false;
                }
                let mut i: usize = 0;
                while i < xs.len()
                    invariant
                        i <= xs.len(),
                        forall|j: int| 0 <= j < i ==> yaml_eq(#[trigger] xs@[j]@, ys@[j]@),
                    decreases xs.len() - i,
                {
                    proof {
                        vstd::std_specs::vec::axiom_vec_index_decreases(*xs, i as int);
                    }
                    if !xs[i].equals(&ys[i]) {
                        assert(!yaml_eq(views(xs@)[i as int], views(ys@)[i as int]));
                        return false;
                    }
                    i += 1;
                }
                true
            },
            (Value::Mapping(xs), Value::Mapping(ys)) => {
                proof {
                    lemma_pair_views(xs@);
                    lemma_pair_views(ys@);
                }
                if xs.len() != ys.len() {
                    return false;
                }
                let ghost xm = pair_views(xs@);
                let ghost ym = pair_views(ys@);
                assert(self@ == ValueView::Mapping(xm));
                assert(other@ == ValueView::Mapping(ym));
                let mut i: usize = 0;
                while i < xs.len()
                    invariant
                        i <= xs.len(),
                        xm == pair_views(xs@),
                        ym == pair_views(ys@),
                        forall|a: int| 0 <= a < i ==> entry_found(#[trigger] xm[a], ym),
                    decreases xs.len() - i,
                {
                    proof {
                        vstd::std_specs::vec::axiom_vec_index_decreases(*xs, i as int);
                    }
                    assert(xm[i as int] == (xs@[i as int].0@, xs@[i as int].1@));
                    let mut j: usize = 0;
                    let mut found = false;
                    while !found && j < ys.len()
                        invariant
                            j <= ys.len(),
                            found ==> j < ys.len() && yaml_eq(xm[i as int].0, ym[j as int].0),
                            forall|k: int| 0 <= k < j ==> !yaml_eq(xm[i as int].0, #[trigger] ym[k].0),
                        decreases ys.len() - j + (if found { 0int } else { 1int }),
                    {
                        assert(ym[j as int] == (ys@[j as int].0@, ys@[j as int].1@));
                        if xs[i].0.equals(&ys[j].0) {
                            found = true;
                        } else {
                            j += 1;
                        }
                    }
                    if !found {
                        assert(!entry_found(xm[i as int], ym));
                        return false;
                    }
                    assert(ym[j as int] == (ys@[j as int].0@, ys@[j as int].1@));
                    if !xs[i].1.equals(&ys[j].1) {
                        assert forall|jj: int|
                            0 <= jj < ym.len() && yaml_eq(xm[i as int].0, #[trigger] ym[jj].0) && (forall|k: int|
                                0 <= k < jj ==> !yaml_eq(xm[i as int].0, #[trigger] ym[k].0))
                            implies !yaml_eq(xm[i as int].1, ym[jj].1) by {
                            if jj > j {
                                assert(!yaml_eq(xm[i as int].0, ym[j as int].0));
                            }
                        }
                        assert(!entry_found(xm[i as int], ym));
                        return false;
                    }
                    assert(entry_found(xm[i as int], ym)) by {
                        assert(yaml_eq(xm[i as int].0, ym[j as int].0));
                    }
                    i += 1;
                }
                assert(yaml_eq(self@, other@));
                true
            },
            (Value::Tagged(t, a), Value::Tagged(u, b)) => {
                if !tag_eq(t.as_str(), u.as_str()) {
                    return false;
                }
                let r = a.equals(b);
                assert(r == yaml_eq(self@, other@));
                r
            },
            _ => false,
        }
    }
}

} // verus!
