use crate::text::str_eq;
use crate::value::{view_as_bool, view_as_i64, view_as_str, Value, ValueView};
use vstd::prelude::*;

verus! {

/// Fields of a record as keys and value views, in order.
pub type FieldsView = Seq<(Seq<char>, ValueView)>;

/// The value of the first field named `key`.
pub open spec fn lookup(d: FieldsView, key: Seq<char>) -> Option<ValueView>
    decreases d.len(),
{
    if d.len() == 0 {
        None
    } else if d[0].0 == key {
        Some(d[0].1)
    } else {
        lookup(d.subrange(1, d.len() as int), key)
    }
}

/// Index of the first field named `key`, or -1.
pub open spec fn key_index(d: FieldsView, key: Seq<char>) -> int
    decreases d.len(),
{
    if d.len() == 0 {
        -1
    } else if d[0].0 == key {
        0
    } else {
        let r = key_index(d.subrange(1, d.len() as int), key);
        if r < 0 {
            -1
        } else {
            r + 1
        }
    }
}

pub proof fn lemma_key_index(d: FieldsView, key: Seq<char>)
    ensures
        -1 <= key_index(d, key) < d.len(),
        key_index(d, key) == -1 <==> (forall|i: int| 0 <= i < d.len() ==> d[i].0 != key),
        key_index(d, key) >= 0 ==> d[key_index(d, key)].0 == key && (forall|i: int|
            0 <= i < key_index(d, key) ==> d[i].0 != key),
        lookup(d, key) == (if key_index(d, key) >= 0 {
            Some(d[key_index(d, key)].1)
        } else {
            None
        }),
    decreases d.len(),
{
    if d.len() > 0 && d[0].0 != key {
        let t = d.subrange(1, d.len() as int);
        lemma_key_index(t, key);
        assert forall|i: int| 0 <= i < d.len() && i != 0 implies d[i] == t[i - 1] by {}
        if key_index(t, key) == -1 {
            assert forall|i: int| 0 <= i < d.len() implies d[i].0 != key by {
                if i > 0 {
                    assert(d[i] == t[i - 1]);
                }
            }
        }
    }
}

/// The first field named `key` holds `v`; the others stay.
pub open spec fn fields_set(d: FieldsView, key: Seq<char>, v: ValueView) -> FieldsView {
    if key_index(d, key) >= 0 {
        d.update(key_index(d, key), (key, v))
    } else {
        d.push((key, v))
    }
}

/// After `fields_set`, `key` holds `v` and every other key holds what it held.
pub proof fn lemma_fields_set(d: FieldsView, key: Seq<char>, v: ValueView, other: Seq<char>)
    ensures
        lookup(fields_set(d, key, v), key) == Some(v),
        other != key ==> lookup(fields_set(d, key, v), other) == lookup(d, other),
{
    let e = fields_set(d, key, v);
    lemma_key_index(d, key);
    lemma_key_index(d, other);
    lemma_key_index(e, key);
    lemma_key_index(e, other);
    let i = key_index(d, key);
    if i >= 0 {
        assert(e[i].0 == key);
        assert forall|j: int| 0 <= j < i implies e[j].0 != key by {
            assert(e[j] == d[j]);
        }
        if key_index(e, key) != i {
            if key_index(e, key) > i {
                assert(e[i].0 == key);
            }
        }
        if other != key {
            let k = key_index(d, other);
            let ke = key_index(e, other);
            assert forall|j: int| 0 <= j < e.len() implies (e[j].0 == other <==> d[j].0 == other) by {
                if j == i {
                } else {
                    assert(e[j] == d[j]);
                }
            }
            if k >= 0 && ke >= 0 {
                if k < ke {
                    assert(e[k].0 == other);
                } else if ke < k {
                    assert(d[ke].0 == other);
                }
                assert(k == i || e[k] == d[k]);
            } else if k >= 0 {
                assert(e[k].0 == other);
            } else if ke >= 0 {
                assert(d[ke].0 == other);
            }
        }
    } else {
        assert(e[d.len() as int].0 == key);
        assert forall|j: int| 0 <= j < d.len() implies e[j] == d[j] by {}
        if other != key {
            let k = key_index(d, other);
            let ke = key_index(e, other);
            if k >= 0 && ke >= 0 {
                if k < ke {
                    assert(e[k].0 == other);
                } else if ke < k {
                    assert(d[ke].0 == other);
                }
            } else if k >= 0 {
                assert(e[k].0 == other);
            } else if ke >= 0 {
                if ke < d.len() {
                    assert(d[ke].0 == other);
                }
            }
        }
    }
}

/// A record: an id and its fields.
#[derive(Debug)]
pub struct Record {
    pub id: String,
    pub data: Vec<(String, Value)>,
}

/// Views of a vector of fields.
pub open spec fn fields_view(d: Seq<(String, Value)>) -> FieldsView {
    Seq::new(d.len(), |i: int| (d[i].0@, d[i].1@))
}

impl Record {
    /// The fields of the record as key and value views.
    pub open spec fn fields(&self) -> FieldsView {
        fields_view(self.data@)
    }

    /// A record with the given id and no fields.
    pub fn new(id: &str) -> (r: Record)
        ensures
            r.id@ == id@,
            r.data@.len() == 0,
    {
        Record { id: id.to_owned(), data: Vec::new() }
    }

    /// Index of the first field named `key`.
    pub fn find_key(&self, key: &str) -> (r: Option<usize>)
        ensures
            match r {
                Some(i) => i == key_index(self.fields(), key@),
                None => key_index(self.fields(), key@) == -1,
            },
    {
        proof {
            lemma_key_index(self.fields(), key@);
        }
        let mut i: usize = 0;
        while i < self.data.len()
            invariant
                i <= self.data.len(),
                forall|j: int| 0 <= j < i ==> (#[trigger] self.fields()[j]).0 != key@,
            decreases self.data.len() - i,
        {
            if str_eq(self.data[i].0.as_str(), key) {
                assert(self.fields()[i as int].0 == key@);
                proof {
                    lemma_key_index(self.fields(), key@);
                    let k = key_index(self.fields(), key@);
                    if 0 <= k < i {
                        assert(self.fields()[k].0 == key@);
                    }
                }
                return Some(i);
            }
            i += 1;
        }
        None
    }

    /// Sets field `key` to `value`, replacing the field of that name if
    /// there is one; returns the record for chaining.
    pub fn set(&mut self, key: &str, value: Value) -> (r: &mut Record)
        ensures
            r.id == old(self).id,
            r.fields() == fields_set(old(self).fields(), key@, value@),
            lookup(r.fields(), key@) == Some(value@),
            forall|k: Seq<char>|
                k != key@ ==> #[trigger] lookup(r.fields(), k) == lookup(
                    old(self).fields(),
                    k,
                ),
            *final(r) == *final(self),
    {
        self.set_field(key, value);
        self
    }

    /// Sets field `key` to `value`, replacing the field of that name if
    /// there is one.
    pub fn set_field(&mut self, key: &str, value: Value)
        ensures
            final(self).id == old(self).id,
            final(self).fields() == fields_set(old(self).fields(), key@, value@),
            lookup(final(self).fields(), key@) == Some(value@),
            forall|k: Seq<char>|
                k != key@ ==> #[trigger] lookup(final(self).fields(), k) == lookup(
                    old(self).fields(),
                    k,
                ),
    {
        let ghost old_fields = self.fields();
        let ghost vv = value@;
        proof {
            lemma_key_index(old_fields, key@);
        }
        match self.find_key(key) {
            Some(i) => {
                self.data.set(i, (key.to_owned(), value));
            },
            None => {
                self.data.push((key.to_owned(), value));
            },
        }
        assert(self.fields() =~= fields_set(old_fields, key@, vv));
        proof {
            lemma_fields_set(old_fields, key@, vv, key@);
            assert forall|k: Seq<char>|
                k != key@ implies #[trigger] lookup(self.fields(), k) == lookup(old_fields, k) by {
                lemma_fields_set(old_fields, key@, vv, k);
            }
        }
    }

    /// A copy with the same id and fields.
    pub fn deep_clone(&self) -> (r: Record)
        ensures
            r.id@ == self.id@,
            r.fields() == self.fields(),
    {
        let mut data: Vec<(String, Value)> = Vec::new();
        let mut i: usize = 0;
        while i < self.data.len()
            invariant
                i <= self.data.len(),
                data@.len() == i,
                fields_view(data@) == fields_view(self.data@.take(i as int)),
            decreases self.data.len() - i,
        {
            let k = self.data[i].0.clone();
            let v = self.data[i].1.deep_clone();
            let ghost before = data@;
            data.push((k, v));
            proof {
                let a = fields_view(data@);
                let b = fields_view(self.data@.take(i + 1));
                assert forall|j: int| 0 <= j < a.len() implies a[j] == b[j] by {
                    if j < i {
                        assert(data@[j] == before[j]);
                        assert(a[j] == fields_view(before)[j]);
                        assert(fields_view(self.data@.take(i as int))[j] == b[j]);
                    }
                }
                assert(a =~= b);
            }
            i += 1;
        }
        assert(self.data@.take(i as int) =~= self.data@);
        Record { id: self.id.clone(), data }
    }

    /// The value of field `key`.
    pub fn get(&self, key: &str) -> (r: Option<&Value>)
        ensures
            match r {
                Some(v) => lookup(self.fields(), key@) == Some(v@),
                None => lookup(self.fields(), key@) is None,
            },
    {
        proof {
            lemma_key_index(self.fields(), key@);
        }
        match self.find_key(key) {
            Some(i) => Some(&self.data[i].1),
            None => None,
        }
    }

    /// The string in field `key`, looking through tags.
    pub fn get_str(&self, key: &str) -> (r: Option<&str>)
        ensures
            match r {
                Some(s) => lookup(self.fields(), key@) matches Some(v) && view_as_str(v) == Some(
                    s@,
                ),
                None => !(lookup(self.fields(), key@) matches Some(v) && view_as_str(v) is Some),
            },
    {
        match self.get(key) {
            Some(v) => v.as_str(),
            None => None,
        }
    }

    /// The `i64` in field `key`, looking through tags.
    pub fn get_i64(&self, key: &str) -> (r: Option<i64>)
        ensures
            r == (match lookup(self.fields(), key@) {
                Some(v) => view_as_i64(v),
                None => None,
            }),
    {
        match self.get(key) {
            Some(v) => v.as_i64(),
            None => None,
        }
    }

    /// The boolean in field `key`, looking through tags.
    pub fn get_bool(&self, key: &str) -> (r: Option<bool>)
        ensures
            r == (match lookup(self.fields(), key@) {
                Some(v) => view_as_bool(v),
                None => None,
            }),
    {
        match self.get(key) {
            Some(v) => v.as_bool(),
            None => None,
        }
    }

    pub fn has_key(&self, key: &str) -> (r: bool)
        ensures
            r == lookup(self.fields(), key@) is Some,
    {
        proof {
            lemma_key_index(self.fields(), key@);
        }
        self.find_key(key).is_some()
    }

    /// The field names, in field order.
    pub fn keys(&self) -> (r: Vec<&String>)
        ensures
            r@.len() == self.data@.len(),
            forall|i: int| 0 <= i < r@.len() ==> *r@[i] == self.data@[i].0,
    {
        let mut r: Vec<&String> = Vec::new();
        let mut i: usize = 0;
        while i < self.data.len()
            invariant
                i <= self.data.len(),
                r@.len() == i,
                forall|j: int| 0 <= j < i ==> *r@[j] == self.data@[j].0,
            decreases self.data.len() - i,
        {
            r.push(&self.data[i].0);
            i += 1;
        }
        r
    }

    /// Copies every field of `other` into this record; fields of `other`
    /// replace fields of the same name.
    pub fn merge(&mut self, other: &Record)
        ensures
            final(self).id == old(self).id,
            forall|k: Seq<char>|
                #[trigger] lookup(final(self).fields(), k) == (match lookup(other.fields(), k) {
                    Some(v) => Some(v),
                    None => lookup(old(self).fields(), k),
                }),
    {
        let ghost start = self.fields();
        let mut i: usize = other.data.len();
        while i > 0
            invariant
                i <= other.data.len(),
                self.id == old(self).id,
                forall|k: Seq<char>|
                    #[trigger] lookup(self.fields(), k) == (match lookup(
                        other.fields().subrange(i as int, other.data.len() as int),
                        k,
                    ) {
                        Some(v) => Some(v),
                        None => lookup(start, k),
                    }),
            decreases i,
        {
            i -= 1;
            let ghost before = self.fields();
            let v = other.data[i].1.deep_clone();
            let ghost key = other.data@[i as int].0@;
            self.set_field(other.data[i].0.as_str(), v);
            assert forall|k: Seq<char>|
                #[trigger] lookup(self.fields(), k) == (match lookup(
                    other.fields().subrange(i as int, other.data.len() as int),
                    k,
                ) {
                    Some(v) => Some(v),
                    None => lookup(start, k),
                }) by {
                let s = other.fields().subrange(i as int, other.data.len() as int);
                assert(s[0] == (key, other.data@[i as int].1@));
                assert(s.subrange(1, s.len() as int) =~= other.fields().subrange(
                    i + 1,
                    other.data.len() as int,
                ));
            }
        }
        assert(other.fields().subrange(0, other.data.len() as int) =~= other.fields());
    }
}

} // verus!
