use crate::number::Order;
use crate::query::{op_matches, QueryOp};
use crate::record::{fields_set, fields_view, key_index, lemma_key_index, lookup, FieldsView, Record};
use crate::result::{deref_rows, QueryResult};
use crate::text::{compare_str, lemma_str_lt_total, lemma_str_lt_transitive, lemma_str_order_equal, lemma_str_order_reverse, str_lt, str_order};
use crate::value::{view_as_str, Value, ValueView};
use crate::text::{lowercase, seq_contains, str_contains, str_eq, to_lowercase};
use vstd::prelude::*;

verus! {

/// Errors of database operations.
#[derive(Debug)]
pub enum YamlDbError {
    Io(String),
    Yaml(String),
    Yq(String),
    Json(String),
    NotFound(String),
    DuplicateKey(String),
    InvalidQuery(String),
    Validation(String),
}

/// Record ids strictly increase along the sequence.
pub open spec fn ids_sorted(s: Seq<Record>) -> bool {
    forall|i: int, j: int| 0 <= i < j < s.len() ==> str_lt(s[i].id@, s[j].id@)
}

/// Some record has the id.
pub open spec fn has_id(s: Seq<Record>, id: Seq<char>) -> bool {
    exists|i: int| 0 <= i < s.len() && s[i].id@ == id
}

/// The record with the id, if there is one.
pub open spec fn row_of(s: Seq<Record>, id: Seq<char>) -> Option<Record> {
    if has_id(s, id) {
        Some(s[choose|i: int| 0 <= i < s.len() && s[i].id@ == id])
    } else {
        None
    }
}

/// The rows after `rec` is put in: `rec` under its id, every other id as
/// before.
pub open spec fn put_effect(before: Seq<Record>, rec: Record, after: Seq<Record>) -> bool {
    &&& row_of(after, rec.id@) == Some(rec)
    &&& forall|k: Seq<char>| k != rec.id@ ==> #[trigger] row_of(after, k) == row_of(before, k)
}

/// The rows after the record with `id` is taken out: no record under `id`,
/// every other id as before.
pub open spec fn removed_effect(before: Seq<Record>, id: Seq<char>, after: Seq<Record>) -> bool {
    &&& row_of(after, id) is None
    &&& forall|k: Seq<char>| k != id ==> #[trigger] row_of(after, k) == row_of(before, k)
}

pub proof fn lemma_row_of_at(s: Seq<Record>, i: int)
    requires
        ids_sorted(s),
        0 <= i < s.len(),
    ensures
        row_of(s, s[i].id@) == Some(s[i]),
{
    let id = s[i].id@;
    assert(has_id(s, id));
    let j = choose|j: int| 0 <= j < s.len() && s[j].id@ == id;
    lemma_str_lt_total(id, id);
    if j < i {
        assert(str_lt(s[j].id@, s[i].id@));
    } else if j > i {
        assert(str_lt(s[i].id@, s[j].id@));
    }
}

/// Inserting a record at its place in id order.
pub proof fn lemma_rows_insert(s: Seq<Record>, p: int, r: Record)
    requires
        ids_sorted(s),
        0 <= p <= s.len(),
        forall|j: int| 0 <= j < p ==> str_lt(s[j].id@, r.id@),
        forall|j: int| p <= j < s.len() ==> str_lt(r.id@, s[j].id@),
    ensures
        ids_sorted(s.insert(p, r)),
        row_of(s.insert(p, r), r.id@) == Some(r),
        forall|k: Seq<char>| k != r.id@ ==> #[trigger] row_of(s.insert(p, r), k) == row_of(s, k),
        !has_id(s, r.id@),
{
    let t = s.insert(p, r);
    assert forall|i: int, j: int| 0 <= i < j < t.len() implies str_lt(t[i].id@, t[j].id@) by {
        if i < p && j < p {
        } else if i < p && j == p {
        } else if i < p && j > p {
            assert(t[j] == s[j - 1]);
        } else if i == p {
            assert(t[j] == s[j - 1]);
        } else {
            assert(t[i] == s[i - 1] && t[j] == s[j - 1]);
        }
    }
    assert(t[p] == r);
    lemma_row_of_at(t, p);
    assert forall|j: int| 0 <= j < s.len() implies s[j].id@ != r.id@ by {
        lemma_str_lt_total(s[j].id@, r.id@);
    }
    assert forall|k: Seq<char>| k != r.id@ implies #[trigger] row_of(t, k) == row_of(s, k) by {
        if has_id(s, k) {
            let j = choose|j: int| 0 <= j < s.len() && s[j].id@ == k;
            lemma_row_of_at(s, j);
            let tj = if j < p { j } else { j + 1 };
            assert(t[tj] == s[j]);
            lemma_row_of_at(t, tj);
        } else if has_id(t, k) {
            let j = choose|j: int| 0 <= j < t.len() && t[j].id@ == k;
            if j < p {
                assert(s[j] == t[j]);
            } else if j > p {
                assert(s[j - 1] == t[j]);
            }
        }
    }
}

/// Replacing a record by one with the same id.
pub proof fn lemma_rows_update(s: Seq<Record>, i: int, r: Record)
    requires
        ids_sorted(s),
        0 <= i < s.len(),
        r.id@ == s[i].id@,
    ensures
        ids_sorted(s.update(i, r)),
        row_of(s.update(i, r), r.id@) == Some(r),
        forall|k: Seq<char>| k != r.id@ ==> #[trigger] row_of(s.update(i, r), k) == row_of(s, k),
{
    let t = s.update(i, r);
    assert forall|a: int, b: int| 0 <= a < b < t.len() implies str_lt(t[a].id@, t[b].id@) by {
        assert(t[a].id@ == s[a].id@ && t[b].id@ == s[b].id@);
    }
    lemma_row_of_at(t, i);
    assert forall|k: Seq<char>| k != r.id@ implies #[trigger] row_of(t, k) == row_of(s, k) by {
        if has_id(s, k) {
            let j = choose|j: int| 0 <= j < s.len() && s[j].id@ == k;
            lemma_row_of_at(s, j);
            assert(t[j] == s[j]);
            lemma_row_of_at(t, j);
        } else if has_id(t, k) {
            let j = choose|j: int| 0 <= j < t.len() && t[j].id@ == k;
            assert(s[j].id@ == t[j].id@);
        }
    }
}

/// Removing the record at position `i`.
pub proof fn lemma_rows_remove(s: Seq<Record>, i: int)
    requires
        ids_sorted(s),
        0 <= i < s.len(),
    ensures
        ids_sorted(s.remove(i)),
        row_of(s.remove(i), s[i].id@) is None,
        forall|k: Seq<char>| k != s[i].id@ ==> #[trigger] row_of(s.remove(i), k) == row_of(s, k),
{
    let t = s.remove(i);
    assert forall|a: int, b: int| 0 <= a < b < t.len() implies str_lt(t[a].id@, t[b].id@) by {
        let sa = if a < i { a } else { a + 1 };
        let sb = if b < i { b } else { b + 1 };
        assert(t[a] == s[sa] && t[b] == s[sb]);
    }
    assert forall|j: int| 0 <= j < t.len() implies t[j].id@ != s[i].id@ by {
        let sj = if j < i { j } else { j + 1 };
        assert(t[j] == s[sj]);
        lemma_str_lt_total(s[i].id@, s[i].id@);
    }
    assert forall|k: Seq<char>| k != s[i].id@ implies #[trigger] row_of(t, k) == row_of(s, k) by {
        if has_id(s, k) {
            let j = choose|j: int| 0 <= j < s.len() && s[j].id@ == k;
            lemma_row_of_at(s, j);
            let tj = if j < i { j } else { j - 1 };
            assert(t[tj] == s[j]);
            lemma_row_of_at(t, tj);
        } else if has_id(t, k) {
            let j = choose|j: int| 0 <= j < t.len() && t[j].id@ == k;
            let sj = if j < i { j } else { j + 1 };
            assert(t[j] == s[sj]);
        }
    }
}

/// Records for which a query condition holds.
pub open spec fn query_pred(op: QueryOp) -> spec_fn(Record) -> bool {
    |r: Record| op_matches(op, r.fields())
}

/// The lower-case form of field `key` of the record contains `kw` (a
/// lower-case keyword).
pub open spec fn search_pred(key: Seq<char>, kw: Seq<char>) -> spec_fn(Record) -> bool {
    |r: Record|
        match lookup(r.fields(), key) {
            Some(v) => match view_as_str(v) {
                Some(s) => seq_contains(lowercase(s), kw),
                None => false,
            },
            None => false,
        }
}

/// The lower-case id, or the lower-case form of some string field, of the
/// record contains `kw` (a lower-case keyword).
pub open spec fn search_all_pred(kw: Seq<char>) -> spec_fn(Record) -> bool {
    |r: Record|
        seq_contains(lowercase(r.id@), kw) || exists|j: int|
            0 <= j < r.fields().len() && (match view_as_str(#[trigger] r.fields()[j].1) {
                Some(s) => seq_contains(lowercase(s), kw),
                None => false,
            })
}

pub proof fn lemma_deref_push<'a>(s: Seq<&'a Record>, r: &'a Record)
    ensures
        deref_rows(s.push(r)) == deref_rows(s).push(*r),
{
    assert(deref_rows(s.push(r)) =~= deref_rows(s).push(*r));
}

pub proof fn lemma_filter_step<A>(s: Seq<A>, i: int, p: spec_fn(A) -> bool)
    requires
        0 <= i < s.len(),
    ensures
        s.take(i + 1).filter(p) == (if p(s[i]) {
            s.take(i).filter(p).push(s[i])
        } else {
            s.take(i).filter(p)
        }),
{
    reveal_with_fuel(Seq::filter, 1);
    assert(s.take(i + 1).drop_last() =~= s.take(i));
}

pub proof fn lemma_filter_all(s: Seq<Record>)
    ensures
        s.filter(|x: Record| true) == s,
    decreases s.len(),
{
    reveal_with_fuel(Seq::filter, 1);
    if s.len() > 0 {
        lemma_filter_all(s.drop_last());
        assert(s.drop_last().push(s.last()) =~= s);
    }
}

/// Ids that some record has.
pub open spec fn present_pred<'a>(rows: Seq<Record>) -> spec_fn(&'a str) -> bool {
    |id: &'a str| has_id(rows, id@)
}

/// The record of an id that some record has.
pub open spec fn row_fn<'a>(rows: Seq<Record>) -> spec_fn(&'a str) -> Record {
    |id: &'a str| row_of(rows, id@)->Some_0
}

/// The records whose answer is `true`.
pub open spec fn select(rows: Seq<Record>, answers: Seq<bool>) -> Seq<Record> {
    rows.zip_with(answers).filter(|e: (Record, bool)| e.1).map_values(|e: (Record, bool)| e.0)
}

pub proof fn lemma_select_step(rows: Seq<Record>, answers: Seq<bool>, r: Record, b: bool)
    requires
        rows.len() == answers.len(),
    ensures
        select(rows.push(r), answers.push(b)) == (if b {
            select(rows, answers).push(r)
        } else {
            select(rows, answers)
        }),
{
    reveal_with_fuel(Seq::filter, 1);
    let z0 = rows.zip_with(answers);
    let z1 = rows.push(r).zip_with(answers.push(b));
    assert(z1 =~= z0.push((r, b)));
    assert(z1.drop_last() =~= z0);
    if b {
        assert(select(rows.push(r), answers.push(b)) =~= select(rows, answers).push(r));
    }
}

/// The last record in `s` with the id.
pub open spec fn last_with_id(s: Seq<Record>, id: Seq<char>) -> Option<Record>
    decreases s.len(),
{
    if s.len() == 0 {
        None
    } else if s.last().id@ == id {
        Some(s.last())
    } else {
        last_with_id(s.drop_last(), id)
    }
}

/// The fields of the last update for the id.
pub open spec fn last_update(ups: Seq<(String, Vec<(String, Value)>)>, id: Seq<char>) -> Option<
    Vec<(String, Value)>,
>
    decreases ups.len(),
{
    if ups.len() == 0 {
        None
    } else if ups.last().0@ == id {
        Some(ups.last().1)
    } else {
        last_update(ups.drop_last(), id)
    }
}

/// Updates whose id some record has.
pub open spec fn update_present(rows: Seq<Record>) -> spec_fn((String, Vec<(String, Value)>)) -> bool {
    |u: (String, Vec<(String, Value)>)| has_id(rows, u.0@)
}

/// Some id in the list equals `id`.
pub open spec fn ids_contain<'a>(ids: Seq<&'a str>, id: Seq<char>) -> bool {
    exists|i: int| 0 <= i < ids.len() && ids[i]@ == id
}

/// The name of the id field.
pub open spec fn id_key() -> Seq<char> {
    seq!['i', 'd']
}

/// The id of an imported object: its field `id`, which must hold a string.
pub open spec fn object_id(f: FieldsView) -> Option<Seq<char>> {
    match lookup(f, id_key()) {
        Some(v) => view_as_str(v),
        None => None,
    }
}

/// The fields of an imported object other than `id`.
pub open spec fn object_fields(f: FieldsView) -> FieldsView {
    f.filter(not_id())
}

/// Fields not named `id`.
pub open spec fn not_id() -> spec_fn((Seq<char>, ValueView)) -> bool {
    |e: (Seq<char>, ValueView)| e.0 != id_key()
}

/// The views of imported items: objects as their fields, anything else as
/// `None`.
pub open spec fn items_view(items: Seq<Option<Vec<(String, Value)>>>) -> Seq<Option<FieldsView>> {
    Seq::new(
        items.len(),
        |i: int|
            match items[i] {
                Some(f) => Some(fields_view(f@)),
                None => None,
            },
    )
}

/// Every imported object has a string id.
pub open spec fn objects_have_ids(items: Seq<Option<FieldsView>>) -> bool {
    forall|i: int| 0 <= i < items.len() ==> (#[trigger] items[i] matches Some(f) ==> object_id(f) is Some)
}

/// The fields of the last imported object with the id.
pub open spec fn last_object(items: Seq<Option<FieldsView>>, id: Seq<char>) -> Option<FieldsView>
    decreases items.len(),
{
    if items.len() == 0 {
        None
    } else if items.last() is Some && object_id(items.last()->Some_0) == Some(id) {
        items.last()
    } else {
        last_object(items.drop_last(), id)
    }
}

/// Imported items that are objects.
pub open spec fn is_object() -> spec_fn(Option<FieldsView>) -> bool {
    |x: Option<FieldsView>| x is Some
}

/// Strings strictly increase along the sequence.
pub open spec fn strs_sorted(v: Seq<String>) -> bool {
    forall|i: int, j: int| 0 <= i < j < v.len() ==> str_lt(v[i]@, v[j]@)
}

/// Some string of the sequence is `k`.
pub open spec fn strs_contain(v: Seq<String>, k: Seq<char>) -> bool {
    exists|i: int| 0 <= i < v.len() && v[i]@ == k
}

/// Some record has a field named `k`.
pub open spec fn some_field_named(rows: Seq<Record>, k: Seq<char>) -> bool {
    exists|i: int, j: int| 0 <= i < rows.len() && 0 <= j < rows[i].fields().len() && rows[i].fields()[j].0 == k
}

/// Inserts a string into a strictly increasing vector unless it is there.
pub fn sorted_insert(v: &mut Vec<String>, s: String)
    requires
        strs_sorted(old(v)@),
    ensures
        strs_sorted(final(v)@),
        forall|k: Seq<char>| #[trigger] strs_contain(final(v)@, k) <==> (strs_contain(old(v)@, k) || k == s@),
{
    let mut p: usize = 0;
    let mut stop = false;
    while p < v.len() && !stop
        invariant
            p <= v.len(),
            strs_sorted(v@),
            forall|j: int| 0 <= j < p ==> str_lt(v@[j]@, s@),
            stop ==> p < v@.len() && str_lt(s@, v@[p as int]@),
        decreases v.len() - p + (if stop { 0int } else { 1int }),
    {
        let o = compare_str(v[p].as_str(), s.as_str());
        if o == Order::Equal {
            proof {
                lemma_str_order_equal(v@[p as int]@, s@);
            }
            return;
        } else if o == Order::Greater {
            proof {
                lemma_str_order_reverse(v@[p as int]@, s@);
            }
            stop = true;
        } else {
            p += 1;
        }
    }
    proof {
        assert forall|j: int| p <= j < v@.len() implies str_lt(s@, v@[j]@) by {
            if j > p {
                lemma_str_lt_transitive(s@, v@[p as int]@, v@[j]@);
            }
        }
    }
    let ghost old_v = v@;
    v.insert(p, s);
    proof {
        assert forall|a: int, b: int| 0 <= a < b < v@.len() implies str_lt(v@[a]@, v@[b]@) by {
            if b < p {
            } else if a < p && b == p {
            } else if a < p {
                assert(v@[b] == old_v[b - 1]);
            } else if a == p {
                assert(v@[b] == old_v[b - 1]);
            } else {
                assert(v@[a] == old_v[a - 1] && v@[b] == old_v[b - 1]);
            }
        }
        assert forall|k: Seq<char>| #[trigger] strs_contain(v@, k) <==> (strs_contain(old_v, k) || k == s@) by {
            if strs_contain(old_v, k) {
                let j = choose|j: int| 0 <= j < old_v.len() && old_v[j]@ == k;
                if j < p {
                    assert(v@[j] == old_v[j]);
                } else {
                    assert(v@[j + 1] == old_v[j]);
                }
            }
            if k == s@ {
                assert(v@[p as int] == s);
            }
            if strs_contain(v@, k) {
                let j = choose|j: int| 0 <= j < v@.len() && v@[j]@ == k;
                if j < p {
                    assert(v@[j] == old_v[j]);
                } else if j > p {
                    assert(v@[j] == old_v[j - 1]);
                }
            }
        }
    }
}

/// The field names of the records, in increasing order, each once.
pub fn result_columns(records: &[Record]) -> (r: Vec<String>)
    ensures
        strs_sorted(r@),
        forall|k: Seq<char>| #[trigger] strs_contain(r@, k) <==> some_field_named(records@, k),
{
    let mut keys: Vec<String> = Vec::new();
    let mut i: usize = 0;
    while i < records.len()
        invariant
            i <= records.len(),
            strs_sorted(keys@),
            forall|k: Seq<char>|
                #[trigger] strs_contain(keys@, k) <==> some_field_named(records@.take(i as int), k),
        decreases records.len() - i,
    {
        let rec = &records[i];
        let mut j: usize = 0;
        while j < rec.data.len()
            invariant
                j <= rec.data.len(),
                strs_sorted(keys@),
                forall|k: Seq<char>|
                    #[trigger] strs_contain(keys@, k) <==> (some_field_named(records@.take(i as int), k)
                        || exists|b: int| 0 <= b < j && rec.fields()[b].0 == k),
            decreases rec.data.len() - j,
        {
            let name = rec.data[j].0.clone();
            let ghost nm = name@;
            sorted_insert(&mut keys, name);
            proof {
                assert(rec.fields()[j as int].0 == nm);
                assert forall|k: Seq<char>|
                    #[trigger] strs_contain(keys@, k) <==> (some_field_named(records@.take(i as int), k)
                        || exists|b: int| 0 <= b < j + 1 && rec.fields()[b].0 == k) by {
                    if k == nm {
                        assert(rec.fields()[j as int].0 == k);
                    }
                }
            }
            j += 1;
        }
        proof {
            let t0 = records@.take(i as int);
            let t1 = records@.take(i + 1);
            assert forall|k: Seq<char>|
                #[trigger] strs_contain(keys@, k) <==> some_field_named(t1, k) by {
                if some_field_named(t1, k) {
                    let (a, b) = choose|a: int, b: int| 0 <= a < t1.len() && 0 <= b < t1[a].fields().len() && t1[a].fields()[b].0 == k;
                    if a < i {
                        assert(t0[a] == t1[a]);
                        assert(some_field_named(t0, k));
                    } else {
                        assert(t1[a] == *rec);
                        assert(rec.fields().len() == rec.data@.len());
                    }
                }
                if some_field_named(t0, k) {
                    let (a, b) = choose|a: int, b: int| 0 <= a < t0.len() && 0 <= b < t0[a].fields().len() && t0[a].fields()[b].0 == k;
                    assert(t1[a] == t0[a]);
                }
                if exists|b: int| 0 <= b < rec.data.len() && rec.fields()[b].0 == k {
                    let b = choose|b: int| 0 <= b < rec.data.len() && rec.fields()[b].0 == k;
                    assert(t1[i as int] == *rec);
                    assert(rec.fields().len() == rec.data@.len());
                }
            }
        }
        i += 1;
    }
    assert(records@.take(i as int) =~= records@);
    keys
}

/// Where a record with the id is, or where one would go.
pub enum Slot {
    Found(usize),
    Vacant(usize),
}

/// Statistics about a database.
#[derive(Debug, Clone)]
pub struct DbStats {
    pub total_records: usize,
    pub total_keys: usize,
    pub unique_keys: Vec<String>,
    pub file_size: Option<u64>,
}

/// An in-memory database of records kept in id order.
#[derive(Debug)]
pub struct YamlDb {
    records: Vec<Record>,
}

impl YamlDb {
    /// The records, in id order.
    pub closed spec fn rows(&self) -> Seq<Record> {
        self.records@
    }

    /// Record ids are distinct and in increasing order.
    pub closed spec fn wf(&self) -> bool {
        ids_sorted(self.records@)
    }

    /// A well-formed database keeps its rows in strictly increasing id order.
    pub proof fn lemma_wf_rows(&self)
        requires
            self.wf(),
        ensures
            ids_sorted(self.rows()),
    {
    }

    /// An empty database.
    pub fn memory() -> (r: YamlDb)
        ensures
            r.wf(),
            r.rows().len() == 0,
    {
        YamlDb { records: Vec::new() }
    }

    /// The slot of `id`: the position of its record, or the position where
    /// a record with that id belongs.
    fn slot(&self, id: &str) -> (r: Slot)
        requires
            self.wf(),
        ensures
            match r {
                Slot::Found(i) => i < self.rows().len() && self.rows()[i as int].id@ == id@,
                Slot::Vacant(p) => p <= self.rows().len() && (forall|j: int|
                    0 <= j < p ==> str_lt(self.rows()[j].id@, id@)) && (forall|j: int|
                    p <= j < self.rows().len() ==> str_lt(id@, self.rows()[j].id@)),
            },
    {
        let mut i: usize = 0;
        while i < self.records.len()
            invariant
                i <= self.records.len(),
                ids_sorted(self.records@),
                forall|j: int| 0 <= j < i ==> str_lt(self.records@[j].id@, id@),
            decreases self.records.len() - i,
        {
            let o = compare_str(self.records[i].id.as_str(), id);
            if o == Order::Equal {
                proof {
                    lemma_str_order_equal(self.records@[i as int].id@, id@);
                }
                return Slot::Found(i);
            } else if o == Order::Greater {
                proof {
                    lemma_str_order_reverse(self.records@[i as int].id@, id@);
                    assert forall|j: int| i <= j < self.records@.len() implies str_lt(
                        id@,
                        self.records@[j].id@,
                    ) by {
                        if j > i {
                            lemma_str_lt_transitive(id@, self.records@[i as int].id@, self.records@[j].id@);
                        }
                    }
                }
                return Slot::Vacant(i);
            }
            i += 1;
        }
        Slot::Vacant(i)
    }

    /// Adds a record whose id is not taken; a taken id is refused with
    /// `DuplicateKey` and the database stays as it was.
    pub fn create(&mut self, record: Record) -> (r: Result<(), YamlDbError>)
        requires
            old(self).wf(),
        ensures
            final(self).wf(),
            has_id(old(self).rows(), record.id@) ==> (r matches Err(YamlDbError::DuplicateKey(k))
                && k@ == record.id@) && final(self).rows() == old(self).rows(),
            !has_id(old(self).rows(), record.id@) ==> r is Ok && put_effect(
                old(self).rows(),
                record,
                final(self).rows(),
            ) && final(self).rows().len() == old(self).rows().len() + 1,
    {
        match self.slot(record.id.as_str()) {
            Slot::Found(_) => Err(YamlDbError::DuplicateKey(record.id)),
            Slot::Vacant(p) => {
                proof {
                    lemma_rows_insert(self.records@, p as int, record);
                }
                self.records.insert(p, record);
                Ok(())
            },
        }
    }

    /// Adds the record, replacing the record with the same id if there is
    /// one.
    pub fn upsert(&mut self, record: Record) -> (r: Result<(), YamlDbError>)
        requires
            old(self).wf(),
        ensures
            final(self).wf(),
            r is Ok,
            put_effect(old(self).rows(), record, final(self).rows()),
            final(self).rows().len() == old(self).rows().len() + (if has_id(
                old(self).rows(),
                record.id@,
            ) {
                0int
            } else {
                1int
            }),
    {
        self.put(record);
        Ok(())
    }

    /// Adds the record, replacing the record with the same id if there is
    /// one (the same as `upsert`).
    pub fn insert(&mut self, record: Record) -> (r: Result<(), YamlDbError>)
        requires
            old(self).wf(),
        ensures
            final(self).wf(),
            r is Ok,
            put_effect(old(self).rows(), record, final(self).rows()),
            final(self).rows().len() == old(self).rows().len() + (if has_id(
                old(self).rows(),
                record.id@,
            ) {
                0int
            } else {
                1int
            }),
    {
        self.put(record);
        Ok(())
    }

    fn put(&mut self, record: Record)
        requires
            old(self).wf(),
        ensures
            final(self).wf(),
            put_effect(old(self).rows(), record, final(self).rows()),
            final(self).rows().len() == old(self).rows().len() + (if has_id(
                old(self).rows(),
                record.id@,
            ) {
                0int
            } else {
                1int
            }),
    {
        match self.slot(record.id.as_str()) {
            Slot::Found(i) => {
                proof {
                    lemma_rows_update(self.records@, i as int, record);
                }
                self.records.set(i, record);
            },
            Slot::Vacant(p) => {
                proof {
                    lemma_rows_insert(self.records@, p as int, record);
                }
                self.records.insert(p, record);
            },
        }
    }

    /// The record with the id, or `NotFound`.
    pub fn read(&self, id: &str) -> (r: Result<&Record, YamlDbError>)
        requires
            self.wf(),
        ensures
            match row_of(self.rows(), id@) {
                Some(rec) => r matches Ok(x) && *x == rec,
                None => r matches Err(YamlDbError::NotFound(k)) && k@ == id@,
            },
    {
        match self.slot(id) {
            Slot::Found(i) => {
                proof {
                    lemma_row_of_at(self.records@, i as int);
                }
                Ok(&self.records[i])
            },
            Slot::Vacant(p) => {
                proof {
                    assert forall|j: int| 0 <= j < self.records@.len() implies self.records@[j].id@ != id@ by {
                        lemma_str_lt_total(self.records@[j].id@, id@);
                    }
                }
                Err(YamlDbError::NotFound(id.to_owned()))
            },
        }
    }

    /// Whether a record has the id.
    pub fn contains_id(&self, id: &str) -> (r: bool)
        requires
            self.wf(),
        ensures
            r == has_id(self.rows(), id@),
    {
        match self.slot(id) {
            Slot::Found(_) => true,
            Slot::Vacant(_) => {
                proof {
                    assert forall|j: int| 0 <= j < self.records@.len() implies self.records@[j].id@ != id@ by {
                        lemma_str_lt_total(self.records@[j].id@, id@);
                    }
                }
                false
            },
        }
    }

    /// Number of records.
    pub fn count(&self) -> (r: usize)
        ensures
            r == self.rows().len(),
    {
        self.records.len()
    }

    /// Removes every record.
    pub fn clear(&mut self) -> (r: Result<(), YamlDbError>)
        ensures
            final(self).wf(),
            r is Ok,
            final(self).rows().len() == 0,
    {
        self.records = Vec::new();
        Ok(())
    }

    /// Removes the record with the id, or answers `NotFound` and changes
    /// nothing.
    pub fn delete(&mut self, id: &str) -> (r: Result<(), YamlDbError>)
        requires
            old(self).wf(),
        ensures
            final(self).wf(),
            has_id(old(self).rows(), id@) ==> r is Ok && removed_effect(
                old(self).rows(),
                id@,
                final(self).rows(),
            ) && final(self).rows().len() == old(self).rows().len() - 1,
            !has_id(old(self).rows(), id@) ==> (r matches Err(YamlDbError::NotFound(k)) && k@
                == id@) && final(self).rows() == old(self).rows(),
    {
        match self.slot(id) {
            Slot::Found(i) => {
                proof {
                    lemma_rows_remove(self.records@, i as int);
                }
                self.records.remove(i);
                Ok(())
            },
            Slot::Vacant(_) => {
                proof {
                    assert forall|j: int| 0 <= j < self.records@.len() implies self.records@[j].id@ != id@ by {
                        lemma_str_lt_total(self.records@[j].id@, id@);
                    }
                }
                Err(YamlDbError::NotFound(id.to_owned()))
            },
        }
    }

    /// Replaces the fields of the record with the id, or answers `NotFound`
    /// and changes nothing.
    pub fn update(&mut self, id: &str, data: Vec<(String, Value)>) -> (r: Result<(), YamlDbError>)
        requires
            old(self).wf(),
        ensures
            final(self).wf(),
            match row_of(old(self).rows(), id@) {
                Some(rec) => r is Ok && row_of(final(self).rows(), id@) == Some(
                    Record { id: rec.id, data },
                ) && final(self).rows().len() == old(self).rows().len() && (forall|k: Seq<char>|
                    k != id@ ==> #[trigger] row_of(final(self).rows(), k) == row_of(
                        old(self).rows(),
                        k,
                    )),
                None => r matches Err(YamlDbError::NotFound(k)) && k@ == id@ && final(self).rows()
                    == old(self).rows(),
            },
    {
        match self.slot(id) {
            Slot::Found(i) => {
                proof {
                    lemma_row_of_at(self.records@, i as int);
                }
                let ghost rec = self.records@[i as int];
                let old_id = self.records[i].id.clone();
                let new_rec = Record { id: old_id, data };
                proof {
                    lemma_rows_update(self.records@, i as int, new_rec);
                }
                self.records.set(i, new_rec);
                Ok(())
            },
            Slot::Vacant(_) => {
                proof {
                    assert forall|j: int| 0 <= j < self.records@.len() implies self.records@[j].id@ != id@ by {
                        lemma_str_lt_total(self.records@[j].id@, id@);
                    }
                }
                Err(YamlDbError::NotFound(id.to_owned()))
            },
        }
    }

    /// Sets one field of the record with the id, or answers `NotFound` and
    /// changes nothing.
    pub fn update_field(&mut self, id: &str, key: &str, value: Value) -> (r: Result<(), YamlDbError>)
        requires
            old(self).wf(),
        ensures
            final(self).wf(),
            match row_of(old(self).rows(), id@) {
                Some(rec) => r is Ok && (row_of(final(self).rows(), id@) matches Some(nr) && nr.id
                    == rec.id && nr.fields() == fields_set(rec.fields(), key@, value@))
                    && final(self).rows().len() == old(self).rows().len() && (forall|k: Seq<char>|
                    k != id@ ==> #[trigger] row_of(final(self).rows(), k) == row_of(
                        old(self).rows(),
                        k,
                    )),
                None => r matches Err(YamlDbError::NotFound(k)) && k@ == id@ && final(self).rows()
                    == old(self).rows(),
            },
    {
        match self.slot(id) {
            Slot::Found(i) => {
                proof {
                    lemma_row_of_at(self.records@, i as int);
                }
                let ghost s = self.records@;
                let mut rec = self.records.remove(i);
                rec.set_field(key, value);
                let ghost after = rec;
                proof {
                    lemma_rows_update(s, i as int, after);
                }
                self.records.insert(i, rec);
                assert(self.records@ =~= s.update(i as int, after));
                Ok(())
            },
            Slot::Vacant(_) => {
                proof {
                    assert forall|j: int| 0 <= j < self.records@.len() implies self.records@[j].id@ != id@ by {
                        lemma_str_lt_total(self.records@[j].id@, id@);
                    }
                }
                Err(YamlDbError::NotFound(id.to_owned()))
            },
        }
    }

    /// All records, in id order.
    pub fn read_all(&self) -> (r: Vec<&Record>)
        ensures
            deref_rows(r@) == self.rows(),
    {
        let mut out: Vec<&Record> = Vec::new();
        let mut i: usize = 0;
        while i < self.records.len()
            invariant
                i <= self.records.len(),
                deref_rows(out@) == self.records@.take(i as int),
            decreases self.records.len() - i,
        {
            proof {
                lemma_deref_push(out@, &self.records@[i as int]);
                assert(self.records@.take(i + 1) =~= self.records@.take(i as int).push(self.records@[i as int]));
            }
            out.push(&self.records[i]);
            i += 1;
        }
        assert(self.records@.take(i as int) =~= self.records@);
        out
    }

    /// The field names used by any record, in increasing order, each once.
    pub fn field_names(&self) -> (r: Vec<String>)
        ensures
            strs_sorted(r@),
            forall|k: Seq<char>| #[trigger] strs_contain(r@, k) <==> some_field_named(self.rows(), k),
    {
        result_columns(self.records.as_slice())
    }

    /// The records of the ids that exist, in the order of `ids`.
    pub fn read_many<'b>(&self, ids: &[&'b str]) -> (r: Vec<&Record>)
        requires
            self.wf(),
        ensures
            deref_rows(r@) == ids@.filter(present_pred(self.rows())).map_values(
                row_fn(self.rows()),
            ),
    {
        let mut out: Vec<&Record> = Vec::new();
        let mut i: usize = 0;
        proof {
            reveal_with_fuel(Seq::filter, 1);
            assert(ids@.take(0).filter(present_pred(self.rows())).map_values(row_fn(self.rows())) =~= Seq::<Record>::empty());
        }
        while i < ids.len()
            invariant
                i <= ids.len(),
                self.wf(),
                deref_rows(out@) == ids@.take(i as int).filter(present_pred(self.rows())).map_values(
                    row_fn(self.rows()),
                ),
            decreases ids.len() - i,
        {
            let ghost p = present_pred(self.rows());
            let ghost f = row_fn(self.rows());
            proof {
                lemma_filter_step(ids@, i as int, p);
            }
            match self.read(ids[i]) {
                Ok(rec) => {
                    proof {
                        lemma_deref_push(out@, rec);
                        assert(p(ids@[i as int]));
                        assert(f(ids@[i as int]) == *rec);
                        assert(ids@.take(i + 1).filter(p).map_values(f) =~= ids@.take(i as int).filter(p).map_values(f).push(*rec));
                    }
                    out.push(rec);
                },
                Err(_) => {
                    assert(!p(ids@[i as int]));
                },
            }
            i += 1;
        }
        assert(ids@.take(i as int) =~= ids@);
        out
    }

    /// The records for which the condition holds, in id order.
    pub fn query(&self, op: &QueryOp) -> (r: QueryResult<'_>)
        ensures
            r.rows() == self.rows().filter(query_pred(*op)),
    {
        let mut out: Vec<&Record> = Vec::new();
        let mut i: usize = 0;
        while i < self.records.len()
            invariant
                i <= self.records.len(),
                deref_rows(out@) == self.records@.take(i as int).filter(query_pred(*op)),
            decreases self.records.len() - i,
        {
            proof {
                lemma_filter_step(self.records@, i as int, query_pred(*op));
                lemma_deref_push(out@, &self.records@[i as int]);
            }
            if op.matches(&self.records[i]) {
                out.push(&self.records[i]);
            }
            i += 1;
        }
        assert(self.records@.take(i as int) =~= self.records@);
        QueryResult::from_refs(out)
    }

    /// The records for which `filter` answered `true`, in id order.
    pub fn find_where<F: Fn(&Record) -> bool>(&self, filter: F) -> (r: QueryResult<'_>)
        requires
            forall|rec: &Record| #[trigger] filter.requires((rec,)),
        ensures
            exists|answers: Seq<bool>|
                answers.len() == self.rows().len() && (forall|i: int|
                    0 <= i < answers.len() ==> filter.ensures((&self.rows()[i],), #[trigger] answers[i]))
                    && r.rows() == #[trigger] select(self.rows(), answers),
    {
        let mut out: Vec<&Record> = Vec::new();
        let ghost mut answers: Seq<bool> = Seq::empty();
        proof {
            reveal_with_fuel(Seq::filter, 1);
            assert(select(self.records@.take(0), answers) =~= Seq::<Record>::empty());
        }
        let mut i: usize = 0;
        while i < self.records.len()
            invariant
                i <= self.records.len(),
                forall|rec: &Record| #[trigger] filter.requires((rec,)),
                answers.len() == i,
                forall|j: int| 0 <= j < i ==> filter.ensures((&self.records@[j],), #[trigger] answers[j]),
                deref_rows(out@) == select(self.records@.take(i as int), answers),
            decreases self.records.len() - i,
        {
            let b = filter(&self.records[i]);
            proof {
                lemma_select_step(self.records@.take(i as int), answers, self.records@[i as int], b);
                assert(self.records@.take(i + 1) =~= self.records@.take(i as int).push(self.records@[i as int]));
                lemma_deref_push(out@, &self.records@[i as int]);
                answers = answers.push(b);
            }
            if b {
                out.push(&self.records[i]);
            }
            i += 1;
        }
        proof {
            assert(self.records@.take(i as int) =~= self.records@);
            assert(deref_rows(out@) == select(self.rows(), answers));
        }
        QueryResult::from_refs(out)
    }

    /// Records whose field `key` holds a string containing `keyword`,
    /// compared in lower case, in id order.
    pub fn search(&self, key: &str, keyword: &str) -> (r: QueryResult<'_>)
        ensures
            r.rows() == self.rows().filter(search_pred(key@, lowercase(keyword@))),
    {
        let kw = to_lowercase(keyword);
        let mut out: Vec<&Record> = Vec::new();
        let mut i: usize = 0;
        while i < self.records.len()
            invariant
                i <= self.records.len(),
                kw@ == lowercase(keyword@),
                deref_rows(out@) == self.records@.take(i as int).filter(search_pred(key@, kw@)),
            decreases self.records.len() - i,
        {
            proof {
                lemma_filter_step(self.records@, i as int, search_pred(key@, kw@));
                lemma_deref_push(out@, &self.records@[i as int]);
            }
            let keep = match self.records[i].get_str(key) {
                Some(s) => {
                    let low = to_lowercase(s);
                    str_contains(low.as_str(), kw.as_str())
                },
                None => false,
            };
            if keep {
                out.push(&self.records[i]);
            }
            i += 1;
        }
        assert(self.records@.take(i as int) =~= self.records@);
        QueryResult::from_refs(out)
    }

    /// Records whose id or some string field contains `keyword`, compared
    /// in lower case, in id order.
    pub fn search_all(&self, keyword: &str) -> (r: QueryResult<'_>)
        ensures
            r.rows() == self.rows().filter(search_all_pred(lowercase(keyword@))),
    {
        let kw = to_lowercase(keyword);
        let mut out: Vec<&Record> = Vec::new();
        let mut i: usize = 0;
        while i < self.records.len()
            invariant
                i <= self.records.len(),
                kw@ == lowercase(keyword@),
                deref_rows(out@) == self.records@.take(i as int).filter(search_all_pred(kw@)),
            decreases self.records.len() - i,
        {
            proof {
                lemma_filter_step(self.records@, i as int, search_all_pred(kw@));
                lemma_deref_push(out@, &self.records@[i as int]);
            }
            let rec = &self.records[i];
            let id_low = to_lowercase(rec.id.as_str());
            let mut keep = str_contains(id_low.as_str(), kw.as_str());
            let mut j: usize = 0;
            while j < rec.data.len() && !keep
                invariant
                    j <= rec.data.len(),
                    keep == (seq_contains(lowercase(rec.id@), kw@) || exists|k: int|
                        0 <= k < j && (match view_as_str(#[trigger] rec.fields()[k].1) {
                            Some(s) => seq_contains(lowercase(s), kw@),
                            None => false,
                        })),
                decreases rec.data.len() - j,
            {
                assert(rec.fields()[j as int].1 == rec.data@[j as int].1@);
                match rec.data[j].1.as_str() {
                    Some(s) => {
                        let low = to_lowercase(s);
                        if str_contains(low.as_str(), kw.as_str()) {
                            keep = true;
                        }
                    },
                    None => {},
                }
                j += 1;
            }
            proof {
                let pr = search_all_pred(kw@);
                if keep {
                    assert(pr(*rec));
                } else {
                    assert(j == rec.data.len());
                    assert(rec.fields().len() == rec.data@.len());
                    assert(!pr(*rec));
                }
            }
            if keep {
                out.push(rec);
            }
            i += 1;
        }
        assert(self.records@.take(i as int) =~= self.records@);
        QueryResult::from_refs(out)
    }

    /// Adds every record in order; a later record replaces an earlier one
    /// with the same id. Answers how many records were given.
    pub fn import_records(&mut self, records: Vec<Record>) -> (r: usize)
        requires
            old(self).wf(),
        ensures
            final(self).wf(),
            r == records@.len(),
            forall|k: Seq<char>|
                #[trigger] row_of(final(self).rows(), k) == match last_with_id(records@, k) {
                    Some(rec) => Some(rec),
                    None => row_of(old(self).rows(), k),
                },
    {
        let n = records.len();
        let ghost orig = records@;
        let ghost start = self.rows();
        let mut rest = records;
        let mut j: usize = 0;
        assert(orig.skip(0) =~= orig);
        while rest.len() > 0
            invariant
                self.wf(),
                j <= n,
                n == orig.len(),
                rest@ == orig.skip(j as int),
                forall|k: Seq<char>|
                    #[trigger] row_of(self.rows(), k) == match last_with_id(orig.take(j as int), k) {
                        Some(rec) => Some(rec),
                        None => row_of(start, k),
                    },
            decreases rest.len(),
        {
            let rec = rest.remove(0);
            proof {
                assert(rec == orig[j as int]);
                assert(orig.take(j + 1).drop_last() =~= orig.take(j as int));
                assert(orig.take(j + 1).last() == orig[j as int]);
                assert(rest@ =~= orig.skip(j + 1));
            }
            self.put(rec);
            j += 1;
        }
        assert(orig.take(j as int) =~= orig);
        n
    }

    /// A database holding the records; a later record replaces an earlier
    /// one with the same id.
    pub fn from_records(records: Vec<Record>) -> (r: YamlDb)
        ensures
            r.wf(),
            forall|k: Seq<char>| #[trigger] row_of(r.rows(), k) == last_with_id(records@, k),
    {
        let mut db = YamlDb::memory();
        db.import_records(records);
        db
    }

    /// Replaces the fields of each listed record that exists, in order.
    /// Answers how many updates found their record.
    pub fn update_many(&mut self, updates: Vec<(String, Vec<(String, Value)>)>) -> (r: Result<usize, YamlDbError>)
        requires
            old(self).wf(),
        ensures
            final(self).wf(),
            r == Ok::<usize, YamlDbError>(updates@.filter(update_present(old(self).rows())).len() as usize),
            final(self).rows().len() == old(self).rows().len(),
            forall|k: Seq<char>|
                #[trigger] row_of(final(self).rows(), k) == match row_of(old(self).rows(), k) {
                    Some(rec) => match last_update(updates@, k) {
                        Some(d) => Some(Record { id: rec.id, data: d }),
                        None => Some(rec),
                    },
                    None => None,
                },
    {
        let ghost orig = updates@;
        let ghost start = self.rows();
        let n = updates.len();
        let mut rest = updates;
        let mut j: usize = 0;
        let mut count: usize = 0;
        assert(orig.skip(0) =~= orig);
        proof {
            reveal_with_fuel(Seq::filter, 1);
        }
        while rest.len() > 0
            invariant
                self.wf(),
                j <= n,
                n == orig.len(),
                rest@ == orig.skip(j as int),
                self.rows().len() == start.len(),
                count == orig.take(j as int).filter(update_present(start)).len(),
                count <= j,
                forall|k: Seq<char>| #[trigger] has_id(self.rows(), k) == has_id(start, k),
                forall|k: Seq<char>|
                    #[trigger] row_of(self.rows(), k) == match row_of(start, k) {
                        Some(rec) => match last_update(orig.take(j as int), k) {
                            Some(d) => Some(Record { id: rec.id, data: d }),
                            None => Some(rec),
                        },
                        None => None,
                    },
            decreases rest.len(),
        {
            let (id, data) = rest.remove(0);
            proof {
                assert((id, data) == orig[j as int]);
                assert(orig.take(j + 1).drop_last() =~= orig.take(j as int));
                assert(orig.take(j + 1).last() == orig[j as int]);
                assert(rest@ =~= orig.skip(j + 1));
                lemma_filter_step(orig, j as int, update_present(start));
                orig.take(j as int).lemma_filter_len(update_present(start));
            }
            let ghost before = self.rows();
            let found = self.update(id.as_str(), data).is_ok();
            proof {
                assert(found == has_id(start, id@));
                assert forall|k: Seq<char>| #[trigger] has_id(self.rows(), k) == has_id(start, k) by {
                    if k == id@ {
                    } else {
                        assert(row_of(self.rows(), k) == row_of(before, k));
                    }
                }
            }
            if found {
                count += 1;
            }
            j += 1;
        }
        assert(orig.take(j as int) =~= orig);
        Ok(count)
    }

    /// Removes each listed record that exists. Answers how many records
    /// were removed.
    pub fn delete_many(&mut self, ids: &[&str]) -> (r: Result<usize, YamlDbError>)
        requires
            old(self).wf(),
        ensures
            final(self).wf(),
            r == Ok::<usize, YamlDbError>((old(self).rows().len() - final(self).rows().len()) as usize),
            forall|k: Seq<char>|
                #[trigger] row_of(final(self).rows(), k) == if ids_contain(ids@, k) {
                    None
                } else {
                    row_of(old(self).rows(), k)
                },
    {
        let ghost start = self.rows();
        let start_len = self.records.len();
        let mut count: usize = 0;
        let mut j: usize = 0;
        while j < ids.len()
            invariant
                self.wf(),
                start_len == start.len(),
                j <= ids.len(),
                count == start.len() - self.rows().len(),
                self.rows().len() <= start.len(),
                forall|k: Seq<char>|
                    #[trigger] row_of(self.rows(), k) == if ids_contain(ids@.take(j as int), k) {
                        None
                    } else {
                        row_of(start, k)
                    },
            decreases ids.len() - j,
        {
            let ghost before = self.rows();
            let removed = self.delete(ids[j]).is_ok();
            proof {
                assert forall|k: Seq<char>|
                    #[trigger] row_of(self.rows(), k) == if ids_contain(ids@.take(j + 1), k) {
                        None
                    } else {
                        row_of(start, k)
                    } by {
                    if ids_contain(ids@.take(j as int), k) {
                        let a = choose|a: int| 0 <= a < j && (#[trigger] ids@.take(j as int)[a])@ == k;
                        assert(ids@.take(j + 1)[a]@ == k);
                    }
                    if k == ids@[j as int]@ {
                        assert(ids@.take(j + 1)[j as int]@ == k);
                        if !removed {
                            assert(!has_id(before, k));
                        }
                    } else {
                        if ids_contain(ids@.take(j + 1), k) {
                            let a = choose|a: int| 0 <= a < j + 1 && (#[trigger] ids@.take(j + 1)[a])@ == k;
                            assert(ids@.take(j as int)[a]@ == k);
                        }
                        if !removed {
                            assert(self.rows() == before);
                        }
                    }
                }
            }
            if removed {
                count += 1;
            }
            j += 1;
        }
        assert(ids@.take(j as int) =~= ids@);
        Ok(count)
    }

    /// Statistics: the number of records and the field names in use, in
    /// increasing order without repeats. The file size is left for the
    /// caller that knows the file.
    pub fn stats(&self) -> (r: DbStats)
        ensures
            r.total_records == self.rows().len(),
            r.total_keys == r.unique_keys@.len(),
            strs_sorted(r.unique_keys@),
            forall|k: Seq<char>| #[trigger] strs_contain(r.unique_keys@, k) <==> some_field_named(self.rows(), k),
            r.file_size is None,
    {
        let keys = result_columns(self.records.as_slice());
        let total_keys = keys.len();
        DbStats { total_records: self.records.len(), total_keys, unique_keys: keys, file_size: None }
    }

    /// Index of the first field named `id`.
    pub(crate) fn id_index(fields: &Vec<(String, Value)>) -> (r: Option<usize>)
        ensures
            match r {
                Some(i) => i == key_index(fields_view(fields@), id_key()),
                None => key_index(fields_view(fields@), id_key()) == -1,
            },
    {
        proof {
            reveal_strlit("id");
            lemma_key_index(fields_view(fields@), id_key());
        }
        let mut i: usize = 0;
        while i < fields.len()
            invariant
                i <= fields.len(),
                "id"@ == id_key(),
                forall|j: int| 0 <= j < i ==> (#[trigger] fields_view(fields@)[j]).0 != id_key(),
            decreases fields.len() - i,
        {
            if str_eq(fields[i].0.as_str(), "id") {
                proof {
                    lemma_key_index(fields_view(fields@), id_key());
                    let k = key_index(fields_view(fields@), id_key());
                    assert(fields_view(fields@)[i as int].0 == id_key());
                    if 0 <= k < i {
                        assert(fields_view(fields@)[k].0 == id_key());
                    }
                }
                return Some(i);
            }
            i += 1;
        }
        None
    }

    /// The id of an imported object, if its field `id` holds a string.
    pub(crate) fn object_id_exec(fields: &Vec<(String, Value)>) -> (r: Option<String>)
        ensures
            match r {
                Some(s) => object_id(fields_view(fields@)) == Some(s@),
                None => object_id(fields_view(fields@)) is None,
            },
    {
        proof {
            lemma_key_index(fields_view(fields@), id_key());
        }
        match Self::id_index(fields) {
            Some(i) => {
                assert(fields_view(fields@)[i as int].1 == fields@[i as int].1@);
                match fields[i].1.as_str() {
                    Some(s) => Some(s.to_owned()),
                    None => None,
                }
            },
            None => None,
        }
    }

    /// The fields of an imported object other than `id`, in order.
    pub(crate) fn object_fields_exec(fields: Vec<(String, Value)>) -> (r: Vec<(String, Value)>)
        ensures
            fields_view(r@) == object_fields(fields_view(fields@)),
    {
        let ghost orig = fields@;
        let ghost p = not_id();
        let n = fields.len();
        let mut rest = fields;
        let mut out: Vec<(String, Value)> = Vec::new();
        let mut j: usize = 0;
        proof {
            reveal_strlit("id");
            reveal_with_fuel(Seq::filter, 1);
            assert(orig.skip(0) =~= orig);
            assert(fields_view(orig).take(0).filter(p) =~= fields_view(out@));
        }
        while rest.len() > 0
            invariant
                j <= n,
                n == orig.len(),
                rest@ == orig.skip(j as int),
                rest.len() == n - j,
                "id"@ == id_key(),
                p == not_id(),
                fields_view(out@) == fields_view(orig).take(j as int).filter(p),
            decreases rest.len(),
        {
            let e = rest.remove(0);
            proof {
                assert(e == orig[j as int]);
                assert(rest@ =~= orig.skip(j + 1));
                lemma_filter_step(fields_view(orig), j as int, p);
                assert(fields_view(orig)[j as int] == (e.0@, e.1@));
            }
            let keep = !str_eq(e.0.as_str(), "id");
            assert(keep == p(fields_view(orig)[j as int]));
            if keep {
                let ghost before = out@;
                out.push(e);
                proof {
                    assert(fields_view(out@) =~= fields_view(before).push((e.0@, e.1@)));
                }
            }
            j += 1;
        }
        proof {
            assert(fields_view(orig).take(j as int) =~= fields_view(orig));
        }
        out
    }

    /// Imports JSON items: each object (given as its fields) becomes a record
    /// with the string in its field `id` and its other fields, replacing a
    /// record with that id; other items are skipped. An object without a
    /// string `id` refuses the whole import and changes nothing. Answers how
    /// many objects were imported.
    pub fn import_json_objects(&mut self, items: Vec<Option<Vec<(String, Value)>>>) -> (r: Result<
        usize,
        YamlDbError,
    >)
        requires
            old(self).wf(),
        ensures
            final(self).wf(),
            !objects_have_ids(items_view(items@)) ==> (r matches Err(YamlDbError::InvalidQuery(m))
                && m@ == "Missing 'id' field"@) && final(self).rows() == old(self).rows(),
            objects_have_ids(items_view(items@)) ==> r == Ok::<usize, YamlDbError>(
                items_view(items@).filter(is_object()).len() as usize,
            ) && (forall|k: Seq<char>|
                match last_object(items_view(items@), k) {
                    Some(f) => #[trigger] row_of(final(self).rows(), k) matches Some(rec) && rec.id@ == k
                        && rec.fields() == object_fields(f),
                    None => row_of(final(self).rows(), k) == row_of(old(self).rows(), k),
                }),
    {
        let ghost iv = items_view(items@);
        let mut i: usize = 0;
        while i < items.len()
            invariant
                i <= items.len(),
                self.wf(),
                iv == items_view(items@),
                forall|j: int| 0 <= j < i ==> (#[trigger] iv[j] matches Some(f) ==> object_id(f) is Some),
            decreases items.len() - i,
        {
            match &items[i] {
                Some(f) => {
                    assert(iv[i as int] == Some(fields_view(f@)));
                    if Self::object_id_exec(f).is_none() {
                        return Err(YamlDbError::InvalidQuery("Missing 'id' field".to_owned()));
                    }
                },
                None => {},
            }
            i += 1;
        }
        let ghost start = self.rows();
        let n = items.len();
        let mut rest = items;
        let mut j: usize = 0;
        let mut count: usize = 0;
        proof {
            reveal_with_fuel(Seq::filter, 1);
            assert(items_view(rest@).skip(0) =~= iv);
        }
        while rest.len() > 0
            invariant
                self.wf(),
                j <= n,
                n == iv.len(),
                objects_have_ids(iv),
                items_view(rest@) == iv.skip(j as int),
                rest.len() == n - j,
                count == iv.take(j as int).filter(is_object()).len(),
                count <= j,
                forall|k: Seq<char>|
                    match last_object(iv.take(j as int), k) {
                        Some(f) => #[trigger] row_of(self.rows(), k) matches Some(rec) && rec.id@ == k
                            && rec.fields() == object_fields(f),
                        None => row_of(self.rows(), k) == row_of(start, k),
                    },
            decreases rest.len(),
        {
            let ghost before = rest@;
            let ghost item_v = iv[j as int];
            let item = rest.remove(0);
            proof {
                assert(items_view(before)[0] == iv.skip(j as int)[0]);
                assert(items_view(rest@) =~= items_view(before).skip(1));
                assert(items_view(rest@) =~= iv.skip(j + 1));
                assert(iv[j as int] == item_v);
                lemma_filter_step(iv, j as int, is_object());
                iv.take(j as int).lemma_filter_len(is_object());
                assert(iv.take(j + 1).drop_last() =~= iv.take(j as int));
                assert(iv.take(j + 1).last() == item_v);
            }
            match item {
                Some(f) => {
                    let ghost fv = fields_view(f@);
                    let id = match Self::object_id_exec(&f) {
                        Some(id) => id,
                        None => {
                            assert(false);
                            String::new()
                        },
                    };
                    let data = Self::object_fields_exec(f);
                    let rec = Record { id, data };
                    let ghost rid = rec.id@;
                    self.put(rec);
                    count += 1;
                    proof {
                        assert forall|k: Seq<char>|
                            match last_object(iv.take(j + 1), k) {
                                Some(g) => #[trigger] row_of(self.rows(), k) matches Some(r2) && r2.id@ == k
                                    && r2.fields() == object_fields(g),
                                None => row_of(self.rows(), k) == row_of(start, k),
                            } by {
                            if k == rid {
                                assert(last_object(iv.take(j + 1), k) == Some(fv));
                            }
                        }
                    }
                },
                None => {},
            }
            j += 1;
        }
        proof {
            assert(iv.take(j as int) =~= iv);
        }
        Ok(count)
    }
}

} // verus!
