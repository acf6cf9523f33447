use crate::number::Order;
use crate::order::{partial_order_of, value_partial};
use crate::record::{lookup, Record};
use crate::value::ValueView;
use vstd::prelude::*;

verus! {

/// The records of a sequence of record references.
pub open spec fn deref_rows<'a>(s: Seq<&'a Record>) -> Seq<Record> {
    Seq::new(s.len(), |i: int| *s[i])
}

/// Records selected by a query, in id order unless sorted otherwise.
#[derive(Debug)]
pub struct QueryResult<'a> {
    records: Vec<&'a Record>,
}

/// The order of two optional field values: a missing value first, present
/// values by YAML's partial order, and values that do not compare as
/// equal.
pub open spec fn key_order(a: Option<ValueView>, b: Option<ValueView>) -> Order {
    match (a, b) {
        (None, None) => Order::Equal,
        (None, Some(_)) => Order::Less,
        (Some(_), None) => Order::Greater,
        (Some(x), Some(y)) => match value_partial(x, y) {
            Some(o) => o,
            None => Order::Equal,
        },
    }
}

/// The order of two records by field `key`, reversed when descending.
pub open spec fn row_order(r1: Record, r2: Record, key: Seq<char>, ascending: bool) -> Order {
    let o = key_order(lookup(r1.fields(), key), lookup(r2.fields(), key));
    if ascending {
        o
    } else {
        o.spec_reverse()
    }
}

/// Where `x` goes among sorted rows: before the first that comes after it,
/// looking from `j` on.
pub open spec fn row_insert_pos(t: Seq<Record>, x: Record, key: Seq<char>, ascending: bool, j: int) -> int
    decreases t.len() - j,
{
    if j < 0 || j >= t.len() {
        t.len() as int
    } else if row_order(t[j], x, key, ascending) == Order::Greater {
        j
    } else {
        row_insert_pos(t, x, key, ascending, j + 1)
    }
}

/// The rows stably sorted by field `key`: rows in order, rows that compare
/// equal in their first order.
pub open spec fn rows_sorted_by(s: Seq<Record>, key: Seq<char>, ascending: bool) -> Seq<Record>
    decreases s.len(),
{
    if s.len() == 0 {
        s
    } else {
        let t = rows_sorted_by(s.drop_last(), key, ascending);
        t.insert(row_insert_pos(t, s.last(), key, ascending, 0), s.last())
    }
}

/// The order of the rows by field `key` is a total preorder: what a sort
/// needs of its comparison.
pub open spec fn orders_totally(s: Seq<Record>, key: Seq<char>, ascending: bool) -> bool {
    &&& forall|i: int, j: int|
        0 <= i < s.len() && 0 <= j < s.len() ==> #[trigger] row_order(s[i], s[j], key, ascending)
            == row_order(s[j], s[i], key, ascending).spec_reverse()
    &&& forall|i: int, j: int, k: int|
        0 <= i < s.len() && 0 <= j < s.len() && 0 <= k < s.len() && row_order(
            s[i],
            s[j],
            key,
            ascending,
        ) != Order::Greater && row_order(s[j], s[k], key, ascending) != Order::Greater ==> row_order(
            s[i],
            s[k],
            key,
            ascending,
        ) != Order::Greater
}

pub proof fn lemma_row_insert_pos(t: Seq<Record>, x: Record, key: Seq<char>, ascending: bool, j: int)
    requires
        0 <= j <= t.len(),
    ensures
        j <= row_insert_pos(t, x, key, ascending, j) <= t.len(),
    decreases t.len() - j,
{
    if j < t.len() && row_order(t[j], x, key, ascending) != Order::Greater {
        lemma_row_insert_pos(t, x, key, ascending, j + 1);
    }
}

pub proof fn lemma_deref_insert<'a>(s: Seq<&'a Record>, i: int, r: &'a Record)
    requires
        0 <= i <= s.len(),
    ensures
        deref_rows(s.insert(i, r)) == deref_rows(s).insert(i, *r),
{
    assert(deref_rows(s.insert(i, r)) =~= deref_rows(s).insert(i, *r));
}

/// The order of two records by field `key`.
fn row_order_of(a: &Record, b: &Record, key: &str, ascending: bool) -> (r: Order)
    ensures
        r == row_order(*a, *b, key@, ascending),
{
    let o = match (a.get(key), b.get(key)) {
        (None, None) => Order::Equal,
        (None, Some(_)) => Order::Less,
        (Some(_), None) => Order::Greater,
        (Some(x), Some(y)) => match partial_order_of(x, y) {
            Some(o) => o,
            None => Order::Equal,
        },
    };
    if ascending {
        o
    } else {
        o.reverse()
    }
}

/// Number of records a page of `page_size` starting at page `page`
/// (counting from 1) skips.
pub open spec fn page_start(page: nat, page_size: nat) -> nat {
    ((page - 1) * page_size) as nat
}

impl<'a> QueryResult<'a> {
    /// The selected records, in order.
    pub closed spec fn rows(&self) -> Seq<Record> {
        deref_rows(self.records@)
    }

    pub fn from_refs(records: Vec<&'a Record>) -> (r: QueryResult<'a>)
        ensures
            r.rows() == deref_rows(records@),
    {
        QueryResult { records }
    }

    pub fn first(&self) -> (r: Option<&'a Record>)
        ensures
            match r {
                Some(x) => self.rows().len() > 0 && *x == self.rows()[0],
                None => self.rows().len() == 0,
            },
    {
        if self.records.len() > 0 {
            Some(self.records[0])
        } else {
            None
        }
    }

    pub fn last(&self) -> (r: Option<&'a Record>)
        ensures
            match r {
                Some(x) => self.rows().len() > 0 && *x == self.rows()[self.rows().len() - 1],
                None => self.rows().len() == 0,
            },
    {
        if self.records.len() > 0 {
            Some(self.records[self.records.len() - 1])
        } else {
            None
        }
    }

    pub fn count(&self) -> (r: usize)
        ensures
            r == self.rows().len(),
    {
        self.records.len()
    }

    pub fn is_empty(&self) -> (r: bool)
        ensures
            r == (self.rows().len() == 0),
    {
        self.records.len() == 0
    }

    /// The records from position `from` (inclusive) to `to` (exclusive).
    fn slice_rows(&self, from: usize, to: usize) -> (r: Vec<&'a Record>)
        requires
            from <= to <= self.rows().len(),
        ensures
            deref_rows(r@) == self.rows().subrange(from as int, to as int),
    {
        let mut r: Vec<&'a Record> = Vec::new();
        let mut i: usize = from;
        while i < to
            invariant
                from <= i <= to <= self.records.len(),
                deref_rows(r@) == self.rows().subrange(from as int, i as int),
            decreases to - i,
        {
            let ghost old_r = r@;
            assert(deref_rows(old_r).len() == old_r.len());
            assert(old_r.len() == i - from);
            assert(self.rows() == deref_rows(self.records@));
            assert(self.rows()[i as int] == *self.records@[i as int]);
            r.push(self.records[i]);
            assert(r@ == old_r.push(self.records@[i as int]));
            i += 1;
            assert(deref_rows(r@) =~= self.rows().subrange(from as int, i as int)) by {
                assert(deref_rows(old_r) =~= self.rows().subrange(from as int, i - 1));
                assert forall|k: int| 0 <= k < r@.len() implies deref_rows(r@)[k] == self.rows().subrange(from as int, i as int)[k] by {
                    if k < old_r.len() {
                        assert(deref_rows(r@)[k] == deref_rows(old_r)[k]);
                    } else {
                        assert(k == i - 1 - from);
                        assert(deref_rows(r@)[k] == *r@[k]);
                        assert(r@[k] == self.records@[i - 1]);
                        assert(self.rows().subrange(from as int, i as int)[k] == self.rows()[i - 1]);
                    }
                }
            }
        }
        r
    }

    /// The first `n` records (all of them if there are fewer).
    pub fn limit(&self, n: usize) -> (r: Vec<&'a Record>)
        ensures
            deref_rows(r@) == self.rows().take(
                if n < self.rows().len() {
                    n as int
                } else {
                    self.rows().len() as int
                },
            ),
    {
        let to = if n < self.records.len() {
            n
        } else {
            self.records.len()
        };
        self.slice_rows(0, to)
    }

    /// The records after the first `n`.
    pub fn skip(&self, n: usize) -> (r: Vec<&'a Record>)
        ensures
            deref_rows(r@) == self.rows().skip(
                if n < self.rows().len() {
                    n as int
                } else {
                    self.rows().len() as int
                },
            ),
    {
        let from = if n < self.records.len() {
            n
        } else {
            self.records.len()
        };
        self.slice_rows(from, self.records.len())
    }

    /// Page `page` (counting from 1) of `page_size` records; page 0 and
    /// pages of size 0 are empty.
    pub fn page(&self, page: usize, page_size: usize) -> (r: Vec<&'a Record>)
        requires
            page == 0 || (page - 1) * page_size <= usize::MAX,
        ensures
            page == 0 || page_size == 0 ==> r@.len() == 0,
            page > 0 && page_size > 0 ==> {
                let start = page_start(page as nat, page_size as nat);
                let from = if start < self.rows().len() {
                    start as int
                } else {
                    self.rows().len() as int
                };
                let to = if from + page_size < self.rows().len() {
                    from + page_size
                } else {
                    self.rows().len() as int
                };
                deref_rows(r@) == self.rows().subrange(from, to)
            },
    {
        if page == 0 || page_size == 0 {
            return Vec::new();
        }
        let start = (page - 1) * page_size;
        let len = self.records.len();
        let from = if start < len {
            start
        } else {
            len
        };
        let to = if page_size < len - from {
            from + page_size
        } else {
            len
        };
        self.slice_rows(from, to)
    }

    /// All selected records, in order.
    pub fn to_vec(&self) -> (r: Vec<&'a Record>)
        ensures
            deref_rows(r@) == self.rows(),
    {
        let len = self.records.len();
        let r = self.slice_rows(0, len);
        assert(self.rows().subrange(0, len as int) =~= self.rows());
        r
    }

    /// Sorts the records by field `key`, ascending or descending; the sort
    /// is stable.
    pub fn sort_by_key(&mut self, key: &str, ascending: bool)
        requires
            orders_totally(old(self).rows(), key@, ascending),
        ensures
            final(self).rows() == rows_sorted_by(old(self).rows(), key@, ascending),
    {
        let ghost all = self.rows();
        let mut out: Vec<&'a Record> = Vec::new();
        let mut i: usize = 0;
        assert(all.take(0) =~= Seq::<Record>::empty());
        assert(deref_rows(out@) =~= Seq::<Record>::empty());
        while i < self.records.len()
            invariant
                i <= self.records.len(),
                all == deref_rows(self.records@),
                deref_rows(out@) == rows_sorted_by(all.take(i as int), key@, ascending),
            decreases self.records.len() - i,
        {
            let x = self.records[i];
            let ghost t = deref_rows(out@);
            let mut j: usize = 0;
            while j < out.len() && row_order_of(out[j], x, key, ascending) != Order::Greater
                invariant
                    j <= out.len(),
                    t == deref_rows(out@),
                    row_insert_pos(t, *x, key@, ascending, 0) == row_insert_pos(
                        t,
                        *x,
                        key@,
                        ascending,
                        j as int,
                    ),
                decreases out.len() - j,
            {
                assert(t[j as int] == *out@[j as int]);
                j += 1;
            }
            proof {
                if j < out.len() {
                    assert(t[j as int] == *out@[j as int]);
                }
                assert(all.take(i + 1).drop_last() =~= all.take(i as int));
                assert(all.take(i + 1).last() == *x);
                lemma_deref_insert(out@, j as int, x);
            }
            out.insert(j, x);
            i += 1;
        }
        assert(all.take(i as int) =~= all);
        self.records = out;
    }

    /// The selected records, in order, to go through.
    pub fn iter(&self) -> (r: Vec<&'a Record>)
        ensures
            deref_rows(r@) == self.rows(),
    {
        self.to_vec()
    }

    /// The ids of the selected records, in order.
    pub fn ids(&self) -> (r: Vec<&'a str>)
        ensures
            r@.len() == self.rows().len(),
            forall|i: int| 0 <= i < r@.len() ==> r@[i]@ == self.rows()[i].id@,
    {
        let mut r: Vec<&'a str> = Vec::new();
        let mut i: usize = 0;
        while i < self.records.len()
            invariant
                i <= self.records.len(),
                r@.len() == i,
                forall|j: int| 0 <= j < i ==> r@[j]@ == self.rows()[j].id@,
            decreases self.records.len() - i,
        {
            let rec: &'a Record = self.records[i];
            r.push(rec.id.as_str());
            i += 1;
        }
        r
    }
}

} // verus!
