use crate::catalog::{
    file_name_of, insert_pos, invalid_table_name, lower_keys, odbc_location, sort_by_lower, webui_location,
    webui_write_location, Loc, SourceFacts,
};
use crate::catalog::ResolveError;
use crate::cli::url_bytes;
use crate::db::{has_id, ids_sorted, put_effect, removed_effect, row_of, search_all_pred, search_pred};
use crate::odbc::{first_free, first_free_from};
use crate::number::Order;
use crate::query::{op_matches, QueryOp};
use crate::result::{orders_totally, row_insert_pos, row_order, rows_sorted_by};
use crate::record::{fields_set, lemma_fields_set, lookup, FieldsView, Record};
use crate::number::Number;
use crate::value::{Value, ValueView};
use crate::sql::{
    and_kw, ascii_lower_byte, comparison_symbols, comparison_tree, cond_tree, like_match, lone_tick,
    lower_find, op_of_tree, or_kw, symbol_split_from, CondView, Parse,
};
use crate::text::{
    find_first, found_at, lemma_find_from, seq_contains, str_order, trim, lemma_str_lt_total, lemma_str_lt_transitive, lemma_str_order_equal, lowercase, str_lt,
};
use vstd::prelude::*;

verus! {

/// Putting two records with the same id in turn is putting the second one:
/// the last write wins.
pub proof fn law_last_put_wins(a: Seq<Record>, b: Seq<Record>, c: Seq<Record>, r1: Record, r2: Record)
    requires
        put_effect(a, r1, b),
        put_effect(b, r2, c),
        r1.id@ == r2.id@,
    ensures
        put_effect(a, r2, c),
{
    assert forall|k: Seq<char>| k != r2.id@ implies #[trigger] row_of(c, k) == row_of(a, k) by {
        assert(row_of(c, k) == row_of(b, k));
        assert(row_of(b, k) == row_of(a, k));
    }
}

/// A record read back after it was put in is the record put in.
pub proof fn law_read_after_put(a: Seq<Record>, b: Seq<Record>, rec: Record)
    requires
        put_effect(a, rec, b),
    ensures
        has_id(b, rec.id@),
        row_of(b, rec.id@) == Some(rec),
{
}

/// After a record is taken out, its id is no longer there.
pub proof fn law_removed_is_absent(b: Seq<Record>, c: Seq<Record>, id: Seq<char>)
    requires
        removed_effect(b, id, c),
    ensures
        !has_id(c, id),
{
}

/// Two sorted sequences of records that hold the same record under every
/// id are equal.
pub proof fn lemma_rows_determined(a: Seq<Record>, c: Seq<Record>)
    requires
        ids_sorted(a),
        ids_sorted(c),
        forall|k: Seq<char>| #[trigger] row_of(a, k) == row_of(c, k),
    ensures
        a == c,
    decreases a.len() + c.len(),
{
    if a.len() == 0 && c.len() == 0 {
        assert(a =~= c);
    } else if a.len() == 0 {
        crate::db::lemma_row_of_at(c, 0);
        assert(row_of(a, c[0].id@) is None);
    } else if c.len() == 0 {
        crate::db::lemma_row_of_at(a, 0);
        assert(row_of(c, a[0].id@) is None);
    } else {
        let x = a.last();
        let y = c.last();
        crate::db::lemma_row_of_at(a, a.len() - 1);
        crate::db::lemma_row_of_at(c, c.len() - 1);
        // Both last records are the records of the greatest id.
        assert(row_of(c, x.id@) == Some(x));
        let j = choose|j: int| 0 <= j < c.len() && c[j].id@ == x.id@;
        crate::db::lemma_row_of_at(c, j);
        assert(c[j] == x);
        assert(row_of(a, y.id@) == Some(y));
        let i = choose|i: int| 0 <= i < a.len() && a[i].id@ == y.id@;
        crate::db::lemma_row_of_at(a, i);
        assert(a[i] == y);
        if j < c.len() - 1 {
            assert(str_lt(x.id@, y.id@));
            if i < a.len() - 1 {
                assert(str_lt(y.id@, x.id@));
                lemma_str_lt_total(x.id@, y.id@);
            } else {
                lemma_str_lt_total(x.id@, y.id@);
            }
        }
        if i < a.len() - 1 {
            assert(str_lt(y.id@, x.id@));
            lemma_str_lt_total(x.id@, y.id@);
        }
        assert(i == a.len() - 1 && j == c.len() - 1);
        assert(x == y);
        let a1 = a.drop_last();
        let c1 = c.drop_last();
        assert forall|k: Seq<char>| #[trigger] row_of(a1, k) == row_of(c1, k) by {
            lemma_drop_last_row(a, k);
            lemma_drop_last_row(c, k);
        }
        lemma_rows_determined(a1, c1);
        assert(a =~= a1.push(x));
        assert(c =~= c1.push(y));
    }
}

/// Dropping the last (greatest) record keeps every other id's record.
proof fn lemma_drop_last_row(a: Seq<Record>, k: Seq<char>)
    requires
        ids_sorted(a),
        a.len() > 0,
    ensures
        ids_sorted(a.drop_last()),
        row_of(a.drop_last(), k) == if k == a.last().id@ {
            None
        } else {
            row_of(a, k)
        },
{
    let a1 = a.drop_last();
    let n = a.len() - 1;
    if has_id(a1, k) {
        let i = choose|i: int| 0 <= i < a1.len() && a1[i].id@ == k;
        crate::db::lemma_row_of_at(a1, i);
        crate::db::lemma_row_of_at(a, i);
        assert(str_lt(a[i].id@, a[n].id@));
        lemma_str_lt_total(a[i].id@, a[n].id@);
    } else if k != a.last().id@ && has_id(a, k) {
        let i = choose|i: int| 0 <= i < a.len() && a[i].id@ == k;
        assert(i != n);
        assert(a1[i].id@ == k);
    }
}

/// Putting a record under a new id and then taking it out again gives back
/// the rows as they were: deleting undoes creating.
pub proof fn law_remove_undoes_put(a: Seq<Record>, b: Seq<Record>, c: Seq<Record>, rec: Record)
    requires
        ids_sorted(a),
        ids_sorted(c),
        !has_id(a, rec.id@),
        put_effect(a, rec, b),
        removed_effect(b, rec.id@, c),
    ensures
        c == a,
{
    assert forall|k: Seq<char>| #[trigger] row_of(a, k) == row_of(c, k) by {
        if k == rec.id@ {
            assert(row_of(a, k) is None);
        } else {
            assert(row_of(c, k) == row_of(b, k));
        }
    }
    lemma_rows_determined(a, c);
}

/// After a field is set, the field holds the new value and every other
/// field is as it was.
pub proof fn law_get_after_set(before: FieldsView, key: Seq<char>, v: crate::value::ValueView, k: Seq<char>)
    ensures
        lookup(fields_set(before, key, v), key) == Some(v),
        k != key ==> lookup(fields_set(before, key, v), k) == lookup(before, k),
{
    lemma_fields_set(before, key, v, k);
}

/// `Not` holds exactly where the condition does not.
pub proof fn law_not_negates(op: QueryOp, d: FieldsView)
    requires
        op matches QueryOp::Not(_),
    ensures
        op_matches(op, d) == !op_matches(*op->Not_0, d),
{
}

/// An empty `And` holds of every record, an empty `Or` of none.
pub proof fn law_empty_and_or(op: QueryOp, d: FieldsView)
    ensures
        (op matches QueryOp::And(ops) && ops@.len() == 0) ==> op_matches(op, d),
        (op matches QueryOp::Or(ops) && ops@.len() == 0) ==> !op_matches(op, d),
{
}

/// Selecting with an empty `And` selects every row, in order.
pub proof fn law_and_empty_selects_all(rows: Seq<Record>, op: QueryOp)
    requires
        op matches QueryOp::And(ops) && ops@.len() == 0,
    ensures
        rows.filter(crate::db::query_pred(op)) == rows,
    decreases rows.len(),
{
    reveal_with_fuel(Seq::filter, 1);
    if rows.len() > 0 {
        law_and_empty_selects_all(rows.drop_last(), op);
        assert(rows.drop_last().push(rows.last()) =~= rows);
    } else {
        assert(rows.filter(crate::db::query_pred(op)) =~= rows);
    }
}

/// Selected rows keep the order of the database: by id.
pub proof fn law_selection_in_id_order(rows: Seq<Record>, p: spec_fn(Record) -> bool)
    requires
        ids_sorted(rows),
    ensures
        ids_sorted(rows.filter(p)),
    decreases rows.len(),
{
    reveal_with_fuel(Seq::filter, 1);
    if rows.len() > 0 {
        let init = rows.drop_last();
        law_selection_in_id_order(init, p);
        let f = init.filter(p);
        if p(rows.last()) {
            let g = f.push(rows.last());
            assert forall|i: int, j: int| 0 <= i < j < g.len() implies str_lt(g[i].id@, g[j].id@) by {
                if j == g.len() - 1 {
                    assert(f.contains(f[i]));
                    init.lemma_filter_contains_rev(p, f[i]);
                    assert(init.contains(f[i]));
                    let k = choose|k: int| 0 <= k < init.len() && init[k] == f[i];
                    assert(rows[k] == f[i]);
                }
            }
        }
    }
}

/// The first records up to some count and the records after them make up
/// all the records.
pub proof fn law_limit_then_skip(rows: Seq<Record>, m: int)
    requires
        0 <= m <= rows.len(),
    ensures
        rows.take(m) + rows.skip(m) == rows,
{
    assert(rows.take(m) + rows.skip(m) =~= rows);
}

/// After a slot is freed, the next allocation takes it if no slot before
/// it is free.
pub proof fn law_freed_slot_is_reused<T>(s: Seq<Option<T>>, k: int)
    requires
        0 <= k < s.len(),
        forall|j: int| 0 <= j < k ==> s[j] is Some,
    ensures
        first_free(s.update(k, None)) == k,
{
    let t = s.update(k, None);
    assert forall|j: int| 0 <= j <= k implies first_free_from(t, j) == k by {
        lemma_first_free_step(t, j, k);
    }
}

proof fn lemma_first_free_step<T>(t: Seq<Option<T>>, j: int, k: int)
    requires
        0 <= j <= k < t.len(),
        t[k] is None,
        forall|i: int| 0 <= i < k ==> t[i] is Some,
    ensures
        first_free_from(t, j) == k,
    decreases k - j,
{
    if j < k {
        lemma_first_free_step(t, j + 1, k);
    }
}

/// The pattern `%` matches every value.
pub proof fn law_percent_matches_all(v: Seq<u8>)
    ensures
        like_match(v, seq![37u8]),
    decreases v.len(),
{
    let p = seq![37u8];
    assert(p.drop_first() =~= Seq::<u8>::empty());
    assert(p[0] == 37u8);
    if v.len() > 0 {
        law_percent_matches_all(v.drop_first());
        assert(like_match(v.drop_first(), p));
    } else {
        assert(like_match(v, Seq::<u8>::empty()));
    }
}

/// A pattern without `%` and `_` matches exactly the values of its length
/// that equal it without regard to ASCII case.
pub proof fn law_literal_pattern(v: Seq<u8>, p: Seq<u8>)
    requires
        forall|i: int| 0 <= i < p.len() ==> p[i] != 37u8 && p[i] != 95u8,
    ensures
        like_match(v, p) == (v.len() == p.len() && forall|i: int|
            0 <= i < v.len() ==> ascii_lower_byte(#[trigger] v[i]) == ascii_lower_byte(p[i])),
    decreases p.len(),
{
    if p.len() > 0 && v.len() > 0 {
        law_literal_pattern(v.drop_first(), p.drop_first());
        if like_match(v, p) {
            assert forall|i: int| 0 <= i < v.len() implies ascii_lower_byte(#[trigger] v[i])
                == ascii_lower_byte(p[i]) by {
                if i > 0 {
                    assert(v.drop_first()[i - 1] == v[i]);
                    assert(p.drop_first()[i - 1] == p[i]);
                }
            }
        }
        if v.len() == p.len() && forall|i: int|
            0 <= i < v.len() ==> ascii_lower_byte(#[trigger] v[i]) == ascii_lower_byte(p[i]) {
            assert(ascii_lower_byte(v[0]) == ascii_lower_byte(p[0]));
            assert forall|i: int| 0 <= i < v.len() - 1 implies ascii_lower_byte(
                #[trigger] v.drop_first()[i],
            ) == ascii_lower_byte(p.drop_first()[i]) by {
                assert(v.drop_first()[i] == v[i + 1]);
            }
        }
    }
}

/// Text without `%` and `+` decodes to itself.
pub proof fn law_plain_text_decodes_to_itself(b: Seq<u8>, i: int)
    requires
        0 <= i <= b.len(),
        forall|j: int| 0 <= j < b.len() ==> b[j] != 37u8 && b[j] != 43u8,
    ensures
        url_bytes(b, i) == Ok::<Seq<u8>, crate::cli::UrlDecodeError>(b.subrange(i, b.len() as int)),
    decreases b.len() - i,
{
    if i < b.len() {
        law_plain_text_decodes_to_itself(b, i + 1);
        assert(seq![b[i]] + b.subrange(i + 1, b.len() as int) =~= b.subrange(i, b.len() as int));
    } else {
        assert(b.subrange(i, b.len() as int) =~= Seq::<u8>::empty());
    }
}

/// `a` comes no later than `b` in the order of lower-case forms.
pub open spec fn lower_le(a: Seq<char>, b: Seq<char>) -> bool {
    !str_lt(lowercase(b), lowercase(a))
}

/// Names sorted by lower-case form: each no later than the ones after it.
pub open spec fn sorted_by_lower(s: Seq<Seq<char>>) -> bool {
    forall|i: int, j: int| 0 <= i < j < s.len() ==> lower_le(s[i], s[j])
}

proof fn lemma_insert_pos_bounds(keys: Seq<Seq<char>>, k: Seq<char>, j: int)
    requires
        0 <= j <= keys.len(),
    ensures
        j <= insert_pos(keys, k, j) <= keys.len(),
        forall|i: int| j <= i < insert_pos(keys, k, j) ==> !str_lt(k, #[trigger] keys[i]),
        insert_pos(keys, k, j) < keys.len() ==> str_lt(k, keys[insert_pos(keys, k, j)]),
    decreases keys.len() - j,
{
    if j < keys.len() && !str_lt(k, keys[j]) {
        lemma_insert_pos_bounds(keys, k, j + 1);
    }
}

/// Sorting table names orders them by their lower-case forms and keeps
/// every name.
pub proof fn law_tables_sorted(s: Seq<Seq<char>>)
    ensures
        sorted_by_lower(sort_by_lower(s)),
        sort_by_lower(s).to_multiset() == s.to_multiset(),
    decreases s.len(),
{
    if s.len() == 0 {
    } else {
        let init = s.drop_last();
        let x = s.last();
        law_tables_sorted(init);
        let t = sort_by_lower(init);
        crate::catalog::lemma_sort_by_lower_len(init);
        let keys = lower_keys(t);
        let k = lowercase(x);
        lemma_insert_pos_bounds(keys, k, 0);
        let p = insert_pos(keys, k, 0);
        let r = t.insert(p, x);
        assert(r == sort_by_lower(s));
        assert forall|i: int, j: int| 0 <= i < j < r.len() implies lower_le(r[i], r[j]) by {
            let ki = lowercase(r[i]);
            let kj = lowercase(r[j]);
            if i < p && j < p {
                assert(r[i] == t[i] && r[j] == t[j]);
            } else if i < p && j == p {
                assert(r[i] == t[i]);
                assert(keys[i] == lowercase(t[i]));
                assert(!str_lt(k, keys[i]));
            } else if i < p && j > p {
                assert(r[i] == t[i] && r[j] == t[j - 1]);
            } else if i == p {
                assert(r[j] == t[j - 1]);
                assert(keys[p] == lowercase(t[p]));
                assert(str_lt(k, keys[p]));
                if j - 1 > p {
                    assert(lower_le(t[p], t[j - 1]));
                    lemma_str_lt_total(lowercase(t[p]), lowercase(t[j - 1]));
                    if str_lt(lowercase(t[p]), lowercase(t[j - 1])) {
                        lemma_str_lt_transitive(k, lowercase(t[p]), lowercase(t[j - 1]));
                    }
                }
                lemma_str_lt_total(k, lowercase(t[j - 1]));
            } else {
                assert(r[i] == t[i - 1] && r[j] == t[j - 1]);
            }
        }
        vstd::seq_lib::to_multiset_insert(t, p, x);
        vstd::seq_lib::to_multiset_build(init, x);
        assert(init.push(x) =~= s);
    }
}

/// The order of rows by a field is a total preorder on every row of `s`,
/// stated over the rows themselves rather than their places.
#[verifier::opaque]
pub open spec fn preorder_on(s: Seq<Record>, key: Seq<char>, ascending: bool) -> bool {
    &&& forall|a: Record, b: Record|
        s.contains(a) && s.contains(b) ==> #[trigger] row_order(a, b, key, ascending) == row_order(
            b,
            a,
            key,
            ascending,
        ).spec_reverse()
    &&& forall|a: Record, b: Record, c: Record|
        s.contains(a) && s.contains(b) && s.contains(c) && #[trigger] row_order(a, b, key, ascending)
            != Order::Greater && #[trigger] row_order(b, c, key, ascending) != Order::Greater
            ==> row_order(a, c, key, ascending) != Order::Greater
}

proof fn lemma_preorder_on(s: Seq<Record>, key: Seq<char>, ascending: bool)
    requires
        orders_totally(s, key, ascending),
    ensures
        preorder_on(s, key, ascending),
{
    reveal(preorder_on);
    assert forall|a: Record, b: Record| s.contains(a) && s.contains(b) implies #[trigger] row_order(
        a,
        b,
        key,
        ascending,
    ) == row_order(b, a, key, ascending).spec_reverse() by {
        let i = choose|i: int| 0 <= i < s.len() && s[i] == a;
        let j = choose|j: int| 0 <= j < s.len() && s[j] == b;
        assert(row_order(s[i], s[j], key, ascending) == row_order(s[j], s[i], key, ascending).spec_reverse());
    }
    assert forall|a: Record, b: Record, c: Record|
        s.contains(a) && s.contains(b) && s.contains(c) && #[trigger] row_order(a, b, key, ascending)
            != Order::Greater && #[trigger] row_order(b, c, key, ascending)
            != Order::Greater implies row_order(a, c, key, ascending) != Order::Greater by {
        let i = choose|i: int| 0 <= i < s.len() && s[i] == a;
        let j = choose|j: int| 0 <= j < s.len() && s[j] == b;
        let k = choose|k: int| 0 <= k < s.len() && s[k] == c;
        assert(row_order(s[i], s[j], key, ascending) != Order::Greater);
        assert(row_order(s[j], s[k], key, ascending) != Order::Greater);
    }
}

proof fn lemma_preorder_sub(s: Seq<Record>, u: Seq<Record>, key: Seq<char>, ascending: bool)
    requires
        preorder_on(s, key, ascending),
        forall|a: Record| u.contains(a) ==> s.contains(a),
    ensures
        preorder_on(u, key, ascending),
{
    reveal(preorder_on);
}

proof fn lemma_preorder_step(s: Seq<Record>, x: Record, a: Record, b: Record, key: Seq<char>, ascending: bool)
    requires
        preorder_on(s, key, ascending),
        s.contains(x),
        s.contains(a),
        s.contains(b),
        row_order(a, x, key, ascending) == Order::Greater,
        a == b || row_order(a, b, key, ascending) != Order::Greater,
    ensures
        row_order(x, b, key, ascending) != Order::Greater,
{
    reveal(preorder_on);
    assert(row_order(x, a, key, ascending) == row_order(a, x, key, ascending).spec_reverse());
}

proof fn lemma_row_insert_pos_facts(t: Seq<Record>, x: Record, key: Seq<char>, ascending: bool, j: int)
    requires
        0 <= j <= t.len(),
    ensures
        j <= row_insert_pos(t, x, key, ascending, j) <= t.len(),
        forall|k: int|
            j <= k < row_insert_pos(t, x, key, ascending, j) ==> #[trigger] row_order(
                t[k],
                x,
                key,
                ascending,
            ) != Order::Greater,
        row_insert_pos(t, x, key, ascending, j) < t.len() ==> row_order(
            t[row_insert_pos(t, x, key, ascending, j)],
            x,
            key,
            ascending,
        ) == Order::Greater,
    decreases t.len() - j,
{
    if j < t.len() && row_order(t[j], x, key, ascending) != Order::Greater {
        lemma_row_insert_pos_facts(t, x, key, ascending, j + 1);
    }
}

/// Rows in order by a field: no row comes after a later one.
pub open spec fn rows_in_order(r: Seq<Record>, key: Seq<char>, ascending: bool) -> bool {
    forall|i: int, j: int|
        0 <= i < j < r.len() ==> row_order(#[trigger] r[i], #[trigger] r[j], key, ascending)
            != Order::Greater
}

proof fn lemma_insert_in_order(
    s: Seq<Record>,
    t: Seq<Record>,
    x: Record,
    p: int,
    key: Seq<char>,
    ascending: bool,
)
    requires
        preorder_on(s, key, ascending),
        rows_in_order(t, key, ascending),
        forall|k: int| 0 <= k < t.len() ==> s.contains(#[trigger] t[k]),
        s.contains(x),
        0 <= p <= t.len(),
        forall|k: int| 0 <= k < p ==> #[trigger] row_order(t[k], x, key, ascending) != Order::Greater,
        p < t.len() ==> row_order(t[p], x, key, ascending) == Order::Greater,
    ensures
        rows_in_order(t.insert(p, x), key, ascending),
{
    let r = t.insert(p, x);
    assert forall|i: int, j: int| 0 <= i < j < r.len() implies row_order(
        #[trigger] r[i],
        #[trigger] r[j],
        key,
        ascending,
    ) != Order::Greater by {
        if i < p && j < p {
            assert(r[i] == t[i] && r[j] == t[j]);
        } else if i < p && j == p {
            assert(r[i] == t[i]);
            assert(row_order(t[i], x, key, ascending) != Order::Greater);
        } else if i < p && j > p {
            assert(r[i] == t[i] && r[j] == t[j - 1]);
        } else if i == p {
            assert(r[j] == t[j - 1]);
            if j - 1 > p {
                assert(row_order(t[p], t[j - 1], key, ascending) != Order::Greater);
            }
            lemma_preorder_step(s, x, t[p], t[j - 1], key, ascending);
        } else {
            assert(r[i] == t[i - 1] && r[j] == t[j - 1]);
        }
    }
}

proof fn lemma_rows_sorted(s: Seq<Record>, key: Seq<char>, ascending: bool)
    requires
        preorder_on(s, key, ascending),
    ensures
        rows_sorted_by(s, key, ascending).to_multiset() == s.to_multiset(),
        rows_in_order(rows_sorted_by(s, key, ascending), key, ascending),
    decreases s.len(),
{
    if s.len() > 0 {
        let init = s.drop_last();
        let x = s.last();
        assert forall|a: Record| init.contains(a) implies s.contains(a) by {
            let i = choose|i: int| 0 <= i < init.len() && init[i] == a;
            assert(s[i] == a);
        }
        assert(s.contains(x)) by {
            assert(s[s.len() - 1] == x);
        }
        lemma_preorder_sub(s, init, key, ascending);
        lemma_rows_sorted(init, key, ascending);
        let t = rows_sorted_by(init, key, ascending);
        lemma_row_insert_pos_facts(t, x, key, ascending, 0);
        let p = row_insert_pos(t, x, key, ascending, 0);
        assert(t.insert(p, x) == rows_sorted_by(s, key, ascending));
        vstd::seq_lib::to_multiset_insert(t, p, x);
        vstd::seq_lib::to_multiset_build(init, x);
        assert(init.push(x) =~= s);
        assert forall|k: int| 0 <= k < t.len() implies s.contains(#[trigger] t[k]) by {
            vstd::seq_lib::to_multiset_contains(t, t[k]);
            vstd::seq_lib::to_multiset_contains(init, t[k]);
        }
        lemma_insert_in_order(s, t, x, p, key, ascending);
    }
}

/// Sorting the rows of a result by a field keeps every row and puts them
/// in order, where the field's order is a total preorder on the rows.
pub proof fn law_rows_sorted(s: Seq<Record>, key: Seq<char>, ascending: bool)
    requires
        orders_totally(s, key, ascending),
    ensures
        rows_sorted_by(s, key, ascending).to_multiset() == s.to_multiset(),
        rows_in_order(rows_sorted_by(s, key, ascending), key, ascending),
{
    lemma_preorder_on(s, key, ascending);
    lemma_rows_sorted(s, key, ascending);
}

/// A table file named after the table in a directory source is
/// `table.yaml` or `table.yml` for a name that stays inside the directory:
/// not blank, without a path separator, not `.` or `..`. This holds of the
/// driver, of the web UI's reads and of its writes.
pub proof fn law_joined_tables_stay_inside(f: SourceFacts, table: Seq<char>, n: Seq<char>)
    requires
        odbc_location(f, table) == Some(Loc::Joined(n)) || webui_location(f, table) == Ok::<
            Loc,
            ResolveError,
        >(Loc::Joined(n)) || webui_write_location(f, table) == Ok::<Loc, ResolveError>(
            Loc::Joined(n),
        ),
    ensures
        !invalid_table_name(table),
        n == file_name_of(table, seq!['y', 'a', 'm', 'l']) || n == file_name_of(
            table,
            seq!['y', 'm', 'l'],
        ),
{
}

/// `and` binds tighter than `or`: a condition with an `or` in it is an
/// `Or` at the top, and only a condition without one splits at `and`.
pub proof fn law_and_binds_tighter(s: Seq<char>)
    ensures
        lower_find(trim(s), or_kw()) is Some ==> (cond_tree(s) is Parsed ==> cond_tree(s)->Parsed_0 is Or),
        lower_find(trim(s), or_kw()) is None && lower_find(trim(s), and_kw()) is Some ==> (cond_tree(
            s,
        ) is Parsed ==> cond_tree(s)->Parsed_0 is And),
{
}

/// `lte` is "less than or equal": it holds exactly where `lt` or `eq`
/// holds, and `gte` exactly where `gt` or `eq` holds.
pub proof fn law_lte_is_lt_or_eq(k: String, v: Value, d: FieldsView)
    ensures
        op_matches(QueryOp::Lte(k, v), d) == (op_matches(QueryOp::Lt(k, v), d) || op_matches(
            QueryOp::Eq(k, v),
            d,
        )),
        op_matches(QueryOp::Gte(k, v), d) == (op_matches(QueryOp::Gt(k, v), d) || op_matches(
            QueryOp::Eq(k, v),
            d,
        )),
{
}

/// A field that holds exactly the query value, a string or an integer,
/// meets `lte`, `gte` and `eq`, and neither `lt` nor `gt`.
pub proof fn law_equal_field_meets_lte_and_gte(k: String, v: Value, d: FieldsView)
    requires
        lookup(d, k@) == Some(v@),
        v@ is String || v@ matches ValueView::Number(Number::PosInt(_)) || v@ matches ValueView::Number(
            Number::NegInt(_),
        ),
    ensures
        op_matches(QueryOp::Lte(k, v), d),
        op_matches(QueryOp::Gte(k, v), d),
        op_matches(QueryOp::Eq(k, v), d),
        !op_matches(QueryOp::Lt(k, v), d),
        !op_matches(QueryOp::Gt(k, v), d),
{
    lemma_str_order_equal(v@->String_0, v@->String_0);
}

/// A string sorts before every longer string that it starts: the empty
/// string is the least, and a proper prefix comes first.
pub proof fn law_prefix_sorts_first(s: Seq<char>, t: Seq<char>)
    requires
        t.len() > 0,
    ensures
        str_lt(s, s + t),
        str_order(s + t, s) == Order::Greater,
    decreases s.len(),
{
    if s.len() > 0 {
        assert((s + t).subrange(1, (s + t).len() as int) =~= s.subrange(1, s.len() as int) + t);
        law_prefix_sorts_first(s.subrange(1, s.len() as int), t);
    }
}

/// Strings that agree up to a position are ordered by their characters
/// there, whatever follows.
pub proof fn law_first_difference_decides(a: Seq<char>, c: char, x: Seq<char>, d: char, y: Seq<char>)
    requires
        c < d,
    ensures
        str_lt(a + seq![c] + x, a + seq![d] + y),
    decreases a.len(),
{
    let l = a + seq![c] + x;
    let r = a + seq![d] + y;
    if a.len() == 0 {
        assert(l[0] == c && r[0] == d);
    } else {
        let a1 = a.subrange(1, a.len() as int);
        assert(l.subrange(1, l.len() as int) =~= a1 + seq![c] + x);
        assert(r.subrange(1, r.len() as int) =~= a1 + seq![d] + y);
        assert(l[0] == a[0] && r[0] == a[0]);
        law_first_difference_decides(a1, c, x, d, y);
    }
}

/// A search over every record finds each record whose lower-case id
/// contains the lower-case keyword, whatever its fields hold.
pub proof fn law_search_all_finds_ids(rows: Seq<Record>, keyword: Seq<char>, i: int)
    requires
        0 <= i < rows.len(),
        seq_contains(lowercase(rows[i].id@), lowercase(keyword)),
    ensures
        rows.filter(search_all_pred(lowercase(keyword))).contains(rows[i]),
{
    rows.lemma_filter_contains(search_all_pred(lowercase(keyword)), i);
}

/// A search over every record finds each record with a string field whose
/// lower-case form contains the lower-case keyword.
pub proof fn law_search_all_finds_fields(rows: Seq<Record>, keyword: Seq<char>, i: int, j: int, s: Seq<char>)
    requires
        0 <= i < rows.len(),
        0 <= j < rows[i].fields().len(),
        rows[i].fields()[j].1 == ValueView::String(s),
        seq_contains(lowercase(s), lowercase(keyword)),
    ensures
        rows.filter(search_all_pred(lowercase(keyword))).contains(rows[i]),
{
    assert(crate::value::view_as_str(rows[i].fields()[j].1) == Some(s));
    rows.lemma_filter_contains(search_all_pred(lowercase(keyword)), i);
}

/// A search on one field finds each record whose field there is a string
/// whose lower-case form contains the lower-case keyword.
pub proof fn law_search_finds_field(rows: Seq<Record>, key: Seq<char>, keyword: Seq<char>, i: int, s: Seq<char>)
    requires
        0 <= i < rows.len(),
        lookup(rows[i].fields(), key) == Some(ValueView::String(s)),
        seq_contains(lowercase(s), lowercase(keyword)),
    ensures
        rows.filter(search_pred(key, lowercase(keyword))).contains(rows[i]),
{
    assert(crate::value::view_as_str(ValueView::String(s)) == Some(s));
    rows.lemma_filter_contains(search_pred(key, lowercase(keyword)), i);
}

/// The characters that make up SQL comparison symbols.
pub open spec fn symbol_char(c: char) -> bool {
    c == '<' || c == '>' || c == '=' || c == '!'
}

/// Text without comparison-symbol characters.
pub open spec fn symbol_free(s: Seq<char>) -> bool {
    forall|i: int| 0 <= i < s.len() ==> !symbol_char(#[trigger] s[i])
}

/// The SQL comparison symbols, written out: `>=`, `<=`, `!=`, `=`, `>`, `<`.
pub open spec fn sql_symbol(m: int) -> Seq<char> {
    if m == 0 {
        seq!['>', '=']
    } else if m == 1 {
        seq!['<', '=']
    } else if m == 2 {
        seq!['!', '=']
    } else if m == 3 {
        seq!['=']
    } else if m == 4 {
        seq!['>']
    } else {
        seq!['<']
    }
}

/// The condition a SQL comparison symbol names, on key `k`.
pub open spec fn names_comparison(m: int, op: QueryOp, k: Seq<char>) -> bool {
    if m == 0 {
        op matches QueryOp::Gte(key, _) && key@ == k
    } else if m == 1 {
        op matches QueryOp::Lte(key, _) && key@ == k
    } else if m == 2 {
        op matches QueryOp::Ne(key, _) && key@ == k
    } else if m == 3 {
        op matches QueryOp::Eq(key, _) && key@ == k
    } else if m == 4 {
        op matches QueryOp::Gt(key, _) && key@ == k
    } else {
        op matches QueryOp::Lt(key, _) && key@ == k
    }
}

/// Where a text made of symbol-free parts around a symbol has an
/// occurrence of a pattern of symbol characters, that pattern lies within
/// the symbol.
proof fn lemma_symbol_occurrence(k: Seq<char>, sym: Seq<char>, v: Seq<char>, c: Seq<char>, i: int)
    requires
        symbol_free(k),
        symbol_free(v),
        c.len() > 0,
        forall|j: int| 0 <= j < c.len() ==> symbol_char(#[trigger] c[j]),
        found_at(k + sym + v, c, i),
    ensures
        k.len() <= i,
        i + c.len() <= k.len() + sym.len(),
        c == sym.subrange(i - k.len(), i - k.len() + c.len()),
{
    let t = k + sym + v;
    assert forall|j: int| 0 <= j < c.len() implies k.len() <= i + j < k.len() + sym.len() && #[trigger] c[j]
        == c[j] by {
        assert(t.subrange(i, i + c.len())[j] == c[j]);
        assert(t[i + j] == c[j]);
        if i + j < k.len() {
            assert(t[i + j] == k[i + j]);
        } else if i + j >= k.len() + sym.len() {
            assert(t[i + j] == v[i + j - k.len() - sym.len()]);
        }
    }
    let first = c[0];
    let last = c[c.len() - 1];
    assert(k.len() <= i + 0 && first == c[0]);
    assert(i + (c.len() - 1) < k.len() + sym.len() && last == c[c.len() - 1]);
    assert forall|j: int| 0 <= j < c.len() implies c[j] == sym.subrange(i - k.len(), i - k.len() + c.len())[j] by {
        assert(t.subrange(i, i + c.len())[j] == c[j]);
        assert(t[i + j] == sym[i + j - k.len()]);
    }
    assert(c =~= sym.subrange(i - k.len(), i - k.len() + c.len()));
}

/// A pattern of symbol characters that does not occur within the symbol
/// does not occur in the text.
proof fn lemma_symbol_absent(k: Seq<char>, sym: Seq<char>, v: Seq<char>, c: Seq<char>)
    requires
        symbol_free(k),
        symbol_free(v),
        c.len() > 0,
        forall|j: int| 0 <= j < c.len() ==> symbol_char(#[trigger] c[j]),
        forall|o: int| 0 <= o && o + c.len() <= sym.len() ==> #[trigger] sym.subrange(o, o + c.len()) != c,
    ensures
        find_first(k + sym + v, c) is None,
{
    lemma_find_from(k + sym + v, c, 0);
    if find_first(k + sym + v, c) is Some {
        let i = find_first(k + sym + v, c)->Some_0;
        lemma_symbol_occurrence(k, sym, v, c, i);
    }
}

/// The symbol is found right after the symbol-free key.
proof fn lemma_symbol_found(k: Seq<char>, sym: Seq<char>, v: Seq<char>)
    requires
        symbol_free(k),
        sym.len() > 0,
        forall|j: int| 0 <= j < sym.len() ==> symbol_char(#[trigger] sym[j]),
    ensures
        find_first(k + sym + v, sym) == Some(k.len() as int),
{
    let t = k + sym + v;
    assert(t.subrange(k.len() as int, (k.len() + sym.len()) as int) =~= sym);
    assert(found_at(t, sym, k.len() as int));
    lemma_find_from(t, sym, 0);
    let r = find_first(t, sym);
    if r is None {
    } else {
        let i = r->Some_0;
        if i < k.len() {
            assert(t.subrange(i, i + sym.len())[0] == sym[0]);
            assert(t[i] == k[i]);
        }
    }
}

/// A comparison `key SYMBOL literal`, with key and literal free of symbol
/// characters, parses to the condition the symbol names, on the trimmed
/// and lower-cased key, with the trimmed literal: `>=`, `<=`, `!=`, `=`,
/// `>` and `<` each give their own operator.
pub proof fn law_comparison_symbols<F: Fn(&str) -> Option<u64>>(
    k: Seq<char>,
    m: int,
    v: Seq<char>,
    read_float: F,
)
    requires
        0 <= m < 6,
        symbol_free(k),
        symbol_free(v),
        trim(k + sql_symbol(m) + v) == k + sql_symbol(m) + v,
        !lone_tick(trim(v)),
    ensures
        comparison_tree(k + sql_symbol(m) + v) == Parse::Parsed(
            CondView::Compare(m, lowercase(trim(k)), trim(v)),
        ),
        forall|op: QueryOp|
            op_of_tree(op, CondView::Compare(m, lowercase(trim(k)), trim(v)), read_float)
                ==> names_comparison(m, op, lowercase(trim(k))),
{
    let sym = sql_symbol(m);
    let t = k + sym + v;
    assert(comparison_symbols()[0] =~= sql_symbol(0));
    assert(comparison_symbols()[1] =~= sql_symbol(1));
    assert(comparison_symbols()[2] =~= sql_symbol(2));
    assert(comparison_symbols()[3] =~= sql_symbol(3));
    assert(comparison_symbols()[4] =~= sql_symbol(4));
    assert(comparison_symbols()[5] =~= sql_symbol(5));
    assert forall|n: int, j: int| 0 <= n < 6 && 0 <= j < sql_symbol(n).len() implies symbol_char(
        #[trigger] sql_symbol(n)[j],
    ) by {}
    assert forall|n: int| 0 <= n < m implies #[trigger] find_first(t, sql_symbol(n)) is None by {
        let c = sql_symbol(n);
        assert forall|o: int| 0 <= o && o + c.len() <= sym.len() implies #[trigger] sym.subrange(o, o + c.len()) != c by {
            if sym.subrange(o, o + c.len()) == c {
                assert(sym.subrange(o, o + c.len())[0] == c[0]);
                if c.len() == 2 {
                    assert(sym.subrange(o, o + c.len())[1] == c[1]);
                }
            }
        }
        lemma_symbol_absent(k, sym, v, c);
    }
    lemma_symbol_found(k, sym, v);
    assert(symbol_split_from(t, m) == Some((m, k.len() as int)));
    if m >= 1 {
        assert(symbol_split_from(t, m - 1) == Some((m, k.len() as int)));
    }
    if m >= 2 {
        assert(symbol_split_from(t, m - 2) == Some((m, k.len() as int)));
    }
    if m >= 3 {
        assert(symbol_split_from(t, m - 3) == Some((m, k.len() as int)));
    }
    if m >= 4 {
        assert(symbol_split_from(t, m - 4) == Some((m, k.len() as int)));
    }
    if m >= 5 {
        assert(symbol_split_from(t, m - 5) == Some((m, k.len() as int)));
    }
    assert(symbol_split_from(t, 0) == Some((m, k.len() as int)));
    assert(t.subrange(0, k.len() as int) =~= k);
    assert(t.subrange((k.len() + sym.len()) as int, t.len() as int) =~= v);
}

/// The YAML value of an `i64`.
pub open spec fn int_value(n: i64) -> ValueView {
    if n < 0 {
        ValueView::Number(Number::NegInt(n))
    } else {
        ValueView::Number(Number::PosInt(n as u64))
    }
}

/// An integer field below the query value meets `lt` and `lte` and not
/// `gt`, `gte` or `eq`; one above it meets `gt` and `gte` and not `lt`,
/// `lte` or `eq`.
pub proof fn law_integer_fields_compare(k: String, v: Value, d: FieldsView, a: i64, b: i64)
    requires
        lookup(d, k@) == Some(int_value(a)),
        v@ == int_value(b),
    ensures
        a < b ==> op_matches(QueryOp::Lt(k, v), d) && op_matches(QueryOp::Lte(k, v), d)
            && !op_matches(QueryOp::Gt(k, v), d) && !op_matches(QueryOp::Gte(k, v), d)
            && !op_matches(QueryOp::Eq(k, v), d) && op_matches(QueryOp::Ne(k, v), d),
        a > b ==> op_matches(QueryOp::Gt(k, v), d) && op_matches(QueryOp::Gte(k, v), d)
            && !op_matches(QueryOp::Lt(k, v), d) && !op_matches(QueryOp::Lte(k, v), d)
            && !op_matches(QueryOp::Eq(k, v), d) && op_matches(QueryOp::Ne(k, v), d),
        a == b ==> op_matches(QueryOp::Eq(k, v), d) && !op_matches(QueryOp::Ne(k, v), d),
{
}

/// A string field that sorts before the query string meets `lt` and not
/// `gt`; one that sorts after it meets `gt` and not `lt`.
pub proof fn law_string_fields_compare(k: String, v: Value, d: FieldsView, a: Seq<char>, b: Seq<char>)
    requires
        lookup(d, k@) == Some(ValueView::String(a)),
        v@ == ValueView::String(b),
    ensures
        str_lt(a, b) ==> op_matches(QueryOp::Lt(k, v), d) && op_matches(QueryOp::Lte(k, v), d)
            && !op_matches(QueryOp::Gt(k, v), d) && !op_matches(QueryOp::Eq(k, v), d),
        str_lt(b, a) ==> op_matches(QueryOp::Gt(k, v), d) && op_matches(QueryOp::Gte(k, v), d)
            && !op_matches(QueryOp::Lt(k, v), d) && !op_matches(QueryOp::Eq(k, v), d),
{
    crate::text::lemma_str_order_reverse(a, b);
    lemma_str_order_equal(a, b);
}

/// `ne` holds of a record that has the field exactly where `eq` does not,
/// and of every record without the field.
pub proof fn law_ne_negates_eq(k: String, v: Value, d: FieldsView)
    ensures
        lookup(d, k@) is Some ==> op_matches(QueryOp::Ne(k, v), d) == !op_matches(QueryOp::Eq(k, v), d),
        lookup(d, k@) is None ==> op_matches(QueryOp::Ne(k, v), d) && !op_matches(QueryOp::Eq(k, v), d),
{
}

/// `contains`, `starts_with` and `ends_with` hold of a string field
/// exactly when the text occurs in it, at its start, or at its end.
pub proof fn law_text_conditions(k: String, p: String, d: FieldsView, a: Seq<char>)
    requires
        lookup(d, k@) == Some(ValueView::String(a)),
    ensures
        op_matches(QueryOp::Contains(k, p), d) == (exists|i: int|
            0 <= i && i + p@.len() <= a.len() && #[trigger] a.subrange(i, i + p@.len()) == p@),
        op_matches(QueryOp::StartsWith(k, p), d) == (p@.len() <= a.len() && a.subrange(0, p@.len() as int) == p@),
        op_matches(QueryOp::EndsWith(k, p), d) == (p@.len() <= a.len() && a.subrange(
            a.len() - p@.len(),
            a.len() as int,
        ) == p@),
{
    assert(crate::value::view_as_str(ValueView::String(a)) == Some(a));
    if seq_contains(a, p@) {
        let i = choose|i: int| crate::text::occurs_at(a, p@, i);
        assert(a.subrange(i, i + p@.len()) == p@);
    }
    if exists|i: int| 0 <= i && i + p@.len() <= a.len() && #[trigger] a.subrange(i, i + p@.len()) == p@ {
        let i = choose|i: int| 0 <= i && i + p@.len() <= a.len() && #[trigger] a.subrange(i, i + p@.len()) == p@;
        assert(crate::text::occurs_at(a, p@, i));
    }
}

} // verus!
