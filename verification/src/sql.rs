use crate::number::{canonical_nan, float_is_nan, Number};
use crate::numtext::{parse_i64, parse_i64_spec};
use crate::query::QueryOp;
use crate::text::{
    chars_eq_ignore_ascii_case, chars_of, eq_ignore_ascii_case, find_bytes, find_chars, find_first,
    found_at, lemma_find_from, lowercase, split_words, str_eq, str_views, string_from_range,
    to_lowercase, to_uppercase, trim, trim_str, uppercase, words,
};
use crate::value::{Value, ValueView};
use vstd::prelude::*;

verus! {

/// ASCII upper-case letters map to lower case, other bytes stay.
pub open spec fn ascii_lower_byte(b: u8) -> u8 {
    if 65 <= b && b <= 90 {
        (b + 32) as u8
    } else {
        b
    }
}

/// SQL `LIKE` matching on bytes: `%` matches any run, `_` any one byte,
/// every other byte itself without regard to ASCII case.
pub open spec fn like_match(v: Seq<u8>, p: Seq<u8>) -> bool
    decreases p.len(), v.len(),
{
    if p.len() == 0 {
        v.len() == 0
    } else if p[0] == 37u8 {
        like_match(v, p.drop_first()) || (v.len() > 0 && like_match(v.drop_first(), p))
    } else if p[0] == 95u8 {
        v.len() > 0 && like_match(v.drop_first(), p.drop_first())
    } else {
        v.len() > 0 && ascii_lower_byte(v[0]) == ascii_lower_byte(p[0]) && like_match(
            v.drop_first(),
            p.drop_first(),
        )
    }
}

fn ascii_lower_byte_exec(b: u8) -> (r: u8)
    ensures
        r == ascii_lower_byte(b),
{
    if 65 <= b && b <= 90 {
        b + 32
    } else {
        b
    }
}

fn like_from(v: &[u8], i: usize, p: &[u8], j: usize) -> (r: bool)
    requires
        i <= v.len(),
        j <= p.len(),
    ensures
        r == like_match(
            v@.subrange(i as int, v.len() as int),
            p@.subrange(j as int, p.len() as int),
        ),
    decreases p.len() - j, v.len() - i,
{
    let ghost vs = v@.subrange(i as int, v.len() as int);
    let ghost ps = p@.subrange(j as int, p.len() as int);
    if j == p.len() {
        return i == v.len();
    }
    proof {
        assert(ps.drop_first() =~= p@.subrange(j + 1, p.len() as int));
        if i < v.len() {
            assert(vs.drop_first() =~= v@.subrange(i + 1, v.len() as int));
        }
    }
    let c = p[j];
    if c == 37u8 {
        like_from(v, i, p, j + 1) || (i < v.len() && like_from(v, i + 1, p, j))
    } else if c == 95u8 {
        i < v.len() && like_from(v, i + 1, p, j + 1)
    } else {
        i < v.len() && ascii_lower_byte_exec(v[i]) == ascii_lower_byte_exec(c) && like_from(
            v,
            i + 1,
            p,
            j + 1,
        )
    }
}

/// Whether `value` matches the SQL `LIKE` pattern `pattern`, byte by byte.
pub fn pattern_match(value: &[u8], pattern: &[u8]) -> (r: bool)
    ensures
        r == like_match(value@, pattern@),
{
    assert(value@.subrange(0, value.len() as int) =~= value@);
    assert(pattern@.subrange(0, pattern.len() as int) =~= pattern@);
    like_from(value, 0, pattern, 0)
}

/// A catalog pattern admits a name: a missing, empty or `%` pattern admits
/// every name, any other is matched as `LIKE` on the UTF-8 bytes.
pub open spec fn pattern_admits(value: Seq<char>, pattern: Option<Seq<char>>) -> bool {
    match pattern {
        None => true,
        Some(p) => p.len() == 0 || p == seq!['%'] || like_match(
            vstd::utf8::encode_utf8(value),
            vstd::utf8::encode_utf8(p),
        ),
    }
}

/// The view of an optional string.
pub open spec fn opt_str_view(o: Option<&str>) -> Option<Seq<char>> {
    match o {
        Some(p) => Some(p@),
        None => None,
    }
}

/// Whether a catalog name matches the pattern given to a catalog call.
pub fn matches_pattern(value: &str, pattern: Option<&str>) -> (r: bool)
    ensures
        r == pattern_admits(value@, opt_str_view(pattern)),
{
    match pattern {
        None => true,
        Some(p) => {
            proof {
                reveal_strlit("%");
                assert("%"@ =~= seq!['%']);
            }
            if p.is_empty() || str_eq(p, "%") {
                assert(p@.len() == 0 || p@ == seq!['%']);
                true
            } else {
                let r = pattern_match(value.as_bytes(), p.as_bytes());
                assert(r == like_match(
                    vstd::utf8::encode_utf8(value@),
                    vstd::utf8::encode_utf8(p@),
                ));
                r
            }
        },
    }
}

/// The first position of `c` in `v[from..to]` is `k - from`, or there is none
/// when `k == to`.
pub proof fn lemma_find_char(s: Seq<char>, c: char, k: int)
    requires
        0 <= k <= s.len(),
        forall|j: int| 0 <= j < k ==> s[j] != c,
        k < s.len() ==> s[k] == c,
    ensures
        find_first(s, seq![c]) == (if k < s.len() {
            Some(k)
        } else {
            None::<int>
        }),
{
    let pc = seq![c];
    lemma_find_from(s, pc, 0);
    assert forall|j: int| 0 <= j < s.len() implies #[trigger] found_at(s, pc, j) == (s[j] == c) by {
        if s[j] == c {
            assert(s.subrange(j, j + 1) =~= pc);
        } else {
            assert(s.subrange(j, j + 1)[0] != pc[0]);
        }
    }
    if k < s.len() {
        assert(found_at(s, pc, k));
    }
    match find_first(s, pc) {
        Some(m) => {
            assert(found_at(s, pc, m));
            if m < k {
                assert(s[m] != c);
            }
            if k < m {
                assert(!found_at(s, pc, k));
            }
        },
        None => {
            if k < s.len() {
                assert(!found_at(s, pc, k));
            }
        },
    }
}

/// The first index in `[from, to)` holding `c`, or `to`.
pub fn scan_char_pub(v: &Vec<char>, from: usize, to: usize, c: char) -> (k: usize)
    requires
        from <= to <= v.len(),
    ensures
        from <= k <= to,
        forall|j: int| from <= j < k ==> v@[j] != c,
        k < to ==> v@[k as int] == c,
        find_first(v@.subrange(from as int, to as int), seq![c]) == (if k < to {
            Some(k - from)
        } else {
            None::<int>
        }),
{
    scan_char(v, from, to, c)
}

/// The first index in `[from, to)` holding `c`, or `to`.
fn scan_char(v: &Vec<char>, from: usize, to: usize, c: char) -> (k: usize)
    requires
        from <= to <= v.len(),
    ensures
        from <= k <= to,
        forall|j: int| from <= j < k ==> v@[j] != c,
        k < to ==> v@[k as int] == c,
        find_first(v@.subrange(from as int, to as int), seq![c]) == (if k < to {
            Some(k - from)
        } else {
            None::<int>
        }),
{
    let mut k = from;
    while k < to && v[k] != c
        invariant
            from <= k <= to <= v.len(),
            forall|j: int| from <= j < k ==> v@[j] != c,
        decreases to - k,
    {
        k += 1;
    }
    proof {
        let s = v@.subrange(from as int, to as int);
        assert forall|j: int| 0 <= j < k - from implies s[j] != c by {
            assert(s[j] == v@[from + j]);
        }
        if k < to {
            assert(s[k - from] == v@[k as int]);
        }
        lemma_find_char(s, c, k - from);
    }
    k
}

pub open spec fn dbq_key() -> Seq<char> {
    seq!['D', 'B', 'Q']
}

pub open spec fn file_key() -> Seq<char> {
    seq!['F', 'I', 'L', 'E']
}

/// The path that one `key=value` part of a connection string names: the
/// trimmed value when the trimmed key, upper-cased, is `DBQ` or `FILE`.
pub open spec fn dsn_entry(part: Seq<char>) -> Option<Seq<char>> {
    match find_first(part, seq!['=']) {
        None => None,
        Some(i) => {
            let key = uppercase(trim(part.subrange(0, i)));
            if key == dbq_key() || key == file_key() {
                Some(trim(part.subrange(i + 1, part.len() as int)))
            } else {
                None
            }
        },
    }
}

/// The path of the first `;`-separated part of a connection string that
/// names one.
pub open spec fn dsn_path(s: Seq<char>) -> Option<Seq<char>>
    decreases s.len(),
{
    match find_first(s, seq![';']) {
        None => dsn_entry(s),
        Some(i) => {
            proof {
                lemma_find_from(s, seq![';'], 0);
            }
            match dsn_entry(s.subrange(0, i)) {
                Some(v) => Some(v),
                None => dsn_path(s.subrange(i + 1, s.len() as int)),
            }
        },
    }
}

fn dsn_entry_exec(v: &Vec<char>, from: usize, to: usize) -> (r: Option<String>)
    requires
        from <= to <= v.len(),
    ensures
        match r {
            Some(x) => dsn_entry(v@.subrange(from as int, to as int)) == Some(x@),
            None => dsn_entry(v@.subrange(from as int, to as int)) is None,
        },
{
    let ghost part = v@.subrange(from as int, to as int);
    let e = scan_char(v, from, to, '=');
    if e == to {
        return None;
    }
    let key_text = string_from_range(v.as_slice(), from, e);
    let key = to_uppercase(trim_str(key_text.as_str()).as_str());
    assert(key_text@ =~= part.subrange(0, e - from));
    proof {
        reveal_strlit("DBQ");
        reveal_strlit("FILE");
        assert("DBQ"@ =~= dbq_key());
        assert("FILE"@ =~= file_key());
    }
    assert(find_first(part, seq!['=']) == Some(e - from));
    assert(key@ == uppercase(trim(part.subrange(0, e - from))));
    if str_eq(key.as_str(), "DBQ") || str_eq(key.as_str(), "FILE") {
        assert(key@ == dbq_key() || key@ == file_key());
        let value = string_from_range(v.as_slice(), e + 1, to);
        assert(value@ =~= part.subrange(e - from + 1, part.len() as int));
        let t = trim_str(value.as_str());
        assert(dsn_entry(part) == Some(t@));
        Some(t)
    } else {
        None
    }
}

/// The path that a connection string names with a `DBQ` or `FILE` key.
pub fn parse_dsn(dsn: &str) -> (r: Option<String>)
    ensures
        match r {
            Some(x) => dsn_path(dsn@) == Some(x@),
            None => dsn_path(dsn@) is None,
        },
{
    let v = chars_of(dsn);
    let n = v.len();
    let mut start: usize = 0;
    assert(v@.subrange(0, n as int) =~= dsn@);
    loop
        invariant
            start <= n,
            n == v.len(),
            dsn_path(dsn@) == dsn_path(v@.subrange(start as int, n as int)),
        decreases n - start,
    {
        let ghost rest = v@.subrange(start as int, n as int);
        let e = scan_char(&v, start, n, ';');
        let hit = dsn_entry_exec(&v, start, e);
        proof {
            if e < n {
                assert(rest.subrange(0, e - start) =~= v@.subrange(start as int, e as int));
                assert(rest.subrange(e - start + 1, rest.len() as int) =~= v@.subrange(
                    e + 1,
                    n as int,
                ));
            }
        }
        match hit {
            Some(x) => {
                return Some(x);
            },
            None => {},
        }
        if e == n {
            return None;
        }
        start = e + 1;
    }
}

/// An identifier wrapped in double quotes or backquotes.
pub open spec fn is_wrapped(t: Seq<char>) -> bool {
    t.len() > 0 && ((t[0] == '"' && t.last() == '"') || (t[0] == '`' && t.last() == '`'))
}

/// A table name as a statement writes it: trimmed, with one pair of
/// wrapping quotes removed; nothing when it is empty.
pub open spec fn unquoted(t: Seq<char>) -> Option<Seq<char>> {
    if t.len() == 0 {
        None
    } else if is_wrapped(t) {
        Some(t.subrange(1, t.len() - 1))
    } else {
        Some(t)
    }
}

/// A lone quote character both opens and closes, and leaves nothing to cut
/// out between them.
pub open spec fn lone_quote(t: Seq<char>) -> bool {
    t.len() == 1 && is_wrapped(t)
}

/// The table name that an identifier denotes.
pub fn unquote_ident(value: &str) -> (r: Option<String>)
    requires
        !lone_quote(trim(value@)),
    ensures
        match r {
            Some(x) => unquoted(trim(value@)) == Some(x@),
            None => unquoted(trim(value@)) is None,
        },
{
    let t = trim_str(value);
    let v = chars_of(t.as_str());
    let n = v.len();
    if n == 0 {
        return None;
    }
    if (v[0] == '"' && v[n - 1] == '"') || (v[0] == '`' && v[n - 1] == '`') {
        Some(string_from_range(v.as_slice(), 1, n - 1))
    } else {
        Some(t)
    }
}


/// What parsing gives: a parse, no parse, or text that cannot be cut where
/// the parser looks (a keyword found at a byte offset inside a character,
/// a lone quote, a condition that splits into itself). The driver refuses
/// both kinds of failure.
pub enum Parse<T> {
    Parsed(T),
    Rejected,
    Malformed,
}

/// A parsed condition: comparisons with the index of their symbol in
/// `comparison_symbols`, the key and the literal text, joined by `and` and `or`.
pub enum CondView {
    Compare(int, Seq<char>, Seq<char>),
    And(Box<CondView>, Box<CondView>),
    Or(Box<CondView>, Box<CondView>),
}

/// The comparison symbols, in the order the parser looks for them.
pub open spec fn comparison_symbols() -> Seq<Seq<char>> {
    seq![seq!['>', '='], seq!['<', '='], seq!['!', '='], seq!['='], seq!['>'], seq!['<']]
}

/// The first symbol, from the `k`-th on, that occurs in `t`, with the
/// position where it first occurs.
pub open spec fn symbol_split_from(t: Seq<char>, k: int) -> Option<(int, int)>
    decreases 6 - k,
{
    if k < 0 || k >= 6 {
        None
    } else {
        match find_first(t, comparison_symbols()[k]) {
            Some(i) => Some((k, i)),
            None => symbol_split_from(t, k + 1),
        }
    }
}

/// A lone `'`, which opens and closes a string literal with nothing to cut
/// out between.
pub open spec fn lone_tick(t: Seq<char>) -> bool {
    t.len() == 1 && t[0] == '\''
}

/// A comparison `key symbol literal`: the key trimmed and lower-cased, the
/// literal trimmed.
pub open spec fn comparison_tree(s: Seq<char>) -> Parse<CondView> {
    let t = trim(s);
    match symbol_split_from(t, 0) {
        None => Parse::Rejected,
        Some((k, i)) => {
            let val = trim(t.subrange(i + comparison_symbols()[k].len(), t.len() as int));
            if lone_tick(val) {
                Parse::Malformed
            } else {
                Parse::Parsed(CondView::Compare(k, lowercase(trim(t.subrange(0, i))), val))
            }
        },
    }
}

pub open spec fn and_kw() -> Seq<char> {
    seq![' ', 'a', 'n', 'd', ' ']
}

pub open spec fn or_kw() -> Seq<char> {
    seq![' ', 'o', 'r', ' ']
}

pub open spec fn where_kw() -> Seq<char> {
    seq![' ', 'w', 'h', 'e', 'r', 'e', ' ']
}

/// Where the keyword `kw` first occurs in the lower-cased text, as a byte
/// offset into the lower-cased text.
pub open spec fn lower_find(c: Seq<char>, kw: Seq<char>) -> Option<int> {
    find_first(vstd::utf8::encode_utf8(lowercase(c)), vstd::utf8::encode_utf8(kw))
}

/// The text before byte offset `i`, if `i` is a character boundary.
pub open spec fn byte_prefix(c: Seq<char>, i: int) -> Option<Seq<char>> {
    let b = vstd::utf8::encode_utf8(c);
    if vstd::utf8::is_char_boundary(b, i) {
        Some(vstd::utf8::decode_utf8(b.subrange(0, i)))
    } else {
        None
    }
}

/// The text from byte offset `i` on, if `i` is a character boundary.
pub open spec fn byte_suffix(c: Seq<char>, i: int) -> Option<Seq<char>> {
    let b = vstd::utf8::encode_utf8(c);
    if vstd::utf8::is_char_boundary(b, i) {
        Some(vstd::utf8::decode_utf8(b.subrange(i, b.len() as int)))
    } else {
        None
    }
}

/// A condition: split at the first ` or `, else at the first ` and `
/// (found in the lower-cased text), else one comparison, so that `and`
/// binds tighter than `or`. The offset found
/// in the lower-cased text cuts the text itself.
pub open spec fn cond_tree(s: Seq<char>) -> Parse<CondView>
    decreases s.len(),
{
    let c = trim(s);
    let split = match lower_find(c, or_kw()) {
        Some(i) => Some((false, i, or_kw())),
        None => match lower_find(c, and_kw()) {
            Some(i) => Some((true, i, and_kw())),
            None => None,
        },
    };
    match split {
        None => comparison_tree(c),
        Some((is_and, i, kw)) => match byte_prefix(c, i) {
            None => Parse::Malformed,
            Some(left) => if left.len() >= c.len() || c.len() > s.len() {
                Parse::Malformed
            } else {
                match cond_tree(left) {
                    Parse::Rejected => Parse::Rejected,
                    Parse::Malformed => Parse::Malformed,
                    Parse::Parsed(l) => match byte_suffix(c, i + vstd::utf8::encode_utf8(kw).len()) {
                        None => Parse::Malformed,
                        Some(right) => if right.len() >= c.len() {
                            Parse::Malformed
                        } else {
                            match cond_tree(right) {
                                Parse::Rejected => Parse::Rejected,
                                Parse::Malformed => Parse::Malformed,
                                Parse::Parsed(r) => Parse::Parsed(
                                    if is_and {
                                        CondView::And(Box::new(l), Box::new(r))
                                    } else {
                                        CondView::Or(Box::new(l), Box::new(r))
                                    },
                                ),
                            }
                        },
                    },
                }
            },
        },
    }
}

/// The text without any `;` at its end.
pub open spec fn strip_semicolons(s: Seq<char>) -> Seq<char>
    decreases s.len(),
{
    if s.len() > 0 && s.last() == ';' {
        strip_semicolons(s.drop_last())
    } else {
        s
    }
}

/// A statement `SELECT * FROM table [WHERE condition]`, with any `;` at
/// its end dropped: the table and the condition, if there is one.
pub open spec fn query_tree(query: Seq<char>) -> Parse<(Seq<char>, Option<CondView>)> {
    let q = trim(strip_semicolons(trim(query)));
    let w = lower_find(q, where_kw());
    let select_part = match w {
        None => Some(q),
        Some(i) => byte_prefix(q, i),
    };
    match select_part {
        None => Parse::Malformed,
        Some(sp) => {
            let tokens = words(sp);
            if tokens.len() != 4 || !chars_eq_ignore_ascii_case(tokens[0], seq!['s', 'e', 'l', 'e', 'c', 't'])
                || tokens[1] != seq!['*'] || !chars_eq_ignore_ascii_case(tokens[2], seq!['f', 'r', 'o', 'm']) {
                Parse::Rejected
            } else if lone_quote(trim(tokens[3])) {
                Parse::Malformed
            } else {
                match unquoted(trim(tokens[3])) {
                    None => Parse::Rejected,
                    Some(table) => match w {
                        None => Parse::Parsed((table, None)),
                        Some(i) => match byte_suffix(q, i + vstd::utf8::encode_utf8(where_kw()).len()) {
                            None => Parse::Malformed,
                            Some(rest) => match cond_tree(trim(rest)) {
                                Parse::Rejected => Parse::Rejected,
                                Parse::Malformed => Parse::Malformed,
                                Parse::Parsed(t) => Parse::Parsed((table, Some(t))),
                            },
                        },
                    },
                }
            }
        },
    }
}


/// The value a literal denotes: a string between single quotes, an
/// `i64`, else what `read_float` made of the text (a double, or nothing,
/// which leaves the text as a string).
pub open spec fn literal_value<F: Fn(&str) -> Option<u64>>(
    read_float: F,
    lit: Seq<char>,
    v: ValueView,
) -> bool {
    if lit.len() >= 2 && lit[0] == '\'' && lit.last() == '\'' {
        v == ValueView::String(lit.subrange(1, lit.len() - 1))
    } else {
        match parse_i64_spec(lit) {
            Some(n) => v == ValueView::Number(
                if n < 0 {
                    Number::NegInt(n)
                } else {
                    Number::PosInt(n as u64)
                },
            ),
            None => exists|text: &str, bits: Option<u64>|
                text@ == lit && call_ensures(read_float, (text,), bits) && v == match bits {
                    Some(b) => ValueView::Number(
                        Number::Float(
                            if float_is_nan(b) {
                                canonical_nan()
                            } else {
                                b
                            },
                        ),
                    ),
                    None => ValueView::String(lit),
                },
        }
    }
}

/// The symbol index, key and value of a comparison.
pub open spec fn op_parts(op: QueryOp) -> Option<(int, Seq<char>, ValueView)> {
    match op {
        QueryOp::Gte(k, v) => Some((0int, k@, v@)),
        QueryOp::Lte(k, v) => Some((1int, k@, v@)),
        QueryOp::Ne(k, v) => Some((2int, k@, v@)),
        QueryOp::Eq(k, v) => Some((3int, k@, v@)),
        QueryOp::Gt(k, v) => Some((4int, k@, v@)),
        QueryOp::Lt(k, v) => Some((5int, k@, v@)),
        _ => None,
    }
}

/// The condition `op` is the one a parse tree describes.
pub open spec fn op_of_tree<F: Fn(&str) -> Option<u64>>(
    op: QueryOp,
    t: CondView,
    read_float: F,
) -> bool
    decreases t,
{
    match t {
        CondView::Compare(k, key, lit) => match op_parts(op) {
            Some((k2, key2, v)) => k2 == k && key2 == key && literal_value(read_float, lit, v),
            None => false,
        },
        CondView::And(a, b) => op matches QueryOp::And(ops) && ops@.len() == 2 && op_of_tree(
            ops@[0],
            *a,
            read_float,
        ) && op_of_tree(ops@[1], *b, read_float),
        CondView::Or(a, b) => op matches QueryOp::Or(ops) && ops@.len() == 2 && op_of_tree(
            ops@[0],
            *a,
            read_float,
        ) && op_of_tree(ops@[1], *b, read_float),
    }
}

/// A parse of a condition gave what the parse tree describes.
pub open spec fn parse_outcome<F: Fn(&str) -> Option<u64>>(
    r: Parse<QueryOp>,
    t: Parse<CondView>,
    read_float: F,
) -> bool {
    match t {
        Parse::Parsed(tree) => r matches Parse::Parsed(op) && op_of_tree(op, tree, read_float),
        Parse::Rejected => r is Rejected,
        Parse::Malformed => r is Malformed,
    }
}

fn symbol(k: usize) -> (r: &'static str)
    requires
        k < 6,
    ensures
        r@ == comparison_symbols()[k as int],
{
    proof {
        reveal_strlit(">=");
        reveal_strlit("<=");
        reveal_strlit("!=");
        reveal_strlit("=");
        reveal_strlit(">");
        reveal_strlit("<");
    }
    if k == 0 {
        assert(">="@ =~= comparison_symbols()[0]);
        ">="
    } else if k == 1 {
        assert("<="@ =~= comparison_symbols()[1]);
        "<="
    } else if k == 2 {
        assert("!="@ =~= comparison_symbols()[2]);
        "!="
    } else if k == 3 {
        assert("="@ =~= comparison_symbols()[3]);
        "="
    } else if k == 4 {
        assert(">"@ =~= comparison_symbols()[4]);
        ">"
    } else {
        assert("<"@ =~= comparison_symbols()[5]);
        "<"
    }
}

fn comparison_op(k: usize, key: &str, v: Value) -> (r: QueryOp)
    requires
        k < 6,
    ensures
        op_parts(r) == Some((k as int, key@, v@)),
{
    if k == 0 {
        QueryOp::gte(key, v)
    } else if k == 1 {
        QueryOp::lte(key, v)
    } else if k == 2 {
        QueryOp::ne(key, v)
    } else if k == 3 {
        QueryOp::eq(key, v)
    } else if k == 4 {
        QueryOp::gt(key, v)
    } else {
        QueryOp::lt(key, v)
    }
}

/// The value of a trimmed literal.
fn literal<F: Fn(&str) -> Option<u64>>(val: String, read_float: &F) -> (r: Parse<Value>)
    requires
        forall|t: &str| read_float.requires((t,)),
    ensures
        lone_tick(val@) ==> r is Malformed,
        !lone_tick(val@) ==> (r matches Parse::Parsed(v) && literal_value(*read_float, val@, v@)),
{
    let cs = chars_of(val.as_str());
    let n = cs.len();
    if n >= 1 && cs[0] == '\'' && cs[n - 1] == '\'' {
        if n == 1 {
            return Parse::Malformed;
        }
        return Parse::Parsed(Value::String(string_from_range(cs.as_slice(), 1, n - 1)));
    }
    match parse_i64(val.as_str()) {
        Some(x) => Parse::Parsed(Value::from_i64(x)),
        None => {
            let bits = read_float(val.as_str());
            match bits {
                Some(b) => Parse::Parsed(Value::Number(Number::from_f64_bits(b))),
                None => Parse::Parsed(Value::String(val)),
            }
        },
    }
}

/// The first comparison symbol that occurs in `v`, with its first position.
fn split_at_symbol(v: &Vec<char>) -> (r: Option<(usize, usize)>)
    ensures
        match r {
            Some((k, i)) => symbol_split_from(v@, 0) == Some((k as int, i as int)) && k < 6 && i
                + comparison_symbols()[k as int].len() <= v.len(),
            None => symbol_split_from(v@, 0) is None,
        },
{
    let mut k: usize = 0;
    while k < 6
        invariant
            k <= 6,
            symbol_split_from(v@, 0) == symbol_split_from(v@, k as int),
        decreases 6 - k,
    {
        let sym = chars_of(symbol(k));
        match find_chars(v, &sym) {
            Some(i) => {
                proof {
                    lemma_find_from(v@, sym@, 0);
                }
                return Some((k, i));
            },
            None => {},
        }
        k += 1;
    }
    None
}

/// Parses one comparison `key symbol literal`.
pub fn parse_comparison<F: Fn(&str) -> Option<u64>>(s: &str, read_float: &F) -> (r: Parse<
    QueryOp,
>)
    requires
        forall|t: &str| read_float.requires((t,)),
    ensures
        parse_outcome(r, comparison_tree(s@), *read_float),
{
    let t = trim_str(s);
    let v = chars_of(t.as_str());
    match split_at_symbol(&v) {
        None => Parse::Rejected,
        Some((k, i)) => {
            let len = chars_of(symbol(k)).len();
            let key = to_lowercase(trim_str(string_from_range(v.as_slice(), 0, i).as_str()).as_str());
            let val = trim_str(string_from_range(v.as_slice(), i + len, v.len()).as_str());
            match literal(val, read_float) {
                Parse::Malformed => Parse::Malformed,
                Parse::Rejected => Parse::Rejected,
                Parse::Parsed(x) => Parse::Parsed(comparison_op(k, key.as_str(), x)),
            }
        },
    }
}


/// Where `kw` first occurs in the lower-cased `c`, as a byte offset into
/// the lower-cased text.
fn lower_find_exec(c: &str, kw: &str) -> (r: Option<usize>)
    ensures
        match r {
            Some(i) => lower_find(c@, kw@) == Some(i as int) && i + vstd::utf8::encode_utf8(kw@).len()
                <= usize::MAX,
            None => lower_find(c@, kw@) is None,
        },
{
    let lower = to_lowercase(c);
    let hay = lower.as_str().as_bytes();
    let _n = hay.len();
    let r = find_bytes(hay, kw.as_bytes());
    proof {
        lemma_find_from(
            vstd::utf8::encode_utf8(lowercase(c@)),
            vstd::utf8::encode_utf8(kw@),
            0,
        );
    }
    r
}

/// The text before byte offset `i`, if `i` is a character boundary.
fn prefix_at(c: &str, i: usize) -> (r: Option<String>)
    ensures
        match r {
            Some(x) => byte_prefix(c@, i as int) == Some(x@),
            None => byte_prefix(c@, i as int) is None,
        },
{
    if c.is_char_boundary(i) {
        let (a, _b) = c.split_at(i);
        proof {
            vstd::utf8::encode_utf8_decode_utf8(a@);
        }
        Some(a.to_owned())
    } else {
        None
    }
}

/// The text from byte offset `i` on, if `i` is a character boundary.
fn suffix_at(c: &str, i: usize) -> (r: Option<String>)
    ensures
        match r {
            Some(x) => byte_suffix(c@, i as int) == Some(x@),
            None => byte_suffix(c@, i as int) is None,
        },
{
    if c.is_char_boundary(i) {
        let (_a, b) = c.split_at(i);
        proof {
            vstd::utf8::encode_utf8_decode_utf8(b@);
        }
        Some(b.to_owned())
    } else {
        None
    }
}

/// Number of characters of a string.
fn char_count(s: &str) -> (r: usize)
    ensures
        r == s@.len(),
{
    chars_of(s).len()
}

/// Parses a condition: comparisons joined by `and` and `or`, `and` binding
/// tighter.
pub fn parse_condition<F: Fn(&str) -> Option<u64>>(cond: &str, read_float: &F) -> (r: Parse<
    QueryOp,
>)
    requires
        forall|t: &str| read_float.requires((t,)),
    ensures
        parse_outcome(r, cond_tree(cond@), *read_float),
    decreases cond@.len(),
{
    proof {
        reveal_strlit(" and ");
        reveal_strlit(" or ");
        assert(" and "@ =~= and_kw());
        assert(" or "@ =~= or_kw());
    }
    let c = trim_str(cond);
    let mut is_and = false;
    let mut found = lower_find_exec(c.as_str(), " or ");
    if found.is_none() {
        is_and = true;
        found = lower_find_exec(c.as_str(), " and ");
    }
    match found {
        None => parse_comparison(c.as_str(), read_float),
        Some(i) => {
            let kw = if is_and {
                " and "
            } else {
                " or "
            };
            let left = match prefix_at(c.as_str(), i) {
                None => {
                    return Parse::Malformed;
                },
                Some(x) => x,
            };
            let clen = char_count(c.as_str());
            if char_count(left.as_str()) >= clen || clen > char_count(cond) {
                return Parse::Malformed;
            }
            let l = match parse_condition(left.as_str(), read_float) {
                Parse::Rejected => {
                    return Parse::Rejected;
                },
                Parse::Malformed => {
                    return Parse::Malformed;
                },
                Parse::Parsed(l) => l,
            };
            let right = match suffix_at(c.as_str(), i + kw.len()) {
                None => {
                    return Parse::Malformed;
                },
                Some(x) => x,
            };
            if char_count(right.as_str()) >= clen {
                return Parse::Malformed;
            }
            let r = match parse_condition(right.as_str(), read_float) {
                Parse::Rejected => {
                    return Parse::Rejected;
                },
                Parse::Malformed => {
                    return Parse::Malformed;
                },
                Parse::Parsed(r) => r,
            };
            let ghost lv = l;
            let ghost rv = r;
            let pair = vec![l, r];
            assert(pair@ =~= seq![lv, rv]);
            if is_and {
                Parse::Parsed(QueryOp::and(pair))
            } else {
                Parse::Parsed(QueryOp::or(pair))
            }
        },
    }
}

/// The condition of a statement: every row without a `WHERE`, else the
/// parsed condition.
pub open spec fn query_op_of<F: Fn(&str) -> Option<u64>>(
    op: QueryOp,
    cond: Option<CondView>,
    read_float: F,
) -> bool {
    match cond {
        None => op matches QueryOp::And(ops) && ops@.len() == 0,
        Some(t) => op_of_tree(op, t, read_float),
    }
}

/// A parsed `SELECT`: the table and the condition rows must meet.
pub struct ParsedQuery {
    pub table: String,
    pub op: QueryOp,
}

/// Parses `SELECT * FROM table [WHERE condition]`; without a condition
/// every row is selected.
pub fn parse_query<F: Fn(&str) -> Option<u64>>(query: &str, read_float: &F) -> (r: Parse<
    ParsedQuery,
>)
    requires
        forall|t: &str| read_float.requires((t,)),
    ensures
        match query_tree(query@) {
            Parse::Parsed((table, cond)) => r matches Parse::Parsed(pq) && pq.table@ == table
                && query_op_of(pq.op, cond, *read_float),
            Parse::Rejected => r is Rejected,
            Parse::Malformed => r is Malformed,
        },
{
    proof {
        reveal_strlit(" where ");
        reveal_strlit("select");
        reveal_strlit("*");
        reveal_strlit("from");
        assert(" where "@ =~= where_kw());
        assert("select"@ =~= seq!['s', 'e', 'l', 'e', 'c', 't']);
        assert("*"@ =~= seq!['*']);
        assert("from"@ =~= seq!['f', 'r', 'o', 'm']);
    }
    let t0 = trim_str(query);
    let v = chars_of(t0.as_str());
    let mut end = v.len();
    assert(v@.subrange(0, end as int) =~= v@);
    while end > 0 && v[end - 1] == ';'
        invariant
            end <= v.len(),
            strip_semicolons(v@) == strip_semicolons(v@.subrange(0, end as int)),
        decreases end,
    {
        assert(v@.subrange(0, end as int).drop_last() =~= v@.subrange(0, end - 1));
        end -= 1;
    }
    let q = trim_str(string_from_range(v.as_slice(), 0, end).as_str());
    let w = lower_find_exec(q.as_str(), " where ");
    let select_part = match w {
        None => q.clone(),
        Some(i) => match prefix_at(q.as_str(), i) {
            None => {
                return Parse::Malformed;
            },
            Some(x) => x,
        },
    };
    let tokens = split_words(select_part.as_str());
    proof {
        assert(str_views(tokens@).len() == tokens@.len());
    }
    if tokens.len() != 4 {
        return Parse::Rejected;
    }
    proof {
        assert(str_views(tokens@)[0] == tokens@[0]@);
        assert(str_views(tokens@)[1] == tokens@[1]@);
        assert(str_views(tokens@)[2] == tokens@[2]@);
        assert(str_views(tokens@)[3] == tokens@[3]@);
    }
    if !eq_ignore_ascii_case(tokens[0].as_str(), "select") || !str_eq(tokens[1].as_str(), "*")
        || !eq_ignore_ascii_case(tokens[2].as_str(), "from") {
        return Parse::Rejected;
    }
    let t3 = trim_str(tokens[3].as_str());
    let t3c = chars_of(t3.as_str());
    if t3c.len() == 1 && (t3c[0] == '"' || t3c[0] == '`') {
        return Parse::Malformed;
    }
    let table = match unquote_ident(tokens[3].as_str()) {
        None => {
            return Parse::Rejected;
        },
        Some(x) => x,
    };
    match w {
        None => Parse::Parsed(ParsedQuery { table, op: QueryOp::and(Vec::new()) }),
        Some(i) => {
            let rest = match suffix_at(q.as_str(), i + " where ".len()) {
                None => {
                    return Parse::Malformed;
                },
                Some(x) => x,
            };
            match parse_condition(trim_str(rest.as_str()).as_str(), read_float) {
                Parse::Rejected => Parse::Rejected,
                Parse::Malformed => Parse::Malformed,
                Parse::Parsed(op) => Parse::Parsed(ParsedQuery { table, op }),
            }
        },
    }
}

} // verus!
