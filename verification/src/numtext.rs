use crate::text::{chars_of, push_char};
use vstd::prelude::*;

verus! {

/// An ASCII decimal digit.
pub open spec fn is_digit(c: char) -> bool {
    '0' <= c && c <= '9'
}

pub open spec fn digit_value(c: char) -> int {
    (c as int) - ('0' as int)
}

pub open spec fn all_digits(s: Seq<char>) -> bool {
    forall|i: int| 0 <= i < s.len() ==> is_digit(#[trigger] s[i])
}

/// The number that a string of decimal digits denotes.
pub open spec fn digits_value(s: Seq<char>) -> int
    decreases s.len(),
{
    if s.len() == 0 {
        0
    } else {
        digits_value(s.drop_last()) * 10 + digit_value(s.last())
    }
}

/// The digits after an optional sign, and whether the sign was `-`. A sign
/// alone counts as no digits.
pub open spec fn sign_split(s: Seq<char>) -> (bool, Seq<char>) {
    if s.len() > 0 && (s[0] == '+' || s[0] == '-') {
        (s[0] == '-', s.subrange(1, s.len() as int))
    } else {
        (false, s)
    }
}

/// `i64::from_str`: an optional sign, then one or more decimal digits, with
/// a value that fits.
pub open spec fn parse_i64_spec(s: Seq<char>) -> Option<i64> {
    let (neg, d) = sign_split(s);
    if d.len() == 0 || !all_digits(d) {
        None
    } else {
        let v = if neg {
            -digits_value(d)
        } else {
            digits_value(d)
        };
        if i64::MIN <= v && v <= i64::MAX {
            Some(v as i64)
        } else {
            None
        }
    }
}

/// `usize::from_str`: an optional `+`, then one or more decimal digits, with
/// a value that fits.
pub open spec fn parse_usize_spec(s: Seq<char>) -> Option<usize> {
    let d = if s.len() > 0 && s[0] == '+' {
        s.subrange(1, s.len() as int)
    } else {
        s
    };
    if d.len() == 0 || !all_digits(d) || digits_value(d) > usize::MAX {
        None
    } else {
        Some(digits_value(d) as usize)
    }
}

pub proof fn lemma_digits_value_nonneg(s: Seq<char>)
    requires
        all_digits(s),
    ensures
        digits_value(s) >= 0,
    decreases s.len(),
{
    if s.len() > 0 {
        assert(is_digit(s[s.len() - 1]));
        lemma_digits_value_nonneg(s.drop_last());
    }
}

/// Appending digits never makes the value smaller.
pub proof fn lemma_digits_value_prefix(s: Seq<char>, k: int)
    requires
        all_digits(s),
        0 <= k <= s.len(),
    ensures
        digits_value(s.subrange(0, k)) <= digits_value(s),
    decreases s.len() - k,
{
    if k < s.len() {
        let t = s.subrange(0, k + 1);
        assert(t.drop_last() =~= s.subrange(0, k));
        assert(is_digit(t.last()));
        lemma_digits_value_nonneg(s.subrange(0, k));
        lemma_digits_value_prefix(s, k + 1);
    } else {
        assert(s.subrange(0, k) =~= s);
    }
}

/// The magnitude of the digits `v[from..]`, or `None` once it passes `cap`.
fn digits_magnitude(v: &Vec<char>, from: usize, cap: u128) -> (r: Option<u128>)
    requires
        from <= v.len(),
        all_digits(v@.subrange(from as int, v.len() as int)),
        cap <= u64::MAX,
    ensures
        match r {
            Some(m) => m == digits_value(v@.subrange(from as int, v.len() as int)) && m <= cap,
            None => digits_value(v@.subrange(from as int, v.len() as int)) > cap,
        },
{
    let ghost d = v@.subrange(from as int, v.len() as int);
    let mut m: u128 = 0;
    let mut i: usize = from;
    while i < v.len()
        invariant
            from <= i <= v.len(),
            d == v@.subrange(from as int, v.len() as int),
            all_digits(d),
            cap <= u64::MAX,
            m == digits_value(d.subrange(0, i - from)),
            m <= cap,
        decreases v.len() - i,
    {
        let c = v[i];
        assert(c == d[i - from]);
        assert(is_digit(c));
        let dv = (c as u32 - '0' as u32) as u128;
        assert(d.subrange(0, i + 1 - from).drop_last() =~= d.subrange(0, i - from));
        m = m * 10 + dv;
        i += 1;
        if m > cap {
            proof {
                lemma_digits_value_prefix(d, i - from);
            }
            return None;
        }
    }
    assert(d.subrange(0, i - from) =~= d);
    Some(m)
}

/// Whether every character of `v[from..]` is a decimal digit.
fn digits_only(v: &Vec<char>, from: usize) -> (r: bool)
    requires
        from <= v.len(),
    ensures
        r == all_digits(v@.subrange(from as int, v.len() as int)),
{
    let mut i: usize = from;
    while i < v.len()
        invariant
            from <= i <= v.len(),
            forall|k: int| from <= k < i ==> is_digit(#[trigger] v@[k]),
        decreases v.len() - i,
    {
        if !('0' <= v[i] && v[i] <= '9') {
            assert(!is_digit(v@.subrange(from as int, v.len() as int)[i - from]));
            return false;
        }
        i += 1;
    }
    assert forall|k: int| 0 <= k < v.len() - from implies is_digit(
        #[trigger] v@.subrange(from as int, v.len() as int)[k],
    ) by {
        assert(v@.subrange(from as int, v.len() as int)[k] == v@[from + k]);
    }
    true
}

/// `str::parse::<i64>`.
pub fn parse_i64(s: &str) -> (r: Option<i64>)
    ensures
        r == parse_i64_spec(s@),
{
    let v = chars_of(s);
    let signed = v.len() > 0 && (v[0] == '+' || v[0] == '-');
    let neg = signed && v[0] == '-';
    let from: usize = if signed {
        1
    } else {
        0
    };
    proof {
        if !signed {
            assert(v@.subrange(0, v.len() as int) =~= v@);
        }
    }
    if from == v.len() || !digits_only(&v, from) {
        return None;
    }
    let cap: u128 = 9223372036854775808;
    match digits_magnitude(&v, from, cap) {
        None => None,
        Some(m) => {
            if neg {
                let x: i128 = 0i128 - (m as i128);
                Some(x as i64)
            } else if m <= 9223372036854775807 {
                Some(m as i64)
            } else {
                None
            }
        },
    }
}

/// `str::parse::<usize>`.
pub fn parse_usize(s: &str) -> (r: Option<usize>)
    ensures
        r == parse_usize_spec(s@),
{
    let v = chars_of(s);
    let from: usize = if v.len() > 0 && v[0] == '+' {
        1
    } else {
        0
    };
    proof {
        if from == 0 {
            assert(v@.subrange(0, v.len() as int) =~= v@);
        }
    }
    if from == v.len() || !digits_only(&v, from) {
        return None;
    }
    match digits_magnitude(&v, from, usize::MAX as u128) {
        None => None,
        Some(m) => Some(m as usize),
    }
}

/// The decimal digit for `d < 10`.
pub open spec fn digit_char(d: nat) -> char {
    (d + ('0' as nat)) as char
}

/// The decimal form of a natural number, without leading zeros.
pub open spec fn decimal(n: nat) -> Seq<char>
    decreases n,
{
    if n < 10 {
        seq![digit_char(n)]
    } else {
        decimal(n / 10).push(digit_char(n % 10))
    }
}

/// The decimal form of an integer: `-` before the digits of a negative one.
pub open spec fn signed_decimal(n: int) -> Seq<char> {
    if n < 0 {
        seq!['-'] + decimal((-n) as nat)
    } else {
        decimal(n as nat)
    }
}

fn digit_char_exec(d: u64) -> (c: char)
    requires
        d < 10,
    ensures
        c == digit_char(d as nat),
{
    ((d as u8) + 48u8) as char
}

/// The decimal form of `n`, as `u64`'s `Display` writes it.
pub fn u64_decimal(n: u64) -> (s: String)
    ensures
        s@ == decimal(n as nat),
    decreases n,
{
    if n < 10 {
        let mut s = String::new();
        push_char(&mut s, digit_char_exec(n));
        assert(s@ =~= seq![digit_char(n as nat)]);
        s
    } else {
        let mut s = u64_decimal(n / 10);
        push_char(&mut s, digit_char_exec(n % 10));
        s
    }
}

/// The decimal form of `n`, as `i64`'s `Display` writes it.
pub fn i64_decimal(n: i64) -> (s: String)
    ensures
        s@ == signed_decimal(n as int),
{
    if n < 0 {
        let m: u64 = (0i128 - (n as i128)) as u64;
        let digits = u64_decimal(m);
        let mut s = String::new();
        push_char(&mut s, '-');
        let v = chars_of(digits.as_str());
        let mut i: usize = 0;
        while i < v.len()
            invariant
                i <= v.len(),
                v@ == decimal(m as nat),
                s@ == seq!['-'] + v@.take(i as int),
            decreases v.len() - i,
        {
            push_char(&mut s, v[i]);
            i += 1;
            assert(s@ =~= seq!['-'] + v@.take(i as int));
        }
        assert(v@.take(i as int) =~= v@);
        s
    } else {
        u64_decimal(n as u64)
    }
}

} // verus!
