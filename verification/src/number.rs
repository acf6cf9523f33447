use vstd::arithmetic::div_mod::*;
use vstd::arithmetic::mul::*;
use vstd::arithmetic::power2::*;
use vstd::prelude::*;

verus! {

/// The outcome of comparing two values.
#[derive(Clone, Copy, Debug, PartialEq, Eq, Structural)]
pub enum Order {
    Less,
    Equal,
    Greater,
}

impl Order {
    /// The order seen from the other side.
    pub open spec fn spec_reverse(self) -> Order {
        match self {
            Order::Less => Order::Greater,
            Order::Equal => Order::Equal,
            Order::Greater => Order::Less,
        }
    }

    pub fn reverse(self) -> (r: Order)
        ensures
            r == self.spec_reverse(),
    {
        match self {
            Order::Less => Order::Greater,
            Order::Equal => Order::Equal,
            Order::Greater => Order::Less,
        }
    }

    /// `self`, or the second order where `self` is `Equal`.
    pub open spec fn spec_then(self, other: Order) -> Order {
        if self == Order::Equal {
            other
        } else {
            self
        }
    }
}

/// The order of two mathematical integers.
pub open spec fn int_order(a: int, b: int) -> Order {
    if a < b {
        Order::Less
    } else if a == b {
        Order::Equal
    } else {
        Order::Greater
    }
}

/// A YAML number: a non-negative integer, a negative integer, or an IEEE-754
/// double, held by its 64-bit pattern.
///
/// `NegInt` always holds a negative integer when built by the constructors.
#[derive(Clone, Copy, Debug)]
pub enum Number {
    PosInt(u64),
    NegInt(i64),
    Float(u64),
}

/// Bit weight of the lowest exponent bit of a double.
pub open spec fn exp_unit() -> nat {
    0x10_0000_0000_0000
}

/// Bit weight of the sign bit of a double.
pub open spec fn sign_bit() -> nat {
    0x8000_0000_0000_0000
}

/// The pattern of the quiet NaN that YAML uses for every NaN.
pub open spec fn canonical_nan() -> u64 {
    0x7ff8_0000_0000_0000
}

/// The 11-bit biased exponent field of a double.
pub open spec fn float_exponent(b: u64) -> nat {
    ((b as nat / exp_unit()) % 0x800) as nat
}

/// The 52-bit fraction field of a double.
pub open spec fn float_fraction(b: u64) -> nat {
    (b as nat % exp_unit()) as nat
}

pub open spec fn float_is_nan(b: u64) -> bool {
    float_exponent(b) == 0x7ff && float_fraction(b) != 0
}

/// Positive or negative zero.
pub open spec fn float_is_zero(b: u64) -> bool {
    b as nat % sign_bit() == 0
}

/// A key whose integer order is the numeric order of non-NaN doubles
/// (apart from the two zeros, which compare equal).
pub open spec fn float_key(b: u64) -> int {
    if b as nat >= sign_bit() {
        0xffff_ffff_ffff_ffff - b
    } else {
        b + sign_bit()
    }
}

/// `partial_cmp` of two doubles: no order where either is NaN.
pub open spec fn float_partial_order(a: u64, b: u64) -> Option<Order> {
    if float_is_nan(a) || float_is_nan(b) {
        None
    } else if float_is_zero(a) && float_is_zero(b) {
        Some(Order::Equal)
    } else {
        Some(int_order(float_key(a), float_key(b)))
    }
}

/// `==` of two doubles.
pub open spec fn float_eq(a: u64, b: u64) -> bool {
    float_partial_order(a, b) == Some(Order::Equal)
}

/// Position of the highest set bit of a positive integer.
pub open spec fn high_bit(m: nat) -> nat
    decreases m,
{
    if m <= 1 {
        0
    } else {
        1 + high_bit(m / 2)
    }
}

/// The bit pattern of the double nearest to the non-negative integer `m`
/// (ties to even), as the conversion `m as f64` gives it.
pub open spec fn magnitude_float_bits(m: nat) -> nat {
    if m == 0 {
        0
    } else {
        let p = high_bit(m);
        if p <= 52 {
            ((p + 1023) * exp_unit() + (m * pow2((52 - p) as nat) - exp_unit())) as nat
        } else {
            let s = (p - 52) as nat;
            let q = m / pow2(s);
            let r = m % pow2(s);
            let half = pow2((s - 1) as nat);
            let q2 = if r > half || (r == half && q % 2 == 1) {
                q + 1
            } else {
                q
            };
            if q2 == pow2(53) {
                ((p + 1024) * exp_unit()) as nat
            } else {
                ((p + 1023) * exp_unit() + (q2 - exp_unit())) as nat
            }
        }
    }
}

/// The bit pattern of `n as f64` for an integer `n` of at most 64 bits.
pub open spec fn int_float_bits(n: int) -> nat {
    if n < 0 {
        (sign_bit() + magnitude_float_bits((-n) as nat)) as nat
    } else {
        magnitude_float_bits(n as nat)
    }
}

impl Number {
    /// Integers are kept as `NegInt` only when negative.
    pub open spec fn wf(self) -> bool {
        self is NegInt ==> self->NegInt_0 < 0
    }

    pub open spec fn spec_as_i64(self) -> Option<i64> {
        match self {
            Number::PosInt(n) => if n <= i64::MAX {
                Some(n as i64)
            } else {
                None
            },
            Number::NegInt(n) => Some(n),
            Number::Float(_) => None,
        }
    }

    pub open spec fn spec_as_u64(self) -> Option<u64> {
        match self {
            Number::PosInt(n) => Some(n),
            _ => None,
        }
    }

    /// The bit pattern of `as_f64`.
    pub open spec fn spec_f64_bits(self) -> u64 {
        match self {
            Number::PosInt(n) => int_float_bits(n as int) as u64,
            Number::NegInt(n) => int_float_bits(n as int) as u64,
            Number::Float(b) => b,
        }
    }

    /// YAML number equality: integers by kind and value, doubles by `==`
    /// except that NaN equals NaN.
    pub open spec fn spec_eq(self, other: Number) -> bool {
        match (self, other) {
            (Number::PosInt(a), Number::PosInt(b)) => a == b,
            (Number::NegInt(a), Number::NegInt(b)) => a == b,
            (Number::Float(a), Number::Float(b)) => (float_is_nan(a) && float_is_nan(b))
                || float_eq(a, b),
            _ => false,
        }
    }

    /// The total order of YAML numbers: negative integers, then non-negative
    /// integers, then doubles (NaN last).
    pub open spec fn spec_total_order(self, other: Number) -> Order {
        match (self, other) {
            (Number::PosInt(a), Number::PosInt(b)) => int_order(a as int, b as int),
            (Number::NegInt(a), Number::NegInt(b)) => int_order(a as int, b as int),
            (Number::NegInt(_), Number::PosInt(_)) => Order::Less,
            (Number::PosInt(_), Number::NegInt(_)) => Order::Greater,
            (Number::Float(a), Number::Float(b)) => match float_partial_order(a, b) {
                Some(o) => o,
                None => if !float_is_nan(a) {
                    Order::Less
                } else if !float_is_nan(b) {
                    Order::Greater
                } else {
                    Order::Equal
                },
            },
            (_, Number::Float(_)) => Order::Less,
            (Number::Float(_), _) => Order::Greater,
        }
    }

    /// YAML number `partial_cmp`: doubles by `partial_cmp` (NaN equal to
    /// NaN), everything else by the total order.
    pub open spec fn spec_partial_order(self, other: Number) -> Option<Order> {
        match (self, other) {
            (Number::Float(a), Number::Float(b)) => if float_is_nan(a) && float_is_nan(b) {
                Some(Order::Equal)
            } else {
                float_partial_order(a, b)
            },
            _ => Some(self.spec_total_order(other)),
        }
    }

    pub fn from_i64(n: i64) -> (r: Number)
        ensures
            r.wf(),
            r == (if n < 0 {
                Number::NegInt(n)
            } else {
                Number::PosInt(n as u64)
            }),
    {
        if n < 0 {
            Number::NegInt(n)
        } else {
            Number::PosInt(n as u64)
        }
    }

    pub fn from_u64(n: u64) -> (r: Number)
        ensures
            r.wf(),
            r == Number::PosInt(n),
    {
        Number::PosInt(n)
    }

    /// A double given by its bit pattern; every NaN becomes the one YAML NaN.
    pub fn from_f64_bits(bits: u64) -> (r: Number)
        ensures
            r.wf(),
            r == Number::Float(if float_is_nan(bits) {
                canonical_nan()
            } else {
                bits
            }),
    {
        if float_is_nan_exec(bits) {
            Number::Float(0x7ff8_0000_0000_0000)
        } else {
            Number::Float(bits)
        }
    }

    pub fn as_i64(&self) -> (r: Option<i64>)
        ensures
            r == self.spec_as_i64(),
    {
        match self {
            Number::PosInt(n) => if *n <= 0x7fff_ffff_ffff_ffff {
                Some(*n as i64)
            } else {
                None
            },
            Number::NegInt(n) => Some(*n),
            Number::Float(_) => None,
        }
    }

    pub fn as_u64(&self) -> (r: Option<u64>)
        ensures
            r == self.spec_as_u64(),
    {
        match self {
            Number::PosInt(n) => Some(*n),
            _ => None,
        }
    }

    /// The bit pattern of the double `as_f64` gives.
    pub fn f64_bits(&self) -> (r: u64)
        ensures
            r == self.spec_f64_bits(),
    {
        match self {
            Number::PosInt(n) => magnitude_float_bits_exec(*n),
            Number::NegInt(n) => int_float_bits_exec(*n),
            Number::Float(b) => *b,
        }
    }

    pub fn is_float(&self) -> (r: bool)
        ensures
            r == (self is Float),
    {
        match self {
            Number::Float(_) => true,
            _ => false,
        }
    }

    pub fn number_eq(&self, other: &Number) -> (r: bool)
        ensures
            r == self.spec_eq(*other),
    {
        match (self, other) {
            (Number::PosInt(a), Number::PosInt(b)) => *a == *b,
            (Number::NegInt(a), Number::NegInt(b)) => *a == *b,
            (Number::Float(a), Number::Float(b)) => (float_is_nan_exec(*a) && float_is_nan_exec(*b))
                || float_partial_order_exec(*a, *b) == Some(Order::Equal),
            _ => false,
        }
    }

    pub fn total_order(&self, other: &Number) -> (r: Order)
        ensures
            r == self.spec_total_order(*other),
    {
        match (self, other) {
            (Number::PosInt(a), Number::PosInt(b)) => u64_order(*a, *b),
            (Number::NegInt(a), Number::NegInt(b)) => i64_order(*a, *b),
            (Number::NegInt(_), Number::PosInt(_)) => Order::Less,
            (Number::PosInt(_), Number::NegInt(_)) => Order::Greater,
            (Number::Float(a), Number::Float(b)) => match float_partial_order_exec(*a, *b) {
                Some(o) => o,
                None => if !float_is_nan_exec(*a) {
                    Order::Less
                } else if !float_is_nan_exec(*b) {
                    Order::Greater
                } else {
                    Order::Equal
                },
            },
            (_, Number::Float(_)) => Order::Less,
            (Number::Float(_), _) => Order::Greater,
        }
    }

    pub fn partial_order(&self, other: &Number) -> (r: Option<Order>)
        ensures
            r == self.spec_partial_order(*other),
    {
        match (self, other) {
            (Number::Float(a), Number::Float(b)) => if float_is_nan_exec(*a) && float_is_nan_exec(
                *b,
            ) {
                Some(Order::Equal)
            } else {
                float_partial_order_exec(*a, *b)
            },
            _ => Some(self.total_order(other)),
        }
    }
}

pub fn u64_order(a: u64, b: u64) -> (r: Order)
    ensures
        r == int_order(a as int, b as int),
{
    if a < b {
        Order::Less
    } else if a == b {
        Order::Equal
    } else {
        Order::Greater
    }
}

pub fn i64_order(a: i64, b: i64) -> (r: Order)
    ensures
        r == int_order(a as int, b as int),
{
    if a < b {
        Order::Less
    } else if a == b {
        Order::Equal
    } else {
        Order::Greater
    }
}

pub fn float_is_nan_exec(b: u64) -> (r: bool)
    ensures
        r == float_is_nan(b),
{
    (b / 0x10_0000_0000_0000) % 0x800 == 0x7ff && b % 0x10_0000_0000_0000 != 0
}

/// `partial_cmp` of two doubles given by their bit patterns.
pub fn float_partial_order_exec(a: u64, b: u64) -> (r: Option<Order>)
    ensures
        r == float_partial_order(a, b),
{
    if float_is_nan_exec(a) || float_is_nan_exec(b) {
        None
    } else if a % 0x8000_0000_0000_0000 == 0 && b % 0x8000_0000_0000_0000 == 0 {
        Some(Order::Equal)
    } else {
        let ka: u64 = if a >= 0x8000_0000_0000_0000 {
            0xffff_ffff_ffff_ffff - a
        } else {
            a + 0x8000_0000_0000_0000
        };
        let kb: u64 = if b >= 0x8000_0000_0000_0000 {
            0xffff_ffff_ffff_ffff - b
        } else {
            b + 0x8000_0000_0000_0000
        };
        Some(u64_order(ka, kb))
    }
}

proof fn lemma_high_bit_bounds(m: nat)
    requires
        m >= 1,
    ensures
        pow2(high_bit(m)) <= m < pow2(high_bit(m) + 1),
    decreases m,
{
    if m <= 1 {
        lemma2_to64();
    } else {
        lemma_high_bit_bounds(m / 2);
        let h = high_bit(m / 2);
        lemma_pow2_unfold(h + 1);
        lemma_pow2_unfold(h + 2);
    }
}

proof fn lemma_high_bit_le_63(m: u64)
    requires
        m >= 1,
    ensures
        high_bit(m as nat) <= 63,
{
    lemma_high_bit_bounds(m as nat);
    lemma2_to64_rest();
    if high_bit(m as nat) > 64 {
        lemma_pow2_strictly_increases(64, high_bit(m as nat));
    }
}

/// Computes `high_bit` of a positive integer.
fn high_bit_exec(m: u64) -> (p: u64)
    requires
        m >= 1,
    ensures
        p == high_bit(m as nat),
        p <= 63,
{
    let mut t: u64 = m;
    let mut p: u64 = 0;
    proof {
        lemma_high_bit_le_63(m);
    }
    while t > 1
        invariant
            t >= 1,
            p + high_bit(t as nat) == high_bit(m as nat),
            high_bit(m as nat) <= 63,
        decreases t,
    {
        t = t / 2;
        p = p + 1;
    }
    p
}

proof fn lemma_pow2_u64(n: nat)
    requires
        n <= 63,
    ensures
        1 <= pow2(n) <= 0x8000_0000_0000_0000,
{
    lemma2_to64();
    lemma2_to64_rest();
    lemma_pow2_pos(n);
    if n < 63 {
        lemma_pow2_strictly_increases(n, 63);
    }
}

/// Computes `2^n` for `n < 64`.
fn pow2_exec(n: u64) -> (r: u64)
    requires
        n <= 63,
    ensures
        r as nat == pow2(n as nat),
{
    let mut r: u64 = 1;
    let mut i: u64 = 0;
    proof {
        lemma2_to64();
    }
    while i < n
        invariant
            i <= n <= 63,
            r as nat == pow2(i as nat),
        decreases n - i,
    {
        proof {
            lemma_pow2_unfold((i + 1) as nat);
            lemma_pow2_u64((i + 1) as nat);
        }
        r = r * 2;
        i = i + 1;
    }
    r
}

/// The bit pattern of `m as f64`.
pub fn magnitude_float_bits_exec(m: u64) -> (r: u64)
    ensures
        r as nat == magnitude_float_bits(m as nat),
        r < 0x8000_0000_0000_0000,
{
    if m == 0 {
        return 0;
    }
    let p = high_bit_exec(m);
    proof {
        lemma_high_bit_bounds(m as nat);
        lemma_pow2_adds(p as nat, 1);
        lemma2_to64();
    }
    if p <= 52 {
        let k = pow2_exec(52 - p);
        proof {
            lemma_pow2_pos((52 - p) as nat);
            lemma2_to64_rest();
            lemma_pow2_adds(p as nat, (52 - p) as nat);
            lemma_pow2_adds((p + 1) as nat, (52 - p) as nat);
            lemma_mul_inequality(pow2(p as nat) as int, m as int, k as int);
            lemma_mul_strict_inequality(m as int, pow2((p + 1) as nat) as int, k as int);
            lemma_mul_is_commutative(m as int, k as int);
        }
        let f: u64 = m * k - 0x10_0000_0000_0000;
        (p + 1023) * 0x10_0000_0000_0000 + f
    } else {
        let s = p - 52;
        let d = pow2_exec(s);
        let half = pow2_exec(s - 1);
        let q = m / d;
        let r = m % d;
        proof {
            lemma2_to64_rest();
            lemma_pow2_adds(52, s as nat);
            lemma_pow2_adds(53, s as nat);
            lemma_pow2_pos(s as nat);
            lemma_div_is_ordered(pow2(p as nat) as int, m as int, d as int);
            lemma_div_by_multiple(pow2(52) as int, d as int);
            lemma_mul_is_commutative(d as int, pow2(53) as int);
            lemma_multiply_divide_lt(m as int, d as int, pow2(53) as int);
            lemma_mul_is_commutative(d as int, pow2(52) as int);
            lemma_fundamental_div_mod(m as int, d as int);
        }
        let q2: u64 = if r > half || (r == half && q % 2 == 1) {
            q + 1
        } else {
            q
        };
        if q2 == 0x20_0000_0000_0000 {
            (p + 1024) * 0x10_0000_0000_0000
        } else {
            (p + 1023) * 0x10_0000_0000_0000 + (q2 - 0x10_0000_0000_0000)
        }
    }
}

/// The bit pattern of `n as f64`.
pub fn int_float_bits_exec(n: i64) -> (r: u64)
    ensures
        r as nat == int_float_bits(n as int),
{
    if n < 0 {
        let m: u64 = if n == i64::MIN {
            0x8000_0000_0000_0000
        } else {
            (-n) as u64
        };
        0x8000_0000_0000_0000 + magnitude_float_bits_exec(m)
    } else {
        magnitude_float_bits_exec(n as u64)
    }
}

} // verus!
