//! Numbers: floating-point values held as their IEEE 754 bits, and what can
//! be read off or written to those bits in whole-number arithmetic.
use crate::text::Order;
use vstd::prelude::*;

verus! {

/// The weight of the sign bit.
pub const SIGN_BIT: u64 = 0x8000_0000_0000_0000;

/// The bits of positive infinity.
pub const INFINITY_BITS: u64 = 0x7ff0_0000_0000_0000;

/// The bits of the circle constant.
pub const PI_BITS: u64 = 0x4009_21fb_5444_2d18;

/// The bits of the base of the natural logarithm.
pub const E_BITS: u64 = 0x4005_bf0a_8b14_5769;

/// The weight of the lowest exponent bit.
pub const MANTISSA_UNIT: u64 = 0x10_0000_0000_0000;

/// The powers of two.
pub open spec fn two_to(n: nat) -> nat
    decreases n,
{
    if n == 0 {
        1
    } else {
        2 * two_to((n - 1) as nat)
    }
}

pub proof fn lemma_two_to_positive(n: nat)
    ensures
        two_to(n) >= 1,
    decreases n,
{
    if n > 0 {
        lemma_two_to_positive((n - 1) as nat);
    }
}

pub proof fn lemma_two_to_sum(a: nat, b: nat)
    ensures
        two_to(a + b) == two_to(a) * two_to(b),
    decreases a,
{
    if a == 0 {
        assert(two_to(0) * two_to(b) == two_to(b)) by (nonlinear_arith)
            requires
                two_to(0) == 1,
        ;
    } else {
        lemma_two_to_sum((a - 1) as nat, b);
        assert(((a + b) - 1) as nat == (a - 1) as nat + b);
        let x = two_to((a - 1) as nat);
        let y = two_to(b);
        assert((2 * x) * y == 2 * (x * y)) by (nonlinear_arith);
    }
}

proof fn lemma_two_to_increases(a: nat, b: nat)
    requires
        a <= b,
    ensures
        two_to(a) <= two_to(b),
    decreases b,
{
    if a < b {
        lemma_two_to_increases(a, (b - 1) as nat);
        lemma_two_to_positive((b - 1) as nat);
    }
}

proof fn lemma_two_to_values()
    ensures
        two_to(52) == 0x10_0000_0000_0000,
        two_to(53) == 0x20_0000_0000_0000,
        two_to(63) == 0x8000_0000_0000_0000,
        two_to(64) == 0x1_0000_0000_0000_0000,
{
    reveal_with_fuel(two_to, 65);
}

fn two_power(n: u64) -> (r: u64)
    requires
        n < 64,
    ensures
        r == two_to(n as nat),
{
    let mut r: u64 = 1;
    let mut i: u64 = 0;
    while i < n
        invariant
            i <= n < 64,
            r == two_to(i as nat),
        decreases n - i,
    {
        proof {
            lemma_two_to_increases((i + 1) as nat, 63);
            lemma_two_to_values();
        }
        r = 2 * r;
        i += 1;
    }
    r
}

// ---------------------------------------------------------------------------
// Reading the bits
// ---------------------------------------------------------------------------

/// The bits without the sign.
pub open spec fn magnitude(b: u64) -> u64 {
    b % SIGN_BIT
}

/// No number at all.
pub open spec fn is_nan(b: u64) -> bool {
    magnitude(b) > INFINITY_BITS
}

/// One of the two infinities.
pub open spec fn is_infinite(b: u64) -> bool {
    magnitude(b) == INFINITY_BITS
}

/// One of the two zeros.
pub open spec fn is_zero(b: u64) -> bool {
    magnitude(b) == 0
}

/// The value, with one zero in place of the two.
pub open spec fn one_zero(b: u64) -> u64 {
    if is_zero(b) {
        0
    } else {
        b
    }
}

/// A whole number that is ordered as the floating-point value is.
pub open spec fn float_rank(b: u64) -> int {
    if b >= SIGN_BIT {
        -(b - SIGN_BIT)
    } else {
        b as int
    }
}

/// The order of two floating-point values; `None` where one is no number.
pub open spec fn float_order(a: u64, b: u64) -> Option<Order> {
    if is_nan(a) || is_nan(b) {
        None
    } else if float_rank(a) < float_rank(b) {
        Some(Order::Less)
    } else if float_rank(a) > float_rank(b) {
        Some(Order::Greater)
    } else {
        Some(Order::Equal)
    }
}

/// The value with its sign changed.
pub open spec fn float_negated(b: u64) -> u64 {
    if b >= SIGN_BIT {
        (b - SIGN_BIT) as u64
    } else {
        (b + SIGN_BIT) as u64
    }
}

/// Floating-point values that are equal differ at most in the sign of zero.
pub proof fn lemma_equal_floats(a: u64, b: u64)
    requires
        float_order(a, b) == Some(Order::Equal),
    ensures
        one_zero(a) == one_zero(b),
{
}

pub fn with_one_zero(b: u64) -> (r: u64)
    ensures
        r == one_zero(b),
{
    if b == 0 || b == SIGN_BIT {
        0
    } else {
        b
    }
}

pub fn without_sign(b: u64) -> (r: u64)
    ensures
        r == magnitude(b),
{
    b % SIGN_BIT
}

pub fn nan(b: u64) -> (r: bool)
    ensures
        r == is_nan(b),
{
    b % SIGN_BIT > INFINITY_BITS
}

pub fn infinite(b: u64) -> (r: bool)
    ensures
        r == is_infinite(b),
{
    b % SIGN_BIT == INFINITY_BITS
}

pub fn zero(b: u64) -> (r: bool)
    ensures
        r == is_zero(b),
{
    b % SIGN_BIT == 0
}

pub fn negated(b: u64) -> (r: u64)
    ensures
        r == float_negated(b),
{
    if b >= SIGN_BIT {
        b - SIGN_BIT
    } else {
        b + SIGN_BIT
    }
}

/// Compares two floating-point values.
pub fn order_floats(a: u64, b: u64) -> (r: Option<Order>)
    ensures
        r == float_order(a, b),
{
    if nan(a) || nan(b) {
        return None;
    }
    if a >= SIGN_BIT {
        if b >= SIGN_BIT {
            if a > b {
                Some(Order::Less)
            } else if a < b {
                Some(Order::Greater)
            } else {
                Some(Order::Equal)
            }
        } else if a == SIGN_BIT && b == 0 {
            Some(Order::Equal)
        } else {
            Some(Order::Less)
        }
    } else if b >= SIGN_BIT {
        if a == 0 && b == SIGN_BIT {
            Some(Order::Equal)
        } else {
            Some(Order::Greater)
        }
    } else if a < b {
        Some(Order::Less)
    } else if a > b {
        Some(Order::Greater)
    } else {
        Some(Order::Equal)
    }
}

/// Exchanging two floating-point values flips their order, and both zeros
/// compare as equal.
pub proof fn lemma_float_order(a: u64, b: u64)
    ensures
        float_order(a, b) matches Some(o) ==> float_order(b, a) == Some(o.flipped()),
        float_order(a, b) is None <==> float_order(b, a) is None,
        is_zero(a) && is_zero(b) ==> float_order(a, b) == Some(Order::Equal),
{
}

// ---------------------------------------------------------------------------
// Whole numbers as floating-point values
// ---------------------------------------------------------------------------

/// The place of the highest set bit of a positive number: the `k` with
/// `2^k <= n < 2^(k+1)`.
pub open spec fn top_bit(n: nat) -> nat
    decreases n,
{
    if n < 2 {
        0
    } else {
        1 + top_bit(n / 2)
    }
}

/// A positive whole number with 53 significant bits: the nearest one, the
/// even one of two that are equally near; in units of `2^(k-52)`.
pub open spec fn significand(n: nat, k: nat) -> int {
    if k <= 52 {
        (n * two_to((52 - k) as nat)) as int
    } else {
        let unit = two_to((k - 52) as nat);
        let q = n / unit;
        let r = n % unit;
        if 2 * r > unit || (2 * r == unit && q % 2 == 1) {
            (q + 1) as int
        } else {
            q as int
        }
    }
}

/// The bits of the floating-point value nearest to a whole number.
pub open spec fn int_as_float(i: int) -> int {
    if i == 0 {
        0
    } else {
        let n = if i < 0 { (-i) as nat } else { i as nat };
        let k = top_bit(n);
        (if i < 0 { SIGN_BIT as int } else { 0 }) + (k + 1023) * MANTISSA_UNIT + (significand(n, k)
            - MANTISSA_UNIT)
    }
}

proof fn lemma_top_bit(n: nat)
    requires
        n >= 1,
    ensures
        two_to(top_bit(n)) <= n < 2 * two_to(top_bit(n)),
    decreases n,
{
    if n >= 2 {
        lemma_top_bit(n / 2);
        assert(two_to(top_bit(n)) == 2 * two_to(top_bit(n / 2)));
    }
}

fn highest_bit(n: u64) -> (k: u64)
    requires
        n >= 1,
    ensures
        k == top_bit(n as nat),
        k < 64,
        two_to(k as nat) <= n,
        n < 2 * two_to(k as nat),
{
    let mut m: u64 = n;
    let mut k: u64 = 0;
    proof {
        lemma_top_bit(n as nat);
    }
    while m >= 2
        invariant
            m >= 1,
            n >= 1,
            k + top_bit(m as nat) == top_bit(n as nat),
            two_to(top_bit(n as nat)) <= n < 2 * two_to(top_bit(n as nat)),
        decreases m,
    {
        proof {
            if top_bit(n as nat) >= 64 {
                lemma_two_to_values();
                lemma_two_to_increases(64, top_bit(n as nat));
            }
        }
        m = m / 2;
        k = k + 1;
    }
    proof {
        if top_bit(n as nat) >= 64 {
            lemma_two_to_values();
            lemma_two_to_increases(64, top_bit(n as nat));
        }
    }
    k
}

fn rounded(n: u64, k: u64) -> (s: u64)
    requires
        k < 64,
        two_to(k as nat) <= n,
        n < 2 * two_to(k as nat),
    ensures
        s == significand(n as nat, k as nat),
        MANTISSA_UNIT <= s <= 2 * MANTISSA_UNIT,
{
    if k <= 52 {
        let unit = two_power(52 - k);
        proof {
            lemma_two_to_values();
            lemma_two_to_sum(k as nat, (52 - k) as nat);
            lemma_two_to_positive((52 - k) as nat);
            let p = two_to(k as nat) as int;
            let u = unit as int;
            assert(p * u == MANTISSA_UNIT);
            assert(MANTISSA_UNIT <= n * u < 2 * MANTISSA_UNIT) by (nonlinear_arith)
                requires
                    p <= n < 2 * p,
                    p * u == MANTISSA_UNIT,
                    u >= 1,
            ;
        }
        n * unit
    } else {
        let unit = two_power(k - 52);
        proof {
            lemma_two_to_values();
            lemma_two_to_sum(52, (k - 52) as nat);
            lemma_two_to_positive((k - 52) as nat);
        }
        let q = n / unit;
        let r = n % unit;
        proof {
            let u = unit as int;
            assert(two_to(k as nat) == MANTISSA_UNIT * u);
            assert(MANTISSA_UNIT <= q < 2 * MANTISSA_UNIT) by (nonlinear_arith)
                requires
                    MANTISSA_UNIT * u <= n < 2 * (MANTISSA_UNIT * u),
                    q == n as int / u,
                    u >= 1,
            ;
            lemma_two_to_increases((k - 52) as nat, 62);
            assert(two_to(63) == 2 * two_to(62));
            assert(r < unit);
        }
        if 2 * r > unit || (2 * r == unit && q % 2 == 1) {
            q + 1
        } else {
            q
        }
    }
}

fn bits_of_positive(n: u64) -> (b: u64)
    requires
        1 <= n,
    ensures
        b == int_as_float(n as int),
        b < INFINITY_BITS,
{
    let k = highest_bit(n);
    let s = rounded(n, k);
    (k + 1023) * MANTISSA_UNIT + (s - MANTISSA_UNIT)
}

/// The bits of the floating-point value nearest to a whole number that is not
/// negative.
pub fn float_of_unsigned(n: u64) -> (b: u64)
    ensures
        b == int_as_float(n as int),
{
    if n == 0 {
        0
    } else {
        bits_of_positive(n)
    }
}

/// The bits of the floating-point value nearest to a whole number.
pub fn float_of_int(i: i64) -> (b: u64)
    ensures
        b == int_as_float(i as int),
        !is_nan(b),
{
    if i == 0 {
        0
    } else if i > 0 {
        bits_of_positive(i as u64)
    } else {
        let n: u64 = if i == i64::MIN {
            SIGN_BIT
        } else {
            (-i) as u64
        };
        let b = bits_of_positive(n);
        SIGN_BIT + b
    }
}

// ---------------------------------------------------------------------------
// Floating-point values as whole numbers
// ---------------------------------------------------------------------------

/// The exponent field of a value.
pub open spec fn exponent(b: u64) -> u64 {
    magnitude(b) / MANTISSA_UNIT
}

/// The significant bits of a value whose exponent field is not zero.
pub open spec fn fraction(b: u64) -> u64 {
    (b % MANTISSA_UNIT + MANTISSA_UNIT) as u64
}

/// The size of a value, cut off at the point; for values below `2^64`.
pub open spec fn whole_part(b: u64) -> nat {
    let e = exponent(b);
    if e < 1023 {
        0
    } else if e <= 1075 {
        (fraction(b) as nat) / two_to((1075 - e) as nat)
    } else {
        (fraction(b) as nat) * two_to((e - 1075) as nat)
    }
}

/// The whole number that a floating-point value is cut off to, if the value
/// lies between the least and one past the greatest `i64`.
pub open spec fn float_as_int(b: u64) -> Option<int> {
    if exponent(b) > 1086 || whole_part(b) > SIGN_BIT {
        None
    } else if b >= SIGN_BIT {
        Some(-(whole_part(b) as int))
    } else if whole_part(b) == SIGN_BIT {
        Some(i64::MAX as int)
    } else {
        Some(whole_part(b) as int)
    }
}

/// Without digits after the point.
pub open spec fn is_whole(b: u64) -> bool {
    let e = exponent(b);
    if e >= 2047 {
        false
    } else if e >= 1075 {
        true
    } else if e < 1023 {
        magnitude(b) == 0
    } else {
        (fraction(b) as nat) % two_to((1075 - e) as nat) == 0
    }
}

fn size_of(b: u64) -> (n: u64)
    requires
        exponent(b) <= 1086,
    ensures
        n == whole_part(b),
{
    let e = (b % SIGN_BIT) / MANTISSA_UNIT;
    let m = b % MANTISSA_UNIT + MANTISSA_UNIT;
    if e < 1023 {
        0
    } else if e <= 1075 {
        proof {
            lemma_two_to_positive((1075 - e) as nat);
        }
        m / two_power(1075 - e)
    } else {
        let p = two_power(e - 1075);
        proof {
            lemma_two_to_increases((e - 1075) as nat, 11);
            reveal_with_fuel(two_to, 12);
            assert(m * p < 0x1_0000_0000_0000_0000) by (nonlinear_arith)
                requires
                    m < 2 * 0x10_0000_0000_0000,
                    p <= 2048,
            ;
        }
        m * p
    }
}

/// Cuts a floating-point value off to a whole number.
pub fn int_of_float(b: u64) -> (r: Option<i64>)
    ensures
        match r {
            Some(i) => float_as_int(b) == Some(i as int),
            None => float_as_int(b) is None,
        },
{
    let e = (b % SIGN_BIT) / MANTISSA_UNIT;
    if e > 1086 {
        return None;
    }
    let n = size_of(b);
    if n > SIGN_BIT {
        None
    } else if b >= SIGN_BIT {
        if n == SIGN_BIT {
            Some(i64::MIN)
        } else {
            Some(-(n as i64))
        }
    } else if n == SIGN_BIT {
        Some(i64::MAX)
    } else {
        Some(n as i64)
    }
}

pub fn whole(b: u64) -> (r: bool)
    ensures
        r == is_whole(b),
{
    let e = (b % SIGN_BIT) / MANTISSA_UNIT;
    if e >= 2047 {
        false
    } else if e >= 1075 {
        true
    } else if e < 1023 {
        b % SIGN_BIT == 0
    } else {
        let m = b % MANTISSA_UNIT + MANTISSA_UNIT;
        proof {
            lemma_two_to_positive((1075 - e) as nat);
        }
        m % two_power(1075 - e) == 0
    }
}

// ---------------------------------------------------------------------------
// Pseudo-random numbers
// ---------------------------------------------------------------------------

/// The seed that takes the place of zero, which the generator cannot leave.
pub const FALLBACK_SEED: u64 = 0xDEAD_BEEF_CAFE_BABE;

/// One step of the xorshift generator on 64 bits.
pub open spec fn xorshift(x: u64) -> u64 {
    let a = x ^ (x << 13u64);
    let b = a ^ (a >> 7u64);
    b ^ (b << 17u64)
}

pub fn next_random(x: u64) -> (r: u64)
    ensures
        r == xorshift(x),
{
    let a: u64 = x ^ (x << 13u64);
    let b: u64 = a ^ (a >> 7u64);
    b ^ (b << 17u64)
}

/// The state with which the generator starts, given a clock reading.
pub open spec fn seed_of(t: u64) -> u64 {
    if t == 0 { FALLBACK_SEED } else { t }
}

pub fn seed_from_clock(t: u64) -> (r: u64)
    ensures
        r == seed_of(t),
        r != 0,
{
    if t == 0 {
        FALLBACK_SEED
    } else {
        t
    }
}

/// The state at a place `k` below a state: where one evaluation has several
/// parts, each draws its numbers from a state of its own.
pub open spec fn branch_seed(x: u64, k: u64) -> u64 {
    xorshift(x.wrapping_add(k.wrapping_mul(0x9E37_79B9_7F4A_7C15u64)))
}

pub fn branch(x: u64, k: u64) -> (r: u64)
    ensures
        r == branch_seed(x, k),
{
    next_random(x.wrapping_add(k.wrapping_mul(0x9E37_79B9_7F4A_7C15u64)))
}

/// The floating-point value in `[0, 1)` whose first 53 binary digits are the
/// high bits of a state after one step.
pub open spec fn random_float(x: u64) -> int {
    let m = xorshift(x) >> 11u64;
    if m == 0 {
        0
    } else {
        int_as_float(m as int) - 53 * MANTISSA_UNIT
    }
}

/// The next pseudo-random value in `[0, 1)`.
pub fn pseudo_rand(x: u64) -> (b: u64)
    ensures
        b == random_float(x),
        float_order(b, 0) != Some(Order::Less),
        float_order(b, 0x3ff0_0000_0000_0000) == Some(Order::Less),
{
    let y = next_random(x);
    let m: u64 = y >> 11u64;
    proof {
        assert(y >> 11u64 < 0x20_0000_0000_0000) by (bit_vector);
    }
    if m == 0 {
        0
    } else {
        let k = highest_bit(m);
        let s = rounded(m, k);
        proof {
            lemma_two_to_values();
            if k >= 53 {
                lemma_two_to_increases(53, k as nat);
            }
            lemma_two_to_sum(k as nat, (52 - k) as nat);
            let p = two_to(k as nat) as int;
            let u = two_to((52 - k) as nat) as int;
            lemma_two_to_positive((52 - k) as nat);
            assert(m * u < 2 * MANTISSA_UNIT) by (nonlinear_arith)
                requires
                    m < 2 * p,
                    p * u == MANTISSA_UNIT,
                    u >= 1,
            ;
        }
        (k + 1023 - 53) * MANTISSA_UNIT + (s - MANTISSA_UNIT)
    }
}

} // verus!
