//! Arithmetic on IEEE 754 double precision numbers, given by their bits.
//!
//! Every finite double is a whole multiple of two to the power of -1074. That
//! power is the unit here: a double stands for an integer number of units, an
//! operation has an exact result that is a fraction of two integers, and the
//! double that is returned is the nearest one to that fraction, with ties going to
//! the even significand.

use vstd::arithmetic::div_mod::*;
use vstd::arithmetic::mul::*;
use vstd::arithmetic::power2::*;
use vstd::prelude::*;

verus! {

/// Two to the power of 52, the weight of the implicit bit of a significand.
pub const HIDDEN: u64 = 0x10_0000_0000_0000;

/// Two to the power of 63, the weight of the sign bit.
pub const SIGN: u64 = 0x8000_0000_0000_0000;

/// The number of units in one, as a power of two.
pub const ONE_SHIFT: u32 = 1074;

/// The bits without the sign.
pub open spec fn magnitude(bits: u64) -> nat {
    (bits % SIGN) as nat
}

/// The sign bit is set.
pub open spec fn is_negative(bits: u64) -> bool {
    bits >= SIGN
}

/// Neither an infinity nor a NaN.
pub open spec fn is_finite(bits: u64) -> bool {
    magnitude(bits) < 2047 * HIDDEN
}

/// The power of two by which the significand counts, in units.
pub open spec fn shift_of(magnitude: nat) -> nat {
    let field = magnitude / (HIDDEN as nat);
    if field == 0 {
        0
    } else {
        (field - 1) as nat
    }
}

/// The significand, with its implicit bit.
pub open spec fn significand_of(magnitude: nat) -> nat {
    if magnitude < HIDDEN {
        magnitude
    } else {
        magnitude % (HIDDEN as nat) + HIDDEN as nat
    }
}

/// The units that a magnitude stands for.
pub open spec fn units_of(magnitude: nat) -> nat {
    significand_of(magnitude) * pow2(shift_of(magnitude))
}

/// The number of units that a finite double stands for.
pub open spec fn units(bits: u64) -> int {
    if is_negative(bits) {
        -(units_of(magnitude(bits)) as int)
    } else {
        units_of(magnitude(bits)) as int
    }
}

/// The integer nearest to `n / d`; of two that are equally near, the even one.
pub open spec fn half_even(n: nat, d: nat) -> nat {
    let floor = n / d;
    let rest = n % d;
    if 2 * rest < d || (2 * rest == d && floor % 2 == 0) {
        floor
    } else {
        floor + 1
    }
}

/// The least power of two by which `n / d` has to be divided to be under two to the
/// power of 53.
pub open spec fn scale(n: nat, d: nat) -> nat
    decreases n - d,
{
    if d == 0 || n < d * pow2(53) {
        0
    } else {
        proof {
            assert(d * pow2(53) >= d * 2) by {
                lemma2_to64_rest();
                lemma_mul_inequality(2, pow2(53) as int, d as int);
                lemma_mul_is_commutative(d as int, 2);
                lemma_mul_is_commutative(d as int, pow2(53) as int);
            }
        }
        1 + scale(n, 2 * d)
    }
}

/// The magnitude of the double nearest to `n / d` units.
pub open spec fn rounded(n: nat, d: nat) -> nat {
    scale(n, d) * (HIDDEN as nat) + half_even(n, d * pow2(scale(n, d)))
}

proof fn lemma_scale(n: nat, d: nat, s: nat)
    requires
        d > 0,
        n < d * pow2(53 + s),
        s == 0 || n >= d * pow2((52 + s) as nat),
    ensures
        scale(n, d) == s,
    decreases s,
{
    if s > 0 {
        lemma_pow2_unfold(53 + s);
        lemma_mul_is_associative(d as int, 2, pow2((52 + s) as nat) as int);
        lemma_mul_is_commutative(d as int, 2);
        if s == 1 {
        } else {
            lemma_pow2_unfold((52 + s) as nat);
            lemma_mul_is_associative(d as int, 2, pow2((51 + s) as nat) as int);
            lemma_pow2_strictly_increases(53, (52 + s) as nat);
            lemma_mul_inequality(pow2(53) as int, pow2((52 + s) as nat) as int, d as int);
            lemma_mul_is_commutative(d as int, pow2(53) as int);
            lemma_mul_is_commutative(d as int, pow2((52 + s) as nat) as int);
        }
        lemma_scale(n, 2 * d, (s - 1) as nat);
    }
}

/// Multiplying both parts of a fraction by `k` leaves its rounding as it is.
proof fn lemma_half_even_scaled(n: nat, d: nat, k: nat)
    requires
        d > 0,
        k > 0,
    ensures
        half_even(n * k, d * k) == half_even(n, d),
{
    let q = n / d;
    let r = n % d;
    lemma_fundamental_div_mod(n as int, d as int);
    assert(n * k == q * (d * k) + r * k) by (nonlinear_arith)
        requires
            n == d * q + r,
    ;
    assert(0 <= r * k < d * k) by (nonlinear_arith)
        requires
            0 <= r < d,
            k > 0,
    ;
    lemma_fundamental_div_mod_converse((n * k) as int, (d * k) as int, q as int, (r * k) as int);
    assert((2 * (r * k) < d * k) <==> (2 * r < d)) by (nonlinear_arith)
        requires
            k > 0,
    ;
    assert((2 * (r * k) == d * k) <==> (2 * r == d)) by (nonlinear_arith)
        requires
            k > 0,
    ;
}

/// The double with a sign and a magnitude.
pub open spec fn signed(negative: bool, magnitude: nat) -> u64 {
    if negative {
        (SIGN + magnitude) as u64
    } else {
        magnitude as u64
    }
}

/// The absolute value of an integer.
pub open spec fn distance(x: int) -> nat {
    if x < 0 {
        (-x) as nat
    } else {
        x as nat
    }
}

/// The double with the other sign.
pub open spec fn negated(bits: u64) -> u64 {
    if is_negative(bits) {
        (bits - SIGN) as u64
    } else {
        (bits + SIGN) as u64
    }
}

/// `a + b` in double precision.
pub open spec fn sum(a: u64, b: u64) -> u64 {
    let exact = units(a) + units(b);
    if exact == 0 {
        signed(is_negative(a) && is_negative(b), 0)
    } else {
        signed(exact < 0, rounded(distance(exact), 1))
    }
}

/// `a - b` in double precision.
pub open spec fn difference(a: u64, b: u64) -> u64 {
    sum(a, negated(b))
}

/// `a * b` in double precision.
pub open spec fn product(a: u64, b: u64) -> u64 {
    signed(
        is_negative(a) != is_negative(b),
        rounded(distance(units(a)) * distance(units(b)), pow2(ONE_SHIFT as nat)),
    )
}

/// `a / b` in double precision, for a `b` that is not zero.
pub open spec fn quotient(a: u64, b: u64) -> u64 {
    signed(
        is_negative(a) != is_negative(b),
        rounded(distance(units(a)) * pow2(ONE_SHIFT as nat), distance(units(b))),
    )
}

/// The double nearest to an integer.
pub open spec fn nearest(n: nat) -> u64 {
    signed(false, rounded(n * pow2(ONE_SHIFT as nat), 1))
}

/// The least integer that is not under `n / d`.
pub open spec fn ceiling(n: nat, d: nat) -> nat {
    if n % d == 0 {
        n / d
    } else {
        n / d + 1
    }
}

/// The least natural number that is not under a double.
pub open spec fn ceiling_of(bits: u64) -> nat {
    if units(bits) <= 0 {
        0
    } else {
        ceiling(units(bits) as nat, pow2(ONE_SHIFT as nat))
    }
}

/// An integer, or the end of the range of `i32` that is nearest to it.
pub open spec fn saturated(n: int) -> int {
    if n < i32::MIN {
        i32::MIN as int
    } else if n > i32::MAX {
        i32::MAX as int
    } else {
        n
    }
}

/// What a double is as an `i32`: without its fraction, kept in the range of the type, and
/// zero for a NaN.
pub open spec fn double_as_i32(bits: u64) -> int {
    if magnitude(bits) > 2047 * HIDDEN {
        0
    } else {
        let whole = units_of(magnitude(bits)) / pow2(ONE_SHIFT as nat);
        saturated(
            if is_negative(bits) {
                -(whole as int)
            } else {
                whole as int
            },
        )
    }
}

/// Two to the power of 23, the weight of the implicit bit of a single precision
/// significand.
pub const SINGLE_HIDDEN: u32 = 0x80_0000;

/// Two to the power of 31, the weight of the sign bit in single precision.
pub const SINGLE_SIGN: u32 = 0x8000_0000;

/// The number of single precision units in one, as a power of two. The unit is two to the
/// power of -149.
pub const SINGLE_ONE_SHIFT: u32 = 149;

/// The units that a single precision magnitude stands for.
pub open spec fn single_units_of(magnitude: nat) -> nat {
    let hidden = SINGLE_HIDDEN as nat;
    if magnitude < hidden {
        magnitude
    } else {
        (magnitude % hidden + hidden) * pow2((magnitude / hidden - 1) as nat)
    }
}

/// What a single precision number is as an `i32`.
pub open spec fn single_as_i32(bits: u32) -> int {
    let mag = (bits % SINGLE_SIGN) as nat;
    if mag > 255 * SINGLE_HIDDEN {
        0
    } else {
        let whole = single_units_of(mag) / pow2(SINGLE_ONE_SHIFT as nat);
        saturated(
            if bits >= SINGLE_SIGN {
                -(whole as int)
            } else {
                whole as int
            },
        )
    }
}

/// Neither an infinity, a NaN nor of a size near the largest doubles.
pub open spec fn is_moderate(bits: u64) -> bool {
    magnitude(bits) < 1200 * HIDDEN
}

/// `n / d` lies in the interval of width two to the power of `e` that starts at `m`
/// times that power, and at its start exactly if `inexact` is false.
pub open spec fn bracketed(n: nat, d: nat, m: nat, e: int, inexact: bool) -> bool {
    let up = if e >= 0 {
        pow2(e as nat)
    } else {
        1
    };
    let down = if e >= 0 {
        1
    } else {
        pow2((-e) as nat)
    };
    &&& m * (up * d) <= n * down
    &&& n * down < (m + 1) * (up * d)
    &&& inexact <==> m * (up * d) != n * down
}

/// What `half_even` makes of a bracketed fraction, from the bits of the bracket.
proof fn lemma_half_even_bracketed(x: nat, u: nat, m: nat, inexact: bool, t: nat)
    requires
        u > 0,
        m * u <= x,
        x < (m + 1) * u,
        inexact <==> m * u != x,
        t > 0,
    ensures
        half_even(x, u * pow2(t)) == ({
            let q = m / pow2(t);
            let rest = m % pow2(t);
            let half = pow2((t - 1) as nat);
            if rest > half || (rest == half && (inexact || q % 2 == 1)) {
                q + 1
            } else {
                q
            }
        }),
{
    let p = pow2(t);
    let half = pow2((t - 1) as nat);
    lemma_pow2_pos(t);
    lemma_pow2_pos((t - 1) as nat);
    lemma_pow2_unfold(t);
    let q = m / p;
    let rest = m % p;
    lemma_fundamental_div_mod(m as int, p as int);
    let over = (x - m * u) as nat;
    assert(over < u) by (nonlinear_arith)
        requires
            x < (m + 1) * u,
            over == x - m * u,
    ;
    let remainder = rest * u + over;
    assert(x == q * (u * p) + remainder) by (nonlinear_arith)
        requires
            m == p * q + rest,
            x == m * u + over,
            remainder == rest * u + over,
    ;
    assert(remainder < u * p) by (nonlinear_arith)
        requires
            rest + 1 <= p,
            over < u,
            remainder == rest * u + over,
    ;
    assert(u * p > 0) by (nonlinear_arith)
        requires
            u > 0,
            p > 0,
    ;
    lemma_fundamental_div_mod_converse(x as int, (u * p) as int, q as int, remainder as int);
    assert(u * p == 2 * (half * u)) by (nonlinear_arith)
        requires
            p == 2 * half,
    ;
    if rest > half {
        assert(remainder > half * u) by (nonlinear_arith)
            requires
                rest >= half + 1,
                u > 0,
                remainder == rest * u + over,
        ;
    } else if rest < half {
        assert(remainder < half * u) by (nonlinear_arith)
            requires
                rest + 1 <= half,
                over < u,
                remainder == rest * u + over,
        ;
    } else {
        assert(remainder == half * u + over);
    }
}

proof fn lemma_cancel_upper(n: int, down: int, m: int, up: int, d: int, limit: int, top: int)
    requires
        n * down < m * (up * d),
        m <= limit,
        limit * up <= top * down,
        down > 0,
        up > 0,
        d > 0,
    ensures
        n < d * top,
{
    assert(m * (up * d) <= limit * (up * d)) by (nonlinear_arith)
        requires
            m <= limit,
            up > 0,
            d > 0,
    ;
    assert(limit * (up * d) == (limit * up) * d) by (nonlinear_arith);
    assert((limit * up) * d <= (top * down) * d) by (nonlinear_arith)
        requires
            limit * up <= top * down,
            d > 0,
    ;
    assert((top * down) * d == (d * top) * down) by (nonlinear_arith);
    assert(n < d * top) by (nonlinear_arith)
        requires
            n * down < (d * top) * down,
            down > 0,
    ;
}

proof fn lemma_cancel_lower(n: int, down: int, m: int, up: int, d: int, limit: int, top: int)
    requires
        m * (up * d) <= n * down,
        limit <= m,
        limit * up >= top * down,
        down > 0,
        up > 0,
        d > 0,
    ensures
        n >= d * top,
{
    assert(m * (up * d) >= limit * (up * d)) by (nonlinear_arith)
        requires
            m >= limit,
            up > 0,
            d > 0,
    ;
    assert(limit * (up * d) == (limit * up) * d) by (nonlinear_arith);
    assert((limit * up) * d >= (top * down) * d) by (nonlinear_arith)
        requires
            limit * up >= top * down,
            d > 0,
    ;
    assert((top * down) * d == (d * top) * down) by (nonlinear_arith);
    assert(n >= d * top) by (nonlinear_arith)
        requires
            n * down >= (d * top) * down,
            down > 0,
    ;
}

/// The magnitude that `rounded` gives for a bracketed fraction whose bracket starts
/// at a number of `len` bits.
proof fn lemma_rounded_down_shift(
    n: nat,
    d: nat,
    m: nat,
    e: int,
    inexact: bool,
    len: nat,
    s: nat,
    t: nat,
)
    requires
        d > 0,
        bracketed(n, d, m, e, inexact),
        m < pow2(len),
        len > 0 ==> m >= pow2((len - 1) as nat),
        len + e - 53 <= s,
        s == 0 || (s == len + e - 53 && len > 0),
        t == s - e,
        t > 0,
    ensures
        scale(n, d) == s,
        half_even(n, d * pow2(s)) == ({
            let q = m / pow2(t);
            let rest = m % pow2(t);
            let half = pow2((t - 1) as nat);
            if rest > half || (rest == half && (inexact || q % 2 == 1)) {
                q + 1
            } else {
                q
            }
        }),
{
    let a = if e >= 0 {
        e as nat
    } else {
        0
    };
    let b = if e >= 0 {
        0
    } else {
        (-e) as nat
    };
    lemma2_to64();
    let up = pow2(a);
    let down = pow2(b);
    assert(e >= 0 ==> down == 1);
    assert(e < 0 ==> up == 1);
    lemma_pow2_pos(a);
    lemma_pow2_pos(b);
    let u = up * d;
    let x = n * down;
    assert(u > 0) by (nonlinear_arith)
        requires
            up > 0,
            d > 0,
            u == up * d,
    ;
    // n < d * 2^(53 + s)
    lemma_pow2_adds(len, a);
    lemma_pow2_adds(53 + s, b);
    if len + a < 53 + s + b {
        lemma_pow2_strictly_increases(len + a, 53 + s + b);
    }
    assert(pow2(len + a) <= pow2(53 + s + b));
    lemma_cancel_upper(
        n as int,
        down as int,
        (m + 1) as int,
        up as int,
        d as int,
        pow2(len) as int,
        pow2(53 + s) as int,
    );
    if s > 0 {
        lemma_pow2_adds((len - 1) as nat, a);
        lemma_pow2_adds((52 + s) as nat, b);
        assert(len - 1 + a == 52 + s + b);
        lemma_cancel_lower(
            n as int,
            down as int,
            m as int,
            up as int,
            d as int,
            pow2((len - 1) as nat) as int,
            pow2((52 + s) as nat) as int,
        );
    }
    lemma_scale(n, d, s);
    lemma_pow2_pos(s);
    lemma_half_even_bracketed(x, u, m, inexact, t);
    // d * 2^s * down == u * 2^t
    lemma_pow2_adds(s, b);
    lemma_pow2_adds(a, t);
    assert(s + b == a + t);
    assert((d * pow2(s)) * down == u * pow2(t)) by (nonlinear_arith)
        requires
            pow2(s) * down == up * pow2(t),
            u == up * d,
    ;
    assert(d * pow2(s) > 0) by (nonlinear_arith)
        requires
            d > 0,
            pow2(s) > 0,
    ;
    lemma_half_even_scaled(n, d * pow2(s), down);
}

/// The magnitude that `rounded` gives for a whole number of units of at most 53
/// significant bits.
proof fn lemma_rounded_exact(n: nat, d: nat, m: nat, e: nat, s: nat)
    requires
        d > 0,
        n == m * (pow2(e) * d),
        s <= e,
        m * pow2((e - s) as nat) < pow2(53),
        s == 0 || m * pow2((e - s) as nat) >= pow2(52),
    ensures
        scale(n, d) == s,
        half_even(n, d * pow2(s)) == m * pow2((e - s) as nat),
{
    let w = (e - s) as nat;
    let whole = m * pow2(w);
    lemma_pow2_adds(w, s);
    lemma_pow2_pos(s);
    assert(n == whole * (d * pow2(s))) by (nonlinear_arith)
        requires
            n == m * (pow2(e) * d),
            whole == m * pow2(w),
            pow2(e) == pow2(w) * pow2(s),
    ;
    let unit = d * pow2(s);
    assert(unit > 0) by (nonlinear_arith)
        requires
            d > 0,
            pow2(s) > 0,
            unit == d * pow2(s),
    ;
    lemma_pow2_adds(53, s);
    lemma_mul_is_associative(d as int, pow2(s) as int, pow2(53) as int);
    lemma_mul_is_commutative(pow2(53) as int, pow2(s) as int);
    lemma_mul_strict_inequality(whole as int, pow2(53) as int, unit as int);
    lemma_mul_is_commutative(pow2(53) as int, unit as int);
    if s > 0 {
        lemma_pow2_adds(52, s);
        lemma_mul_is_associative(d as int, pow2(s) as int, pow2(52) as int);
        lemma_mul_is_commutative(pow2(52) as int, pow2(s) as int);
        lemma_mul_inequality(pow2(52) as int, whole as int, unit as int);
        lemma_mul_is_commutative(pow2(52) as int, unit as int);
    }
    lemma_scale(n, d, s);
    lemma_fundamental_div_mod_converse(n as int, unit as int, whole as int, 0);
}

/// Two to the power of `k`.
fn power(k: u32) -> (p: u128)
    requires
        k <= 127,
    ensures
        p == pow2(k as nat),
{
    let mut p: u128 = 1;
    let mut i: u32 = 0;
    proof {
        lemma2_to64();
    }
    while i < k
        invariant
            i <= k <= 127,
            p == pow2(i as nat),
        decreases k - i,
    {
        proof {
            lemma_pow2_unfold((i + 1) as nat);
            lemma_pow2_127();
            lemma_pow2_ordered((i + 1) as nat, 127);
        }
        p = p * 2;
        i = i + 1;
    }
    p
}

proof fn lemma_pow2_127()
    ensures
        pow2(127) == 0x8000_0000_0000_0000_0000_0000_0000_0000,
{
    lemma2_to64_rest();
    lemma_pow2_adds(63, 64);
    assert(0x8000_0000_0000_0000int * 0x1_0000_0000_0000_0000int
        == 0x8000_0000_0000_0000_0000_0000_0000_0000int);
}

proof fn lemma_pow2_ordered(a: nat, b: nat)
    requires
        a <= b,
    ensures
        pow2(a) <= pow2(b),
{
    if a < b {
        lemma_pow2_strictly_increases(a, b);
    }
}

/// The number of binary digits of `m`.
fn bit_length(m: u128) -> (len: u32)
    requires
        m < pow2(127),
    ensures
        len <= 127,
        m < pow2(len as nat),
        len > 0 ==> m >= pow2((len - 1) as nat),
{
    let mut p: u128 = 1;
    let mut len: u32 = 0;
    proof {
        lemma2_to64();
    }
    while p <= m
        invariant
            len <= 127,
            m < pow2(127),
            p == pow2(len as nat),
            len > 0 ==> m >= pow2((len - 1) as nat),
        decreases 127 - len,
    {
        proof {
            if len >= 127 {
                lemma_pow2_ordered(127, len as nat);
            }
            lemma_pow2_unfold((len + 1) as nat);
            lemma_pow2_127();
            lemma_pow2_ordered((len + 1) as nat, 127);
        }
        p = p * 2;
        len = len + 1;
    }
    len
}

/// The magnitude of the double nearest to the fraction `n / d`, of which the bracket
/// is known.
fn round_bracket(m: u128, e: i32, inexact: bool, Ghost(n): Ghost<nat>, Ghost(d): Ghost<nat>) -> (mag:
    u64)
    requires
        d > 0,
        m < pow2(127),
        -4000 <= e <= 1900,
        inexact ==> m >= pow2(54),
        bracketed(n, d, m as nat, e as int, inexact),
    ensures
        mag == rounded(n, d),
        mag < 2047 * HIDDEN,
{
    if m == 0 {
        proof {
            lemma_pow2_pos(54);
            let down = if e >= 0 {
                1
            } else {
                pow2((-e) as nat)
            };
            let up = if e >= 0 {
                pow2(e as nat)
            } else {
                1
            };
            lemma_pow2_pos((-e) as nat);
            lemma_mul_basics((up * d) as int);
            assert(n == 0) by (nonlinear_arith)
                requires
                    n * down == 0,
                    down > 0,
            ;
            lemma_pow2_pos(53);
            lemma_mul_strictly_positive(d as int, pow2(53) as int);
            lemma2_to64();
            assert(scale(0, d) == 0);
            lemma_fundamental_div_mod_converse(0, d as int, 0, 0);
        }
        return 0;
    }
    let len = bit_length(m);
    proof {
        lemma2_to64();
        if inexact {
            if len < 55 {
                lemma_pow2_ordered(len as nat, 54);
            }
        }
    }
    let wanted: i32 = len as i32 + e - 53;
    let s: i32 = if wanted > 0 {
        wanted
    } else {
        0
    };
    let t: i32 = s - e;
    if t <= 0 {
        let w: u32 = (-t) as u32;
        let p = power(w);
        proof {
            lemma_pow2_pos(w as nat);
            lemma_pow2_adds(len as nat, w as nat);
            lemma_pow2_ordered((len + w) as nat, 53);
            lemma2_to64_rest();
            lemma_mul_strict_inequality(m as int, pow2(len as nat) as int, p as int);
            if s > 0 {
                lemma_pow2_adds((len - 1) as nat, w as nat);
                lemma_mul_inequality(pow2((len - 1) as nat) as int, m as int, p as int);
            }
            lemma_rounded_exact(n, d, m as nat, e as nat, s as nat);
        }
        return s as u64 * HIDDEN + (m * p) as u64;
    }
    proof {
        lemma_rounded_down_shift(
            n,
            d,
            m as nat,
            e as int,
            inexact,
            len as nat,
            s as nat,
            t as nat,
        );
        // the quotient has at most 53 bits
        lemma_pow2_pos(t as nat);
        lemma_pow2_adds(53, t as nat);
        lemma_pow2_ordered(len as nat, (53 + t) as nat);
        lemma_div_is_ordered(m as int, pow2((53 + t) as nat) as int, pow2(t as nat) as int);
        lemma_div_multiples_vanish(pow2(53) as int, pow2(t as nat) as int);
        lemma2_to64_rest();
        lemma_mul_is_commutative(pow2(53) as int, pow2(t as nat) as int);
        assert(m as int / pow2(t as nat) as int <= pow2(53));
    }
    if t > 127 {
        proof {
            lemma_pow2_ordered(127, (t - 1) as nat);
            lemma_pow2_ordered(127, t as nat);
            lemma_fundamental_div_mod_converse(m as int, pow2(t as nat) as int, 0, m as int);
        }
        return s as u64 * HIDDEN;
    }
    let p = power(t as u32);
    let half = power((t - 1) as u32);
    let q = m / p;
    let rest = m % p;
    assert(q <= 2 * HIDDEN);
    assert(s * HIDDEN <= 1974 * HIDDEN);
    let up: u64 = if rest > half || (rest == half && (inexact || q % 2 == 1)) {
        1
    } else {
        0
    };
    s as u64 * HIDDEN + q as u64 + up
}

/// `scale` is the least power of two that does.
proof fn lemma_scale_bounds(n: nat, d: nat)
    requires
        d > 0,
    ensures
        n < d * pow2(53 + scale(n, d)),
        scale(n, d) > 0 ==> n >= d * pow2((52 + scale(n, d)) as nat),
    decreases n - d,
{
    if n >= d * pow2(53) {
        assert(d * pow2(53) >= 2 * d) by {
            lemma2_to64_rest();
            lemma_mul_inequality(2, pow2(53) as int, d as int);
            lemma_mul_is_commutative(d as int, pow2(53) as int);
        }
        lemma_scale_bounds(n, 2 * d);
        let s = scale(n, 2 * d);
        lemma_pow2_unfold(54 + s);
        lemma_mul_is_associative(d as int, 2, pow2(53 + s) as int);
        lemma_mul_is_commutative(d as int, 2);
        lemma_pow2_unfold(53 + s);
        lemma_mul_is_associative(d as int, 2, pow2((52 + s) as nat) as int);
    }
}

/// Of two fractions, the smaller one has the smaller nearest integer.
proof fn lemma_half_even_ordered(n1: nat, d1: nat, n2: nat, d2: nat)
    requires
        d1 > 0,
        d2 > 0,
        n1 * d2 <= n2 * d1,
    ensures
        half_even(n1, d1) <= half_even(n2, d2),
{
    let (q1, r1) = (n1 / d1, n1 % d1);
    let (q2, r2) = (n2 / d2, n2 % d2);
    lemma_fundamental_div_mod(n1 as int, d1 as int);
    lemma_fundamental_div_mod(n2 as int, d2 as int);
    assert(n1 * d2 == q1 * (d1 * d2) + r1 * d2) by (nonlinear_arith)
        requires
            n1 == d1 * q1 + r1,
    ;
    assert(n2 * d1 == q2 * (d1 * d2) + r2 * d1) by (nonlinear_arith)
        requires
            n2 == d2 * q2 + r2,
    ;
    assert(r2 * d1 < d1 * d2) by (nonlinear_arith)
        requires
            r2 < d2,
            d1 > 0,
    ;
    assert(0 <= r1 * d2) by (nonlinear_arith);
    assert(q1 <= q2) by (nonlinear_arith)
        requires
            q1 * (d1 * d2) + r1 * d2 <= q2 * (d1 * d2) + r2 * d1,
            r2 * d1 < d1 * d2,
            0 <= r1 * d2,
    ;
    if q1 == q2 {
        assert(r1 * d2 <= r2 * d1);
        assert(2 * r2 < d2 ==> 2 * r1 < d1) by (nonlinear_arith)
            requires
                r1 * d2 <= r2 * d1,
                d1 > 0,
                d2 > 0,
        ;
        assert(2 * r2 == d2 ==> 2 * r1 <= d1) by (nonlinear_arith)
            requires
                r1 * d2 <= r2 * d1,
                d1 > 0,
                d2 > 0,
        ;
    }
}

/// Rounding keeps the order of fractions.
pub proof fn lemma_rounded_ordered(n1: nat, d1: nat, n2: nat, d2: nat)
    requires
        d1 > 0,
        d2 > 0,
        n1 * d2 <= n2 * d1,
    ensures
        rounded(n1, d1) <= rounded(n2, d2),
{
    let s1 = scale(n1, d1);
    let s2 = scale(n2, d2);
    lemma_scale_bounds(n1, d1);
    lemma_scale_bounds(n2, d2);
    lemma_pow2_pos(s1);
    lemma_pow2_pos(s2);
    lemma_mul_strictly_positive(d1 as int, pow2(s1) as int);
    lemma_mul_strictly_positive(d2 as int, pow2(s2) as int);
    if s1 > s2 {
        let top = pow2(53 + s2);
        lemma_pow2_ordered(53 + s2, (52 + s1) as nat);
        lemma_mul_inequality(top as int, pow2((52 + s1) as nat) as int, d1 as int);
        lemma_mul_is_commutative(top as int, d1 as int);
        lemma_mul_is_commutative(pow2((52 + s1) as nat) as int, d1 as int);
        assert(n1 * d2 > n2 * d1) by (nonlinear_arith)
            requires
                n1 >= d1 * top,
                n2 < d2 * top,
                d1 > 0,
                d2 > 0,
        ;
    } else if s1 == s2 {
        let p = pow2(s1);
        assert(n1 * (d2 * p) <= n2 * (d1 * p)) by (nonlinear_arith)
            requires
                n1 * d2 <= n2 * d1,
        ;
        lemma_half_even_ordered(n1, d1 * p, n2, d2 * p);
    } else {
        // n1 / (d1 * 2^s1) <= 2^53 and n2 / (d2 * 2^s2) >= 2^52
        let (u1, u2) = (d1 * pow2(s1), d2 * pow2(s2));
        lemma_pow2_adds(53, s1);
        lemma_pow2_adds(52, s2);
        assert(n1 * 1 <= pow2(53) * u1) by (nonlinear_arith)
            requires
                n1 < d1 * pow2(53 + s1),
                pow2(53 + s1) == pow2(53) * pow2(s1),
                u1 == d1 * pow2(s1),
        ;
        assert(pow2(52) * u2 <= n2 * 1) by (nonlinear_arith)
            requires
                n2 >= d2 * pow2((52 + s2) as nat),
                pow2((52 + s2) as nat) == pow2(52) * pow2(s2),
                u2 == d2 * pow2(s2),
        ;
        lemma_half_even_ordered(n1, u1, pow2(53), 1);
        lemma_half_even_ordered(pow2(52), 1, n2, u2);
        lemma_fundamental_div_mod_converse(pow2(53) as int, 1, pow2(53) as int, 0);
        lemma_fundamental_div_mod_converse(pow2(52) as int, 1, pow2(52) as int, 0);
        lemma2_to64_rest();
    }
}

/// The bounds of the parts of a magnitude.
proof fn lemma_parts(mag: nat)
    ensures
        significand_of(mag) < pow2(53),
        shift_of(mag) > 0 ==> significand_of(mag) >= pow2(52),
        mag == shift_of(mag) * (HIDDEN as nat) + significand_of(mag),
{
    lemma2_to64_rest();
    lemma_fundamental_div_mod(mag as int, HIDDEN as int);
    if mag < HIDDEN {
        lemma_fundamental_div_mod_converse(mag as int, HIDDEN as int, 0, mag as int);
    } else {
        lemma_div_is_ordered(HIDDEN as int, mag as int, HIDDEN as int);
    }
}

/// A double is its own rounding.
pub proof fn lemma_rounded_double(mag: nat)
    ensures
        rounded(units_of(mag), 1) == mag,
{
    lemma_parts(mag);
    let (m, s) = (significand_of(mag), shift_of(mag));
    lemma2_to64();
    assert(m * pow2(0) == m);
    assert(units_of(mag) == m * (pow2(s) * 1));
    lemma_rounded_exact(units_of(mag), 1, m, s, s);
}

/// A greater magnitude stands for more units.
pub proof fn lemma_units_ordered(left: nat, right: nat)
    ensures
        left < right <==> units_of(left) < units_of(right),
        left == right <==> units_of(left) == units_of(right),
{
    lemma_rounded_double(left);
    lemma_rounded_double(right);
    if units_of(left) <= units_of(right) {
        lemma_rounded_ordered(units_of(left), 1, units_of(right), 1);
    }
    if units_of(left) >= units_of(right) {
        lemma_rounded_ordered(units_of(right), 1, units_of(left), 1);
    }
}

/// A power of two as a magnitude.
pub proof fn lemma_power_magnitude(field: nat)
    requires
        field > 0,
    ensures
        units_of(field * (HIDDEN as nat)) == pow2((51 + field) as nat),
{
    let mag = field * (HIDDEN as nat);
    lemma_fundamental_div_mod_converse(mag as int, HIDDEN as int, field as int, 0);
    lemma_mul_inequality(1, field as int, HIDDEN as int);
    lemma2_to64_rest();
    lemma_pow2_adds(52, (field - 1) as nat);
}

/// A fraction of at most a power of two has a rounding of at most that power.
pub proof fn lemma_rounded_bound(n: nat, d: nat, field: nat)
    requires
        d > 0,
        field > 0,
        n <= d * pow2((51 + field) as nat),
    ensures
        rounded(n, d) <= field * (HIDDEN as nat),
{
    lemma_power_magnitude(field);
    lemma_rounded_double(field * (HIDDEN as nat));
    lemma_mul_is_commutative(d as int, pow2((51 + field) as nat) as int);
    lemma_rounded_ordered(n, d, pow2((51 + field) as nat), 1);
}

/// A magnitude up to that of a power of two stands for at most that power.
pub proof fn lemma_units_bound(mag: nat, field: nat)
    requires
        field > 0,
        mag <= field * (HIDDEN as nat),
    ensures
        units_of(mag) <= pow2((51 + field) as nat),
{
    lemma_power_magnitude(field);
    lemma_units_ordered(mag, field * (HIDDEN as nat));
}

/// An integer of up to 64 bits is at least one, and under two to the power of 64, in
/// units too.
pub proof fn lemma_count_bounds(n: u64)
    requires
        n > 0,
    ensures
        pow2(ONE_SHIFT as nat) <= distance(units(nearest(n as nat))),
        distance(units(nearest(n as nat))) <= pow2(1138),
{
    let one = pow2(ONE_SHIFT as nat);
    lemma_pow2_pos(ONE_SHIFT as nat);
    lemma_pow2_adds(64, ONE_SHIFT as nat);
    lemma2_to64_rest();
    lemma_mul_inequality(n as int, pow2(64) as int, one as int);
    lemma_rounded_bound((n * one) as nat, 1, 1087);
    lemma_mul_inequality(1, n as int, one as int);
    lemma_power_magnitude(1023);
    lemma_rounded_double((1023 * HIDDEN) as nat);
    lemma_rounded_ordered(one, 1, (n * one) as nat, 1);
    let mag = rounded((n * one) as nat, 1);
    lemma_units_bound(mag, 1087);
    lemma_units_ordered((1023 * HIDDEN) as nat, mag);
}

/// The nearest integer is off by at most one half, and no integer is nearer.
proof fn lemma_half_even_nearest(n: nat, d: nat, k: int)
    requires
        d > 0,
    ensures
        2 * distance(half_even(n, d) * d - n) <= d,
        distance(half_even(n, d) * d - n) <= distance(k * d - n),
{
    let q = n / d;
    let r = n % d;
    lemma_fundamental_div_mod(n as int, d as int);
    assert(n == q * d + r) by (nonlinear_arith)
        requires
            n == d * q + r,
    ;
    assert((q + 1) * d == q * d + d) by (nonlinear_arith);
    if k <= q {
        assert(k * d <= q * d) by (nonlinear_arith)
            requires
                k <= q,
                d > 0,
        ;
    } else {
        assert(k * d >= q * d + d) by (nonlinear_arith)
            requires
                k >= q + 1,
                d > 0,
        ;
    }
}

/// The units of a rounded fraction: the nearest multiple of the power of two by which its
/// significand counts.
pub proof fn lemma_rounded_units(n: nat, d: nat)
    requires
        d > 0,
    ensures
        units_of(rounded(n, d)) == half_even(n, d * pow2(scale(n, d))) * pow2(scale(n, d)),
        half_even(n, d * pow2(scale(n, d))) <= pow2(53),
        scale(n, d) > 0 ==> half_even(n, d * pow2(scale(n, d))) >= pow2(52),
{
    let s = scale(n, d);
    let p = pow2(s);
    let h = half_even(n, d * p);
    lemma_scale_bounds(n, d);
    lemma_pow2_pos(s);
    lemma_mul_strictly_positive(d as int, p as int);
    lemma_pow2_adds(53, s);
    lemma2_to64_rest();
    // the nearest integer to at most a power of two is at most that power
    assert(n * 1 <= pow2(53) * (d * p)) by {
        lemma_mul_is_commutative(pow2(53) as int, p as int);
        lemma_mul_is_associative(d as int, p as int, pow2(53) as int);
        lemma_mul_is_commutative((d * p) as int, pow2(53) as int);
    }
    lemma_half_even_ordered(n, d * p, pow2(53), 1);
    assert(half_even(pow2(53), 1) == pow2(53));
    if s > 0 {
        lemma_pow2_adds(52, s);
        assert(pow2(52) * (d * p) <= n * 1) by {
            lemma_mul_is_commutative(pow2(52) as int, p as int);
            lemma_mul_is_associative(d as int, p as int, pow2(52) as int);
            lemma_mul_is_commutative((d * p) as int, pow2(52) as int);
        }
        lemma_half_even_ordered(pow2(52), 1, n, d * p);
        assert(half_even(pow2(52), 1) == pow2(52));
    }
    let mag = rounded(n, d);
    if h == 2 * HIDDEN {
        lemma_fundamental_div_mod_converse(mag as int, HIDDEN as int, (s + 2) as int, 0);
        lemma_pow2_unfold(s + 1);
        lemma_mul_is_associative(HIDDEN as int, 2, p as int);
        lemma_mul_nonnegative(s as int, HIDDEN as int);
    } else if h >= HIDDEN {
        lemma_fundamental_div_mod_converse(mag as int, HIDDEN as int, (s + 1) as int, h - HIDDEN);
        lemma_mul_nonnegative(s as int, HIDDEN as int);
    } else {
        lemma2_to64();
        lemma_fundamental_div_mod_converse(mag as int, HIDDEN as int, 0, mag as int);
    }
}

/// No double is nearer to a fraction than the one that it is rounded to.
pub proof fn law_rounded_nearest(n: nat, d: nat, mag: nat)
    requires
        d > 0,
    ensures
        distance(units_of(rounded(n, d)) * d - n) <= distance(units_of(mag) * d - n),
{
    let s = scale(n, d);
    let p = pow2(s);
    let h = half_even(n, d * p);
    lemma_rounded_units(n, d);
    lemma_pow2_pos(s);
    lemma_mul_strictly_positive(d as int, p as int);
    assert(h * (d * p) == (h * p) * d) by (nonlinear_arith);
    lemma_parts(mag);
    let (m, t) = (significand_of(mag), shift_of(mag));
    if t >= s {
        // a multiple of the same power of two
        let w = pow2((t - s) as nat);
        lemma_pow2_adds((t - s) as nat, s);
        lemma_half_even_nearest(n, d * p, (m * w) as int);
        assert((m * w) * (d * p) == (m * (w * p)) * d) by (nonlinear_arith);
    } else {
        // below all doubles whose significand counts by that power
        lemma_scale_bounds(n, d);
        lemma_half_even_nearest(n, d * p, pow2(52) as int);
        lemma_pow2_adds(52, s);
        lemma_pow2_adds(53, t);
        lemma_pow2_ordered(53 + t, 52 + s);
        lemma_pow2_pos(t);
        lemma_mul_strict_inequality(m as int, pow2(53) as int, pow2(t) as int);
        assert(pow2(52) * (d * p) == d * pow2(52 + s)) by (nonlinear_arith)
            requires
                pow2(52 + s) == pow2(52) * p,
        ;
        assert(units_of(mag) * d <= d * pow2(52 + s)) by (nonlinear_arith)
            requires
                units_of(mag) <= pow2(52 + s),
                d > 0,
        ;
    }
}

/// A fraction is rounded up by at most half a unit, or one part in two to the power of 53.
pub proof fn lemma_rounding_error(n: nat, d: nat)
    requires
        d > 0,
    ensures
        (units_of(rounded(n, d)) * d) * (4 * HIDDEN) <= n * (4 * HIDDEN + 2) + d * (2 * HIDDEN),
        d == 1 ==> units_of(rounded(n, d)) * (2 * HIDDEN) <= n * (2 * HIDDEN + 1),
{
    let s = scale(n, d);
    let p = pow2(s);
    let h = half_even(n, d * p);
    lemma_rounded_units(n, d);
    lemma_pow2_pos(s);
    lemma_mul_strictly_positive(d as int, p as int);
    lemma_half_even_nearest(n, d * p, 0);
    let u = h * p;
    assert(h * (d * p) == u * d) by (nonlinear_arith)
        requires
            u == h * p,
    ;
    assert(2 * (u * d) <= 2 * n + d * p);
    lemma2_to64_rest();
    if s == 0 {
        lemma2_to64();
        assert(d * p == d);
        if d == 1 {
            assert(d * p == 1);
            assert(h == n);
            assert(u * (2 * HIDDEN) <= n * (2 * HIDDEN + 1)) by (nonlinear_arith)
                requires
                    u == n,
            ;
        }
        assert((u * d) * (4 * HIDDEN) <= n * (4 * HIDDEN + 2) + d * (2 * HIDDEN))
            by (nonlinear_arith)
            requires
                2 * (u * d) <= 2 * n + d,
        ;
    } else {
        lemma_scale_bounds(n, d);
        lemma_pow2_adds(52, s);
        assert(d * pow2((52 + s) as nat) == (d * p) * pow2(52)) by (nonlinear_arith)
            requires
                pow2((52 + s) as nat) == pow2(52) * p,
        ;
        assert(pow2(52) == HIDDEN);
        let c = d * p;
        assert(c * HIDDEN <= n);
        assert((u * d) * (4 * HIDDEN) <= n * (4 * HIDDEN + 2) + d * (2 * HIDDEN))
            by (nonlinear_arith)
            requires
                2 * (u * d) <= 2 * n + c,
                c * HIDDEN <= n,
        ;
        if d == 1 {
            assert(u * (2 * HIDDEN) <= n * (2 * HIDDEN + 1)) by (nonlinear_arith)
                requires
                    2 * u <= 2 * n + c,
                    c * HIDDEN <= n,
            ;
        }
    }
}

/// What a double with a sign and a magnitude stands for.
pub proof fn lemma_signed_units(negative: bool, mag: nat)
    requires
        mag < SIGN,
    ensures
        magnitude(signed(negative, mag)) == mag,
        is_negative(signed(negative, mag)) == negative,
        units(signed(negative, mag)) == if negative {
            -units_of(mag)
        } else {
            units_of(mag) as int
        },
{
}

/// A greater integer has a nearest double that is not less, and none is negative.
pub proof fn lemma_nearest_ordered(low: u64, high: u64)
    requires
        low <= high,
    ensures
        0 <= units(nearest(low as nat)) <= units(nearest(high as nat)) <= pow2(1138),
        !is_negative(nearest(low as nat)),
        !is_negative(nearest(high as nat)),
{
    let one = pow2(ONE_SHIFT as nat);
    lemma_pow2_pos(ONE_SHIFT as nat);
    lemma_pow2_adds(64, ONE_SHIFT as nat);
    lemma2_to64_rest();
    lemma_mul_inequality(low as int, high as int, one as int);
    lemma_mul_inequality(high as int, pow2(64) as int, one as int);
    let below = rounded((low * one) as nat, 1);
    let above = rounded((high * one) as nat, 1);
    lemma_rounded_bound((low * one) as nat, 1, 1087);
    lemma_rounded_bound((high * one) as nat, 1, 1087);
    lemma_rounded_ordered((low * one) as nat, 1, (high * one) as nat, 1);
    lemma_signed_units(false, below);
    lemma_signed_units(false, above);
    lemma_units_ordered(above, below);
    lemma_units_bound(above, 1087);
}

/// The units of the double nearest to an integer number of units.
pub open spec fn rounded_units(exact: int) -> int {
    if exact < 0 {
        -units_of(rounded(distance(exact), 1))
    } else {
        units_of(rounded(distance(exact), 1)) as int
    }
}

/// What a sum of two doubles stands for.
pub proof fn lemma_sum_units(a: u64, b: u64)
    requires
        magnitude(a) <= 1096 * HIDDEN,
        magnitude(b) <= 1096 * HIDDEN,
    ensures
        units(sum(a, b)) == rounded_units(units(a) + units(b)),
        magnitude(sum(a, b)) <= 1097 * HIDDEN,
{
    lemma_units_bound(magnitude(a), 1096);
    lemma_units_bound(magnitude(b), 1096);
    lemma_pow2_unfold(1148);
    let exact = units(a) + units(b);
    lemma_rounded_bound(distance(exact), 1, 1097);
    lemma_mul_by_zero_is_zero(pow2(shift_of(0)) as int);
    assert(significand_of(0) == 0);
    lemma_rounded_double(0);
    lemma_signed_units(is_negative(a) && is_negative(b), 0);
    lemma_signed_units(exact < 0, rounded(distance(exact), 1));
}

/// A greater summand makes a sum that is not less.
pub proof fn lemma_sum_ordered(a: u64, b: u64, c: u64)
    requires
        magnitude(a) <= 1096 * HIDDEN,
        magnitude(b) <= 1096 * HIDDEN,
        magnitude(c) <= 1096 * HIDDEN,
        units(b) <= units(c),
    ensures
        units(sum(a, b)) <= units(sum(a, c)),
{
    lemma_sum_units(a, b);
    lemma_sum_units(a, c);
    let low = units(a) + units(b);
    let high = units(a) + units(c);
    let below = rounded(distance(low), 1);
    let above = rounded(distance(high), 1);
    if distance(low) <= distance(high) {
        lemma_rounded_ordered(distance(low), 1, distance(high), 1);
    } else {
        lemma_rounded_ordered(distance(high), 1, distance(low), 1);
    }
    lemma_units_ordered(below, above);
}

/// An integer of at most 53 bits is a double.
pub proof fn lemma_nearest_exact(n: u64)
    requires
        n < 2 * HIDDEN,
    ensures
        units(nearest(n as nat)) == n * pow2(ONE_SHIFT as nat),
        !is_negative(nearest(n as nat)),
{
    let one = pow2(ONE_SHIFT as nat);
    let whole = (n * one) as nat;
    let s = scale(whole, 1);
    lemma2_to64_rest();
    lemma_pow2_pos(ONE_SHIFT as nat);
    lemma_pow2_adds(53, ONE_SHIFT as nat);
    lemma_mul_strict_inequality(n as int, pow2(53) as int, one as int);
    lemma_pow2_ordered(1127, 1138);
    lemma_rounded_bound(whole, 1, 1087);
    lemma_signed_units(false, rounded(whole, 1));
    lemma_rounded_units(whole, 1);
    lemma_scale_bounds(whole, 1);
    if s > ONE_SHIFT {
        lemma_pow2_ordered((53 + ONE_SHIFT) as nat, (52 + s) as nat);
    }
    // the power of two by which the significand counts divides the integer
    let w = (ONE_SHIFT - s) as nat;
    lemma_pow2_adds(w, s);
    lemma_pow2_pos(s);
    lemma_mul_is_associative(n as int, pow2(w) as int, pow2(s) as int);
    lemma_fundamental_div_mod_converse(whole as int, pow2(s) as int, n * pow2(w), 0);
}

/// The significand of a double and the power of two by which it counts.
fn parts(bits: u64) -> (r: (u64, u32))
    requires
        is_moderate(bits),
    ensures
        r.0 == significand_of(magnitude(bits)),
        r.1 == shift_of(magnitude(bits)),
        r.0 < pow2(53),
        r.1 < 1200,
        r.1 > 0 ==> r.0 >= pow2(52),
        distance(units(bits)) == r.0 * pow2(r.1 as nat),
{
    let mag: u64 = bits % SIGN;
    let field: u64 = mag / HIDDEN;
    proof {
        lemma_parts(mag as nat);
        lemma_fundamental_div_mod(mag as int, HIDDEN as int);
        lemma_div_is_ordered(mag as int, 1200 * HIDDEN, HIDDEN as int);
        if mag < HIDDEN {
            lemma_fundamental_div_mod_converse(mag as int, HIDDEN as int, 0, mag as int);
        } else {
            lemma_div_is_ordered(HIDDEN as int, mag as int, HIDDEN as int);
        }
        lemma2_to64_rest();
    }
    if field == 0 {
        (mag, 0)
    } else {
        (mag % HIDDEN + HIDDEN, (field - 1) as u32)
    }
}

/// The double with a sign and a magnitude.
fn with_sign(negative: bool, mag: u64) -> (bits: u64)
    requires
        mag < SIGN,
    ensures
        bits == signed(negative, mag as nat),
        magnitude(bits) == mag,
        is_negative(bits) == negative,
{
    if negative {
        SIGN + mag
    } else {
        mag
    }
}

/// The sum of two numbers of units whose significands do not reach each other.
fn add_far(nx: bool, mx: u64, sx: u32, ny: bool, my: u64, sy: u32) -> (bits: u64)
    requires
        mx < pow2(53),
        my < pow2(53),
        mx >= pow2(52),
        sx < 1200,
        sx > sy + 70,
    ensures
        ({
            let x = if nx {
                -(mx * pow2(sx as nat))
            } else {
                mx * pow2(sx as nat)
            };
            let y = if ny {
                -(my * pow2(sy as nat))
            } else {
                my * pow2(sy as nat)
            };
            &&& x + y != 0
            &&& bits == signed(x + y < 0, rounded(distance(x + y), 1))
        }),
        is_finite(bits),
{
    let base: u128 = mx as u128 * 65536;
    let e: i32 = sx as i32 - 16;
    let ghost width = pow2((sx - 16) as nat);
    let ghost big = mx * pow2(sx as nat);
    let ghost small = my * pow2(sy as nat);
    proof {
        lemma2_to64();
        lemma2_to64_rest();
        lemma_pow2_127();
        lemma_pow2_pos((sx - 16) as nat);
        lemma_pow2_adds(16, (sx - 16) as nat);
        lemma_mul_is_associative(mx as int, 65536, width as int);
        assert(big == base * width);
        lemma_pow2_adds(53, sy as nat);
        lemma_pow2_ordered((53 + sy) as nat, (sx - 16) as nat);
        lemma_pow2_pos(sy as nat);
        lemma_mul_strict_inequality(my as int, pow2(53) as int, pow2(sy as nat) as int);
        assert(small < width);
        assert(my == 0 ==> small == 0);
        assert(my > 0 ==> small > 0) by {
            if my > 0 {
                lemma_mul_strictly_positive(my as int, pow2(sy as nat) as int);
            }
        }
        assert(base >= pow2(54) + 1);
        assert(base + 1 < pow2(127));
        lemma_mul_inequality(1, base as int, width as int);
        lemma_mul_is_distributive_add(width as int, base as int, 1);
        lemma_mul_is_distributive_sub(width as int, base as int, 1);
        lemma_mul_is_commutative(width as int, base as int);
        lemma_mul_is_commutative(width as int, base + 1);
        lemma_mul_is_commutative(width as int, base - 1);
    }
    let mag = if nx == ny || my == 0 {
        round_bracket(base, e, my != 0, Ghost((big + small) as nat), Ghost(1))
    } else {
        round_bracket(base - 1, e, true, Ghost((big - small) as nat), Ghost(1))
    };
    with_sign(nx, mag)
}

/// The sum of two numbers of units of nearby scale.
fn add_near(nx: bool, mx: u64, sx: u32, ny: bool, my: u64, sy: u32) -> (bits: u64)
    requires
        mx < pow2(53),
        my < pow2(53),
        sx < 1200,
        sy <= sx <= sy + 70,
    ensures
        ({
            let x = if nx {
                -(mx * pow2(sx as nat))
            } else {
                mx * pow2(sx as nat)
            };
            let y = if ny {
                -(my * pow2(sy as nat))
            } else {
                my * pow2(sy as nat)
            };
            bits == if x + y == 0 {
                signed(nx && ny, 0)
            } else {
                signed(x + y < 0, rounded(distance(x + y), 1))
            }
        }),
        is_finite(bits),
{
    let g: u32 = sx - sy;
    let p = power(g);
    let ghost unit = pow2(sy as nat);
    proof {
        lemma2_to64_rest();
        lemma_pow2_127();
        lemma_pow2_ordered(g as nat, 70);
        lemma_pow2_pos(g as nat);
        lemma_pow2_adds(53, g as nat);
        lemma_pow2_ordered((53 + g) as nat, 123);
        lemma_pow2_unfold(124);
        lemma_pow2_unfold(125);
        lemma_pow2_unfold(126);
        lemma_pow2_unfold(127);
        lemma_mul_strict_inequality(mx as int, pow2(53) as int, p as int);
        lemma_pow2_ordered(53, 123);
        lemma_pow2_pos(sy as nat);
        lemma_pow2_adds(g as nat, sy as nat);
        lemma_mul_is_associative(mx as int, p as int, unit as int);
    }
    let big: u128 = mx as u128 * p;
    let small: u128 = my as u128;
    let (negative, total): (bool, u128) = if nx == ny {
        (nx, big + small)
    } else if big >= small {
        (nx, big - small)
    } else {
        (ny, small - big)
    };
    proof {
        assert((big + small) * unit == big * unit + small * unit) by (nonlinear_arith);
        assert((big - small) * unit == big * unit - small * unit) by (nonlinear_arith);
        assert((small - big) * unit == small * unit - big * unit) by (nonlinear_arith);
        if total > 0 {
            lemma_mul_strictly_positive(total as int, unit as int);
        }
        lemma_mul_basics(unit as int);
        assert((total + 1) * unit == total * unit + unit) by (nonlinear_arith);
    }
    if total == 0 {
        return with_sign(nx && ny, 0);
    }
    let mag = round_bracket(total, sy as i32, false, Ghost((total * unit) as nat), Ghost(1));
    with_sign(negative, mag)
}

/// `a + b` in double precision.
pub fn add_double(a: u64, b: u64) -> (bits: u64)
    requires
        is_moderate(a),
        is_moderate(b),
    ensures
        bits == sum(a, b),
        is_finite(bits),
{
    let (ma, sa) = parts(a);
    let (mb, sb) = parts(b);
    let na: bool = a >= SIGN;
    let nb: bool = b >= SIGN;
    if sa >= sb {
        if sa - sb <= 70 {
            add_near(na, ma, sa, nb, mb, sb)
        } else {
            add_far(na, ma, sa, nb, mb, sb)
        }
    } else {
        if sb - sa <= 70 {
            add_near(nb, mb, sb, na, ma, sa)
        } else {
            add_far(nb, mb, sb, na, ma, sa)
        }
    }
}

/// `a - b` in double precision.
pub fn subtract_double(a: u64, b: u64) -> (bits: u64)
    requires
        is_moderate(a),
        is_moderate(b),
    ensures
        bits == difference(a, b),
        is_finite(bits),
{
    let other: u64 = if b >= SIGN {
        b - SIGN
    } else {
        b + SIGN
    };
    add_double(a, other)
}

/// `a * b` in double precision.
pub fn multiply_double(a: u64, b: u64) -> (bits: u64)
    requires
        is_moderate(a),
        is_moderate(b),
    ensures
        bits == product(a, b),
        is_finite(bits),
        is_negative(bits) == (is_negative(a) != is_negative(b)),
{
    let (ma, sa) = parts(a);
    let (mb, sb) = parts(b);
    let e: i32 = sa as i32 + sb as i32 - 1074;
    proof {
        lemma2_to64_rest();
        lemma_pow2_127();
        assert(ma * mb < pow2(53) * pow2(53)) by (nonlinear_arith)
            requires
                ma < pow2(53),
                mb < pow2(53),
        ;
        lemma_pow2_adds(53, 53);
        lemma_pow2_ordered(106, 127);
    }
    let m: u128 = ma as u128 * mb as u128;
    let ghost n = distance(units(a)) * distance(units(b));
    let ghost d = pow2(ONE_SHIFT as nat);
    proof {
        let both = pow2((sa + sb) as nat);
        lemma_pow2_pos(ONE_SHIFT as nat);
        lemma_pow2_adds(sa as nat, sb as nat);
        assert(n == m * both) by (nonlinear_arith)
            requires
                n == (ma * pow2(sa as nat)) * (mb * pow2(sb as nat)),
                m == ma * mb,
                both == pow2(sa as nat) * pow2(sb as nat),
        ;
        if e >= 0 {
            lemma_pow2_adds(e as nat, ONE_SHIFT as nat);
            lemma_pow2_pos((sa + sb) as nat);
            lemma_mul_strict_inequality(m as int, m + 1, both as int);
        } else {
            lemma_pow2_adds((sa + sb) as nat, (-e) as nat);
            lemma_mul_is_associative(m as int, both as int, pow2((-e) as nat) as int);
            lemma_mul_strict_inequality(m as int, m + 1, d as int);
        }
    }
    let mag = round_bracket(m, e, false, Ghost(n), Ghost(d));
    with_sign((a >= SIGN) != (b >= SIGN), mag)
}

/// A positive significand, doubled until it has 53 bits, and how often.
fn normalized(m: u64) -> (r: (u64, u32))
    requires
        0 < m < pow2(53),
    ensures
        r.1 <= 52,
        pow2(52) <= r.0 < pow2(53),
        r.0 == m * pow2(r.1 as nat),
{
    let mut out: u64 = m;
    let mut k: u32 = 0;
    proof {
        lemma2_to64();
        lemma2_to64_rest();
    }
    while out < HIDDEN
        invariant
            k <= 52,
            0 < m,
            pow2(52) == HIDDEN,
            pow2(53) == 2 * HIDDEN,
            out < pow2(53),
            out == m * pow2(k as nat),
        decreases 52 - k,
    {
        proof {
            if k == 52 {
                lemma_mul_inequality(1, m as int, HIDDEN as int);
            }
            lemma_pow2_unfold((k + 1) as nat);
            assert(m * (2 * pow2(k as nat)) == 2 * (m * pow2(k as nat))) by (nonlinear_arith);
        }
        out = out * 2;
        k = k + 1;
    }
    (out, k)
}

/// `a / b` in double precision, for a `b` that is not tiny.
pub fn divide_double(a: u64, b: u64) -> (bits: u64)
    requires
        is_moderate(a),
        is_moderate(b),
        magnitude(b) >= 500 * HIDDEN,
    ensures
        bits == quotient(a, b),
        is_finite(bits),
        is_negative(bits) == (is_negative(a) != is_negative(b)),
{
    let (ma, sa) = parts(a);
    let (mb, sb) = parts(b);
    let ghost n = distance(units(a)) * pow2(ONE_SHIFT as nat);
    let ghost d = distance(units(b));
    proof {
        lemma2_to64_rest();
        lemma_pow2_127();
        lemma_parts(magnitude(b));
        assert(sb >= 499);
        lemma_pow2_pos(sb as nat);
        lemma_mul_strictly_positive(mb as int, pow2(sb as nat) as int);
    }
    let negative: bool = (a >= SIGN) != (b >= SIGN);
    if ma == 0 {
        proof {
            lemma_mul_basics(pow2(sa as nat) as int);
            lemma_mul_basics(pow2(ONE_SHIFT as nat) as int);
            lemma_mul_basics(d as int);
            lemma2_to64();
            lemma_pow2_pos(0);
            assert(1 * d == d);
            assert(0 * (pow2(0) * d) == 0);
        }
        let mag = round_bracket(0, 0, false, Ghost(n), Ghost(d));
        return with_sign(negative, mag);
    }
    let (top, k) = normalized(ma);
    let wide: u128 = top as u128 * 0x1_0000_0000_0000_0000;
    let m: u128 = wide / mb as u128;
    let rest: u128 = wide % mb as u128;
    let e: i32 = sa as i32 - k as i32 - sb as i32 + 1010;
    proof {
        lemma_fundamental_div_mod(wide as int, mb as int);
        // the bounds of the quotient
        lemma_pow2_adds(53, 64);
        lemma_pow2_adds(52, 64);
        lemma_pow2_adds(63, 53);
        lemma_pow2_ordered(117, 127);
        assert(wide < pow2(117));
        assert(m <= wide) by (nonlinear_arith)
            requires
                wide == mb * m + rest,
                mb >= 1,
                rest >= 0,
        ;
        assert(m >= pow2(54)) by {
            if m < pow2(63) {
                assert(wide < pow2(63) * pow2(53)) by (nonlinear_arith)
                    requires
                        wide == mb * m + rest,
                        rest < mb,
                        m + 1 <= pow2(63),
                        mb <= pow2(53),
                ;
            }
            lemma_pow2_ordered(54, 63);
        }
        // n == wide * 2^q and 2^e * d == mb * 2^q, for q == sa - k + 1010
        let q = (sa - k + 1010) as nat;
        let w = pow2(q);
        lemma_pow2_pos(q);
        lemma_pow2_adds(k as nat, 64);
        lemma_pow2_adds((k + 64) as nat, q);
        lemma_pow2_adds(sa as nat, ONE_SHIFT as nat);
        assert(k + 64 + q == sa + ONE_SHIFT);
        assert(n == wide * w) by (nonlinear_arith)
            requires
                n == (ma * pow2(sa as nat)) * pow2(ONE_SHIFT as nat),
                pow2(sa as nat) * pow2(ONE_SHIFT as nat) == pow2((k + 64) as nat) * w,
                pow2((k + 64) as nat) == pow2(k as nat) * pow2(64),
                top == ma * pow2(k as nat),
                wide == top * pow2(64),
        ;
        let down = if e >= 0 {
            1
        } else {
            pow2((-e) as nat)
        };
        let up = if e >= 0 {
            pow2(e as nat)
        } else {
            1
        };
        if e >= 0 {
            lemma_pow2_adds(e as nat, sb as nat);
            assert(up * pow2(sb as nat) == w * down);
        } else {
            lemma_pow2_adds(q, (-e) as nat);
            lemma_pow2_pos((-e) as nat);
            assert(up * pow2(sb as nat) == w * down);
        }
        let step = w * down;
        lemma_mul_strictly_positive(w as int, down as int);
        assert(up * d == mb * step) by (nonlinear_arith)
            requires
                d == mb * pow2(sb as nat),
                up * pow2(sb as nat) == step,
        ;
        assert(n * down == wide * step) by (nonlinear_arith)
            requires
                n == wide * w,
                step == w * down,
        ;
        assert(wide * step == m * (mb * step) + rest * step) by (nonlinear_arith)
            requires
                wide == mb * m + rest,
        ;
        assert(0 <= rest * step < mb * step) by (nonlinear_arith)
            requires
                0 <= rest < mb,
                step > 0,
        ;
        assert(rest * step == 0 <==> rest == 0) by (nonlinear_arith)
            requires
                step > 0,
        ;
        assert((m + 1) * (mb * step) == m * (mb * step) + mb * step) by (nonlinear_arith);
    }
    let mag = round_bracket(m, e, rest != 0, Ghost(n), Ghost(d));
    with_sign(negative, mag)
}

/// The double nearest to an integer.
pub fn double_of(n: u64) -> (bits: u64)
    ensures
        bits == nearest(n as nat),
        is_moderate(bits),
        !is_negative(bits),
        n > 0 ==> magnitude(bits) >= 1023 * HIDDEN,
{
    let ghost one = pow2(ONE_SHIFT as nat);
    proof {
        lemma2_to64();
        lemma2_to64_rest();
        lemma_pow2_127();
        lemma_pow2_pos(ONE_SHIFT as nat);
        lemma_mul_strict_inequality(n as int, n + 1, one as int);
    }
    let mag = round_bracket(n as u128, 1074, false, Ghost((n * one) as nat), Ghost(1));
    proof {
        // a double that is at least the number, and one that is at most it
        let high = (1087 * HIDDEN) as nat;
        let low = (1023 * HIDDEN) as nat;
        assert(shift_of(high) == 1086 && significand_of(high) == HIDDEN) by {
            lemma_fundamental_div_mod_converse(high as int, HIDDEN as int, 1087, 0);
        }
        assert(shift_of(low) == 1022 && significand_of(low) == HIDDEN) by {
            lemma_fundamental_div_mod_converse(low as int, HIDDEN as int, 1023, 0);
        }
        lemma_pow2_adds(52, 1086);
        lemma_pow2_adds(52, 1022);
        lemma_pow2_adds(64, ONE_SHIFT as nat);
        lemma_mul_inequality(n as int, pow2(64) as int, one as int);
        lemma_rounded_ordered((n * one) as nat, 1, units_of(high), 1);
        lemma_rounded_double(high);
        if n > 0 {
            lemma_mul_inequality(1, n as int, one as int);
            lemma_rounded_ordered(units_of(low), 1, (n * one) as nat, 1);
            lemma_rounded_double(low);
        }
    }
    with_sign(false, mag)
}

/// A double rounded up to a natural number, but not over a limit.
pub fn ceiling_up_to(bits: u64, limit: u32) -> (n: u32)
    requires
        is_moderate(bits),
    ensures
        n == if ceiling_of(bits) <= limit {
            ceiling_of(bits)
        } else {
            limit as nat
        },
{
    let (m, s) = parts(bits);
    proof {
        lemma2_to64();
        lemma2_to64_rest();
        lemma_pow2_pos(s as nat);
        lemma_pow2_pos(ONE_SHIFT as nat);
        if m > 0 {
            lemma_mul_strictly_positive(m as int, pow2(s as nat) as int);
        }
        lemma_mul_basics(pow2(s as nat) as int);
    }
    if bits >= SIGN || m == 0 {
        return 0;
    }
    let ghost one = pow2(ONE_SHIFT as nat);
    let ghost whole_units = (m * pow2(s as nat)) as nat;
    if s >= 1074 {
        proof {
            let w = (s - 1074) as nat;
            lemma_pow2_adds(w, ONE_SHIFT as nat);
            lemma_pow2_pos(w);
            lemma_mul_is_associative(m as int, pow2(w) as int, one as int);
            lemma_fundamental_div_mod_converse(
                whole_units as int,
                one as int,
                (m * pow2(w)) as int,
                0,
            );
            lemma_mul_inequality(1, pow2(w) as int, m as int);
            lemma_mul_is_commutative(m as int, pow2(w) as int);
        }
        return limit;
    }
    let t: u32 = 1074 - s;
    let ghost unit = pow2(s as nat);
    if t > 53 {
        proof {
            lemma_pow2_adds(t as nat, s as nat);
            lemma_pow2_ordered(53, t as nat);
            lemma_mul_strict_inequality(m as int, pow2(t as nat) as int, unit as int);
            lemma_fundamental_div_mod_converse(
                whole_units as int,
                one as int,
                0,
                whole_units as int,
            );
        }
        return if limit >= 1 {
            1
        } else {
            0
        };
    }
    let p = power(t);
    let q: u128 = m as u128 / p;
    let rest: u128 = m as u128 % p;
    let whole: u128 = if rest == 0 {
        q
    } else {
        q + 1
    };
    proof {
        lemma_pow2_adds(t as nat, s as nat);
        lemma_pow2_pos(t as nat);
        lemma_fundamental_div_mod(m as int, p as int);
        assert(whole_units == q * one + rest * unit) by (nonlinear_arith)
            requires
                whole_units == m * unit,
                m == p * q + rest,
                one == p * unit,
        ;
        assert(0 <= rest * unit < one) by (nonlinear_arith)
            requires
                0 <= rest < p,
                unit > 0,
                one == p * unit,
        ;
        assert(rest * unit == 0 <==> rest == 0) by (nonlinear_arith)
            requires
                unit > 0,
        ;
        lemma_fundamental_div_mod_converse(
            whole_units as int,
            one as int,
            q as int,
            (rest * unit) as int,
        );
    }
    if whole <= limit as u128 {
        whole as u32
    } else {
        limit
    }
}

/// `m` times two to the power of `s`, divided by two to the power of `one` and without
/// its fraction, but not over two to the power of 40.
fn whole_part(m: u64, s: u32, one: u32) -> (whole: u64)
    requires
        m < pow2(53),
        s <= 4000,
        one <= 4000,
    ensures
        ({
            let exact = (m * pow2(s as nat)) as nat / pow2(one as nat);
            whole == if exact <= 0x100_0000_0000 {
                exact
            } else {
                0x100_0000_0000
            }
        }),
{
    proof {
        lemma2_to64();
        lemma2_to64_rest();
        lemma_pow2_pos(one as nat);
        lemma_pow2_pos(s as nat);
    }
    if m == 0 {
        proof {
            lemma_mul_basics(pow2(s as nat) as int);
            lemma_div_of0(pow2(one as nat) as int);
        }
        return 0;
    }
    if s >= one {
        let w: u32 = s - one;
        proof {
            lemma_pow2_adds(w as nat, one as nat);
            lemma_pow2_pos(w as nat);
            lemma_mul_is_associative(m as int, pow2(w as nat) as int, pow2(one as nat) as int);
            lemma_div_multiples_vanish((m * pow2(w as nat)) as int, pow2(one as nat) as int);
            lemma_mul_is_commutative((m * pow2(w as nat)) as int, pow2(one as nat) as int);
        }
        if w >= 41 {
            proof {
                lemma_pow2_ordered(41, w as nat);
                lemma_mul_inequality(1, m as int, pow2(w as nat) as int);
            }
            return 0x100_0000_0000;
        }
        let p = power(w);
        proof {
            lemma_pow2_ordered(w as nat, 40);
            assert(m * p <= 0x20_0000_0000_0000 * 0x100_0000_0000) by (nonlinear_arith)
                requires
                    m <= 0x20_0000_0000_0000,
                    p <= 0x100_0000_0000,
            ;
        }
        let whole: u128 = m as u128 * p;
        return if whole <= 0x100_0000_0000 {
            whole as u64
        } else {
            0x100_0000_0000
        };
    }
    let t: u32 = one - s;
    let ghost unit = pow2(s as nat);
    proof {
        lemma_pow2_adds(t as nat, s as nat);
        lemma_pow2_pos(t as nat);
    }
    if t > 53 {
        proof {
            lemma_pow2_ordered(53, t as nat);
            lemma_mul_strict_inequality(m as int, pow2(t as nat) as int, unit as int);
            lemma_fundamental_div_mod_converse(
                (m * unit) as int,
                pow2(one as nat) as int,
                0,
                (m * unit) as int,
            );
        }
        return 0;
    }
    let p = power(t);
    let whole: u128 = m as u128 / p;
    proof {
        lemma_fundamental_div_mod(m as int, p as int);
        let rest = m as int % p as int;
        let q = m as int / p as int;
        let top = pow2(one as nat);
        assert(m * unit == q * top + rest * unit) by (nonlinear_arith)
            requires
                m == p * q + rest,
                top == p * unit,
        ;
        assert(0 <= rest * unit < top) by (nonlinear_arith)
            requires
                0 <= rest < p,
                unit > 0,
                top == p * unit,
        ;
        lemma_fundamental_div_mod_converse((m * unit) as int, top as int, q, rest * unit);
    }
    if whole <= 0x100_0000_0000 {
        whole as u64
    } else {
        0x100_0000_0000
    }
}

/// A whole number with a sign, kept in the range of `i32`.
fn saturate(negative: bool, whole: u64) -> (n: i32)
    requires
        whole <= 0x100_0000_0000,
    ensures
        n == saturated(
            if negative {
                -(whole as int)
            } else {
                whole as int
            },
        ),
{
    if negative {
        if whole > 0x8000_0000 {
            i32::MIN
        } else {
            (-(whole as i64)) as i32
        }
    } else {
        if whole > 0x7fff_ffff {
            i32::MAX
        } else {
            whole as i32
        }
    }
}

/// What a double is as an `i32`.
pub fn double_to_i32(bits: u64) -> (n: i32)
    ensures
        n == double_as_i32(bits),
{
    let mag: u64 = bits % SIGN;
    if mag > 2047 * HIDDEN {
        return 0;
    }
    let field: u64 = mag / HIDDEN;
    proof {
        lemma_parts(mag as nat);
        lemma_fundamental_div_mod(mag as int, HIDDEN as int);
        lemma_div_is_ordered(mag as int, 2047 * HIDDEN, HIDDEN as int);
        if mag < HIDDEN {
            lemma_fundamental_div_mod_converse(mag as int, HIDDEN as int, 0, mag as int);
        } else {
            lemma_div_is_ordered(HIDDEN as int, mag as int, HIDDEN as int);
        }
        lemma2_to64_rest();
    }
    let (m, s): (u64, u32) = if field == 0 {
        (mag, 0)
    } else {
        (mag % HIDDEN + HIDDEN, (field - 1) as u32)
    };
    let whole = whole_part(m, s, ONE_SHIFT);
    saturate(bits >= SIGN, whole)
}

/// What a single precision number is as an `i32`.
pub fn single_to_i32(bits: u32) -> (n: i32)
    ensures
        n == single_as_i32(bits),
{
    let mag: u32 = bits % SINGLE_SIGN;
    if mag > 255 * SINGLE_HIDDEN {
        return 0;
    }
    let field: u32 = mag / SINGLE_HIDDEN;
    proof {
        let hidden = SINGLE_HIDDEN as int;
        lemma_fundamental_div_mod(mag as int, hidden);
        lemma_div_is_ordered(mag as int, 255 * hidden, hidden);
        if mag < SINGLE_HIDDEN {
            lemma_fundamental_div_mod_converse(mag as int, hidden, 0, mag as int);
            lemma2_to64();
        } else {
            lemma_div_is_ordered(hidden, mag as int, hidden);
        }
        lemma2_to64_rest();
    }
    let (m, s): (u64, u32) = if field == 0 {
        (mag as u64, 0)
    } else {
        ((mag % SINGLE_HIDDEN + SINGLE_HIDDEN) as u64, field - 1)
    };
    let whole = whole_part(m, s, SINGLE_ONE_SHIFT);
    saturate(bits >= SINGLE_SIGN, whole)
}

/// `a < b` for two doubles that are not NaN.
pub fn is_less(a: u64, b: u64) -> (less: bool)
    ensures
        less == (units(a) < units(b)),
{
    let (ma, mb) = (a % SIGN, b % SIGN);
    proof {
        lemma_units_ordered(ma as nat, mb as nat);
        lemma_units_ordered(0, ma as nat);
        lemma_units_ordered(0, mb as nat);
        lemma_mul_basics(pow2(shift_of(0)) as int);
    }
    if a >= SIGN {
        if b >= SIGN {
            ma > mb
        } else {
            ma > 0 || mb > 0
        }
    } else {
        b < SIGN && ma < mb
    }
}

/// No double is nearer to a sum than the one that it is computed as.
pub proof fn law_sum_nearest(a: u64, b: u64, other: u64)
    requires
        magnitude(a) <= 1096 * HIDDEN,
        magnitude(b) <= 1096 * HIDDEN,
    ensures
        distance(units(sum(a, b)) - (units(a) + units(b))) <= distance(
            units(other) - (units(a) + units(b)),
        ),
{
    let exact = units(a) + units(b);
    lemma_sum_units(a, b);
    law_rounded_nearest(distance(exact), 1, magnitude(other));
    law_rounded_nearest(distance(exact), 1, 0);
    lemma_mul_by_zero_is_zero(pow2(shift_of(0)) as int);
    assert(significand_of(0) == 0);
    assert(units_of(0) == 0);
}

/// No double is nearer to a difference than the one that it is computed as.
pub proof fn law_difference_nearest(a: u64, b: u64, other: u64)
    requires
        magnitude(a) <= 1096 * HIDDEN,
        magnitude(b) <= 1096 * HIDDEN,
    ensures
        distance(units(difference(a, b)) - (units(a) - units(b))) <= distance(
            units(other) - (units(a) - units(b)),
        ),
{
    assert(magnitude(negated(b)) == magnitude(b));
    assert(units(negated(b)) == -units(b));
    law_sum_nearest(a, negated(b), other);
}

/// A product has the sign that it should have, and no magnitude is nearer to that of the
/// exact product.
pub proof fn law_product_nearest(a: u64, b: u64, mag: nat)
    requires
        is_moderate(a),
        is_moderate(b),
    ensures
        is_negative(product(a, b)) == (is_negative(a) != is_negative(b)),
        ({
            let exact = distance(units(a)) * distance(units(b));
            let one = pow2(ONE_SHIFT as nat);
            distance(units_of(magnitude(product(a, b))) * one - exact) <= distance(
                units_of(mag) * one - exact,
            )
        }),
{
    let one = pow2(ONE_SHIFT as nat);
    let exact = distance(units(a)) * distance(units(b));
    lemma_pow2_pos(ONE_SHIFT as nat);
    lemma_units_bound(magnitude(a), 1200);
    lemma_units_bound(magnitude(b), 1200);
    lemma_pow2_adds(1251, 1251);
    lemma_pow2_adds(1428, ONE_SHIFT as nat);
    lemma_mul_upper_bound(
        distance(units(a)) as int,
        pow2(1251) as int,
        distance(units(b)) as int,
        pow2(1251) as int,
    );
    lemma_mul_is_commutative(pow2(1428) as int, one as int);
    lemma_rounded_bound(exact, one, 1377);
    lemma_signed_units(is_negative(a) != is_negative(b), rounded(exact, one));
    law_rounded_nearest(exact, one, mag);
}

/// A quotient has the sign that it should have, and no magnitude is nearer to that of the
/// exact quotient.
pub proof fn law_quotient_nearest(a: u64, b: u64, mag: nat)
    requires
        is_moderate(a),
        is_moderate(b),
        magnitude(b) >= 500 * HIDDEN,
    ensures
        is_negative(quotient(a, b)) == (is_negative(a) != is_negative(b)),
        ({
            let dividend = distance(units(a)) * pow2(ONE_SHIFT as nat);
            let divisor = distance(units(b));
            distance(units_of(magnitude(quotient(a, b))) * divisor - dividend) <= distance(
                units_of(mag) * divisor - dividend,
            )
        }),
{
    let one = pow2(ONE_SHIFT as nat);
    let n = distance(units(a)) * one;
    let d = distance(units(b));
    lemma_pow2_pos(ONE_SHIFT as nat);
    lemma_pow2_pos(551);
    lemma_units_bound(magnitude(a), 1200);
    lemma_power_magnitude(500);
    lemma_units_ordered((500 * HIDDEN) as nat, magnitude(b));
    assert(d >= pow2(551));
    lemma_pow2_adds(1251, ONE_SHIFT as nat);
    lemma_pow2_adds(551, 1774);
    lemma_mul_inequality(distance(units(a)) as int, pow2(1251) as int, one as int);
    lemma_mul_inequality(pow2(551) as int, d as int, pow2(1774) as int);
    lemma_rounded_bound(n, d, 1723);
    lemma_signed_units(is_negative(a) != is_negative(b), rounded(n, d));
    law_rounded_nearest(n, d, mag);
}

/// No double is nearer to an integer than the one that it becomes.
pub proof fn law_nearest_integer(n: u64, mag: nat)
    ensures
        !is_negative(nearest(n as nat)),
        distance(units(nearest(n as nat)) - n * pow2(ONE_SHIFT as nat)) <= distance(
            units_of(mag) - n * pow2(ONE_SHIFT as nat),
        ),
{
    let one = pow2(ONE_SHIFT as nat);
    lemma_pow2_pos(ONE_SHIFT as nat);
    lemma_pow2_adds(64, ONE_SHIFT as nat);
    lemma2_to64_rest();
    lemma_mul_inequality(n as int, pow2(64) as int, one as int);
    lemma_mul_nonnegative(n as int, one as int);
    lemma_rounded_bound((n * one) as nat, 1, 1087);
    lemma_signed_units(false, rounded((n * one) as nat, 1));
    law_rounded_nearest((n * one) as nat, 1, mag);
}

/// A double as an `i32` is the double without its fraction; one that is out of range becomes
/// the end of the range on its side, and a NaN becomes zero.
pub proof fn law_double_as_i32(bits: u64)
    ensures
        ({
            let one = pow2(ONE_SHIFT as nat);
            let size = units_of(magnitude(bits));
            let whole = double_as_i32(bits);
            &&& magnitude(bits) > 2047 * HIDDEN ==> whole == 0
            &&& magnitude(bits) <= 2047 * HIDDEN && size < 0x8000_0000 * one ==> distance(whole)
                * one <= size < (distance(whole) + 1) * one
            &&& magnitude(bits) <= 2047 * HIDDEN && size >= 0x8000_0000 * one ==> whole == if
                is_negative(bits) {
                -0x8000_0000int
            } else {
                0x7fff_ffffint
            }
            &&& is_negative(bits) ==> whole <= 0
            &&& !is_negative(bits) ==> whole >= 0
        }),
{
    let one = pow2(ONE_SHIFT as nat);
    lemma_pow2_pos(ONE_SHIFT as nat);
    lemma_truncation(units_of(magnitude(bits)), one);
}

/// A single precision number as an `i32` is the number without its fraction; one that is out
/// of range becomes the end of the range on its side, and a NaN becomes zero.
pub proof fn law_single_as_i32(bits: u32)
    ensures
        ({
            let one = pow2(SINGLE_ONE_SHIFT as nat);
            let mag = (bits % SINGLE_SIGN) as nat;
            let size = single_units_of(mag);
            let whole = single_as_i32(bits);
            &&& mag > 255 * SINGLE_HIDDEN ==> whole == 0
            &&& mag <= 255 * SINGLE_HIDDEN && size < 0x8000_0000 * one ==> distance(whole) * one
                <= size < (distance(whole) + 1) * one
            &&& mag <= 255 * SINGLE_HIDDEN && size >= 0x8000_0000 * one ==> whole == if bits
                >= SINGLE_SIGN {
                -0x8000_0000int
            } else {
                0x7fff_ffffint
            }
            &&& bits >= SINGLE_SIGN ==> whole <= 0
            &&& bits < SINGLE_SIGN ==> whole >= 0
        }),
{
    let one = pow2(SINGLE_ONE_SHIFT as nat);
    lemma_pow2_pos(SINGLE_ONE_SHIFT as nat);
    lemma_truncation(single_units_of((bits % SINGLE_SIGN) as nat), one);
}

/// The whole part of a fraction, and when it is under two to the power of 31.
proof fn lemma_truncation(n: nat, one: nat)
    requires
        one > 0,
    ensures
        (n / one) * one <= n < (n / one + 1) * one,
        n < 0x8000_0000 * one <==> n / one < 0x8000_0000,
{
    let q = n / one;
    lemma_fundamental_div_mod(n as int, one as int);
    assert(q * one <= n < (q + 1) * one) by (nonlinear_arith)
        requires
            n == one * q + n % one,
            0 <= n % one < one,
    ;
    if q < 0x8000_0000 {
        lemma_mul_inequality((q + 1) as int, 0x8000_0000, one as int);
    } else {
        lemma_mul_inequality(0x8000_0000, q as int, one as int);
    }
}

/// A significand of `k` times a power of two, counted by the rest of the power of one, is
/// the integer `k`.
pub proof fn lemma_whole(mag: nat, k: nat, j: nat)
    requires
        significand_of(mag) == k * pow2(j),
        shift_of(mag) + j == ONE_SHIFT,
    ensures
        units_of(mag) == k * pow2(ONE_SHIFT as nat),
{
    lemma_pow2_adds(j, shift_of(mag));
    lemma_mul_is_associative(k as int, pow2(j) as int, pow2(shift_of(mag)) as int);
}

/// A fraction is rounded down by at most half a unit, or one part in two to the power of 53.
pub proof fn lemma_rounding_error_below(n: nat, d: nat)
    requires
        d > 0,
    ensures
        n * (4 * HIDDEN) <= (units_of(rounded(n, d)) * d) * (4 * HIDDEN) + n * 2 + d * (2 * HIDDEN),
        d == 1 ==> n * (2 * HIDDEN) <= units_of(rounded(n, d)) * (2 * HIDDEN) + n,
{
    let s = scale(n, d);
    let p = pow2(s);
    let h = half_even(n, d * p);
    lemma_rounded_units(n, d);
    lemma_pow2_pos(s);
    lemma_mul_strictly_positive(d as int, p as int);
    lemma_half_even_nearest(n, d * p, 0);
    let u = h * p;
    assert(h * (d * p) == u * d) by (nonlinear_arith)
        requires
            u == h * p,
    ;
    let c = d * p;
    assert(2 * n <= 2 * (u * d) + c);
    lemma2_to64_rest();
    if s == 0 {
        lemma2_to64();
        assert(c == d);
        if d == 1 {
            assert(h == n);
            assert(n * (2 * HIDDEN) <= u * (2 * HIDDEN) + n) by (nonlinear_arith)
                requires
                    u == n,
            ;
        }
        assert(n * (4 * HIDDEN) <= (u * d) * (4 * HIDDEN) + n * 2 + d * (2 * HIDDEN))
            by (nonlinear_arith)
            requires
                2 * n <= 2 * (u * d) + d,
        ;
    } else {
        lemma_scale_bounds(n, d);
        lemma_pow2_adds(52, s);
        assert(d * pow2((52 + s) as nat) == c * pow2(52)) by (nonlinear_arith)
            requires
                pow2((52 + s) as nat) == pow2(52) * p,
                c == d * p,
        ;
        assert(pow2(52) == HIDDEN);
        assert(c * HIDDEN <= n);
        assert(n * (4 * HIDDEN) <= (u * d) * (4 * HIDDEN) + n * 2 + d * (2 * HIDDEN))
            by (nonlinear_arith)
            requires
                2 * n <= 2 * (u * d) + c,
                c * HIDDEN <= n,
        ;
        if d == 1 {
            assert(n * (2 * HIDDEN) <= u * (2 * HIDDEN) + n) by (nonlinear_arith)
                requires
                    2 * n <= 2 * u + c,
                    c * HIDDEN <= n,
            ;
        }
    }
}

/// Magnitudes count up: zero stands for nothing, and each next magnitude for one unit more,
/// or, from the second power of two on, for as many more as its exponent says.
pub proof fn law_magnitudes_count_up(mag: nat)
    ensures
        units_of(0) == 0,
        units_of(mag + 1) == units_of(mag) + if mag < 2 * HIDDEN {
            1
        } else {
            pow2((mag / (HIDDEN as nat) - 1) as nat)
        },
{
    let h = HIDDEN as nat;
    lemma_mul_by_zero_is_zero(pow2(shift_of(0)) as int);
    assert(significand_of(0) == 0);
    lemma_parts(mag);
    lemma_parts(mag + 1);
    lemma2_to64();
    lemma2_to64_rest();
    lemma_fundamental_div_mod(mag as int, h as int);
    let q = mag / h;
    let r = mag % h;
    let p = pow2(shift_of(mag));
    let m = significand_of(mag);
    assert(p == if mag < 2 * HIDDEN {
        1
    } else {
        pow2((q - 1) as nat)
    });
    if r + 1 < h {
        lemma_fundamental_div_mod_converse((mag + 1) as int, h as int, q as int, (r + 1) as int);
        assert(shift_of(mag + 1) == shift_of(mag));
        assert(significand_of(mag + 1) == m + 1);
        assert((m + 1) * p == m * p + p) by (nonlinear_arith);
    } else {
        lemma_mul_is_distributive_add(h as int, q as int, 1);
        lemma_fundamental_div_mod_converse((mag + 1) as int, h as int, (q + 1) as int, 0);
        assert(significand_of(mag + 1) == h);
        if q == 0 {
            assert(shift_of(mag + 1) == 0);
            assert(m == h - 1);
            assert((m + 1) * p == m * p + p) by (nonlinear_arith);
        } else {
            assert(m == 2 * h - 1);
            assert(shift_of(mag + 1) == shift_of(mag) + 1);
            lemma_pow2_unfold(shift_of(mag) + 1);
            assert(h * (2 * p) == (2 * h - 1) * p + p) by (nonlinear_arith);
        }
    }
}

} // verus!
