//! What the encodings stand for: the order and the sign of encodings are those of the
//! numbers that they encode.
use crate::device::TRANSISTOR_FORWARD_GAIN;
use crate::device_laws::{orders, unit};
use crate::estimate::{MILLISECOND, TEN, TENTH, TWO_HOURS, TWO_MINUTES};
use crate::number::{Real, INFINITY, ONE, SIGN};
use crate::quantity::FIXED_POINT_FLOOR;
use crate::reference::is_odd;
use vstd::prelude::*;

verus! {

/// The weight of the exponent in an encoding without its sign.
pub const EXPONENT: u64 = 0x0010_0000_0000_0000;

/// Two to a power.
pub open spec fn power_of_two(n: nat) -> int
    decreases n,
{
    if n == 0 {
        1
    } else {
        2 * power_of_two((n - 1) as nat)
    }
}

/// The number that an encoding without its sign stands for, in units of the smallest
/// positive number: the fraction alone where the exponent is zero, and else the fraction
/// with a leading one, doubled for each step of the exponent above the first.
pub open spec fn scaled(magnitude: int) -> int {
    let exponent = magnitude / EXPONENT as int;
    let fraction = magnitude % EXPONENT as int;
    if exponent <= 0 {
        fraction
    } else {
        (EXPONENT + fraction) * power_of_two((exponent - 1) as nat)
    }
}

/// The number that an encoding stands for, in units of the smallest positive number.
pub open spec fn decoded(x: Real) -> int {
    if x.bits < SIGN {
        scaled(x.bits as int)
    } else {
        -scaled(x.bits - SIGN)
    }
}

proof fn lemma_power_positive(n: nat)
    ensures
        power_of_two(n) >= 1,
    decreases n,
{
    if n > 0 {
        lemma_power_positive((n - 1) as nat);
    }
}

proof fn lemma_scaled_step(m: int)
    requires
        0 <= m,
    ensures
        scaled(m) < scaled(m + 1),
{
    let unit = EXPONENT as int;
    let exponent = m / unit;
    let fraction = m % unit;
    assert(m == exponent * unit + fraction && 0 <= fraction < unit && exponent >= 0)
        by (nonlinear_arith)
        requires
            unit > 0,
            0 <= m,
            exponent == m / unit,
            fraction == m % unit,
    ;
    if fraction + 1 < unit {
        assert((m + 1) / unit == exponent && (m + 1) % unit == fraction + 1) by (nonlinear_arith)
            requires
                unit > 0,
                m + 1 == exponent * unit + (fraction + 1),
                0 <= fraction + 1 < unit,
        ;
        if exponent > 0 {
            let p = power_of_two((exponent - 1) as nat);
            lemma_power_positive((exponent - 1) as nat);
            assert((unit + fraction) * p < (unit + (fraction + 1)) * p) by (nonlinear_arith)
                requires
                    p >= 1,
            ;
        }
    } else {
        assert((m + 1) / unit == exponent + 1 && (m + 1) % unit == 0) by (nonlinear_arith)
            requires
                unit > 0,
                m + 1 == (exponent + 1) * unit,
                exponent >= 0,
        ;
        let q = power_of_two(exponent as nat);
        lemma_power_positive(exponent as nat);
        assert(scaled(m + 1) == unit * q) by {
            assert((unit + 0) * q == unit * q);
        }
        if exponent > 0 {
            let p = power_of_two((exponent - 1) as nat);
            lemma_power_positive((exponent - 1) as nat);
            assert((unit + fraction) * p < unit * (2 * p)) by (nonlinear_arith)
                requires
                    p >= 1,
                    fraction < unit,
            ;
        }
    }
}

proof fn lemma_scaled_rises(m: int, n: int)
    requires
        0 <= m < n,
    ensures
        scaled(m) < scaled(n),
    decreases n - m,
{
    lemma_scaled_step(n - 1);
    if m < n - 1 {
        lemma_scaled_rises(m, n - 1);
    }
}

proof fn lemma_scaled_zero()
    ensures
        scaled(0) == 0,
{
}

proof fn lemma_decoded_by_rank(x: Real, y: Real)
    ensures
        x.rank() < y.rank() <==> decoded(x) < decoded(y),
        x.rank() == y.rank() <==> decoded(x) == decoded(y),
{
    let (m, n) = (x.magnitude(), y.magnitude());
    lemma_scaled_zero();
    assert(m == if x.bits < SIGN {
        x.bits as int
    } else {
        x.bits - SIGN
    });
    assert(n == if y.bits < SIGN {
        y.bits as int
    } else {
        y.bits - SIGN
    });
    if m < n {
        lemma_scaled_rises(m, n);
    }
    if n < m {
        lemma_scaled_rises(n, m);
    }
    if 0 < m {
        lemma_scaled_rises(0, m);
    }
    if 0 < n {
        lemma_scaled_rises(0, n);
    }
}

/// Comparing two encodings compares the numbers that they stand for; an encoding of no
/// number is neither below nor above nor equal to anything.
pub proof fn encodings_are_ordered_as_numbers(x: Real, y: Real, less: bool, at_most: bool, equal: bool)
    requires
        call_ensures(Real::less, (x, y), less),
        call_ensures(Real::at_most, (x, y), at_most),
        call_ensures(Real::equals, (x, y), equal),
    ensures
        !is_no_number(x) && !is_no_number(y) ==> {
            &&& less <==> decoded(x) < decoded(y)
            &&& at_most <==> decoded(x) <= decoded(y)
            &&& equal <==> decoded(x) == decoded(y)
        },
        is_no_number(x) || is_no_number(y) ==> !less && !at_most && !equal,
{
    lemma_decoded_by_rank(x, y);
}

/// The encoding, without its sign, lies above that of infinity.
pub open spec fn is_no_number(x: Real) -> bool {
    if x.bits < SIGN {
        x.bits > INFINITY
    } else {
        x.bits - SIGN > INFINITY
    }
}

/// An encoding is told to be finite exactly if it lies, without its sign, below that of
/// infinity, and to be a positive one exactly if its number is above zero besides.
pub proof fn finite_encodings_lie_below_infinity(x: Real, finite: bool, positive: bool, nan: bool)
    requires
        call_ensures(Real::is_finite, (x,), finite),
        call_ensures(Real::is_positive_finite, (x,), positive),
        call_ensures(Real::is_nan, (x,), nan),
    ensures
        nan <==> is_no_number(x),
        finite <==> !nan && -scaled(INFINITY as int) < decoded(x) < scaled(INFINITY as int),
        positive <==> 0 < decoded(x) < scaled(INFINITY as int) && !nan,
{
    lemma_decoded_by_rank(x, Real { bits: 0 });
    lemma_decoded_by_rank(x, Real { bits: INFINITY });
    lemma_decoded_by_rank(Real { bits: (SIGN + INFINITY) as u64 }, x);
    lemma_scaled_zero();
}

/// The negation of an encoding stands for the opposite number, and that of one for the
/// number one, which is a whole power of two of the smallest.
pub proof fn negation_gives_the_opposite_number(x: Real, r: Real, one: Real, zero: Real)
    requires
        call_ensures(Real::negated, (x,), r),
        call_ensures(Real::one, (), one),
        call_ensures(Real::zero, (), zero),
    ensures
        decoded(r) == -decoded(x),
        decoded(zero) == 0,
        decoded(one) == EXPONENT * power_of_two(1022),
{
    lemma_scaled_zero();
    assert(ONE / EXPONENT == 1023 && ONE % EXPONENT == 0);
}

/// The total order of encodings extends that of the numbers, and tells any two encodings
/// apart.
pub proof fn the_total_order_extends_the_numeric_one(x: Real, y: Real, a: i64, b: i64)
    requires
        call_ensures(Real::total_order_key, (x,), a),
        call_ensures(Real::total_order_key, (y,), b),
    ensures
        decoded(x) < decoded(y) ==> a < b,
        a == b ==> x == y,
        x.bits < SIGN && y.bits >= SIGN ==> a > b,
{
    lemma_decoded_by_rank(x, y);
}

/// The numbers that encodings stand for, in units of the smallest positive number.
pub open spec fn decoding() -> spec_fn(Real) -> int {
    |x: Real| decoded(x)
}

/// The numbers that encodings stand for are in the order of the encodings, turn their sign
/// with them, and are nothing for zero and something positive for one.
pub proof fn decoding_keeps_order_and_sign()
    ensures
        orders(decoding()),
        is_odd(decoding()),
        decoding()(Real { bits: 0 }) == 0,
        unit(decoding()) > 0,
{
    let val = decoding();
    assert forall|a: Real, b: Real| !a.nan() && !b.nan() implies (#[trigger] a.lt(b) <==> val(a)
        < val(b)) by {
        lemma_decoded_by_rank(a, b);
    }
    assert forall|x: Real| #[trigger] val(x.opposite()) == -val(x) by {
        assert(decoded(x.opposite()) == -decoded(x));
    }
    lemma_scaled_zero();
    lemma_decoded_by_rank(Real { bits: 0 }, Real { bits: ONE });
}

// ---- encoded numbers ------------------------------------------------------

proof fn lemma_powers()
    ensures
        power_of_two(1022) == 16 * power_of_two(1018),
        power_of_two(1018) == 64 * power_of_two(1012),
        power_of_two(1025) == 8 * power_of_two(1022),
        power_of_two(1028) == 8 * power_of_two(1025),
        power_of_two(1034) == 64 * power_of_two(1028),
        power_of_two(1012) >= 1,
{
    reveal_with_fuel(power_of_two, 7);
    lemma_power_positive(1012);
}

/// The limits by which times and values are spelled stand for ten, two minutes and two
/// hours exactly, the gain of the built-in transistor for a hundred, and a tenth and a
/// thousandth are as near as an encoding comes.
pub proof fn encoded_limits_stand_for_their_numbers()
    ensures
        ({
            let one = decoded(Real { bits: ONE });
            let tenth = decoded(Real { bits: TENTH });
            let thousandth = decoded(Real { bits: MILLISECOND });
            &&& decoded(Real { bits: TEN }) == 10 * one
            &&& decoded(Real { bits: TWO_MINUTES }) == 120 * one
            &&& decoded(Real { bits: TWO_HOURS }) == 7_200 * one
            &&& decoded(Real { bits: TRANSISTOR_FORWARD_GAIN }) == 100 * one
            &&& -5 * power_of_two(1018) <= 10 * tenth - one <= 5 * power_of_two(1018)
            &&& -500 * power_of_two(1012) <= 1_000 * thousandth - one <= 500 * power_of_two(1012)
            &&& decoded(Real { bits: FIXED_POINT_FLOOR }) == thousandth
        }),
{
    lemma_powers();
    let unit = EXPONENT as int;
    let (a, b, c) = (power_of_two(1012), power_of_two(1018), power_of_two(1022));
    assert(ONE / EXPONENT == 1023 && ONE % EXPONENT == 0);
    assert(TEN / EXPONENT == 1026 && TEN % EXPONENT == 0x4_0000_0000_0000);
    assert(TWO_MINUTES / EXPONENT == 1029 && TWO_MINUTES % EXPONENT == 0xe_0000_0000_0000);
    assert(TWO_HOURS / EXPONENT == 1035 && TWO_HOURS % EXPONENT == 0xc_2000_0000_0000);
    assert(TRANSISTOR_FORWARD_GAIN / EXPONENT == 1029 && TRANSISTOR_FORWARD_GAIN % EXPONENT
        == 0x9_0000_0000_0000);
    assert(TENTH / EXPONENT == 1019 && TENTH % EXPONENT == 0x9_9999_9999_999a);
    assert(MILLISECOND / EXPONENT == 1013 && MILLISECOND % EXPONENT == 0x0_624d_d2f1_a9fc);
    assert((unit + 0x4_0000_0000_0000) * (8 * c) == 10 * (unit * c)) by (nonlinear_arith)
        requires
            unit == 0x10_0000_0000_0000,
    ;
    assert((unit + 0xe_0000_0000_0000) * (64 * c) == 120 * (unit * c)) by (nonlinear_arith)
        requires
            unit == 0x10_0000_0000_0000,
    ;
    assert((unit + 0x9_0000_0000_0000) * (64 * c) == 100 * (unit * c)) by (nonlinear_arith)
        requires
            unit == 0x10_0000_0000_0000,
    ;
    assert((unit + 0xc_2000_0000_0000) * (4096 * c) == 7_200 * (unit * c)) by (nonlinear_arith)
        requires
            unit == 0x10_0000_0000_0000,
    ;
    assert(-5 * b <= 10 * ((unit + 0x9_9999_9999_999a) * b) - unit * (16 * b) <= 5 * b)
        by (nonlinear_arith)
        requires
            unit == 0x10_0000_0000_0000,
            b >= 1,
    ;
    assert(-500 * a <= 1_000 * ((unit + 0x0_624d_d2f1_a9fc) * a) - unit * (1024 * a) <= 500 * a)
        by (nonlinear_arith)
        requires
            unit == 0x10_0000_0000_0000,
            a >= 1,
    ;
}

} // verus!
