//! Spelling a number of bytes, to the digit as the quotient of two binary64 numbers
//! is spelled.
use crate::text::{decimal, decimal_text};
use vstd::prelude::*;

verus! {

/// Two to the power of `k`.
pub open spec fn pow2(k: nat) -> nat
    decreases k,
{
    if k == 0 {
        1
    } else {
        2 * pow2((k - 1) as nat)
    }
}

/// The binary logarithm, rounded down; zero for zero.
pub open spec fn log2(n: nat) -> nat
    decreases n,
{
    if n < 2 {
        0
    } else {
        1 + log2(n / 2)
    }
}

/// The integer nearest to `a / b`; of two equally near ones the even one.
pub open spec fn nearest(a: nat, b: nat) -> nat
    recommends
        b > 0,
{
    let q = a / b;
    let r = a % b;
    if 2 * r < b || (2 * r == b && q % 2 == 0) {
        q
    } else {
        q + 1
    }
}

/// The integer with at most 53 significant bits that is nearest to `n`.
pub open spec fn nearest_double(n: nat) -> nat {
    if log2(n) <= 52 {
        n
    } else {
        let s = pow2((log2(n) - 52) as nat);
        nearest(n, s) * s
    }
}

/// The number of fraction bits of the binary64 number nearest to `a / b`, where that
/// is at least one half and below two to the 53rd.
pub open spec fn fraction_bits(a: nat, b: nat) -> nat {
    if a < b {
        53
    } else {
        (52 - log2(a / b)) as nat
    }
}

/// The binary64 number nearest to `a / b`, in units of its last fraction bit.
pub open spec fn double_quotient(a: nat, b: nat) -> nat {
    nearest(a * pow2(fraction_bits(a, b)), b)
}

/// The binary64 number nearest to `a / b` in units of `1 / scale`, rounded to the
/// nearest one.
pub open spec fn scaled_quotient(a: nat, b: nat, scale: nat) -> nat {
    nearest(double_quotient(a, b) * scale, pow2(fraction_bits(a, b)))
}

/// A number of tenths with one decimal.
pub open spec fn with_one_decimal(tenths: nat) -> Seq<char> {
    decimal(tenths / 10) + "."@ + decimal(tenths % 10)
}

/// A number of hundredths with two decimals.
pub open spec fn with_two_decimals(hundredths: nat) -> Seq<char> {
    decimal(hundredths / 100) + "."@ + decimal((hundredths / 10) % 10) + decimal(hundredths % 10)
}

/// A unit that bytes are counted in.
#[derive(Clone, Copy, Debug, PartialEq, Eq, Structural)]
pub enum ByteUnit {
    Bytes,
    Kilobytes,
    Megabytes,
    Gigabytes,
}

/// The first unit in which the number, as it is spelled, stays below a thousand; there is
/// none above the gigabyte.
pub open spec fn byte_unit(x: nat) -> ByteUnit {
    if x < 1_000 {
        ByteUnit::Bytes
    } else if x < 1_000_000 && scaled_quotient(x, 1_000, 10) < 10_000 {
        ByteUnit::Kilobytes
    } else if x < 1_000_000_000 && scaled_quotient(x, 1_000_000, 10) < 10_000 {
        ByteUnit::Megabytes
    } else {
        ByteUnit::Gigabytes
    }
}

/// A number of bytes in the unit that keeps it below four digits.
pub open spec fn bytes_text(n: nat) -> Seq<char> {
    let x = nearest_double(n);
    match byte_unit(x) {
        ByteUnit::Bytes => decimal(x) + " B"@,
        ByteUnit::Kilobytes => with_one_decimal(scaled_quotient(x, 1_000, 10)) + " kB"@,
        ByteUnit::Megabytes => with_one_decimal(scaled_quotient(x, 1_000_000, 10)) + " MB"@,
        ByteUnit::Gigabytes => with_two_decimals(scaled_quotient(x, 1_000_000_000, 100)) + " GB"@,
    }
}

/// The whole number before the point in the spelling of a number of bytes.
pub open spec fn whole_part(n: nat) -> nat {
    let x = nearest_double(n);
    match byte_unit(x) {
        ByteUnit::Bytes => x,
        ByteUnit::Kilobytes => scaled_quotient(x, 1_000, 10) / 10,
        ByteUnit::Megabytes => scaled_quotient(x, 1_000_000, 10) / 10,
        ByteUnit::Gigabytes => scaled_quotient(x, 1_000_000_000, 100) / 100,
    }
}

/// A number of bytes is spelled with its whole part first, and below the gigabyte that has
/// fewer than four digits.
pub proof fn a_size_has_fewer_than_four_digits(n: nat)
    ensures
        decimal(whole_part(n)).is_prefix_of(bytes_text(n)),
        byte_unit(nearest_double(n)) != ByteUnit::Gigabytes ==> decimal(whole_part(n)).len() < 4,
{
    reveal_with_fuel(decimal, 4);
    let w = decimal(whole_part(n));
    assert(bytes_text(n).subrange(0, w.len() as int) =~= w);
}

proof fn lemma_pow2_positive(k: nat)
    ensures
        pow2(k) >= 1,
    decreases k,
{
    if k > 0 {
        lemma_pow2_positive((k - 1) as nat);
    }
}

proof fn lemma_pow2_add(a: nat, b: nat)
    ensures
        pow2(a + b) == pow2(a) * pow2(b),
    decreases a,
{
    if a > 0 {
        lemma_pow2_add((a - 1) as nat, b);
        assert(pow2(a + b) == 2 * pow2((a + b - 1) as nat));
        assert((a + b - 1) as nat == (a - 1) as nat + b);
        assert(2 * (pow2((a - 1) as nat) * pow2(b)) == (2 * pow2((a - 1) as nat)) * pow2(b))
            by (nonlinear_arith);
    } else {
        assert(pow2(a + b) == 1 * pow2(b));
    }
}

proof fn lemma_pow2_monotonic(a: nat, b: nat)
    requires
        a <= b,
    ensures
        pow2(a) <= pow2(b),
    decreases b,
{
    if a < b {
        lemma_pow2_monotonic(a, (b - 1) as nat);
    }
}

/// The number lies between two powers of two.
proof fn lemma_log2(n: nat)
    requires
        n >= 1,
    ensures
        pow2(log2(n)) <= n < 2 * pow2(log2(n)),
    decreases n,
{
    if n >= 2 {
        lemma_log2(n / 2);
    }
}

proof fn lemma_pow2_values()
    ensures
        pow2(52) == 0x10_0000_0000_0000,
        pow2(53) == 0x20_0000_0000_0000,
        pow2(64) == 0x1_0000_0000_0000_0000,
{
    reveal_with_fuel(pow2, 14);
    assert(pow2(13) == 0x2000);
    lemma_pow2_add(13, 13);
    let a = pow2(13);
    assert(a * a == 0x400_0000) by (nonlinear_arith)
        requires
            a == 0x2000,
    ;
    lemma_pow2_add(26, 26);
    let b = pow2(26);
    assert(b * b == 0x10_0000_0000_0000) by (nonlinear_arith)
        requires
            b == 0x400_0000,
    ;
    assert(pow2(1) == 2);
    assert(pow2(12) == 0x1000);
    lemma_pow2_add(52, 1);
    lemma_pow2_add(52, 12);
}

fn power_of_two(k: u32) -> (r: u128)
    requires
        k <= 64,
    ensures
        r == pow2(k as nat),
        1 <= r <= 0x1_0000_0000_0000_0000,
{
    let mut r: u128 = 1;
    let mut i: u32 = 0;
    proof {
        lemma_pow2_values();
    }
    while i < k
        invariant
            i <= k <= 64,
            r == pow2(i as nat),
            pow2(64) == 0x1_0000_0000_0000_0000,
        decreases k - i,
    {
        proof {
            lemma_pow2_monotonic(i as nat, 64);
        }
        r = r * 2;
        i += 1;
    }
    proof {
        lemma_pow2_monotonic(k as nat, 64);
        lemma_pow2_positive(k as nat);
    }
    r
}

fn binary_log(n: u64) -> (r: u32)
    ensures
        r == log2(n as nat),
        r < 64,
{
    proof {
        lemma_pow2_values();
        if n >= 1 {
            lemma_log2(n as nat);
            if log2(n as nat) >= 64 {
                lemma_pow2_monotonic(64, log2(n as nat));
            }
        }
    }
    let mut m: u64 = n;
    let mut r: u32 = 0;
    while m >= 2
        invariant
            r + log2(m as nat) == log2(n as nat),
            log2(n as nat) < 64,
        decreases m,
    {
        m = m / 2;
        r += 1;
    }
    r
}

fn nearest_integer(a: u128, b: u128) -> (r: u128)
    requires
        0 < b < 0x1000_0000_0000_0000_0000_0000_0000_0000,
        a < 0x1000_0000_0000_0000_0000_0000_0000_0000,
    ensures
        r == nearest(a as nat, b as nat),
{
    let q: u128 = a / b;
    let rest: u128 = a % b;
    proof {
        assert(q <= a) by (nonlinear_arith)
            requires
                q == a / b,
                b > 0,
        ;
    }
    if 2 * rest < b || (2 * rest == b && q % 2 == 0) {
        q
    } else {
        q + 1
    }
}

/// Rounding goes up by less than one.
proof fn lemma_nearest_bound(a: nat, b: nat, c: nat)
    requires
        b > 0,
        a < c * b,
    ensures
        nearest(a, b) <= c,
{
    assert(a / b < c) by (nonlinear_arith)
        requires
            b > 0,
            a < c * b,
    ;
}

/// The integer nearest to `n` that a binary64 number can hold.
fn rounded_to_double(n: u64) -> (r: u128)
    ensures
        r == nearest_double(n as nat),
        r <= 0x1_0000_0000_0000_0000,
{
    let e = binary_log(n);
    if e <= 52 {
        return n as u128;
    }
    let s = power_of_two(e - 52);
    let q = nearest_integer(n as u128, s);
    proof {
        lemma_pow2_values();
        lemma_log2(n as nat);
        lemma_pow2_add((e - 52) as nat, 52);
        lemma_pow2_monotonic(e as nat, 63);
        lemma_pow2_add(63, 1);
        reveal_with_fuel(pow2, 2);
        let p = pow2((e - 52) as nat);
        assert(2 * pow2(e as nat) == 0x20_0000_0000_0000 * p) by (nonlinear_arith)
            requires
                pow2(e as nat) == p * 0x10_0000_0000_0000,
        ;
        lemma_nearest_bound(n as nat, p, 0x20_0000_0000_0000);
        assert(q * s <= 0x20_0000_0000_0000 * s) by (nonlinear_arith)
            requires
                q <= 0x20_0000_0000_0000,
        ;
        assert(2 * pow2(e as nat) <= 0x1_0000_0000_0000_0000);
    }
    q * s
}

/// The binary64 number nearest to `a / b`, in units of `1 / scale`.
fn quotient_in_units(a: u128, b: u128, scale: u128) -> (r: u64)
    requires
        0 < b <= 1_000_000_000,
        a <= 0x1_0000_0000_0000_0000,
        0 < scale <= 100,
        a / b < 0x8_0000_0000,
    ensures
        r == scaled_quotient(a as nat, b as nat, scale as nat),
{
    if a < b {
        let unit = power_of_two(53);
        proof {
            lemma_pow2_values();
            assert(a * unit < 0x20_0000_0000_0000 * b) by (nonlinear_arith)
                requires
                    a < b,
                    unit == 0x20_0000_0000_0000,
            ;
            lemma_nearest_bound((a * unit) as nat, b as nat, 0x20_0000_0000_0000);
        }
        let m = nearest_integer(a * unit, b);
        proof {
            assert(m * scale <= 0x20_0000_0000_0000 * 100) by (nonlinear_arith)
                requires
                    m <= 0x20_0000_0000_0000,
                    scale <= 100,
            ;
            assert((m * scale) / unit as int <= m * scale) by (nonlinear_arith)
                requires
                    unit >= 1,
                    m * scale >= 0,
            ;
        }
        return nearest_integer(m * scale, unit) as u64;
    }
    let whole: u64 = (a / b) as u64;
    let e = binary_log(whole);
    proof {
        lemma_pow2_values();
        assert(a / b >= 1) by (nonlinear_arith)
            requires
                0 < b <= a,
        ;
        lemma_log2(whole as nat);
        reveal_with_fuel(pow2, 12);
        assert(pow2(11) == 2048);
        lemma_pow2_add(11, 11);
        lemma_pow2_add(22, 13);
        lemma_pow2_add(2, 11);
        assert(pow2(2) == 4);
        if e >= 35 {
            lemma_pow2_monotonic(35, e as nat);
        }
    }
    let k: u32 = 52 - e;
    let unit = power_of_two(k);
    proof {
        lemma_pow2_add(e as nat, k as nat);
        let pe = pow2(e as nat);
        let pk = pow2(k as nat);
        assert(pe * pk == 0x10_0000_0000_0000);
        assert(a < (whole + 1) * b) by (nonlinear_arith)
            requires
                whole == a / b,
                b > 0,
        ;
        assert((whole + 1) * b <= (2 * pe) * b) by (nonlinear_arith)
            requires
                whole + 1 <= 2 * pe,
                b > 0,
        ;
        assert(a * pk < 0x20_0000_0000_0000 * b) by (nonlinear_arith)
            requires
                a < (2 * pe) * b,
                pe * pk == 0x10_0000_0000_0000,
                pk >= 1,
        ;
        assert(0x20_0000_0000_0000 * b <= 0x20_0000_0000_0000 * 1_000_000_000)
            by (nonlinear_arith)
            requires
                b <= 1_000_000_000,
        ;
        lemma_nearest_bound((a * pk) as nat, b as nat, 0x20_0000_0000_0000);
    }
    let m = nearest_integer(a * unit, b);
    proof {
        assert(m * scale <= 0x20_0000_0000_0000 * 100) by (nonlinear_arith)
            requires
                m <= 0x20_0000_0000_0000,
                scale <= 100,
        ;
        lemma_pow2_monotonic(k as nat, 52);
        assert((m * scale) / unit as int <= m * scale) by (nonlinear_arith)
            requires
                unit >= 1,
                m * scale >= 0,
        ;
    }
    nearest_integer(m * scale, unit) as u64
}

fn one_decimal(tenths: u64) -> (r: String)
    ensures
        r@ == with_one_decimal(tenths as nat),
{
    let mut r = decimal_text(tenths / 10);
    r.append(".");
    r.append(decimal_text(tenths % 10).as_str());
    r
}

fn two_decimals(hundredths: u64) -> (r: String)
    ensures
        r@ == with_two_decimals(hundredths as nat),
{
    let mut r = decimal_text(hundredths / 100);
    r.append(".");
    r.append(decimal_text((hundredths / 10) % 10).as_str());
    r.append(decimal_text(hundredths % 10).as_str());
    r
}

/// A number of bytes in the unit that keeps it below four digits: `216 B`, `1.5 kB`,
/// `2.00 GB`.
pub fn bytes(n: u64) -> (r: String)
    ensures
        r@ == bytes_text(n as nat),
{
    let x = rounded_to_double(n);
    if x < 1_000 {
        let mut r = decimal_text(x as u64);
        r.append(" B");
        return r;
    }
    if x < 1_000_000 {
        let tenths = quotient_in_units(x, 1_000, 10);
        if tenths < 10_000 {
            let mut r = one_decimal(tenths);
            r.append(" kB");
            return r;
        }
    }
    if x < 1_000_000_000 {
        let tenths = quotient_in_units(x, 1_000_000, 10);
        if tenths < 10_000 {
            let mut r = one_decimal(tenths);
            r.append(" MB");
            return r;
        }
    }
    let mut r = two_decimals(quotient_in_units(x, 1_000_000_000, 100));
    r.append(" GB");
    r
}

// ---- what a spelled size is worth -----------------------------------------

proof fn lemma_nearest_error(a: nat, b: nat)
    requires
        b > 0,
    ensures
        -(b as int) <= 2 * (nearest(a, b) * b - a) <= b,
{
    let (q, r) = (a / b, a % b);
    assert(a == q * b + r && r < b) by (nonlinear_arith)
        requires
            b > 0,
            q == a / b,
            r == a % b,
    ;
    assert((q + 1) * b == q * b + b) by (nonlinear_arith);
}

proof fn lemma_many_fraction_bits(a: nat, b: nat)
    requires
        a < 0x20_0000_0000_0000,
        b >= 1_000,
    ensures
        pow2(fraction_bits(a, b)) >= 128,
{
    lemma_pow2_values();
    reveal_with_fuel(pow2, 8);
    assert(pow2(7) == 128 && pow2(6) == 64);
    if a < b {
        lemma_pow2_monotonic(7, 53);
    } else {
        let m = a / b;
        assert(1 <= m && m * 1_000 <= a) by (nonlinear_arith)
            requires
                m == a / b,
                a >= b >= 1_000,
        ;
        lemma_log2(m);
        if log2(m) > 45 {
            lemma_pow2_monotonic(46, log2(m));
            lemma_pow2_add(46, 6);
            assert(pow2(46) * 64 == 0x10_0000_0000_0000);
        }
        lemma_pow2_monotonic(7, (52 - log2(m)) as nat);
    }
}

proof fn lemma_quotient_error(a: nat, b: nat, scale: nat)
    requires
        a < 0x20_0000_0000_0000,
        b >= 1_000,
        1 <= scale <= 100,
    ensures
        -(b as int) <= scaled_quotient(a, b, scale) * b - a * scale <= b,
{
    let p = pow2(fraction_bits(a, b)) as int;
    let d = double_quotient(a, b) as int;
    let t = scaled_quotient(a, b, scale) as int;
    let (n, m, c) = (a as int, b as int, scale as int);
    lemma_many_fraction_bits(a, b);
    lemma_nearest_error((a * pow2(fraction_bits(a, b))) as nat, b);
    lemma_nearest_error((double_quotient(a, b) * scale) as nat, pow2(fraction_bits(a, b)));
    let x = d * m - n * p;
    let y = t * p - d * c;
    assert(-m <= 2 * x <= m);
    assert(-p <= 2 * y <= p);
    assert((t * m - n * c) * p == y * m + c * x) by (nonlinear_arith)
        requires
            x == d * m - n * p,
            y == t * p - d * c,
    ;
    assert(-(p * m) <= 2 * (y * m) <= p * m) by (nonlinear_arith)
        requires
            -p <= 2 * y <= p,
            m > 0,
    ;
    assert(-(p * m) <= 2 * (c * x) <= p * m) by (nonlinear_arith)
        requires
            -m <= 2 * x <= m,
            0 < c <= p,
            m > 0,
    ;
    assert(-m <= t * m - n * c <= m) by (nonlinear_arith)
        requires
            -(p * m) <= (t * m - n * c) * p <= p * m,
            p > 0,
    ;
}

/// The text spells so many tenths.
pub open spec fn spells_tenths(text: Seq<char>, tenths: nat, unit: Seq<char>) -> bool {
    text == decimal(tenths / 10) + "."@ + decimal(tenths % 10) + unit
}

/// The text spells so many hundredths.
pub open spec fn spells_hundredths(text: Seq<char>, hundredths: nat, unit: Seq<char>) -> bool {
    text == decimal(hundredths / 100) + "."@ + decimal((hundredths / 10) % 10) + decimal(
        hundredths % 10,
    ) + unit
}

/// The text spells a number of bytes, off by at most a unit of its last digit: tenths of
/// kilobytes or of megabytes, or hundredths of gigabytes.
pub open spec fn spells_size(text: Seq<char>, n: int, t: nat) -> bool {
    ||| spells_tenths(text, t, " kB"@) && n < 1_000_000 && -1_000 <= t * 1_000 - n * 10 <= 1_000
    ||| spells_tenths(text, t, " MB"@) && n < 1_000_000_000 && -1_000_000 <= t * 1_000_000 - n * 10
        <= 1_000_000
    ||| spells_hundredths(text, t, " GB"@) && -1_000_000_000 <= t * 1_000_000_000 - n * 100
        <= 1_000_000_000
}

/// What is spelled of a number of bytes is that number, but for less than a unit of its last
/// digit: below a thousand the bytes themselves, then tenths of kilobytes, tenths of
/// megabytes and hundredths of gigabytes.
pub proof fn a_size_is_spelled_to_its_last_digit(n: u64, r: String)
    requires
        call_ensures(bytes, (n,), r),
        n < 0x20_0000_0000_0000,
    ensures
        n < 1_000 ==> r@ == decimal(n as nat) + " B"@,
        n >= 1_000 ==> exists|t: nat| #[trigger] spells_size(r@, n as int, t),
{
    let x = n as nat;
    lemma_pow2_values();
    assert(nearest_double(x) == x) by {
        if x >= 1 {
            lemma_log2(x);
            if log2(x) > 52 {
                lemma_pow2_monotonic(53, log2(x));
            }
        }
    }
    if x >= 1_000 {
        lemma_quotient_error(x, 1_000, 10);
        lemma_quotient_error(x, 1_000_000, 10);
        lemma_quotient_error(x, 1_000_000_000, 100);
        match byte_unit(x) {
            ByteUnit::Bytes => {},
            ByteUnit::Kilobytes => {
                let t = scaled_quotient(x, 1_000, 10);
                assert(r@ =~= decimal(t / 10) + "."@ + decimal(t % 10) + " kB"@);
                assert(spells_size(r@, n as int, t));
            },
            ByteUnit::Megabytes => {
                let t = scaled_quotient(x, 1_000_000, 10);
                assert(r@ =~= decimal(t / 10) + "."@ + decimal(t % 10) + " MB"@);
                assert(spells_size(r@, n as int, t));
            },
            ByteUnit::Gigabytes => {
                let t = scaled_quotient(x, 1_000_000_000, 100);
                assert(spells_hundredths(r@, t, " GB"@));
                assert(spells_size(r@, n as int, t));
            },
        }
    }
}

} // verus!
