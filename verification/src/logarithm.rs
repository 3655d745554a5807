//! Logarithms in fixed point.
//!
//! A number is held with 62 fractional bits, and its logarithm with 32. The
//! binary logarithm is extracted bit by bit: halving the number until it
//! drops below 2 counts the integer part, and squaring what is left yields
//! one bit of the fraction at a time. The natural logarithm follows by one
//! multiplication with `ln 2`. Every step rounds down, so the logarithm
//! keeps the order of its arguments and never exceeds the true one.

use vstd::prelude::*;
use vstd::arithmetic::power::{
    lemma_pow0, lemma_pow1, lemma_pow_adds, lemma_pow_distributes, lemma_pow_multiplies,
    lemma_pow_positive, pow,
};
use vstd::arithmetic::power2::{lemma2_to64, lemma_pow2_pos, lemma_pow2_unfold, pow2};

verus! {

/// 1 with 62 fractional bits.
pub const ONE_Q62: u128 = 4_611_686_018_427_387_904;

/// 2 with 62 fractional bits.
pub const TWO_Q62: u128 = 9_223_372_036_854_775_808;

/// 1 with 32 fractional bits.
pub const ONE_Q32: u128 = 4_294_967_296;

/// 1/2 with 32 fractional bits: the weight of the first bit of a fraction.
pub const HALF_Q32: u128 = 2_147_483_648;

/// `ln 2` with 32 fractional bits, rounded down.
pub const LN_2_Q32: u128 = 2_977_044_471;

/// How often `x`, a number with 62 fractional bits, is halved before it
/// drops below 2: the integer part of its binary logarithm.
pub open spec fn halvings(x: int) -> int
    decreases x,
{
    if x < TWO_Q62 as int {
        0
    } else {
        1 + halvings(x / 2)
    }
}

/// What is left of `x` after those halvings: a number below 2.
pub open spec fn mantissa(x: int) -> int
    decreases x,
{
    if x < TWO_Q62 as int {
        x
    } else {
        mantissa(x / 2)
    }
}

/// The binary logarithm of `m`, a number in `[1, 2)` with 62 fractional
/// bits, as a sum of the bit weights `weight`, `weight / 2`, ... down to 1.
///
/// Squaring `m` doubles its logarithm. The square reaches 2 exactly when the
/// logarithm has its next bit set; halving the square then takes that bit
/// off again.
pub open spec fn log2_fraction(m: int, weight: int) -> int
    decreases weight,
{
    if weight <= 0 {
        0
    } else {
        let square: int = m * m / (ONE_Q62 as int);
        if square >= TWO_Q62 as int {
            weight + log2_fraction(square / 2, weight / 2)
        } else {
            log2_fraction(square, weight / 2)
        }
    }
}

/// The binary logarithm of `x / 2^62`, with 32 fractional bits.
pub open spec fn log2_q32(x: int) -> int {
    (ONE_Q32 as int) * halvings(x) + log2_fraction(mantissa(x), HALF_Q32 as int)
}

/// The natural logarithm of `x / 2^62`, with 32 fractional bits.
pub open spec fn ln_q32(x: int) -> int {
    log2_q32(x) * (LN_2_Q32 as int) / (ONE_Q32 as int)
}

proof fn lemma_halvings_bounded(x: int, n: nat)
    requires
        0 <= x < (TWO_Q62 as int) * pow2(n),
    ensures
        0 <= halvings(x) <= n,
    decreases n,
{
    if x >= TWO_Q62 as int {
        if n == 0 {
            lemma2_to64();
        } else {
            lemma_pow2_unfold(n);
            lemma_halvings_bounded(x / 2, (n - 1) as nat);
        }
    }
}

proof fn lemma_mantissa_below_two(x: int)
    requires
        0 <= x,
    ensures
        0 <= mantissa(x) < TWO_Q62 as int,
    decreases x,
{
    if x >= TWO_Q62 as int {
        lemma_mantissa_below_two(x / 2);
    }
}

/// Halving keeps the order: of two numbers the larger has the larger
/// integer part, and among equal integer parts the larger mantissa.
proof fn lemma_normalise_ordered(x1: int, x2: int)
    requires
        0 <= x1 <= x2,
    ensures
        0 <= halvings(x1) <= halvings(x2),
        halvings(x1) == halvings(x2) ==> mantissa(x1) <= mantissa(x2),
    decreases x2,
{
    if x2 >= TWO_Q62 as int {
        if x1 >= TWO_Q62 as int {
            lemma_normalise_ordered(x1 / 2, x2 / 2);
        } else {
            lemma_normalise_ordered(x2 / 2, x2 / 2);
        }
    }
}

/// The bits from `weight` down add up to less than twice `weight`.
proof fn lemma_log2_fraction_bounded(m: int, weight: int)
    ensures
        0 <= log2_fraction(m, weight),
        weight > 0 ==> log2_fraction(m, weight) < 2 * weight,
        weight <= 0 ==> log2_fraction(m, weight) == 0,
    decreases weight,
{
    if weight > 0 {
        let square: int = m * m / (ONE_Q62 as int);
        if square >= TWO_Q62 as int {
            lemma_log2_fraction_bounded(square / 2, weight / 2);
        } else {
            lemma_log2_fraction_bounded(square, weight / 2);
        }
    }
}

/// The bits are found from the most significant down, so the first bit in
/// which two mantissas differ decides the order of their logarithms.
proof fn lemma_log2_fraction_ordered(m1: int, m2: int, weight: int)
    requires
        0 <= m1 <= m2,
    ensures
        log2_fraction(m1, weight) <= log2_fraction(m2, weight),
    decreases weight,
{
    if weight > 0 {
        let s1: int = m1 * m1 / (ONE_Q62 as int);
        let s2: int = m2 * m2 / (ONE_Q62 as int);
        assert(0 <= m1 * m1 <= m2 * m2) by (nonlinear_arith)
            requires
                0 <= m1 <= m2,
        ;
        assert(0 <= s1 <= s2);
        if s1 >= TWO_Q62 as int {
            lemma_log2_fraction_ordered(s1 / 2, s2 / 2, weight / 2);
        } else if s2 >= TWO_Q62 as int {
            lemma_log2_fraction_bounded(s1, weight / 2);
            lemma_log2_fraction_bounded(s2 / 2, weight / 2);
        } else {
            lemma_log2_fraction_ordered(s1, s2, weight / 2);
        }
    }
}

/// The binary logarithm keeps the order of its arguments.
pub proof fn lemma_log2_ordered(x1: int, x2: int)
    requires
        0 <= x1 <= x2,
    ensures
        0 <= log2_q32(x1) <= log2_q32(x2),
{
    lemma_normalise_ordered(x1, x2);
    lemma_mantissa_below_two(x1);
    lemma_mantissa_below_two(x2);
    lemma_log2_fraction_bounded(mantissa(x1), HALF_Q32 as int);
    lemma_log2_fraction_bounded(mantissa(x2), HALF_Q32 as int);
    if halvings(x1) == halvings(x2) {
        lemma_log2_fraction_ordered(mantissa(x1), mantissa(x2), HALF_Q32 as int);
    }
}

/// The natural logarithm keeps the order of its arguments.
pub proof fn lemma_ln_ordered(x1: int, x2: int)
    requires
        0 <= x1 <= x2,
    ensures
        0 <= ln_q32(x1) <= ln_q32(x2),
{
    lemma_log2_ordered(x1, x2);
}

/// The logarithm of a 128-bit number stays below 66 in binary and below 46
/// in natural terms.
pub proof fn lemma_logarithms_bounded(x: int)
    requires
        0 <= x <= u128::MAX,
    ensures
        0 <= log2_q32(x) < 66 * ONE_Q32,
        0 <= ln_q32(x) < 46 * ONE_Q32,
{
    lemma2_to64();
    lemma_pow2_unfold(65);
    lemma_halvings_bounded(x, 65);
    lemma_log2_fraction_bounded(mantissa(x), HALF_Q32 as int);
}

/// Squaring 1 gives 1: no bit of its logarithm is set.
proof fn lemma_log2_of_one_is_zero(weight: int)
    ensures
        log2_fraction(ONE_Q62 as int, weight) == 0,
    decreases weight,
{
    if weight > 0 {
        let one: int = ONE_Q62 as int;
        assert(one * one / one == one) by (nonlinear_arith)
            requires
                one == 4_611_686_018_427_387_904,
        ;
        lemma_log2_of_one_is_zero(weight / 2);
    }
}

/// The logarithm of 1 is 0.
pub proof fn lemma_log2_of_one()
    ensures
        log2_q32(ONE_Q62 as int) == 0,
        ln_q32(ONE_Q62 as int) == 0,
{
    lemma_log2_of_one_is_zero(HALF_Q32 as int);
}

/// Doubling a number adds exactly 1 to its binary logarithm.
pub proof fn lemma_log2_of_double(x: int)
    requires
        ONE_Q62 <= x,
    ensures
        log2_q32(2 * x) == log2_q32(x) + ONE_Q32,
{
    assert((2 * x) / 2 == x);
}

/// The integer part of the binary logarithm is exact: a number between
/// `2^n` and `2^(n + 1)` has a logarithm between `n` and `n + 1`.
pub proof fn lemma_log2_integer_part(x: int, n: nat)
    requires
        ONE_Q62 * pow2(n) <= x < ONE_Q62 * pow2(n + 1),
    ensures
        ONE_Q32 * n <= log2_q32(x) < ONE_Q32 * (n + 1),
    decreases n,
{
    lemma2_to64();
    lemma_pow2_unfold(n + 1);
    lemma_mantissa_below_two(x);
    lemma_log2_fraction_bounded(mantissa(x), HALF_Q32 as int);
    if n > 0 {
        lemma_pow2_unfold(n);
        lemma_log2_integer_part(x / 2, (n - 1) as nat);
        lemma_mantissa_below_two(x / 2);
        lemma_log2_fraction_bounded(mantissa(x / 2), HALF_Q32 as int);
    }
}

/// Powers keep the order of their bases.
pub proof fn lemma_pow_base_ordered(smaller: int, larger: int, exponent: nat)
    requires
        0 <= smaller <= larger,
    ensures
        0 <= pow(smaller, exponent) <= pow(larger, exponent),
    decreases exponent,
{
    reveal(pow);
    if exponent > 0 {
        lemma_pow_base_ordered(smaller, larger, (exponent - 1) as nat);
        let below: int = pow(smaller, (exponent - 1) as nat);
        let above: int = pow(larger, (exponent - 1) as nat);
        assert(0 <= smaller * below <= larger * above) by (nonlinear_arith)
            requires
                0 <= smaller <= larger,
                0 <= below <= above,
        ;
    }
}

/// The fraction never exceeds the true logarithm of the mantissa. With
/// `2^k / 2` the weight of the first bit, and so `2^k` the weight of 1:
/// two to the power of the fraction is at most `m / 2^62` to the power of
/// `2^k`.
proof fn lemma_log2_fraction_is_low(m: int, k: nat)
    requires
        ONE_Q62 <= m,
    ensures
        0 <= log2_fraction(m, pow2(k) as int / 2),
        pow(2, log2_fraction(m, pow2(k) as int / 2) as nat) * pow(ONE_Q62 as int, pow2(k)) <= pow(
            m,
            pow2(k),
        ),
    decreases k,
{
    let one: int = ONE_Q62 as int;
    lemma2_to64();
    lemma_log2_fraction_bounded(m, pow2(k) as int / 2);
    if k == 0 {
        lemma_pow0(2);
        lemma_pow1(one);
        lemma_pow1(m);
    } else {
        lemma_pow2_unfold(k);
        let weight: nat = pow2((k - 1) as nat);
        assert(pow2(k) as int / 2 == weight);
        let square: int = m * m / one;
        assert(one * one <= m * m) by (nonlinear_arith)
            requires
                0 < one <= m,
        ;
        assert(one <= square && square * one <= m * m) by (nonlinear_arith)
            requires
                0 < one,
                one * one <= m * m,
                square == m * m / one,
        ;
        let bit: nat = if square >= TWO_Q62 as int {
            1
        } else {
            0
        };
        let next: int = if square >= TWO_Q62 as int {
            square / 2
        } else {
            square
        };
        let rest: int = log2_fraction(next, weight as int / 2);
        lemma_log2_fraction_is_low(next, (k - 1) as nat);
        lemma_pow2_pos((k - 1) as nat);
        assert(bit * weight == if bit == 1 {
            weight
        } else {
            0
        }) by (nonlinear_arith)
            requires
                bit == 0 || bit == 1,
        ;
        assert(log2_fraction(m, weight as int) == bit * weight + rest);
        // What the step keeps of the square: `2^bit * next * 1 <= m * m`.
        let kept: int = pow(2, bit) * next * one;
        lemma_pow0(2);
        lemma_pow1(2);
        assert(0 <= kept <= m * m) by (nonlinear_arith)
            requires
                kept == pow(2, bit) * next * one,
                pow(2, bit) == 1 + bit,
                bit == 0 || bit == 1,
                bit == 1 ==> 2 * next <= square,
                bit == 0 ==> next == square,
                0 <= next,
                0 < one,
                square * one <= m * m,
        ;
        // Raise both sides to the power of the weight of 1 that is left.
        lemma_pow_base_ordered(kept, m * m, weight);
        lemma_pow1(m);
        lemma_pow_adds(m, 1, 1);
        lemma_pow_multiplies(m, 2, weight);
        assert(pow(m * m, weight) == pow(m, pow2(k))) by {
            assert(2 * weight == pow2(k));
        }
        lemma_pow_distributes(pow(2, bit) * next, one, weight);
        lemma_pow_distributes(pow(2, bit), next, weight);
        lemma_pow_multiplies(2, bit, weight);
        lemma_pow_adds(2, bit * weight, rest as nat);
        lemma_pow_adds(one, weight, weight);
        let two_bits: int = pow(2, bit * weight);
        let two_rest: int = pow(2, rest as nat);
        let next_raised: int = pow(next, weight);
        let one_raised: int = pow(one, weight);
        lemma_pow_positive(2, bit * weight);
        lemma_pow_positive(one, weight);
        assert(two_bits * two_rest * (one_raised * one_raised) <= two_bits * next_raised
            * one_raised) by (nonlinear_arith)
            requires
                0 < two_bits,
                0 < one_raised,
                two_rest * one_raised <= next_raised,
        ;
    }
}

/// The mantissa, doubled as often as the number was halved, gives back at
/// most the number.
proof fn lemma_mantissa_is_low(x: int)
    requires
        0 <= x,
    ensures
        0 <= halvings(x),
        0 <= mantissa(x) * pow(2, halvings(x) as nat) <= x,
        ONE_Q62 <= x ==> ONE_Q62 <= mantissa(x),
    decreases x,
{
    reveal(pow);
    if x >= TWO_Q62 as int {
        lemma_mantissa_is_low(x / 2);
        let count: nat = halvings(x / 2) as nat;
        let raised: int = pow(2, count);
        assert(pow(2, (count + 1) as nat) == 2 * raised);
        assert(mantissa(x / 2) * (2 * raised) == 2 * (mantissa(x / 2) * raised))
            by (nonlinear_arith);
    }
}

/// The binary logarithm never exceeds the true one: `log2_q32(x) / 2^32` is
/// at most the logarithm of `x / 2^62`. Stated in whole numbers, with both
/// sides as exponents of two and raised to the power of `2^32`.
pub proof fn lemma_log2_is_low(x: int)
    requires
        ONE_Q62 <= x,
    ensures
        0 <= log2_q32(x),
        pow(2, log2_q32(x) as nat) * pow(ONE_Q62 as int, ONE_Q32 as nat) <= pow(x, ONE_Q32 as nat),
{
    let one: int = ONE_Q62 as int;
    let scale: nat = ONE_Q32 as nat;
    let count: nat = halvings(x) as nat;
    let m: int = mantissa(x);
    let fraction: nat = log2_fraction(m, HALF_Q32 as int) as nat;
    lemma_mantissa_is_low(x);
    lemma2_to64();
    assert(pow2(32) == scale && pow2(32) as int / 2 == HALF_Q32);
    lemma_log2_fraction_is_low(m, 32);
    // x^s >= (m * 2^count)^s = m^s * 2^(count * s).
    lemma_pow_base_ordered(m * pow(2, count), x, scale);
    lemma_pow_distributes(m, pow(2, count), scale);
    lemma_pow_multiplies(2, count, scale);
    lemma_pow_adds(2, count * scale, fraction);
    assert(log2_q32(x) == count * scale + fraction) by (nonlinear_arith)
        requires
            log2_q32(x) == (ONE_Q32 as int) * halvings(x) + log2_fraction(m, HALF_Q32 as int),
            count == halvings(x),
            scale == ONE_Q32,
            fraction == log2_fraction(m, HALF_Q32 as int),
    ;
    let two_count: int = pow(2, count * scale);
    let two_fraction: int = pow(2, fraction);
    let m_raised: int = pow(m, scale);
    let one_raised: int = pow(one, scale);
    lemma_pow_positive(2, count * scale);
    assert(two_count * two_fraction * one_raised <= m_raised * two_count) by (nonlinear_arith)
        requires
            0 < two_count,
            two_fraction * one_raised <= m_raised,
    ;
}

/// Powers keep the strict order of their bases.
pub proof fn lemma_pow_base_strictly_ordered(smaller: int, larger: int, exponent: nat)
    requires
        0 <= smaller < larger,
        1 <= exponent,
    ensures
        0 <= pow(smaller, exponent) < pow(larger, exponent),
    decreases exponent,
{
    reveal(pow);
    lemma_pow_base_ordered(smaller, larger, (exponent - 1) as nat);
    lemma_pow_positive(larger, (exponent - 1) as nat);
    let below: int = pow(smaller, (exponent - 1) as nat);
    let above: int = pow(larger, (exponent - 1) as nat);
    assert(0 <= smaller * below < larger * above) by (nonlinear_arith)
        requires
            0 <= smaller < larger,
            0 <= below <= above,
            0 < above,
    ;
}

/// Raising `1 + 1 / a` to the power of `n` gains at most the factor
/// `a / (a - n)`.
proof fn lemma_small_growth(a: int, n: nat)
    requires
        0 < a,
        n <= a,
    ensures
        0 < pow(a + 1, n),
        pow(a + 1, n) * (a - n) <= pow(a, n + 1),
    decreases n,
{
    reveal(pow);
    lemma_pow_positive(a + 1, n);
    if n == 0 {
        lemma_pow1(a);
    } else {
        lemma_small_growth(a, (n - 1) as nat);
        let before: int = pow(a + 1, (n - 1) as nat);
        let bound: int = pow(a, n);
        lemma_pow_positive(a + 1, (n - 1) as nat);
        assert(((a + 1) * before) * (a - n) <= a * bound) by (nonlinear_arith)
            requires
                0 < a,
                1 <= n <= a,
                0 < before,
                before * (a - (n - 1)) <= bound,
        {
            assert((a + 1) * (a - n) <= a * (a - (n - 1)));
            assert(((a + 1) * before) * (a - n) == before * ((a + 1) * (a - n)));
            assert(before * ((a + 1) * (a - n)) <= before * (a * (a - (n - 1))));
            assert(before * (a * (a - (n - 1))) == a * (before * (a - (n - 1))));
        }
    }
}

/// The fraction falls short of the true logarithm of the mantissa by
/// little: what the squarings round away is at most the factor
/// `1 + 1 / 2^62` at each step.
proof fn lemma_log2_fraction_is_high(m: int, k: nat)
    requires
        ONE_Q62 <= m < TWO_Q62,
    ensures
        0 <= log2_fraction(m, pow2(k) as int / 2),
        pow(m, pow2(k)) < pow(2, (log2_fraction(m, pow2(k) as int / 2) + 1) as nat) * pow(
            ONE_Q62 + 1,
            (pow2(k) - 1) as nat,
        ) * ONE_Q62,
    decreases k,
{
    let one: int = ONE_Q62 as int;
    let above: int = one + 1;
    lemma2_to64();
    lemma_log2_fraction_bounded(m, pow2(k) as int / 2);
    lemma_pow0(above);
    lemma_pow1(2);
    lemma_pow1(m);
    if k > 0 {
        lemma_pow2_unfold(k);
        lemma_pow2_pos((k - 1) as nat);
        let weight: nat = pow2((k - 1) as nat);
        assert(pow2(k) as int / 2 == weight);
        let square: int = m * m / one;
        assert(one * one <= m * m < 4 * (one * one)) by (nonlinear_arith)
            requires
                0 < one <= m < 2 * one,
        ;
        assert(one <= square < 4 * one && m * m < (square + 1) * one) by (nonlinear_arith)
            requires
                0 < one,
                one * one <= m * m < 4 * (one * one),
                square == m * m / one,
        ;
        let bit: nat = if square >= TWO_Q62 as int {
            1
        } else {
            0
        };
        let next: int = if square >= TWO_Q62 as int {
            square / 2
        } else {
            square
        };
        let rest: int = log2_fraction(next, weight as int / 2);
        lemma_log2_fraction_is_high(next, (k - 1) as nat);
        assert(bit * weight == if bit == 1 {
            weight
        } else {
            0
        }) by (nonlinear_arith)
            requires
                bit == 0 || bit == 1,
        ;
        assert(log2_fraction(m, weight as int) == bit * weight + rest);
        // What the step loses of the square: `m * m < 2^bit * next * (1 + 2^62)`.
        lemma_pow0(2);
        let lost: int = pow(2, bit) * next * above;
        assert(0 <= m * m < lost) by (nonlinear_arith)
            requires
                lost == pow(2, bit) * next * above,
                pow(2, bit) == 1 + bit,
                bit == 0 || bit == 1,
                bit == 1 ==> square <= 2 * next + 1,
                bit == 0 ==> next == square,
                above == one + 1,
                0 < one <= next,
                0 <= m * m < (square + 1) * one,
        ;
        // Raise both sides to the power of the weight of 1 that is left.
        lemma_pow_base_strictly_ordered(m * m, lost, weight);
        lemma_pow_adds(m, 1, 1);
        lemma_pow_multiplies(m, 2, weight);
        assert(pow(m * m, weight) == pow(m, pow2(k))) by {
            assert(2 * weight == pow2(k));
        }
        lemma_pow_distributes(pow(2, bit) * next, above, weight);
        lemma_pow_distributes(pow(2, bit), next, weight);
        lemma_pow_multiplies(2, bit, weight);
        lemma_pow_adds(2, bit * weight, (rest + 1) as nat);
        lemma_pow_adds(above, (weight - 1) as nat, weight);
        let two_bits: int = pow(2, bit * weight);
        let two_rest: int = pow(2, (rest + 1) as nat);
        let next_raised: int = pow(next, weight);
        let above_less: int = pow(above, (weight - 1) as nat);
        let above_raised: int = pow(above, weight);
        lemma_pow_positive(2, bit * weight);
        lemma_pow_positive(above, weight);
        assert(two_bits * next_raised * above_raised < two_bits * two_rest * (above_less
            * above_raised) * one) by (nonlinear_arith)
            requires
                0 < two_bits,
                0 < above_raised,
                next_raised < two_rest * above_less * one,
        ;
    }
}

/// The number is less than its mantissa and one more unit in the last
/// place, doubled as often as the number was halved.
proof fn lemma_mantissa_is_high(x: int)
    requires
        0 <= x,
    ensures
        0 <= halvings(x),
        x < (mantissa(x) + 1) * pow(2, halvings(x) as nat),
    decreases x,
{
    reveal(pow);
    if x >= TWO_Q62 as int {
        lemma_mantissa_is_high(x / 2);
        let count: nat = halvings(x / 2) as nat;
        let raised: int = pow(2, count);
        assert(pow(2, (count + 1) as nat) == 2 * raised);
        assert((mantissa(x / 2) + 1) * (2 * raised) == 2 * ((mantissa(x / 2) + 1) * raised))
            by (nonlinear_arith);
    }
}

/// What the logarithm loses to rounding: at most the factor `1 + 1 / 2^62`
/// for each of the `2 * 2^32` powers that it takes, and one unit in the
/// last place.
pub proof fn lemma_log2_loses_little(x: int)
    requires
        ONE_Q62 <= x,
    ensures
        0 <= log2_q32(x),
        0 < pow(2, (log2_q32(x) + 1) as nat),
        pow(x, ONE_Q32 as nat) * pow(ONE_Q62 as int, ONE_Q32 as nat) < pow(
            2,
            (log2_q32(x) + 1) as nat,
        ) * pow(ONE_Q62 + 1, (ONE_Q32 + ONE_Q32) as nat),
{
    let one: int = ONE_Q62 as int;
    let above: int = one + 1;
    let scale: nat = ONE_Q32 as nat;
    let count: nat = halvings(x) as nat;
    let m: int = mantissa(x);
    let fraction: nat = log2_fraction(m, HALF_Q32 as int) as nat;
    lemma_mantissa_is_low(x);
    lemma_mantissa_is_high(x);
    lemma_mantissa_below_two(x);
    lemma2_to64();
    assert(pow2(32) == scale && pow2(32) as int / 2 == HALF_Q32);
    lemma_log2_fraction_is_high(m, 32);
    assert(log2_q32(x) == count * scale + fraction) by (nonlinear_arith)
        requires
            log2_q32(x) == (ONE_Q32 as int) * halvings(x) + log2_fraction(m, HALF_Q32 as int),
            count == halvings(x),
            scale == ONE_Q32,
            fraction == log2_fraction(m, HALF_Q32 as int),
    ;
    // x * 1 < (m + 1) * 2^count * 1 <= m * (1 + 2^62) * 2^count.
    let doubled: int = pow(2, count);
    lemma_pow_positive(2, count);
    let lost: int = m * above * doubled;
    assert(0 <= x * one < lost) by (nonlinear_arith)
        requires
            lost == m * above * doubled,
            above == one + 1,
            0 < one <= m,
            0 < doubled,
            0 <= x < (m + 1) * doubled,
    ;
    lemma_pow_base_strictly_ordered(x * one, lost, scale);
    lemma_pow_distributes(x, one, scale);
    lemma_pow_distributes(m * above, doubled, scale);
    lemma_pow_distributes(m, above, scale);
    lemma_pow_multiplies(2, count, scale);
    lemma_pow_adds(2, count * scale, (fraction + 1) as nat);
    lemma_pow_adds(above, (scale - 1) as nat, scale);
    lemma_pow_adds(above, (scale - 1 + scale) as nat, 1);
    lemma_pow1(above);
    let x_raised: int = pow(x, scale);
    let m_raised: int = pow(m, scale);
    let one_raised: int = pow(one, scale);
    let two_count: int = pow(2, count * scale);
    let two_fraction: int = pow(2, (fraction + 1) as nat);
    let above_less: int = pow(above, (scale - 1) as nat);
    let above_raised: int = pow(above, scale);
    let above_twice: int = pow(above, (scale + scale) as nat);
    lemma_pow_positive(2, count * scale);
    lemma_pow_positive(2, (fraction + 1) as nat);
    lemma_pow_positive(above, scale);
    lemma_pow_positive(above, (scale - 1) as nat);
    // x^s * 1^s < m^s * above^s * 2^(count * s)
    //          < 2^(fraction + 1) * above^(s - 1) * 1 * above^s * 2^(count * s)
    //          <= 2^(fraction + 1) * above^(2 s) * 2^(count * s).
    let powers: int = two_count * two_fraction;
    assert(0 < powers) by (nonlinear_arith)
        requires
            powers == two_count * two_fraction,
            0 < two_count,
            0 < two_fraction,
    ;
    assert(x_raised * one_raised < powers * above_twice) by (nonlinear_arith)
        requires
            x_raised * one_raised < m_raised * above_raised * two_count,
            m_raised < two_fraction * above_less * one,
            above_twice == above_less * above_raised * above,
            above == one + 1,
            0 < one,
            0 < two_count,
            0 < two_fraction,
            0 < above_raised,
            0 < above_less,
            powers == two_count * two_fraction,
    {
        assert(m_raised * above_raised * two_count < (two_fraction * above_less * one)
            * above_raised * two_count);
        assert((two_fraction * above_less * one) * above_raised * two_count <= (two_count
            * two_fraction) * (above_less * above_raised * above));
    }
    assert((log2_q32(x) + 1) as nat == count * scale + (fraction + 1) as nat);
}

/// `1 + 1 / 2^62`, raised to the power of `n` up to `2^61`, stays below 2.
pub proof fn lemma_rounding_stays_below_two(n: nat)
    requires
        n <= 2_305_843_009_213_693_952,
    ensures
        0 < pow(ONE_Q62 + 1, n) <= 2 * pow(ONE_Q62 as int, n),
{
    let one: int = ONE_Q62 as int;
    lemma_small_growth(one, n);
    lemma_pow_adds(one, n, 1);
    lemma_pow1(one);
    lemma_pow_positive(one, n);
    let above_raised: int = pow(one + 1, n);
    let one_raised: int = pow(one, n);
    assert(above_raised <= 2 * one_raised) by (nonlinear_arith)
        requires
            above_raised * (one - n) <= one_raised * one,
            one == 4_611_686_018_427_387_904,
            n <= 2_305_843_009_213_693_952,
            0 < above_raised,
            0 < one_raised,
    {
        assert(above_raised * 2_305_843_009_213_693_952 <= above_raised * (one - n));
        assert(above_raised * 2_305_843_009_213_693_952 <= one_raised
            * 4_611_686_018_427_387_904);
    }
}

/// The binary logarithm falls short of the true one by less than two units
/// in the last place. Stated in whole numbers, with both sides as exponents
/// of two and raised to the power of `2^32`.
pub proof fn lemma_log2_is_high(x: int)
    requires
        ONE_Q62 <= x,
    ensures
        0 <= log2_q32(x),
        pow(x, ONE_Q32 as nat) < pow(2, (log2_q32(x) + 2) as nat) * pow(
            ONE_Q62 as int,
            ONE_Q32 as nat,
        ),
{
    let one: int = ONE_Q62 as int;
    let scale: nat = ONE_Q32 as nat;
    lemma_log2_loses_little(x);
    lemma_rounding_stays_below_two((scale + scale) as nat);
    lemma_pow_adds(one, scale, scale);
    lemma_pow_adds(2, (log2_q32(x) + 1) as nat, 1);
    lemma_pow1(2);
    lemma_pow_positive(one, scale);
    let x_raised: int = pow(x, scale);
    let one_raised: int = pow(one, scale);
    let powers: int = pow(2, (log2_q32(x) + 1) as nat);
    let above_twice: int = pow(one + 1, (scale + scale) as nat);
    assert(x_raised < (powers * 2) * one_raised) by (nonlinear_arith)
        requires
            x_raised * one_raised < powers * above_twice,
            above_twice <= 2 * (one_raised * one_raised),
            0 < powers,
            0 < one_raised,
    {
        assert(powers * above_twice <= powers * (2 * (one_raised * one_raised)));
        assert(x_raised * one_raised < ((powers * 2) * one_raised) * one_raised);
    }
}

/// The binary logarithm is the true one, rounded down, or one unit in the
/// last place less: `log2_q32(x) / 2^32 <= log2(x / 2^62) < (log2_q32(x) + 2)
/// / 2^32`.
pub proof fn lemma_log2_is_accurate(x: int)
    requires
        ONE_Q62 <= x,
    ensures
        0 <= log2_q32(x),
        pow(2, log2_q32(x) as nat) * pow(ONE_Q62 as int, ONE_Q32 as nat) <= pow(x, ONE_Q32 as nat),
        pow(x, ONE_Q32 as nat) < pow(2, (log2_q32(x) + 2) as nat) * pow(
            ONE_Q62 as int,
            ONE_Q32 as nat,
        ),
{
    lemma_log2_is_low(x);
    lemma_log2_is_high(x);
}

/// The binary logarithm of `x / 2^62`, with 32 fractional bits.
pub fn binary_logarithm(x: u128) -> (r: u128)
    ensures
        r == log2_q32(x as int),
        r < 66 * ONE_Q32,
{
    let mut rest: u128 = x;
    let mut whole: u128 = 0;
    proof {
        lemma_logarithms_bounded(x as int);
        lemma2_to64();
        lemma_pow2_unfold(65);
        lemma_halvings_bounded(x as int, 65);
    }
    while rest >= TWO_Q62
        invariant
            whole + ONE_Q32 * halvings(rest as int) == ONE_Q32 * halvings(x as int),
            mantissa(rest as int) == mantissa(x as int),
            0 <= halvings(rest as int),
            halvings(x as int) <= 65,
        decreases rest,
    {
        proof {
            lemma_normalise_ordered(rest as int / 2, rest as int / 2);
        }
        rest = rest / 2;
        whole = whole + ONE_Q32;
    }
    let mut m: u128 = rest;
    let mut weight: u128 = HALF_Q32;
    let mut fraction: u128 = 0;
    while weight > 0
        invariant
            m < TWO_Q62,
            fraction + 2 * weight <= ONE_Q32,
            fraction + log2_fraction(m as int, weight as int) == log2_fraction(
                rest as int,
                HALF_Q32 as int,
            ),
        decreases weight,
    {
        assert(m * m < 0x4000_0000_0000_0000_0000_0000_0000_0000) by (nonlinear_arith)
            requires
                m < 0x8000_0000_0000_0000,
        ;
        let square: u128 = m * m / ONE_Q62;
        if square >= TWO_Q62 {
            fraction = fraction + weight;
            m = square / 2;
        } else {
            m = square;
        }
        weight = weight / 2;
    }
    whole + fraction
}

/// The natural logarithm of `x / 2^62`, with 32 fractional bits.
pub fn natural_logarithm(x: u128) -> (r: u128)
    ensures
        r == ln_q32(x as int),
        r < 46 * ONE_Q32,
{
    proof {
        lemma_logarithms_bounded(x as int);
    }
    binary_logarithm(x) * LN_2_Q32 / ONE_Q32
}

} // verus!
