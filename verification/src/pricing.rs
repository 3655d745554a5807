//! What a stake is promised.
//!
//! Money is counted in millionths of a unit. A promise follows the curve
//!
//! ```text
//! winnings = (1 / 1.05) * (stake + other_pool * ln((pool + stake) / pool))
//! ```
//!
//! in fixed point, rounded down at every step. The curve keeps its shape: a
//! larger stake is never promised less, a larger pool behind the chosen side
//! never earns more, and a larger pool on the other side never earns less.

use vstd::prelude::*;
use vstd::arithmetic::div_mod::{lemma_div_is_ordered, lemma_div_is_ordered_by_denominator};
use vstd::arithmetic::power::{
    lemma_pow1, lemma_pow_adds, lemma_pow_distributes, lemma_pow_positive, pow,
};
use crate::error::LedgerError;
use crate::logarithm::{
    lemma_ln_ordered, lemma_log2_is_low, lemma_log2_loses_little, lemma_log2_of_double,
    lemma_log2_of_one, lemma_logarithms_bounded, lemma_pow_base_ordered,
    lemma_pow_base_strictly_ordered, lemma_rounding_stays_below_two, ln_q32, log2_q32,
    natural_logarithm, LN_2_Q32, ONE_Q32, ONE_Q62,
};

verus! {

/// Millionths in one unit of money.
pub const UNIT: u64 = 1_000_000;

/// The largest pool, and the largest stake, that the ledger represents:
/// ten thousand million units.
pub const MAX_MONEY: u64 = 10_000_000_000_000_000;

/// No promise exceeds this (see [`lemma_winnings_bounded`]).
pub const MAX_WINNINGS: u64 = 450_000_000_000_000_000;

/// `(pool + stake) / pool` with 62 fractional bits.
pub open spec fn growth_q62(pool: int, stake: int) -> int {
    (ONE_Q62 as int) + stake * (ONE_Q62 as int) / pool
}

/// What a stake of `bet_amount` on a side that holds `betted_team_bets` is
/// promised, when the other side holds `other_team`.
pub open spec fn winnings(betted_team_bets: int, other_team: int, bet_amount: int) -> int {
    100 * (bet_amount * (ONE_Q32 as int) + other_team * ln_q32(
        growth_q62(betted_team_bets, bet_amount),
    )) / (105 * (ONE_Q32 as int))
}

/// Whether a stake of `bet_amount` can be priced against these pools.
pub open spec fn priceable_stake(betted_team_bets: int, other_team: int, bet_amount: int) -> bool {
    &&& 0 < betted_team_bets <= MAX_MONEY as int
    &&& 0 <= other_team <= MAX_MONEY as int
    &&& 0 <= bet_amount <= MAX_MONEY as int
}

/// The growth keeps the order of the stakes and reverses that of the pools.
proof fn lemma_growth_ordered(pool_1: int, pool_2: int, stake_1: int, stake_2: int)
    requires
        0 < pool_1 <= pool_2,
        0 <= stake_1 <= stake_2,
    ensures
        0 <= growth_q62(pool_2, stake_1) <= growth_q62(pool_1, stake_2),
{
    let one: int = ONE_Q62 as int;
    lemma_div_is_ordered(0, stake_1 * one, pool_2);
    lemma_div_is_ordered(stake_1 * one, stake_2 * one, pool_2);
    lemma_div_is_ordered_by_denominator(stake_2 * one, pool_1, pool_2);
}

/// What a stake is promised grows with the logarithm that enters it.
proof fn lemma_promise_ordered(
    other_1: int,
    other_2: int,
    stake_1: int,
    stake_2: int,
    ln_1: int,
    ln_2: int,
)
    requires
        0 <= other_1 <= other_2,
        0 <= stake_1 <= stake_2,
        0 <= ln_1 <= ln_2,
    ensures
        0 <= 100 * (stake_1 * (ONE_Q32 as int) + other_1 * ln_1) / (105 * (ONE_Q32 as int)) <= 100
            * (stake_2 * (ONE_Q32 as int) + other_2 * ln_2) / (105 * (ONE_Q32 as int)),
{
    assert(0 <= other_1 * ln_1 <= other_2 * ln_2) by (nonlinear_arith)
        requires
            0 <= other_1 <= other_2,
            0 <= ln_1 <= ln_2,
    ;
    let one: int = ONE_Q32 as int;
    let low: int = 100 * (stake_1 * one + other_1 * ln_1);
    let high: int = 100 * (stake_2 * one + other_2 * ln_2);
    lemma_div_is_ordered(0, low, 105 * one);
    lemma_div_is_ordered(low, high, 105 * one);
}

/// What a stake within the range is promised is within the range of
/// promises.
pub proof fn lemma_winnings_bounded(betted_team_bets: int, other_team: int, bet_amount: int)
    requires
        priceable_stake(betted_team_bets, other_team, bet_amount),
    ensures
        0 <= winnings(betted_team_bets, other_team, bet_amount) <= MAX_WINNINGS,
{
    let one: int = ONE_Q62 as int;
    let growth: int = growth_q62(betted_team_bets, bet_amount);
    let ln: int = ln_q32(growth);
    lemma_div_is_ordered(0, bet_amount * one, betted_team_bets);
    lemma_div_is_ordered_by_denominator(bet_amount * one, 1, betted_team_bets);
    assert((bet_amount * one) / 1 == bet_amount * one);
    assert(0 <= growth <= u128::MAX);
    lemma_logarithms_bounded(growth);
    assert(0 <= other_team * ln <= 10_000_000_000_000_000 * (46 * 4_294_967_296))
        by (nonlinear_arith)
        requires
            0 <= other_team <= 10_000_000_000_000_000,
            0 <= ln <= 46 * 4_294_967_296,
    ;
    let scale: int = ONE_Q32 as int;
    let numerator: int = 100 * (bet_amount * scale + other_team * ln);
    lemma_div_is_ordered(0, numerator, 105 * scale);
    lemma_div_is_ordered(numerator, 100 * (47 * 10_000_000_000_000_000 * scale), 105 * scale);
    assert(100 * (47 * 10_000_000_000_000_000 * scale) / (105 * scale) <= MAX_WINNINGS);
}

/// The logarithm that prices a stake is the true one. With `log` the binary
/// logarithm of the growth, in units of `2^-32`:
///
/// ```text
/// log / 2^32 <= log2((pool + stake) / pool) < (log + 2) / 2^32
/// ```
///
/// stated in whole numbers, with both sides as exponents of two and raised
/// to the power of `2^32`. The promise is computed from this logarithm by
/// multiplications and divisions that round down.
pub proof fn lemma_growth_logarithm_is_accurate(pool: int, stake: int)
    requires
        0 < pool,
        0 <= stake,
    ensures
        ({
            let log: int = log2_q32(growth_q62(pool, stake));
            let scale: nat = ONE_Q32 as nat;
            &&& 0 <= log
            &&& pow(2, log as nat) * pow(pool, scale) <= pow(pool + stake, scale)
            &&& pow(pool + stake, scale) < pow(2, (log + 2) as nat) * pow(pool, scale)
        }),
{
    let one: int = ONE_Q62 as int;
    let above: int = one + 1;
    let scale: nat = ONE_Q32 as nat;
    let growth: int = growth_q62(pool, stake);
    let log: int = log2_q32(growth);
    let quotient: int = stake * one / pool;
    assert(0 <= quotient && quotient * pool <= stake * one < (quotient + 1) * pool)
        by (nonlinear_arith)
        requires
            0 < pool,
            0 <= stake,
            0 < one,
            quotient == stake * one / pool,
    ;
    assert(growth == one + quotient);
    lemma_log2_is_low(growth);
    lemma_log2_loses_little(growth);
    lemma_rounding_stays_below_two((scale + scale + scale) as nat);
    // The growth, rounded down, against the true quotient of the pools.
    assert(0 <= growth * pool <= (pool + stake) * one) by (nonlinear_arith)
        requires
            growth == one + quotient,
            0 <= quotient,
            0 < one,
            0 < pool,
            quotient * pool <= stake * one,
    ;
    assert(0 <= (pool + stake) * one * one < growth * above * pool) by (nonlinear_arith)
        requires
            growth == one + quotient,
            above == one + 1,
            0 <= quotient,
            0 < one,
            0 < pool,
            0 <= stake,
            stake * one < (quotient + 1) * pool,
    {
        assert((pool + stake) * one < (growth + 1) * pool);
        assert((growth + 1) * one <= growth * above);
        assert(((pool + stake) * one) * one < ((growth + 1) * pool) * one);
        assert(((growth + 1) * pool) * one == ((growth + 1) * one) * pool);
        assert(((growth + 1) * one) * pool <= (growth * above) * pool);
    }
    lemma_pow_base_ordered(growth * pool, (pool + stake) * one, scale);
    lemma_pow_base_strictly_ordered((pool + stake) * one * one, growth * above * pool, scale);
    lemma_pow_distributes(growth, pool, scale);
    lemma_pow_distributes(pool + stake, one, scale);
    lemma_pow_distributes((pool + stake) * one, one, scale);
    lemma_pow_distributes(growth * above, pool, scale);
    lemma_pow_distributes(growth, above, scale);
    lemma_pow_adds(above, (scale + scale) as nat, scale);
    lemma_pow_adds(one, (scale + scale) as nat, scale);
    lemma_pow_adds(one, scale, scale);
    lemma_pow_adds(2, (log + 1) as nat, 1);
    lemma_pow1(2);
    lemma_pow_positive(one, scale);
    lemma_pow_positive(pool, scale);
    lemma_pow_positive(above, scale);
    lemma_pow_positive(2, log as nat);
    let staked: int = pow(pool + stake, scale);
    let pooled: int = pow(pool, scale);
    let grown: int = pow(growth, scale);
    let ones: int = pow(one, scale);
    let aboves: int = pow(above, scale);
    let aboves_twice: int = pow(above, (scale + scale) as nat);
    let low: int = pow(2, log as nat);
    let high: int = pow(2, (log + 1) as nat);
    assert(low * pooled <= staked) by (nonlinear_arith)
        requires
            low * ones <= grown,
            grown * pooled <= staked * ones,
            0 < ones,
            0 < pooled,
            0 < low,
    {
        assert((low * ones) * pooled <= grown * pooled);
        assert((low * pooled) * ones <= staked * ones);
    }
    assert(staked < (high * 2) * pooled) by (nonlinear_arith)
        requires
            staked * ones * ones < grown * aboves * pooled,
            grown * ones < high * aboves_twice,
            aboves_twice * aboves <= 2 * ((ones * ones) * ones),
            0 < ones,
            0 < pooled,
            0 < aboves,
            0 < high,
    {
        assert((staked * ones * ones) * ones < (grown * aboves * pooled) * ones);
        assert((grown * aboves * pooled) * ones == (grown * ones) * (aboves * pooled));
        assert((grown * ones) * (aboves * pooled) < (high * aboves_twice) * (aboves * pooled));
        assert((high * aboves_twice) * (aboves * pooled) == (high * pooled) * (aboves_twice
            * aboves));
        assert((high * pooled) * (aboves_twice * aboves) <= (high * pooled) * (2 * ((ones * ones)
            * ones)));
        assert(staked * ((ones * ones) * ones) < ((high * 2) * pooled) * ((ones * ones) * ones));
    }
}

/// A larger stake is never promised less.
pub proof fn lemma_winnings_grow_with_stake(
    betted_team_bets: int,
    other_team: int,
    smaller: int,
    larger: int,
)
    requires
        0 < betted_team_bets,
        0 <= other_team,
        0 <= smaller <= larger,
    ensures
        winnings(betted_team_bets, other_team, smaller) <= winnings(
            betted_team_bets,
            other_team,
            larger,
        ),
{
    lemma_growth_ordered(betted_team_bets, betted_team_bets, smaller, larger);
    lemma_ln_ordered(
        growth_q62(betted_team_bets, smaller),
        growth_q62(betted_team_bets, larger),
    );
    lemma_promise_ordered(
        other_team,
        other_team,
        smaller,
        larger,
        ln_q32(growth_q62(betted_team_bets, smaller)),
        ln_q32(growth_q62(betted_team_bets, larger)),
    );
}

/// Two millionths more at stake are promised at least one millionth more.
pub proof fn lemma_winnings_grow_strictly_with_stake(
    betted_team_bets: int,
    other_team: int,
    smaller: int,
    larger: int,
)
    requires
        0 < betted_team_bets,
        0 <= other_team,
        0 <= smaller,
        smaller + 2 <= larger,
    ensures
        winnings(betted_team_bets, other_team, smaller) < winnings(
            betted_team_bets,
            other_team,
            larger,
        ),
{
    let one: int = ONE_Q32 as int;
    let ln_small: int = ln_q32(growth_q62(betted_team_bets, smaller));
    let ln_large: int = ln_q32(growth_q62(betted_team_bets, larger));
    lemma_growth_ordered(betted_team_bets, betted_team_bets, smaller, larger);
    lemma_ln_ordered(
        growth_q62(betted_team_bets, smaller),
        growth_q62(betted_team_bets, larger),
    );
    assert(0 <= other_team * ln_small <= other_team * ln_large) by (nonlinear_arith)
        requires
            0 <= other_team,
            0 <= ln_small <= ln_large,
    ;
    let low: int = 100 * (smaller * one + other_team * ln_small);
    let high: int = 100 * (larger * one + other_team * ln_large);
    // The numerator grows by more than the denominator.
    assert(low + 105 * one <= high);
    lemma_div_is_ordered(low + 105 * one, high, 105 * one);
    assert((low + 105 * one) / (105 * one) == low / (105 * one) + 1) by (nonlinear_arith)
        requires
            one == 4_294_967_296,
    ;
}

/// The more the chosen side already holds, the less a stake on it is
/// promised.
pub proof fn lemma_winnings_shrink_with_own_pool(
    smaller_pool: int,
    larger_pool: int,
    other_team: int,
    bet_amount: int,
)
    requires
        0 < smaller_pool <= larger_pool,
        0 <= other_team,
        0 <= bet_amount,
    ensures
        winnings(larger_pool, other_team, bet_amount) <= winnings(
            smaller_pool,
            other_team,
            bet_amount,
        ),
{
    lemma_growth_ordered(smaller_pool, larger_pool, bet_amount, bet_amount);
    lemma_ln_ordered(growth_q62(larger_pool, bet_amount), growth_q62(smaller_pool, bet_amount));
    lemma_promise_ordered(
        other_team,
        other_team,
        bet_amount,
        bet_amount,
        ln_q32(growth_q62(larger_pool, bet_amount)),
        ln_q32(growth_q62(smaller_pool, bet_amount)),
    );
}

/// The more the other side holds, the more a stake is promised.
pub proof fn lemma_winnings_grow_with_other_pool(
    betted_team_bets: int,
    smaller_other: int,
    larger_other: int,
    bet_amount: int,
)
    requires
        0 < betted_team_bets,
        0 <= smaller_other <= larger_other,
        0 <= bet_amount,
    ensures
        winnings(betted_team_bets, smaller_other, bet_amount) <= winnings(
            betted_team_bets,
            larger_other,
            bet_amount,
        ),
{
    lemma_growth_ordered(betted_team_bets, betted_team_bets, bet_amount, bet_amount);
    lemma_ln_ordered(
        growth_q62(betted_team_bets, bet_amount),
        growth_q62(betted_team_bets, bet_amount),
    );
    lemma_promise_ordered(
        smaller_other,
        larger_other,
        bet_amount,
        bet_amount,
        ln_q32(growth_q62(betted_team_bets, bet_amount)),
        ln_q32(growth_q62(betted_team_bets, bet_amount)),
    );
}

/// What a stake is promised is at least the stake with the margin taken
/// off: the share of the other pool only adds to it.
pub proof fn lemma_winnings_return_the_stake(
    betted_team_bets: int,
    other_team: int,
    bet_amount: int,
)
    requires
        0 < betted_team_bets,
        0 <= other_team,
        0 <= bet_amount,
    ensures
        100 * bet_amount / 105 <= winnings(betted_team_bets, other_team, bet_amount),
{
    let one: int = ONE_Q32 as int;
    let ln: int = ln_q32(growth_q62(betted_team_bets, bet_amount));
    lemma_growth_ordered(betted_team_bets, betted_team_bets, bet_amount, bet_amount);
    lemma_ln_ordered(
        growth_q62(betted_team_bets, bet_amount),
        growth_q62(betted_team_bets, bet_amount),
    );
    assert(0 <= other_team * ln) by (nonlinear_arith)
        requires
            0 <= other_team,
            0 <= ln,
    ;
    let low: int = 100 * (bet_amount * one);
    let high: int = 100 * (bet_amount * one + other_team * ln);
    lemma_div_is_ordered(low, high, 105 * one);
    assert(low / (105 * one) == 100 * bet_amount / 105) by (nonlinear_arith)
        requires
            one == 4_294_967_296,
            low == 100 * (bet_amount * one),
            0 <= bet_amount,
    ;
}

/// A stake as large as the pool doubles it, and is promised
/// `(stake + other_pool * ln 2) / 1.05`.
pub proof fn lemma_winnings_of_doubling(pool: int, other_team: int)
    requires
        0 < pool,
        0 <= other_team,
    ensures
        winnings(pool, other_team, pool) == 100 * (pool * ONE_Q32 + other_team * LN_2_Q32) / (105
            * ONE_Q32),
{
    let one: int = ONE_Q62 as int;
    assert(pool * one / pool == one) by (nonlinear_arith)
        requires
            0 < pool,
            0 < one,
    ;
    lemma_log2_of_one();
    lemma_log2_of_double(one);
}

/// A stake of nothing is promised nothing.
pub proof fn lemma_no_stake_no_winnings(betted_team_bets: int, other_team: int)
    requires
        0 < betted_team_bets,
        0 <= other_team,
    ensures
        winnings(betted_team_bets, other_team, 0) == 0,
{
    let one: int = ONE_Q62 as int;
    assert(0 * one / betted_team_bets == 0) by (nonlinear_arith)
        requires
            0 < betted_team_bets,
    ;
    assert(growth_q62(betted_team_bets, 0) == one);
    lemma_log2_of_one();
    assert(other_team * 0 == 0);
}

/// Prices a stake: what `bet_amount` on a side that holds `betted_team_bets`
/// is promised when the other side holds `other_team`.
///
/// The side that is betted on must hold something, and no amount may exceed
/// [`MAX_MONEY`]; otherwise the stake is refused as malformed.
pub fn find_winnings(betted_team_bets: u64, other_team: u64, bet_amount: u64) -> (r: Result<
    u64,
    LedgerError,
>)
    ensures
        r is Ok <==> priceable_stake(betted_team_bets as int, other_team as int, bet_amount as int),
        r matches Ok(w) ==> w == winnings(
            betted_team_bets as int,
            other_team as int,
            bet_amount as int,
        ) && w <= MAX_WINNINGS,
        r matches Err(e) ==> e == LedgerError::MalformedInput,
{
    if betted_team_bets == 0 || betted_team_bets > MAX_MONEY || other_team > MAX_MONEY || bet_amount
        > MAX_MONEY {
        return Err(LedgerError::MalformedInput);
    }
    let growth: u128 = ONE_Q62 + (bet_amount as u128) * ONE_Q62 / (betted_team_bets as u128);
    let ln: u128 = natural_logarithm(growth);
    assert(other_team * ln <= 10_000_000_000_000_000 * (46 * 4_294_967_296)) by (nonlinear_arith)
        requires
            other_team <= 10_000_000_000_000_000,
            ln <= 46 * 4_294_967_296,
    ;
    let promised: u128 = 100 * ((bet_amount as u128) * ONE_Q32 + (other_team as u128) * ln) / (105
        * ONE_Q32);
    Ok(promised as u64)
}

} // verus!
