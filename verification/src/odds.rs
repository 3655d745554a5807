//! The odds that the pools show, and the pools that odds seed.
//!
//! A match opens with a thousand units of liquidity, shared between its
//! sides in inverse proportion to the odds it is quoted at. From then on the
//! odds of a side are read off the pools: the inverse of its share of the
//! money, with a margin of five percent taken off.

use vstd::prelude::*;
use vstd::arithmetic::div_mod::lemma_div_is_ordered_by_denominator;
use crate::error::LedgerError;
use crate::pricing::{MAX_MONEY, UNIT};

verus! {

/// The odds of a side that holds `pool` of `total`, in hundredths, with five
/// percent taken off: `100 / (1.05 * pool / total)`, rounded half up.
pub open spec fn odds_hundredths(pool: int, total: int) -> int {
    (4000 * total + 21 * pool) / (42 * pool)
}

/// The whole units that seed the pool of a side quoted at `own_odds` against
/// `other_odds`: its share `other_odds / (own_odds + other_odds)` of a
/// thousand units, rounded half up.
pub open spec fn seeded_units(own_odds: int, other_odds: int) -> int {
    (2000 * other_odds + (own_odds + other_odds)) / (2 * (own_odds + other_odds))
}

/// Whether a match can open at these odds: both are quoted, and both sides
/// are seeded with at least one unit.
pub open spec fn seedable(in_odds_1: int, in_odds_2: int) -> bool {
    &&& 0 < in_odds_1
    &&& 0 < in_odds_2
    &&& 0 < seeded_units(in_odds_1, in_odds_2)
    &&& 0 < seeded_units(in_odds_2, in_odds_1)
}

/// Whether both pools are amounts that can be priced.
pub open spec fn priceable(pool_1: int, pool_2: int) -> bool {
    0 < pool_1 <= MAX_MONEY as int && 0 < pool_2 <= MAX_MONEY as int
}

/// The odds in hundredths are the quotient `100 / (1.05 * pool / total)`
/// rounded to the nearest hundredth, halves upwards.
pub proof fn lemma_odds_are_rounded(pool: int, total: int)
    requires
        0 < pool,
        0 <= total,
    ensures
        0 <= odds_hundredths(pool, total),
        -21 * pool <= 4000 * total - 42 * pool * odds_hundredths(pool, total) < 21 * pool,
{
    let shifted: int = 4000 * total + 21 * pool;
    let h: int = shifted / (42 * pool);
    assert(0 <= h && 42 * pool * h <= shifted < 42 * pool * h + 42 * pool) by (nonlinear_arith)
        requires
            0 < pool,
            0 <= shifted,
            h == shifted / (42 * pool),
    ;
}

/// The seed of a side is its share of a thousand units rounded to the
/// nearest unit, halves upwards.
pub proof fn lemma_seed_is_rounded(own_odds: int, other_odds: int)
    requires
        0 < own_odds,
        0 < other_odds,
    ensures
        0 <= seeded_units(own_odds, other_odds) <= 1000,
        -(own_odds + other_odds) <= 2000 * other_odds - 2 * (own_odds + other_odds) * seeded_units(
            own_odds,
            other_odds,
        ) < own_odds + other_odds,
{
    let sum: int = own_odds + other_odds;
    let shifted: int = 2000 * other_odds + sum;
    let u: int = shifted / (2 * sum);
    assert(0 <= u && 2 * sum * u <= shifted < 2 * sum * u + 2 * sum) by (nonlinear_arith)
        requires
            0 < sum,
            0 <= shifted,
            u == shifted / (2 * sum),
    ;
    assert(u <= 1000) by (nonlinear_arith)
        requires
            2 * sum * u <= 2000 * other_odds + sum,
            0 < other_odds < sum,
            0 <= u,
    ;
}

/// Pools that are scaled alike show the same odds.
pub proof fn lemma_odds_ignore_scale(pool: int, total: int, scale: int)
    requires
        0 < pool,
        0 <= total,
        0 < scale,
    ensures
        odds_hundredths(scale * pool, scale * total) == odds_hundredths(pool, total),
{
    let shifted: int = 4000 * total + 21 * pool;
    let h: int = shifted / (42 * pool);
    lemma_odds_are_rounded(pool, total);
    assert(4000 * (scale * total) + 21 * (scale * pool) == scale * shifted) by (nonlinear_arith)
        requires
            shifted == 4000 * total + 21 * pool,
    ;
    assert(42 * (scale * pool) == scale * (42 * pool)) by (nonlinear_arith);
    assert(scale * shifted / (scale * (42 * pool)) == h) by (nonlinear_arith)
        requires
            0 < scale,
            0 < pool,
            0 <= h,
            42 * pool * h <= shifted < 42 * pool * h + 42 * pool,
    ;
}

/// The two seeds of a match add up to a thousand units, or to one more when
/// both shares end in exactly one half.
pub proof fn lemma_seeds_share_the_liquidity(in_odds_1: int, in_odds_2: int)
    requires
        0 < in_odds_1,
        0 < in_odds_2,
    ensures
        1000 <= seeded_units(in_odds_1, in_odds_2) + seeded_units(in_odds_2, in_odds_1) <= 1001,
{
    let sum: int = in_odds_1 + in_odds_2;
    let u1: int = seeded_units(in_odds_1, in_odds_2);
    let u2: int = seeded_units(in_odds_2, in_odds_1);
    lemma_seed_is_rounded(in_odds_1, in_odds_2);
    lemma_seed_is_rounded(in_odds_2, in_odds_1);
    assert(2 * sum * u1 + 2 * sum * u2 == 2 * sum * (u1 + u2)) by (nonlinear_arith);
    assert(1000 <= u1 + u2 <= 1001) by (nonlinear_arith)
        requires
            0 < sum,
            -2 * sum <= 2000 * sum - 2 * sum * (u1 + u2) < 2 * sum,
    ;
}

/// The odds that a newly seeded match shows follow the odds it was quoted
/// at, brought to the margin of five percent.
///
/// Quoted at `own_odds` against `other_odds`, a side has the share
/// `other_odds / (own_odds + other_odds)` of the match, and at the margin
/// its odds would be `fair = 100 * (own_odds + other_odds) / (1.05 *
/// other_odds)` hundredths. The odds `shown` for the seeded pools differ from
/// `fair` only by the two roundings, of the seed to whole units and of the
/// odds to hundredths. With `own`, the seed of the side in units:
///
/// ```text
/// -(1/2 + 2000 * sum / (42 * own * other_odds))
///     <= shown - fair
///     <= 1/2 + (4000 * other_odds + 2000 * sum) / (42 * own * other_odds)
/// ```
///
/// stated below with every term multiplied by `42 * own * other_odds`.
pub proof fn lemma_starting_odds_follow_quoted_odds(own_odds: int, other_odds: int)
    requires
        seedable(own_odds, other_odds),
    ensures
        ({
            let sum: int = own_odds + other_odds;
            let own: int = seeded_units(own_odds, other_odds);
            let other: int = seeded_units(other_odds, own_odds);
            let shown: int = odds_hundredths(UNIT * own, UNIT * own + UNIT * other);
            let gap: int = 42 * own * other_odds * shown - 4000 * sum * own;
            -(21 * own * other_odds + 2000 * sum) <= gap <= 21 * own * other_odds + 4000
                * other_odds + 2000 * sum
        }),
{
    let sum: int = own_odds + other_odds;
    let own: int = seeded_units(own_odds, other_odds);
    let other: int = seeded_units(other_odds, own_odds);
    let total: int = own + other;
    let shown: int = odds_hundredths(own, total);
    assert(UNIT * own + UNIT * other == UNIT * total);
    lemma_odds_ignore_scale(own, total, UNIT as int);
    lemma_seed_is_rounded(own_odds, other_odds);
    lemma_seeds_share_the_liquidity(own_odds, other_odds);
    lemma_odds_are_rounded(own, total);
    // The rounding of the odds, seen from the other side's quote.
    let rounded: int = 4000 * total * other_odds - 42 * own * other_odds * shown;
    assert(-(21 * own * other_odds) <= rounded <= 21 * own * other_odds) by (nonlinear_arith)
        requires
            0 < other_odds,
            -21 * own <= 4000 * total - 42 * own * shown < 21 * own,
            rounded == 4000 * total * other_odds - 42 * own * other_odds * shown,
    ;
    // The rounding of the seed.
    let seeded: int = 4000 * total * other_odds - 4000 * sum * own;
    assert(-2000 * sum <= seeded <= 4000 * other_odds + 2000 * sum) by (nonlinear_arith)
        requires
            0 < other_odds,
            0 < sum,
            1000 <= total <= 1001,
            -sum <= 2000 * other_odds - 2 * sum * own < sum,
            seeded == 4000 * total * other_odds - 4000 * sum * own,
    ;
}

/// A favourite that is quoted at the margin is shown at its quote.
///
/// When the quoted odds, in millionths, carry the margin of five percent
/// exactly, `1 / own_odds + 1 / other_odds = 1.05`, and the side is seeded
/// with at least half of the liquidity, then the odds shown for it differ
/// from its quote by at most one hundredth.
pub proof fn lemma_favourite_is_shown_at_its_quote(own_odds: int, other_odds: int)
    requires
        seedable(own_odds, other_odds),
        20 * UNIT * (own_odds + other_odds) == 21 * own_odds * other_odds,
        500 <= seeded_units(own_odds, other_odds),
    ensures
        ({
            let own: int = seeded_units(own_odds, other_odds);
            let other: int = seeded_units(other_odds, own_odds);
            let shown: int = odds_hundredths(UNIT * own, UNIT * own + UNIT * other);
            -10_000 <= 10_000 * shown - own_odds <= 10_000
        }),
{
    let sum: int = own_odds + other_odds;
    let own: int = seeded_units(own_odds, other_odds);
    let other: int = seeded_units(other_odds, own_odds);
    let shown: int = odds_hundredths(UNIT * own, UNIT * own + UNIT * other);
    let gap: int = 42 * own * other_odds * shown - 4000 * sum * own;
    let scale: int = 42 * own * other_odds;
    let distance: int = 10_000 * shown - own_odds;
    lemma_starting_odds_follow_quoted_odds(own_odds, other_odds);
    lemma_seed_is_rounded(own_odds, other_odds);
    // At the margin, the fair odds are the quoted odds.
    assert(10_000 * gap == scale * distance) by (nonlinear_arith)
        requires
            20 * 1_000_000 * sum == 21 * own_odds * other_odds,
            gap == 42 * own * other_odds * shown - 4000 * sum * own,
            scale == 42 * own * other_odds,
            distance == 10_000 * shown - own_odds,
    ;
    // For a favourite, both roundings together stay within one hundredth.
    assert(4000 * other_odds + 2000 * sum <= 21 * own * other_odds) by (nonlinear_arith)
        requires
            500 <= own,
            0 < other_odds,
            0 < sum,
            2 * sum * own <= 2000 * other_odds + sum,
    ;
    assert(0 < scale && scale == 2 * (21 * own * other_odds)) by (nonlinear_arith)
        requires
            500 <= own,
            0 < other_odds,
            scale == 42 * own * other_odds,
    ;
    assert(-10_000 <= distance <= 10_000) by (nonlinear_arith)
        requires
            0 < scale,
            10_000 * gap == scale * distance,
            -scale <= gap <= scale,
    ;
}

/// The odds that the pools show, in hundredths: for each side
/// `100 / (1.05 * pool / total)`, rounded to the nearest hundredth.
///
/// Both pools must hold something and none may exceed [`MAX_MONEY`];
/// otherwise the pools are refused as malformed.
pub fn find_starting_odds(team_1_total_bets: u64, team_2_total_bets: u64) -> (r: Result<
    (u64, u64),
    LedgerError,
>)
    ensures
        r is Ok <==> priceable(team_1_total_bets as int, team_2_total_bets as int),
        r matches Ok(odds) ==> {
            &&& odds.0 == odds_hundredths(
                team_1_total_bets as int,
                team_1_total_bets + team_2_total_bets,
            )
            &&& odds.1 == odds_hundredths(
                team_2_total_bets as int,
                team_1_total_bets + team_2_total_bets,
            )
        },
        r matches Err(e) ==> e == LedgerError::MalformedInput,
{
    if team_1_total_bets == 0 || team_1_total_bets > MAX_MONEY || team_2_total_bets == 0
        || team_2_total_bets > MAX_MONEY {
        return Err(LedgerError::MalformedInput);
    }
    let pool_1: u128 = team_1_total_bets as u128;
    let pool_2: u128 = team_2_total_bets as u128;
    let total: u128 = pool_1 + pool_2;
    proof {
        lemma_div_is_ordered_by_denominator(4000 * total + 21 * pool_1, 42, 42 * pool_1);
        lemma_div_is_ordered_by_denominator(4000 * total + 21 * pool_2, 42, 42 * pool_2);
    }
    let odds_1: u128 = (4000 * total + 21 * pool_1) / (42 * pool_1);
    let odds_2: u128 = (4000 * total + 21 * pool_2) / (42 * pool_2);
    Ok((odds_1 as u64, odds_2 as u64))
}

/// The pools with which a match opens at the given odds: a thousand units,
/// shared between the sides in inverse proportion to their odds, each share
/// rounded to whole units.
///
/// Odds of zero, and odds so far apart that one side would open empty, are
/// refused as malformed.
pub fn seed_pools(in_odds_1: u64, in_odds_2: u64) -> (r: Result<(u64, u64), LedgerError>)
    ensures
        r is Ok <==> seedable(in_odds_1 as int, in_odds_2 as int),
        r matches Ok(pools) ==> {
            &&& pools.0 == UNIT * seeded_units(in_odds_1 as int, in_odds_2 as int)
            &&& pools.1 == UNIT * seeded_units(in_odds_2 as int, in_odds_1 as int)
            &&& priceable(pools.0 as int, pools.1 as int)
        },
        r matches Err(e) ==> e == LedgerError::MalformedInput,
{
    if in_odds_1 == 0 || in_odds_2 == 0 {
        return Err(LedgerError::MalformedInput);
    }
    let odds_1: u128 = in_odds_1 as u128;
    let odds_2: u128 = in_odds_2 as u128;
    let sum: u128 = odds_1 + odds_2;
    proof {
        lemma_seed_is_rounded(odds_1 as int, odds_2 as int);
        lemma_seed_is_rounded(odds_2 as int, odds_1 as int);
    }
    let units_1: u128 = (2000 * odds_2 + sum) / (2 * sum);
    let units_2: u128 = (2000 * odds_1 + sum) / (2 * sum);
    if units_1 == 0 || units_2 == 0 {
        return Err(LedgerError::MalformedInput);
    }
    Ok(((units_1 as u64) * UNIT, (units_2 as u64) * UNIT))
}

} // verus!
