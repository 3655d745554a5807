//! A pooled-wagering ledger in fixed-point arithmetic.
//!
//! Bettors stake money on one of the two sides of a match. Every stake is
//! priced against the pools at the moment it is placed, the sum of what the
//! ledger may still have to pay is kept below the funds at hand, and a match
//! pays its winners, or refunds everybody, exactly once.
//!
//! Money is counted in millionths of a unit, and odds are shown in
//! hundredths. The ledger sends no money itself: a settlement returns the
//! transfers to request, and the caller says what funds are at hand.
//!
//! - [`logarithm`]: binary and natural logarithms in fixed point.
//! - [`pricing`]: what a stake is promised.
//! - [`odds`]: the odds that the pools show, and the pools that odds seed.
//! - [`decimal`]: amounts and odds that arrive as text.
//! - [`message`]: the message that says what a stake is for.
//! - [`account`]: the names of accounts.
//! - [`state`], [`bet`], [`event`]: the life cycle, the bets and the match.
//! - [`ledger`]: the exposure ledger that admits or refuses every stake.
//! - [`registry`]: the list of matches and the operations on it.
//! - [`error`]: why an operation is refused.

pub mod account;
pub mod bet;
pub mod decimal;
pub mod error;
pub mod event;
pub mod ledger;
pub mod logarithm;
pub mod message;
pub mod odds;
pub mod pricing;
pub mod registry;
pub mod state;
