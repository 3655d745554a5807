//! The life cycle of a match and the settlement status of a bet.

use vstd::prelude::*;

verus! {

/// Where a match stands in its life cycle.
///
/// ```text
/// Future --end betting--> InProgress --finish--> Complete
///    |                        |
///    +--------cancel----------+----------------> Error
/// ```
#[derive(Clone, Copy, PartialEq, Eq, Structural, Debug)]
pub enum MatchState {
    /// Open for bets.
    Future,
    /// Betting has closed and the outcome is awaited.
    InProgress,
    /// A winner was declared and the winning bets were paid. Terminal.
    Complete,
    /// The match was cancelled and every unpaid bet was refunded. Terminal.
    Error,
}

impl MatchState {
    /// No transition leaves a terminal state.
    pub open spec fn is_terminal(self) -> bool {
        self == MatchState::Complete || self == MatchState::Error
    }

    /// Whether the match is open for bets.
    pub fn accepts_bets(self) -> (r: bool)
        ensures
            r == (self == MatchState::Future),
    {
        self == MatchState::Future
    }
}

/// What has happened to the money of one bet.
#[derive(Clone, Copy, PartialEq, Eq, Structural, Debug)]
pub enum PayedOut {
    /// Nothing was sent yet. A bet on the losing side stays so for ever.
    YetToBePayed,
    /// A transfer of the promised winnings was requested.
    Payed,
    /// A transfer that returns the stake was requested.
    ReturnPay,
    /// Reserved for a transfer that is known to have failed; nothing in the
    /// ledger sets it.
    NotPayed,
}

} // verus!
