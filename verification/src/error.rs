//! The ways in which an operation of the ledger is refused.

use vstd::prelude::*;

verus! {

/// Why an operation was refused. A refused operation changes nothing.
#[derive(Clone, Copy, PartialEq, Eq, Structural, Debug)]
pub enum LedgerError {
    /// No match has the given identifier.
    NotFound,
    /// The match is not in the state in which the operation is legal.
    IllegalState,
    /// The name is that of neither side of the match.
    InvalidSide,
    /// Admitting the stake would commit as much as, or more than, the funds at hand.
    InsufficientReserves,
    /// An amount, odds, an account name or a message could not be read, or an
    /// amount lies outside what the ledger can represent.
    MalformedInput,
    /// A transition was applied to a record that had already left its source state.
    StateError,
}

} // verus!
