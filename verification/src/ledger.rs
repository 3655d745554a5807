//! The exposure ledger: one number that says how much the open matches may
//! still cost.
//!
//! Every match that is not settled yet contributes the magnitude of what it
//! has promised on balance. The ledger follows the matches step by step and
//! is never recomputed on the way: when a stake moves the balance of its
//! match, the old magnitude is taken out and the new one put in, and the
//! stake is admitted only if the sum then stays below the funds at hand.

use vstd::prelude::*;
use crate::error::LedgerError;

verus! {

/// The sum of what the open matches may still cost, in millionths.
#[derive(Clone, Copy, PartialEq, Eq, Structural, Debug)]
pub struct ExposureLedger {
    pub total_committed_exposure: u64,
}

impl ExposureLedger {
    /// The sum after one match has moved from `before` to `after`.
    pub open spec fn repriced(self, before: int, after: int) -> int {
        self.total_committed_exposure - before + after
    }

    /// A ledger with nothing committed.
    pub fn new() -> (r: ExposureLedger)
        ensures
            r.total_committed_exposure == 0,
    {
        ExposureLedger { total_committed_exposure: 0 }
    }

    /// Moves the contribution of one match from `before` to `after`, if the
    /// sum then stays below `available_funds`; otherwise the ledger stays
    /// as it is and the reserves are reported as insufficient.
    pub fn reprice(&mut self, before: u64, after: u128, available_funds: u64) -> (r: Result<
        (),
        LedgerError,
    >)
        requires
            before <= old(self).total_committed_exposure,
        ensures
            r is Ok <==> old(self).repriced(before as int, after as int) < available_funds,
            r is Ok ==> final(self).total_committed_exposure == old(self).repriced(
                before as int,
                after as int,
            ),
            r matches Err(e) ==> e == LedgerError::InsufficientReserves && *final(self) == *old(
                self,
            ),
    {
        if after >= available_funds as u128 {
            return Err(LedgerError::InsufficientReserves);
        }
        let without: u64 = self.total_committed_exposure - before;
        let with: u128 = without as u128 + after;
        if with >= available_funds as u128 {
            return Err(LedgerError::InsufficientReserves);
        }
        self.total_committed_exposure = with as u64;
        Ok(())
    }

    /// Takes the contribution of a match that is being settled out of the sum.
    pub fn release(&mut self, exposure: u64)
        requires
            exposure <= old(self).total_committed_exposure,
        ensures
            final(self).total_committed_exposure == old(self).total_committed_exposure - exposure,
    {
        self.total_committed_exposure = self.total_committed_exposure - exposure;
    }
}

} // verus!
