//! Bets, and the settlement that sends their money out.
//!
//! A bet never changes after it is placed, but for its status. Settlement
//! walks the bets of a match once, in the order in which they were placed,
//! and for every bet that is owed money it records the transfer and marks the
//! bet in the same step. Transfers are requests: the ledger does not wait to
//! learn whether one arrived.

use vstd::prelude::*;
use crate::decimal::BASE_UNITS_PER_MILLIONTH;
use crate::state::PayedOut;

verus! {

/// One of the two sides of a match.
#[derive(Clone, Copy, PartialEq, Eq, Structural, Debug)]
pub enum Side {
    /// The side named first when the match was created.
    TeamOne,
    /// The side named second.
    TeamTwo,
}

/// Why money leaves the ledger.
#[derive(Clone, Copy, PartialEq, Eq, Structural, Debug)]
pub enum TransferKind {
    /// The promised winnings of a bet on the winning side.
    Winnings,
    /// The stake of a bet on a cancelled match.
    ReturnFunds,
}

/// How a match is settled.
#[derive(Clone, Copy, PartialEq, Eq, Structural, Debug)]
pub enum Settlement {
    /// The given side won: its bets are paid what they were promised.
    Payout(Side),
    /// The match was cancelled: every bet gets its stake back.
    Refund,
}

/// A stake on one side of a match.
#[derive(Clone, Debug, PartialEq, Eq)]
pub struct Bet {
    /// The account that placed the bet.
    pub bettor: String,
    /// The side it is placed on.
    pub decision: Side,
    /// The stake, in millionths.
    pub bet_amount: u64,
    /// What the bet pays if its side wins, fixed when it was placed.
    pub potential_winnings: u64,
    /// What has happened to its money.
    pub payed_out: PayedOut,
}

/// A bet as a value.
pub struct BetView {
    pub bettor: Seq<char>,
    pub decision: Side,
    pub bet_amount: u64,
    pub potential_winnings: u64,
    pub payed_out: PayedOut,
}

/// A request to send money to an account.
#[derive(Clone, Debug, PartialEq, Eq)]
pub struct Transfer {
    /// The account that receives the money.
    pub receiver_id: String,
    /// How much, in millionths.
    pub amount: u64,
    /// For what.
    pub kind: TransferKind,
}

/// A transfer as a value.
pub struct TransferView {
    pub receiver_id: Seq<char>,
    pub amount: u64,
    pub kind: TransferKind,
}

impl View for Bet {
    type V = BetView;

    open spec fn view(&self) -> BetView {
        BetView {
            bettor: self.bettor@,
            decision: self.decision,
            bet_amount: self.bet_amount,
            potential_winnings: self.potential_winnings,
            payed_out: self.payed_out,
        }
    }
}

impl View for Transfer {
    type V = TransferView;

    open spec fn view(&self) -> TransferView {
        TransferView { receiver_id: self.receiver_id@, amount: self.amount, kind: self.kind }
    }
}

/// The bets of a vector as values.
pub open spec fn bet_views(bets: Seq<Bet>) -> Seq<BetView> {
    Seq::new(bets.len(), |i: int| bets[i]@)
}

/// The transfers of a vector as values.
pub open spec fn transfer_views(transfers: Seq<Transfer>) -> Seq<TransferView> {
    Seq::new(transfers.len(), |i: int| transfers[i]@)
}

impl Settlement {
    /// The status of a bet that this settlement has sent money for.
    pub open spec fn mark(self) -> PayedOut {
        match self {
            Settlement::Payout(_) => PayedOut::Payed,
            Settlement::Refund => PayedOut::ReturnPay,
        }
    }
}

impl BetView {
    /// Whether the settlement owes this bet money: nothing was sent for it
    /// yet, and either its side won or the match was cancelled.
    pub open spec fn is_due(self, mode: Settlement) -> bool {
        self.payed_out == PayedOut::YetToBePayed && match mode {
            Settlement::Payout(winner) => self.decision == winner,
            Settlement::Refund => true,
        }
    }

    /// What the settlement sends for this bet: the promised winnings to a
    /// winner, the stake itself when the match was cancelled.
    pub open spec fn transfer(self, mode: Settlement) -> TransferView {
        match mode {
            Settlement::Payout(_) => TransferView {
                receiver_id: self.bettor,
                amount: self.potential_winnings,
                kind: TransferKind::Winnings,
            },
            Settlement::Refund => TransferView {
                receiver_id: self.bettor,
                amount: self.bet_amount,
                kind: TransferKind::ReturnFunds,
            },
        }
    }

    /// The bet after the settlement: marked if money was sent for it, and
    /// otherwise as it was. A bet on the losing side stays unpaid.
    pub open spec fn settled(self, mode: Settlement) -> BetView {
        if self.is_due(mode) {
            BetView { payed_out: mode.mark(), ..self }
        } else {
            self
        }
    }
}

/// The bets after the settlement, each in its place.
pub open spec fn settled_bets(bets: Seq<BetView>, mode: Settlement) -> Seq<BetView> {
    Seq::new(bets.len(), |i: int| bets[i].settled(mode))
}

/// The transfers that the settlement requests: one for each bet that is due,
/// in the order in which the bets were placed.
pub open spec fn transfers_due(bets: Seq<BetView>, mode: Settlement) -> Seq<TransferView>
    decreases bets.len(),
{
    if bets.len() == 0 {
        Seq::empty()
    } else if bets.last().is_due(mode) {
        transfers_due(bets.drop_last(), mode).push(bets.last().transfer(mode))
    } else {
        transfers_due(bets.drop_last(), mode)
    }
}

/// What has been promised to the bets on `side`, whatever their status.
pub open spec fn committed(bets: Seq<BetView>, side: Side) -> int
    decreases bets.len(),
{
    if bets.len() == 0 {
        0
    } else if bets.last().decision == side {
        committed(bets.drop_last(), side) + bets.last().potential_winnings
    } else {
        committed(bets.drop_last(), side)
    }
}

/// What the bets promise on balance: what the first side would be paid,
/// less what the second side would be paid.
pub open spec fn net_promise(bets: Seq<BetView>) -> int {
    committed(bets, Side::TeamOne) - committed(bets, Side::TeamTwo)
}

/// A settlement changes no promise: it touches the status of the bets only.
pub proof fn lemma_settlement_keeps_promises(bets: Seq<BetView>, mode: Settlement, side: Side)
    ensures
        committed(settled_bets(bets, mode), side) == committed(bets, side),
    decreases bets.len(),
{
    if bets.len() > 0 {
        assert(settled_bets(bets, mode).drop_last() =~= settled_bets(bets.drop_last(), mode));
        lemma_settlement_keeps_promises(bets.drop_last(), mode, side);
    }
}

/// A settlement leaves nothing for a second settlement of the same kind: no
/// transfer is due any more, and no bet changes again.
pub proof fn lemma_settlement_is_idempotent(bets: Seq<BetView>, mode: Settlement)
    ensures
        transfers_due(settled_bets(bets, mode), mode) == Seq::<TransferView>::empty(),
        settled_bets(settled_bets(bets, mode), mode) == settled_bets(bets, mode),
    decreases bets.len(),
{
    assert(settled_bets(settled_bets(bets, mode), mode) =~= settled_bets(bets, mode));
    if bets.len() > 0 {
        assert(settled_bets(bets, mode).drop_last() =~= settled_bets(bets.drop_last(), mode));
        lemma_settlement_is_idempotent(bets.drop_last(), mode);
    }
}

impl TransferKind {
    /// The memo that goes with a transfer of this kind.
    pub open spec fn memo_text(self) -> Seq<char> {
        match self {
            TransferKind::Winnings => "Winnings"@,
            TransferKind::ReturnFunds => "Return funds"@,
        }
    }

    /// The memo that goes with a transfer of this kind.
    pub fn memo(self) -> (r: &'static str)
        ensures
            r@ == self.memo_text(),
    {
        match self {
            TransferKind::Winnings => "Winnings",
            TransferKind::ReturnFunds => "Return funds",
        }
    }
}

impl Transfer {
    /// The amount in base units, as the token contract counts it.
    pub fn base_units(&self) -> (r: u128)
        ensures
            r == self.amount * BASE_UNITS_PER_MILLIONTH,
    {
        self.amount as u128 * BASE_UNITS_PER_MILLIONTH
    }
}

impl Settlement {
    /// The status that marks a bet for which this settlement sent money.
    pub fn status(self) -> (r: PayedOut)
        ensures
            r == self.mark(),
    {
        match self {
            Settlement::Payout(_) => PayedOut::Payed,
            Settlement::Refund => PayedOut::ReturnPay,
        }
    }
}

impl Bet {
    /// Whether the settlement owes this bet money.
    pub fn due(&self, mode: Settlement) -> (r: bool)
        ensures
            r == self@.is_due(mode),
    {
        self.payed_out == PayedOut::YetToBePayed && match mode {
            Settlement::Payout(winner) => self.decision == winner,
            Settlement::Refund => true,
        }
    }

    /// The transfer that the settlement requests for this bet.
    pub fn transfer(&self, mode: Settlement) -> (r: Transfer)
        ensures
            r@ == self@.transfer(mode),
    {
        match mode {
            Settlement::Payout(_) => Transfer {
                receiver_id: self.bettor.clone(),
                amount: self.potential_winnings,
                kind: TransferKind::Winnings,
            },
            Settlement::Refund => Transfer {
                receiver_id: self.bettor.clone(),
                amount: self.bet_amount,
                kind: TransferKind::ReturnFunds,
            },
        }
    }
}

/// Adds up what has been promised to the bets on `side`.
pub fn total_promised(bets: &Vec<Bet>, side: Side) -> (r: u128)
    ensures
        r == committed(bet_views(bets@), side),
{
    let ghost all: Seq<BetView> = bet_views(bets@);
    let mut sum: u128 = 0;
    let mut i: usize = 0;
    assert(all.take(0) =~= Seq::<BetView>::empty());
    while i < bets.len()
        invariant
            i <= bets.len(),
            all == bet_views(bets@),
            sum == committed(all.take(i as int), side),
            sum <= i * u64::MAX,
        decreases bets.len() - i,
    {
        assert(all.take(i + 1).drop_last() =~= all.take(i as int));
        assert(i * u64::MAX + u64::MAX <= usize::MAX * u64::MAX + u64::MAX <= u128::MAX)
            by (nonlinear_arith)
            requires
                i <= usize::MAX,
                usize::MAX <= u64::MAX,
        ;
        assert((i + 1) * u64::MAX == i * u64::MAX + u64::MAX) by (nonlinear_arith);
        if bets[i].decision == side {
            sum = sum + bets[i].potential_winnings as u128;
        }
        i = i + 1;
    }
    assert(all.take(i as int) =~= all);
    sum
}

/// Settles the bets of a match: walks them in the order in which they were
/// placed, requests a transfer for each bet that is due, and marks that bet
/// before it goes on to the next.
pub fn dispatch(bets: &mut Vec<Bet>, mode: Settlement) -> (transfers: Vec<Transfer>)
    ensures
        bet_views(final(bets)@) == settled_bets(bet_views(old(bets)@), mode),
        transfer_views(transfers@) == transfers_due(bet_views(old(bets)@), mode),
{
    let ghost before: Seq<BetView> = bet_views(bets@);
    let count: usize = bets.len();
    let mut transfers: Vec<Transfer> = Vec::new();
    let mut i: usize = 0;
    assert(before.take(0) =~= Seq::<BetView>::empty());
    while i < count
        invariant
            i <= count,
            bets@.len() == count,
            before.len() == count,
            forall|j: int| 0 <= j < i ==> (#[trigger] bets@[j])@ == before[j].settled(mode),
            forall|j: int| i <= j < count ==> (#[trigger] bets@[j])@ == before[j],
            transfer_views(transfers@) =~= transfers_due(before.take(i as int), mode),
        decreases count - i,
    {
        assert(before.take(i + 1).drop_last() =~= before.take(i as int));
        if bets[i].due(mode) {
            let transfer: Transfer = bets[i].transfer(mode);
            transfers.push(transfer);
            bets[i].payed_out = mode.status();
        }
        i = i + 1;
    }
    assert(before.take(count as int) =~= before);
    assert(bet_views(bets@) =~= settled_bets(before, mode));
    transfers
}

} // verus!
