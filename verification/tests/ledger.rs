use wager_ledger::bet::{total_promised, Bet, Settlement, Side, Transfer, TransferKind};
use wager_ledger::error::LedgerError;
use wager_ledger::ledger::ExposureLedger;
use wager_ledger::state::PayedOut;

#[test]
fn a_new_ledger_commits_nothing() {
    assert_eq!(ExposureLedger::new().total_committed_exposure, 0);
}

#[test]
fn repricing_takes_the_old_exposure_out_and_puts_the_new_one_in() {
    let mut ledger = ExposureLedger { total_committed_exposure: 700 };
    assert_eq!(ledger.reprice(300, 450, 1_000), Ok(()));
    assert_eq!(ledger.total_committed_exposure, 850);
    assert_eq!(ledger.reprice(850, 0, 1), Ok(()));
    assert_eq!(ledger.total_committed_exposure, 0);
}

#[test]
fn repricing_up_to_the_funds_at_hand_is_refused() {
    let mut ledger = ExposureLedger { total_committed_exposure: 700 };
    assert_eq!(ledger.reprice(300, 600, 1_000), Err(LedgerError::InsufficientReserves));
    assert_eq!(ledger.total_committed_exposure, 700);
    assert_eq!(ledger.reprice(300, 601, 1_000), Err(LedgerError::InsufficientReserves));
    assert_eq!(ledger.total_committed_exposure, 700);
    assert_eq!(ledger.reprice(300, 599, 1_000), Ok(()));
    assert_eq!(ledger.total_committed_exposure, 999);
}

#[test]
fn repricing_is_refused_even_when_it_lowers_the_exposure() {
    // The funds at hand have shrunk below what is committed already.
    let mut ledger = ExposureLedger { total_committed_exposure: 700 };
    assert_eq!(ledger.reprice(300, 100, 400), Err(LedgerError::InsufficientReserves));
    assert_eq!(ledger.total_committed_exposure, 700);
}

#[test]
fn repricing_cannot_overflow() {
    let mut ledger = ExposureLedger { total_committed_exposure: u64::MAX };
    assert_eq!(ledger.reprice(0, u128::MAX, u64::MAX), Err(LedgerError::InsufficientReserves));
    assert_eq!(ledger.reprice(1, 1, u64::MAX), Err(LedgerError::InsufficientReserves));
    assert_eq!(ledger.reprice(1, 0, u64::MAX), Ok(()));
    assert_eq!(ledger.total_committed_exposure, u64::MAX - 1);
    assert_eq!(ledger.reprice(0, 0, 0), Err(LedgerError::InsufficientReserves));
}

#[test]
fn releasing_takes_an_exposure_out() {
    let mut ledger = ExposureLedger { total_committed_exposure: 700 };
    ledger.release(300);
    assert_eq!(ledger.total_committed_exposure, 400);
    ledger.release(400);
    assert_eq!(ledger.total_committed_exposure, 0);
    ledger.release(0);
    assert_eq!(ledger.total_committed_exposure, 0);
}

fn bet(decision: Side, promise: u64, status: PayedOut) -> Bet {
    Bet {
        bettor: "ann.near".to_string(),
        decision,
        bet_amount: 5,
        potential_winnings: promise,
        payed_out: status,
    }
}

#[test]
fn promises_are_added_up_by_side_whatever_the_status() {
    let bets = vec![
        bet(Side::TeamOne, 10, PayedOut::YetToBePayed),
        bet(Side::TeamTwo, 7, PayedOut::Payed),
        bet(Side::TeamOne, u64::MAX, PayedOut::ReturnPay),
        bet(Side::TeamOne, u64::MAX, PayedOut::NotPayed),
    ];
    assert_eq!(total_promised(&bets, Side::TeamOne), 2 * u64::MAX as u128 + 10);
    assert_eq!(total_promised(&bets, Side::TeamTwo), 7);
    assert_eq!(total_promised(&Vec::new(), Side::TeamOne), 0);
}

#[test]
fn a_transfer_carries_the_promise_or_the_stake() {
    let placed = bet(Side::TeamOne, 10, PayedOut::YetToBePayed);
    assert_eq!(
        placed.transfer(Settlement::Payout(Side::TeamOne)),
        Transfer { receiver_id: "ann.near".to_string(), amount: 10, kind: TransferKind::Winnings }
    );
    assert_eq!(
        placed.transfer(Settlement::Refund),
        Transfer { receiver_id: "ann.near".to_string(), amount: 5, kind: TransferKind::ReturnFunds }
    );
}

#[test]
fn a_transfer_is_counted_in_base_units_and_carries_a_memo() {
    let winnings =
        Transfer { receiver_id: "ann.near".to_string(), amount: 182_057_884, kind: TransferKind::Winnings };
    assert_eq!(winnings.base_units(), 182_057_884_000_000_000_000_000_000);
    assert_eq!(winnings.kind.memo(), "Winnings");
    assert_eq!(TransferKind::ReturnFunds.memo(), "Return funds");
    let most = Transfer { receiver_id: "ann.near".to_string(), amount: u64::MAX, kind: TransferKind::Winnings };
    assert_eq!(most.base_units(), 18_446_744_073_709_551_615_000_000_000_000_000_000);
    let none = Transfer { receiver_id: "ann.near".to_string(), amount: 0, kind: TransferKind::Winnings };
    assert_eq!(none.base_units(), 0);
}
