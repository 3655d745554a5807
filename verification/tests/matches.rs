use wager_ledger::bet::{Bet, Side, Transfer, TransferKind};
use wager_ledger::error::LedgerError;
use wager_ledger::event::Match;
use wager_ledger::ledger::ExposureLedger;
use wager_ledger::pricing::{find_winnings, MAX_MONEY, UNIT};
use wager_ledger::state::{MatchState, PayedOut};

fn even_match() -> Match {
    Match::new("A".to_string(), "B".to_string(), 2_000_000, 2_000_000, "2024-01-01".to_string())
        .unwrap()
}

fn name(text: &str) -> String {
    text.to_string()
}

#[test]
fn a_new_match_is_seeded_and_takes_bets() {
    let opened = even_match();
    assert_eq!(opened.match_id, "A-B-2024-01-01");
    assert_eq!(opened.team_1, "A");
    assert_eq!(opened.team_2, "B");
    assert_eq!(opened.team_1_total_bets, 500 * UNIT);
    assert_eq!(opened.team_2_total_bets, 500 * UNIT);
    assert_eq!(opened.promised_winnings, 0);
    assert_eq!(opened.winner, None);
    assert_eq!(opened.match_state, MatchState::Future);
    assert!(opened.bets.is_empty());
    assert_eq!(opened.exposure(), 0);
}

#[test]
fn a_match_cannot_open_with_an_empty_pool() {
    let refused = Match::new(name("A"), name("B"), 0, 2_000_000, name("2024-01-01"));
    assert_eq!(refused, Err(LedgerError::MalformedInput));
    let refused = Match::new(name("A"), name("B"), 1, 2_000, name("2024-01-01"));
    assert_eq!(refused, Err(LedgerError::MalformedInput));
}

#[test]
fn a_bet_moves_its_pool_the_balance_and_the_ledger() {
    let mut opened = even_match();
    let mut ledger = ExposureLedger::new();
    let promise =
        opened.place_bet(&mut ledger, name("ann.near"), &name("A"), 100 * UNIT, 10_000 * UNIT);
    assert_eq!(promise, Ok(182_057_884));
    assert_eq!(opened.team_1_total_bets, 600 * UNIT);
    assert_eq!(opened.team_2_total_bets, 500 * UNIT);
    assert_eq!(opened.promised_winnings, 182_057_884);
    assert_eq!(ledger.total_committed_exposure, 182_057_884);
    assert_eq!(
        opened.bets,
        vec![Bet {
            bettor: name("ann.near"),
            decision: Side::TeamOne,
            bet_amount: 100 * UNIT,
            potential_winnings: 182_057_884,
            payed_out: PayedOut::YetToBePayed,
        }]
    );
}

#[test]
fn a_bet_on_the_second_side_lowers_the_balance() {
    let mut opened = even_match();
    let mut ledger = ExposureLedger::new();
    let promise =
        opened.place_bet(&mut ledger, name("bob.near"), &name("B"), 100 * UNIT, 10_000 * UNIT);
    assert_eq!(promise, Ok(182_057_884));
    assert_eq!(opened.team_1_total_bets, 500 * UNIT);
    assert_eq!(opened.team_2_total_bets, 600 * UNIT);
    assert_eq!(opened.promised_winnings, -182_057_884);
    assert_eq!(opened.exposure(), 182_057_884);
    assert_eq!(ledger.total_committed_exposure, 182_057_884);
}

#[test]
fn bets_on_both_sides_offset_each_other_in_the_ledger() {
    let mut opened = even_match();
    let mut ledger = ExposureLedger::new();
    let first = opened
        .place_bet(&mut ledger, name("ann.near"), &name("A"), 100 * UNIT, 10_000 * UNIT)
        .unwrap();
    // The second bet is priced against the pools that the first one left.
    let second = opened
        .place_bet(&mut ledger, name("bob.near"), &name("B"), 150 * UNIT, 10_000 * UNIT)
        .unwrap();
    assert_eq!(second, find_winnings(500 * UNIT, 600 * UNIT, 150 * UNIT).unwrap());
    assert!(second > first);
    // The balance has changed its sign; the ledger holds its magnitude.
    assert_eq!(opened.promised_winnings, first as i128 - second as i128);
    assert_eq!(ledger.total_committed_exposure, second - first);
    assert_eq!(opened.exposure(), second - first);
}

#[test]
fn a_balance_of_exactly_nothing_commits_nothing() {
    // With one millionth in the other pool, a stake of 100 units is
    // promised the stake less the margin: 100 / 1.05 = 95.238095.
    let mut opened = Match {
        match_id: name("A-B-2024-01-01"),
        bets: vec![Bet {
            bettor: name("bob.near"),
            decision: Side::TeamTwo,
            bet_amount: 1,
            potential_winnings: 95_238_095,
            payed_out: PayedOut::YetToBePayed,
        }],
        team_1: name("A"),
        team_2: name("B"),
        team_1_total_bets: MAX_MONEY - 100 * UNIT,
        team_2_total_bets: 1,
        promised_winnings: -95_238_095,
        winner: None,
        match_state: MatchState::Future,
    };
    assert!(opened.is_well_formed());
    let mut ledger = ExposureLedger { total_committed_exposure: 95_238_095 };
    let promise =
        opened.place_bet(&mut ledger, name("ann.near"), &name("A"), 100 * UNIT, 10_000 * UNIT);
    assert_eq!(promise, Ok(95_238_095));
    assert_eq!(opened.promised_winnings, 0);
    assert_eq!(opened.exposure(), 0);
    assert_eq!(ledger.total_committed_exposure, 0);
    assert!(opened.is_well_formed());
}

#[test]
fn a_bet_that_the_reserves_do_not_cover_changes_nothing() {
    let mut opened = even_match();
    let mut ledger = ExposureLedger::new();
    opened.place_bet(&mut ledger, name("ann.near"), &name("A"), 100 * UNIT, 10_000 * UNIT).unwrap();
    let before = opened.clone();
    // The new exposure would be exactly the funds at hand: refused.
    let again = find_winnings(600 * UNIT, 500 * UNIT, 100 * UNIT).unwrap();
    let refused = opened.place_bet(
        &mut ledger,
        name("cid.near"),
        &name("A"),
        100 * UNIT,
        182_057_884 + again,
    );
    assert_eq!(refused, Err(LedgerError::InsufficientReserves));
    assert_eq!(opened, before);
    assert_eq!(ledger.total_committed_exposure, 182_057_884);
    // One millionth more at hand, and it is admitted.
    let admitted = opened.place_bet(
        &mut ledger,
        name("cid.near"),
        &name("A"),
        100 * UNIT,
        182_057_884 + again + 1,
    );
    assert_eq!(admitted, Ok(again));
    assert_eq!(ledger.total_committed_exposure, 182_057_884 + again);
}

#[test]
fn a_bet_with_nothing_at_hand_is_refused() {
    let mut opened = even_match();
    let mut ledger = ExposureLedger::new();
    let refused = opened.place_bet(&mut ledger, name("ann.near"), &name("A"), UNIT, 0);
    assert_eq!(refused, Err(LedgerError::InsufficientReserves));
    let refused = opened.place_bet(&mut ledger, name("ann.near"), &name("A"), 0, 0);
    assert_eq!(refused, Err(LedgerError::InsufficientReserves));
    assert_eq!(opened, even_match());
}

#[test]
fn a_bet_on_an_unknown_side_is_refused() {
    let mut opened = even_match();
    let mut ledger = ExposureLedger::new();
    let refused = opened.place_bet(&mut ledger, name("ann.near"), &name("C"), UNIT, 10_000 * UNIT);
    assert_eq!(refused, Err(LedgerError::InvalidSide));
    let refused = opened.place_bet(&mut ledger, name("ann.near"), &name("a"), UNIT, 10_000 * UNIT);
    assert_eq!(refused, Err(LedgerError::InvalidSide));
    assert_eq!(opened, even_match());
    assert_eq!(ledger, ExposureLedger::new());
}

#[test]
fn a_bet_that_outgrows_the_pool_is_refused() {
    let mut opened = even_match();
    let mut ledger = ExposureLedger::new();
    let refused = opened.place_bet(
        &mut ledger,
        name("ann.near"),
        &name("A"),
        MAX_MONEY - 500 * UNIT + 1,
        u64::MAX,
    );
    assert_eq!(refused, Err(LedgerError::MalformedInput));
    assert_eq!(opened, even_match());
    let admitted =
        opened.place_bet(&mut ledger, name("ann.near"), &name("A"), MAX_MONEY - 500 * UNIT, u64::MAX);
    assert!(admitted.is_ok());
    assert_eq!(opened.team_1_total_bets, MAX_MONEY);
}

#[test]
fn a_match_in_progress_takes_no_bets() {
    let mut opened = even_match();
    let mut ledger = ExposureLedger::new();
    assert_eq!(opened.end_betting(), Ok(()));
    assert_eq!(opened.match_state, MatchState::InProgress);
    let before = opened.clone();
    let refused = opened.place_bet(&mut ledger, name("ann.near"), &name("A"), UNIT, 10_000 * UNIT);
    assert_eq!(refused, Err(LedgerError::IllegalState));
    assert_eq!(opened.quote(&name("A"), UNIT), Err(LedgerError::IllegalState));
    assert_eq!(opened, before);
}

#[test]
fn the_state_is_looked_at_before_the_side() {
    let mut opened = even_match();
    let mut ledger = ExposureLedger::new();
    opened.end_betting().unwrap();
    let refused = opened.place_bet(&mut ledger, name("ann.near"), &name("C"), UNIT, 10_000 * UNIT);
    assert_eq!(refused, Err(LedgerError::IllegalState));
}

#[test]
fn betting_closes_once() {
    let mut opened = even_match();
    assert_eq!(opened.end_betting(), Ok(()));
    let before = opened.clone();
    assert_eq!(opened.end_betting(), Err(LedgerError::StateError));
    assert_eq!(opened, before);
}

#[test]
fn a_quote_changes_nothing() {
    let opened = even_match();
    assert_eq!(opened.quote(&name("A"), 100 * UNIT), Ok(182_057_884));
    assert_eq!(opened.quote(&name("B"), 100 * UNIT), Ok(182_057_884));
    assert_eq!(opened.quote(&name("C"), 100 * UNIT), Err(LedgerError::InvalidSide));
    assert_eq!(opened.quote(&name("A"), MAX_MONEY), Err(LedgerError::MalformedInput));
    assert_eq!(opened, even_match());
}

#[test]
fn finishing_pays_the_winners_and_clears_the_ledger() {
    let mut opened = even_match();
    let mut ledger = ExposureLedger::new();
    let first = opened
        .place_bet(&mut ledger, name("ann.near"), &name("A"), 100 * UNIT, 10_000 * UNIT)
        .unwrap();
    let second = opened
        .place_bet(&mut ledger, name("bob.near"), &name("B"), 40 * UNIT, 10_000 * UNIT)
        .unwrap();
    let third = opened
        .place_bet(&mut ledger, name("cid.near"), &name("A"), 10 * UNIT, 10_000 * UNIT)
        .unwrap();
    assert_eq!(ledger.total_committed_exposure, first + third - second);
    opened.end_betting().unwrap();
    assert_eq!(ledger.total_committed_exposure, first + third - second);
    let transfers = opened.finish(&mut ledger, &name("A")).unwrap();
    assert_eq!(
        transfers,
        vec![
            Transfer { receiver_id: name("ann.near"), amount: first, kind: TransferKind::Winnings },
            Transfer { receiver_id: name("cid.near"), amount: third, kind: TransferKind::Winnings },
        ]
    );
    assert_eq!(opened.match_state, MatchState::Complete);
    assert_eq!(opened.winner, Some(Side::TeamOne));
    assert_eq!(opened.bets[0].payed_out, PayedOut::Payed);
    assert_eq!(opened.bets[1].payed_out, PayedOut::YetToBePayed);
    assert_eq!(opened.bets[2].payed_out, PayedOut::Payed);
    assert_eq!(opened.promised_winnings, first as i128 + third as i128 - second as i128);
    assert_eq!(ledger.total_committed_exposure, 0);
}

#[test]
fn a_match_is_finished_once() {
    let mut opened = even_match();
    let mut ledger = ExposureLedger::new();
    opened.place_bet(&mut ledger, name("ann.near"), &name("A"), 100 * UNIT, 10_000 * UNIT).unwrap();
    opened.end_betting().unwrap();
    assert_eq!(opened.finish(&mut ledger, &name("A")).unwrap().len(), 1);
    let before = opened.clone();
    assert_eq!(opened.finish(&mut ledger, &name("A")), Err(LedgerError::StateError));
    assert_eq!(opened.finish(&mut ledger, &name("B")), Err(LedgerError::StateError));
    assert_eq!(opened.cancel(&mut ledger), Err(LedgerError::StateError));
    assert_eq!(opened.end_betting(), Err(LedgerError::StateError));
    assert_eq!(opened, before);
    assert_eq!(ledger.total_committed_exposure, 0);
}

#[test]
fn a_match_that_takes_bets_cannot_be_finished() {
    let mut opened = even_match();
    let mut ledger = ExposureLedger::new();
    assert_eq!(opened.finish(&mut ledger, &name("A")), Err(LedgerError::StateError));
    assert_eq!(opened, even_match());
}

#[test]
fn the_winner_is_one_of_the_sides() {
    let mut opened = even_match();
    let mut ledger = ExposureLedger::new();
    opened.place_bet(&mut ledger, name("ann.near"), &name("A"), 100 * UNIT, 10_000 * UNIT).unwrap();
    opened.end_betting().unwrap();
    let before = opened.clone();
    assert_eq!(opened.finish(&mut ledger, &name("C")), Err(LedgerError::InvalidSide));
    assert_eq!(opened, before);
    assert_eq!(ledger.total_committed_exposure, 182_057_884);
}

#[test]
fn cancelling_returns_the_stakes_and_clears_the_ledger() {
    let mut opened = even_match();
    let mut ledger = ExposureLedger::new();
    opened.place_bet(&mut ledger, name("ann.near"), &name("A"), 100 * UNIT, 10_000 * UNIT).unwrap();
    opened.place_bet(&mut ledger, name("bob.near"), &name("B"), 40 * UNIT, 10_000 * UNIT).unwrap();
    let transfers = opened.cancel(&mut ledger).unwrap();
    assert_eq!(
        transfers,
        vec![
            Transfer {
                receiver_id: name("ann.near"),
                amount: 100 * UNIT,
                kind: TransferKind::ReturnFunds
            },
            Transfer {
                receiver_id: name("bob.near"),
                amount: 40 * UNIT,
                kind: TransferKind::ReturnFunds
            },
        ]
    );
    assert_eq!(opened.match_state, MatchState::Error);
    assert_eq!(opened.winner, None);
    assert_eq!(opened.bets[0].payed_out, PayedOut::ReturnPay);
    assert_eq!(opened.bets[1].payed_out, PayedOut::ReturnPay);
    assert_eq!(ledger.total_committed_exposure, 0);
    assert_eq!(opened.cancel(&mut ledger), Err(LedgerError::StateError));
}

#[test]
fn a_match_in_progress_can_be_cancelled() {
    let mut opened = even_match();
    let mut ledger = ExposureLedger::new();
    opened.place_bet(&mut ledger, name("ann.near"), &name("A"), 100 * UNIT, 10_000 * UNIT).unwrap();
    opened.end_betting().unwrap();
    assert_eq!(opened.cancel(&mut ledger).unwrap().len(), 1);
    assert_eq!(opened.match_state, MatchState::Error);
    assert_eq!(ledger.total_committed_exposure, 0);
}

#[test]
fn the_ledger_keeps_what_other_matches_commit() {
    let mut first = even_match();
    let mut second = Match::new(name("C"), name("D"), 1_250_000, 4_000_000, name("2024-01-02")).unwrap();
    let mut ledger = ExposureLedger::new();
    let a = first
        .place_bet(&mut ledger, name("ann.near"), &name("A"), 100 * UNIT, 10_000 * UNIT)
        .unwrap();
    let d = second
        .place_bet(&mut ledger, name("bob.near"), &name("D"), 10 * UNIT, 10_000 * UNIT)
        .unwrap();
    assert_eq!(d, find_winnings(238 * UNIT, 762 * UNIT, 10 * UNIT).unwrap());
    assert_eq!(ledger.total_committed_exposure, a + d);
    first.cancel(&mut ledger).unwrap();
    assert_eq!(ledger.total_committed_exposure, d);
    second.end_betting().unwrap();
    second.finish(&mut ledger, &name("C")).unwrap();
    assert_eq!(ledger.total_committed_exposure, 0);
}

#[test]
fn a_summary_shows_names_odds_winner_and_state() {
    let mut opened = even_match();
    let mut ledger = ExposureLedger::new();
    assert_eq!(
        opened.summary(),
        (name("A-B-2024-01-01"), name("A"), 190, name("B"), 190, None, MatchState::Future)
    );
    opened.place_bet(&mut ledger, name("ann.near"), &name("A"), 100 * UNIT, 10_000 * UNIT).unwrap();
    // 100 / (1.05 * 600 / 1100) = 174.60..., 100 / (1.05 * 500 / 1100) = 209.52...
    assert_eq!(
        opened.summary(),
        (name("A-B-2024-01-01"), name("A"), 175, name("B"), 210, None, MatchState::Future)
    );
    opened.end_betting().unwrap();
    opened.finish(&mut ledger, &name("B")).unwrap();
    assert_eq!(
        opened.summary(),
        (name("A-B-2024-01-01"), name("A"), 175, name("B"), 210, Some(name("B")), MatchState::Complete)
    );
}

#[test]
fn the_bets_of_one_bettor_or_of_all() {
    let mut opened = even_match();
    let mut ledger = ExposureLedger::new();
    let first = opened
        .place_bet(&mut ledger, name("ann.near"), &name("A"), 100 * UNIT, 10_000 * UNIT)
        .unwrap();
    let second = opened
        .place_bet(&mut ledger, name("bob.near"), &name("B"), 40 * UNIT, 10_000 * UNIT)
        .unwrap();
    let third = opened
        .place_bet(&mut ledger, name("ann.near"), &name("B"), 10 * UNIT, 10_000 * UNIT)
        .unwrap();
    let rows = opened.bets_of(&name("all"));
    assert_eq!(
        rows,
        vec![
            (name("ann.near"), name("A"), 100 * UNIT, first, PayedOut::YetToBePayed),
            (name("bob.near"), name("B"), 40 * UNIT, second, PayedOut::YetToBePayed),
            (name("ann.near"), name("B"), 10 * UNIT, third, PayedOut::YetToBePayed),
        ]
    );
    assert_eq!(opened.bets_of(&name("ann.near")), vec![rows[0].clone(), rows[2].clone()]);
    assert_eq!(opened.bets_of(&name("bob.near")), vec![rows[1].clone()]);
    assert_eq!(opened.bets_of(&name("cid.near")), vec![]);
    assert_eq!(opened.bets_of(&name("")), vec![]);
}

#[test]
fn sides_of_the_same_name_are_the_first_side() {
    let mut opened =
        Match::new(name("A"), name("A"), 2_000_000, 2_000_000, name("2024-01-01")).unwrap();
    let mut ledger = ExposureLedger::new();
    assert_eq!(opened.side_named(&name("A")), Some(Side::TeamOne));
    opened.place_bet(&mut ledger, name("ann.near"), &name("A"), 100 * UNIT, 10_000 * UNIT).unwrap();
    assert_eq!(opened.team_1_total_bets, 600 * UNIT);
    assert_eq!(opened.team_2_total_bets, 500 * UNIT);
    assert_eq!(opened.pool(Side::TeamOne), 600 * UNIT);
    assert_eq!(opened.pool(Side::TeamTwo), 500 * UNIT);
}

fn staked_match() -> (Match, ExposureLedger) {
    let mut opened = even_match();
    let mut ledger = ExposureLedger::new();
    opened.place_bet(&mut ledger, name("ann.near"), &name("A"), 100 * UNIT, 10_000 * UNIT).unwrap();
    opened.place_bet(&mut ledger, name("bob.near"), &name("B"), 300 * UNIT, 10_000 * UNIT).unwrap();
    (opened, ledger)
}

#[test]
fn a_match_stays_well_formed_through_its_life() {
    let (mut opened, mut ledger) = staked_match();
    assert!(even_match().is_well_formed());
    assert!(opened.is_well_formed());
    assert!(opened.promised_winnings < 0);
    opened.end_betting().unwrap();
    assert!(opened.is_well_formed());
    opened.finish(&mut ledger, &name("B")).unwrap();
    assert!(opened.is_well_formed());
    let (mut opened, mut ledger) = staked_match();
    opened.cancel(&mut ledger).unwrap();
    assert!(opened.is_well_formed());
}

#[test]
fn a_match_with_an_empty_or_overfull_pool_is_not_well_formed() {
    let (opened, _) = staked_match();
    let mut damaged = opened.clone();
    damaged.team_1_total_bets = 0;
    assert!(!damaged.is_well_formed());
    let mut damaged = opened.clone();
    damaged.team_2_total_bets = 0;
    assert!(!damaged.is_well_formed());
    let mut damaged = opened.clone();
    damaged.team_1_total_bets = MAX_MONEY + 1;
    assert!(!damaged.is_well_formed());
    let mut damaged = opened.clone();
    damaged.team_2_total_bets = MAX_MONEY + 1;
    assert!(!damaged.is_well_formed());
    let mut full = opened.clone();
    full.team_2_total_bets = MAX_MONEY;
    assert!(full.is_well_formed());
}

#[test]
fn a_match_whose_balance_is_not_that_of_its_bets_is_not_well_formed() {
    let (opened, _) = staked_match();
    let mut damaged = opened.clone();
    damaged.promised_winnings += 1;
    assert!(!damaged.is_well_formed());
    let mut damaged = opened.clone();
    damaged.promised_winnings = -damaged.promised_winnings;
    assert!(!damaged.is_well_formed());
    let mut damaged = opened.clone();
    damaged.bets[0].potential_winnings -= 1;
    assert!(!damaged.is_well_formed());
    let mut damaged = opened.clone();
    damaged.bets[1].decision = Side::TeamOne;
    assert!(!damaged.is_well_formed());
    let mut damaged = opened.clone();
    damaged.bets.pop();
    assert!(!damaged.is_well_formed());
    // The status of a bet does not enter the balance.
    let mut marked = opened.clone();
    marked.bets[0].payed_out = PayedOut::NotPayed;
    assert!(marked.is_well_formed());
}

#[test]
fn a_winner_is_recorded_exactly_when_the_match_is_complete() {
    let (opened, _) = staked_match();
    let mut damaged = opened.clone();
    damaged.winner = Some(Side::TeamOne);
    assert!(!damaged.is_well_formed());
    let mut damaged = opened.clone();
    damaged.match_state = MatchState::Complete;
    assert!(!damaged.is_well_formed());
    let mut complete = opened.clone();
    complete.match_state = MatchState::Complete;
    complete.winner = Some(Side::TeamTwo);
    assert!(complete.is_well_formed());
    let mut cancelled = opened.clone();
    cancelled.match_state = MatchState::Error;
    assert!(cancelled.is_well_formed());
}

#[test]
fn a_balance_beyond_the_ledger_is_not_well_formed() {
    let promise = |decision: Side, amount: u64| Bet {
        bettor: name("ann.near"),
        decision,
        bet_amount: 1,
        potential_winnings: amount,
        payed_out: PayedOut::YetToBePayed,
    };
    let mut opened = even_match();
    opened.bets = vec![promise(Side::TeamOne, u64::MAX)];
    opened.promised_winnings = u64::MAX as i128;
    assert!(opened.is_well_formed());
    assert_eq!(opened.exposure(), u64::MAX);
    opened.bets.push(promise(Side::TeamOne, 1));
    opened.promised_winnings += 1;
    assert!(!opened.is_well_formed());
    let mut opened = even_match();
    opened.bets = vec![promise(Side::TeamTwo, u64::MAX)];
    opened.promised_winnings = -(u64::MAX as i128);
    assert!(opened.is_well_formed());
    assert_eq!(opened.exposure(), u64::MAX);
    opened.bets.push(promise(Side::TeamTwo, 1));
    opened.promised_winnings -= 1;
    assert!(!opened.is_well_formed());
    opened.promised_winnings = i128::MIN;
    assert!(!opened.is_well_formed());
}

#[test]
fn a_settled_match_contributes_nothing() {
    let (mut opened, mut ledger) = staked_match();
    let exposure = opened.exposure();
    assert!(exposure > 0);
    assert_eq!(opened.contribution(), exposure);
    opened.end_betting().unwrap();
    assert_eq!(opened.contribution(), exposure);
    opened.finish(&mut ledger, &name("A")).unwrap();
    assert_eq!(opened.exposure(), exposure);
    assert_eq!(opened.contribution(), 0);
    let (mut opened, mut ledger) = staked_match();
    opened.cancel(&mut ledger).unwrap();
    assert_eq!(opened.contribution(), 0);
}
