//! A match: two sides, their pools, the bets placed on them, and the life
//! cycle that ends in a settlement.

use vstd::prelude::*;
use vstd::string::StringExecFns;
use crate::bet::{
    bet_views, lemma_settlement_keeps_promises, net_promise, settled_bets, transfer_views,
    transfers_due, Bet, BetView, Settlement, Side, Transfer,
};
use crate::bet::{dispatch, total_promised};
use crate::error::LedgerError;
use crate::ledger::ExposureLedger;
use crate::odds::{
    find_starting_odds, odds_hundredths, priceable, seed_pools, seedable, seeded_units,
};
use crate::pricing::{find_winnings, winnings, MAX_MONEY, UNIT};
use crate::state::{MatchState, PayedOut};

verus! {

/// A match and everything staked on it.
#[derive(Clone, Debug, PartialEq, Eq)]
pub struct Match {
    /// The two names and the date, joined by hyphens. Never changes.
    pub match_id: String,
    /// The bets, in the order in which they were placed. Bets are only ever
    /// added at the end.
    pub bets: Vec<Bet>,
    /// The name of the first side.
    pub team_1: String,
    /// The name of the second side.
    pub team_2: String,
    /// The pool of the first side: its seed and every stake placed on it.
    pub team_1_total_bets: u64,
    /// The pool of the second side.
    pub team_2_total_bets: u64,
    /// What the bets promise on balance: the promises to the first side less
    /// those to the second.
    pub promised_winnings: i128,
    /// The side that won, once the match is complete.
    pub winner: Option<Side>,
    /// Where the match stands in its life cycle.
    pub match_state: MatchState,
}

/// A match as a value.
pub struct MatchView {
    pub match_id: Seq<char>,
    pub bets: Seq<BetView>,
    pub team_1: Seq<char>,
    pub team_2: Seq<char>,
    pub team_1_total_bets: u64,
    pub team_2_total_bets: u64,
    pub promised_winnings: i128,
    pub winner: Option<Side>,
    pub match_state: MatchState,
}

impl View for Match {
    type V = MatchView;

    open spec fn view(&self) -> MatchView {
        MatchView {
            match_id: self.match_id@,
            bets: bet_views(self.bets@),
            team_1: self.team_1@,
            team_2: self.team_2@,
            team_1_total_bets: self.team_1_total_bets,
            team_2_total_bets: self.team_2_total_bets,
            promised_winnings: self.promised_winnings,
            winner: self.winner,
            match_state: self.match_state,
        }
    }
}

/// The identifier of a match: its two names and its date, joined by hyphens.
pub open spec fn match_id_of(team_1: Seq<char>, team_2: Seq<char>, date: Seq<char>) -> Seq<char> {
    team_1 + seq!['-'] + team_2 + seq!['-'] + date
}

/// What is shown of a match.
pub type MatchSummary = (String, String, u64, String, u64, Option<String>, MatchState);

/// What is shown of a match, as a value.
pub type MatchSummaryView = (
    Seq<char>,
    Seq<char>,
    u64,
    Seq<char>,
    u64,
    Option<Seq<char>>,
    MatchState,
);

/// What is shown of a bet.
pub type BetRow = (String, String, u64, u64, PayedOut);

/// What is shown of a bet, as a value.
pub type BetRowView = (Seq<char>, Seq<char>, u64, u64, PayedOut);

/// A summary as a value.
pub open spec fn summary_view(summary: MatchSummary) -> MatchSummaryView {
    (
        summary.0@,
        summary.1@,
        summary.2,
        summary.3@,
        summary.4,
        match summary.5 {
            Some(name) => Some(name@),
            None => None,
        },
        summary.6,
    )
}

/// A row as a value.
pub open spec fn bet_row_view(row: BetRow) -> BetRowView {
    (row.0@, row.1@, row.2, row.3, row.4)
}

/// The rows of a vector as values.
pub open spec fn bet_row_views(rows: Seq<BetRow>) -> Seq<BetRowView> {
    Seq::new(rows.len(), |i: int| bet_row_view(rows[i]))
}

impl Side {
    /// The opposite side.
    pub open spec fn opposite(self) -> Side {
        match self {
            Side::TeamOne => Side::TeamTwo,
            Side::TeamTwo => Side::TeamOne,
        }
    }
}

impl MatchView {
    /// What holds of every match at every time: both pools hold something,
    /// the balance of promises is that of the bets, a winner is recorded
    /// exactly when the match is complete, and what the match may cost fits
    /// the ledger.
    pub open spec fn wf(self) -> bool {
        &&& priceable(self.team_1_total_bets as int, self.team_2_total_bets as int)
        &&& self.promised_winnings == net_promise(self.bets)
        &&& (self.winner is Some <==> self.match_state == MatchState::Complete)
        &&& self.exposure() <= u64::MAX
    }

    /// What the match may cost: the magnitude of its balance of promises.
    pub open spec fn exposure(self) -> int {
        if self.promised_winnings < 0 {
            -self.promised_winnings
        } else {
            self.promised_winnings as int
        }
    }

    /// What the match adds to the ledger: its exposure until it is settled,
    /// and nothing afterwards.
    pub open spec fn contribution(self) -> int {
        if self.match_state.is_terminal() {
            0
        } else {
            self.exposure()
        }
    }

    /// The side that goes by the given name. When both sides have the same
    /// name, it names the first.
    pub open spec fn side_named(self, team: Seq<char>) -> Option<Side> {
        if team == self.team_1 {
            Some(Side::TeamOne)
        } else if team == self.team_2 {
            Some(Side::TeamTwo)
        } else {
            None
        }
    }

    /// The name of a side.
    pub open spec fn name_of(self, side: Side) -> Seq<char> {
        match side {
            Side::TeamOne => self.team_1,
            Side::TeamTwo => self.team_2,
        }
    }

    /// The pool of a side.
    pub open spec fn pool(self, side: Side) -> u64 {
        match side {
            Side::TeamOne => self.team_1_total_bets,
            Side::TeamTwo => self.team_2_total_bets,
        }
    }

    /// What a stake of `bet_amount` on the side named `team` would be
    /// promised, or why it cannot be placed: the match no longer takes bets,
    /// the name is that of neither side, or the pool would outgrow
    /// [`MAX_MONEY`].
    pub open spec fn quote(self, team: Seq<char>, bet_amount: u64) -> Result<u64, LedgerError> {
        if self.match_state != MatchState::Future {
            Err(LedgerError::IllegalState)
        } else {
            match self.side_named(team) {
                None => Err(LedgerError::InvalidSide),
                Some(side) => if self.pool(side) + bet_amount > MAX_MONEY {
                    Err(LedgerError::MalformedInput)
                } else {
                    Ok(
                        winnings(
                            self.pool(side) as int,
                            self.pool(side.opposite()) as int,
                            bet_amount as int,
                        ) as u64,
                    )
                },
            }
        }
    }

    /// The match with one more bet: the stake is added to the pool of its
    /// side, and the promise to the balance, with the sign of the side.
    pub open spec fn staked(
        self,
        side: Side,
        bettor: Seq<char>,
        bet_amount: u64,
        promise: u64,
    ) -> MatchView {
        let bet = BetView {
            bettor,
            decision: side,
            bet_amount,
            potential_winnings: promise,
            payed_out: PayedOut::YetToBePayed,
        };
        match side {
            Side::TeamOne => MatchView {
                bets: self.bets.push(bet),
                team_1_total_bets: (self.team_1_total_bets + bet_amount) as u64,
                promised_winnings: (self.promised_winnings + promise) as i128,
                ..self
            },
            Side::TeamTwo => MatchView {
                bets: self.bets.push(bet),
                team_2_total_bets: (self.team_2_total_bets + bet_amount) as u64,
                promised_winnings: (self.promised_winnings - promise) as i128,
                ..self
            },
        }
    }

    /// What the match may cost once a bet on `side` with the given promise
    /// has been added.
    pub open spec fn exposure_after(self, side: Side, promise: u64) -> int {
        let balance: int = match side {
            Side::TeamOne => self.promised_winnings + promise,
            Side::TeamTwo => self.promised_winnings - promise,
        };
        if balance < 0 {
            -balance
        } else {
            balance
        }
    }

    /// Whether a stake is admitted, and with what promise. A stake that can
    /// be quoted is admitted if the ledger, with the exposure of this match
    /// taken out as it was and put back as the stake would leave it, stays
    /// below the funds at hand.
    pub open spec fn admission(
        self,
        committed: u64,
        team: Seq<char>,
        bet_amount: u64,
        available_funds: u64,
    ) -> Result<u64, LedgerError> {
        match self.quote(team, bet_amount) {
            Err(e) => Err(e),
            Ok(promise) => {
                let side = self.side_named(team).unwrap();
                if committed - self.exposure() + self.exposure_after(side, promise)
                    >= available_funds {
                    Err(LedgerError::InsufficientReserves)
                } else {
                    Ok(promise)
                }
            },
        }
    }

    /// A match as it opens at the given odds: seeded, without bets, and
    /// taking bets.
    pub open spec fn opening(
        team_1: Seq<char>,
        team_2: Seq<char>,
        in_odds_1: u64,
        in_odds_2: u64,
        date: Seq<char>,
    ) -> MatchView {
        MatchView {
            match_id: match_id_of(team_1, team_2, date),
            bets: Seq::empty(),
            team_1,
            team_2,
            team_1_total_bets: (UNIT * seeded_units(in_odds_1 as int, in_odds_2 as int)) as u64,
            team_2_total_bets: (UNIT * seeded_units(in_odds_2 as int, in_odds_1 as int)) as u64,
            promised_winnings: 0,
            winner: None,
            match_state: MatchState::Future,
        }
    }

    /// The name of the winner, once there is one.
    pub open spec fn winner_name(self) -> Option<Seq<char>> {
        match self.winner {
            Some(side) => Some(self.name_of(side)),
            None => None,
        }
    }

    /// What is shown of the match: its identifier, and for each side its
    /// name and its odds in hundredths; then the winner and the state.
    pub open spec fn summary(self) -> MatchSummaryView {
        let total: int = self.team_1_total_bets + self.team_2_total_bets;
        (
            self.match_id,
            self.team_1,
            odds_hundredths(self.team_1_total_bets as int, total) as u64,
            self.team_2,
            odds_hundredths(self.team_2_total_bets as int, total) as u64,
            self.winner_name(),
            self.match_state,
        )
    }

    /// What is shown of one bet: the bettor, the name of the side, the
    /// stake, the promise and the status.
    pub open spec fn bet_row(self, bet: BetView) -> BetRowView {
        (
            bet.bettor,
            self.name_of(bet.decision),
            bet.bet_amount,
            bet.potential_winnings,
            bet.payed_out,
        )
    }

    /// The rows of the first `count` bets that `name` selects: all of them
    /// for the name `all`, and otherwise those of the bettor of that name.
    pub open spec fn bets_shown(self, name: Seq<char>, count: int) -> Seq<BetRowView>
        decreases count,
    {
        if count <= 0 {
            Seq::empty()
        } else if name == "all"@ || self.bets[count - 1].bettor == name {
            self.bets_shown(name, count - 1).push(self.bet_row(self.bets[count - 1]))
        } else {
            self.bets_shown(name, count - 1)
        }
    }

    /// The match after a settlement: its bets settled, and the match in the
    /// terminal state of that settlement, with the winner recorded if there
    /// is one.
    pub open spec fn settled(self, mode: Settlement) -> MatchView {
        match mode {
            Settlement::Payout(winner) => MatchView {
                bets: settled_bets(self.bets, mode),
                winner: Some(winner),
                match_state: MatchState::Complete,
                ..self
            },
            Settlement::Refund => MatchView {
                bets: settled_bets(self.bets, mode),
                match_state: MatchState::Error,
                ..self
            },
        }
    }

    /// The side that a declared winner names, or why the match cannot be
    /// finished: it is not in progress, or the name is that of neither side.
    pub open spec fn declared(self, winning_team: Seq<char>) -> Result<Side, LedgerError> {
        if self.match_state != MatchState::InProgress {
            Err(LedgerError::StateError)
        } else {
            match self.side_named(winning_team) {
                None => Err(LedgerError::InvalidSide),
                Some(side) => Ok(side),
            }
        }
    }
}

/// One more bet adds its promise to the balance, with the sign of its side.
proof fn lemma_promise_of_one_more_bet(bets: Seq<BetView>, bet: BetView)
    ensures
        net_promise(bets.push(bet)) == net_promise(bets) + match bet.decision {
            Side::TeamOne => bet.potential_winnings as int,
            Side::TeamTwo => -(bet.potential_winnings as int),
        },
{
    assert(bets.push(bet).drop_last() =~= bets);
}

impl Side {
    /// The opposite side.
    pub fn other(self) -> (r: Side)
        ensures
            r == self.opposite(),
    {
        match self {
            Side::TeamOne => Side::TeamTwo,
            Side::TeamTwo => Side::TeamOne,
        }
    }
}

impl Match {
    /// Opens a match at the given odds, each in millionths. The pools are
    /// seeded with a thousand units between them, shared in inverse
    /// proportion to the odds.
    ///
    /// Odds of zero, and odds so far apart that one side would open empty,
    /// are malformed.
    pub fn new(team_1: String, team_2: String, in_odds_1: u64, in_odds_2: u64, date: String) -> (r:
        Result<Match, LedgerError>)
        ensures
            r is Ok <==> seedable(in_odds_1 as int, in_odds_2 as int),
            r matches Ok(m) ==> m@ == MatchView::opening(
                team_1@,
                team_2@,
                in_odds_1,
                in_odds_2,
                date@,
            ) && m@.wf(),
            r matches Err(e) ==> e == LedgerError::MalformedInput,
    {
        let pools: (u64, u64) = match seed_pools(in_odds_1, in_odds_2) {
            Ok(pools) => pools,
            Err(e) => {
                return Err(e);
            },
        };
        proof {
            reveal_strlit("-");
        }
        let mut match_id: String = team_1.clone();
        match_id.append("-");
        match_id.append(team_2.as_str());
        match_id.append("-");
        match_id.append(date.as_str());
        assert("-"@ =~= seq!['-']);
        let opened = Match {
            match_id,
            bets: Vec::new(),
            team_1,
            team_2,
            team_1_total_bets: pools.0,
            team_2_total_bets: pools.1,
            promised_winnings: 0,
            winner: None,
            match_state: MatchState::Future,
        };
        assert(opened@.bets =~= Seq::<BetView>::empty());
        Ok(opened)
    }

    /// Whether the match is well formed. This adds up the promises of all
    /// its bets.
    pub fn is_well_formed(&self) -> (r: bool)
        ensures
            r == self@.wf(),
    {
        if self.team_1_total_bets == 0 || self.team_1_total_bets > MAX_MONEY
            || self.team_2_total_bets == 0 || self.team_2_total_bets > MAX_MONEY {
            return false;
        }
        let complete: bool = self.match_state == MatchState::Complete;
        if self.winner.is_some() != complete {
            return false;
        }
        let first: u128 = total_promised(&self.bets, Side::TeamOne);
        let second: u128 = total_promised(&self.bets, Side::TeamTwo);
        if first >= second {
            first - second <= u64::MAX as u128 && self.promised_winnings >= 0
                && self.promised_winnings as u128 == first - second
        } else {
            second - first <= u64::MAX as u128 && self.promised_winnings < 0
                && self.promised_winnings >= -(u64::MAX as i128)
                && (-self.promised_winnings) as u128 == second - first
        }
    }

    /// What the match adds to the ledger: its exposure until it is settled,
    /// and nothing afterwards.
    pub fn contribution(&self) -> (r: u64)
        requires
            self@.wf(),
        ensures
            r == self@.contribution(),
    {
        match self.match_state {
            MatchState::Future | MatchState::InProgress => self.exposure(),
            _ => 0,
        }
    }

    /// What the match may cost: the magnitude of its balance of promises.
    pub fn exposure(&self) -> (r: u64)
        requires
            self@.wf(),
        ensures
            r == self@.exposure(),
    {
        if self.promised_winnings < 0 {
            (-self.promised_winnings) as u64
        } else {
            self.promised_winnings as u64
        }
    }

    /// The side that goes by the given name.
    pub fn side_named(&self, team: &String) -> (r: Option<Side>)
        ensures
            r == self@.side_named(team@),
    {
        if *team == self.team_1 {
            Some(Side::TeamOne)
        } else if *team == self.team_2 {
            Some(Side::TeamTwo)
        } else {
            None
        }
    }

    /// The pool of a side.
    pub fn pool(&self, side: Side) -> (r: u64)
        ensures
            r == self@.pool(side),
    {
        match side {
            Side::TeamOne => self.team_1_total_bets,
            Side::TeamTwo => self.team_2_total_bets,
        }
    }

    /// The side named `team` and what a stake of `bet_amount` on it would be
    /// promised.
    fn price(&self, team: &String, bet_amount: u64) -> (r: Result<(Side, u64), LedgerError>)
        requires
            self@.wf(),
        ensures
            match self@.quote(team@, bet_amount) {
                Err(e) => r == Err::<(Side, u64), LedgerError>(e),
                Ok(promise) => r == Ok::<(Side, u64), LedgerError>(
                    (self@.side_named(team@).unwrap(), promise),
                ),
            },
    {
        if self.match_state != MatchState::Future {
            return Err(LedgerError::IllegalState);
        }
        let side: Side = match self.side_named(team) {
            Some(side) => side,
            None => {
                return Err(LedgerError::InvalidSide);
            },
        };
        let own: u64 = self.pool(side);
        let other: u64 = self.pool(side.other());
        if bet_amount > MAX_MONEY - own {
            return Err(LedgerError::MalformedInput);
        }
        match find_winnings(own, other, bet_amount) {
            Ok(promise) => Ok((side, promise)),
            Err(e) => Err(e),
        }
    }

    /// What a stake of `bet_amount` on the side named `team` would be
    /// promised. Nothing changes.
    pub fn quote(&self, team: &String, bet_amount: u64) -> (r: Result<u64, LedgerError>)
        requires
            self@.wf(),
        ensures
            r == self@.quote(team@, bet_amount),
    {
        match self.price(team, bet_amount) {
            Ok((_, promise)) => Ok(promise),
            Err(e) => Err(e),
        }
    }

    /// Places a bet of `bet_amount` for `bettor` on the side named `team`,
    /// and returns what the bet is promised.
    ///
    /// The bet is priced against the pools as they stand. The exposure of the
    /// match is then taken out of the ledger as it was and put back as the
    /// bet leaves it, and the bet is admitted only if the ledger stays below
    /// `available_funds`. A bet that is refused leaves the match and the
    /// ledger exactly as they were.
    pub fn place_bet(
        &mut self,
        ledger: &mut ExposureLedger,
        bettor: String,
        team: &String,
        bet_amount: u64,
        available_funds: u64,
    ) -> (r: Result<u64, LedgerError>)
        requires
            old(self)@.wf(),
            old(self)@.contribution() <= old(ledger).total_committed_exposure,
        ensures
            r == old(self)@.admission(
                old(ledger).total_committed_exposure,
                team@,
                bet_amount,
                available_funds,
            ),
            r is Err ==> final(self)@ == old(self)@ && *final(ledger) == *old(ledger),
            r matches Ok(promise) ==> {
                let side = old(self)@.side_named(team@).unwrap();
                &&& final(self)@ == old(self)@.staked(side, bettor@, bet_amount, promise)
                &&& final(ledger).total_committed_exposure == old(ledger).repriced(
                    old(self)@.exposure(),
                    final(self)@.exposure(),
                )
                &&& final(ledger).total_committed_exposure < available_funds
            },
            final(self)@.wf(),
            final(self)@.contribution() <= final(ledger).total_committed_exposure,
    {
        let (side, promise): (Side, u64) = match self.price(team, bet_amount) {
            Ok(priced) => priced,
            Err(e) => {
                return Err(e);
            },
        };
        let before: u64 = self.exposure();
        let balance: i128 = match side {
            Side::TeamOne => self.promised_winnings + promise as i128,
            Side::TeamTwo => self.promised_winnings - promise as i128,
        };
        let after: u128 = if balance < 0 {
            (-balance) as u128
        } else {
            balance as u128
        };
        match ledger.reprice(before, after, available_funds) {
            Ok(()) => {},
            Err(e) => {
                return Err(e);
            },
        }
        let bet = Bet {
            bettor,
            decision: side,
            bet_amount,
            potential_winnings: promise,
            payed_out: PayedOut::YetToBePayed,
        };
        proof {
            lemma_promise_of_one_more_bet(bet_views(self.bets@), bet@);
            assert(bet_views(self.bets@.push(bet)) =~= bet_views(self.bets@).push(bet@));
        }
        self.bets.push(bet);
        match side {
            Side::TeamOne => {
                self.team_1_total_bets = self.team_1_total_bets + bet_amount;
            },
            Side::TeamTwo => {
                self.team_2_total_bets = self.team_2_total_bets + bet_amount;
            },
        }
        self.promised_winnings = balance;
        Ok(promise)
    }

    /// Closes the betting: the match is now in progress and takes no more
    /// bets. The bets and the ledger stay as they are.
    pub fn end_betting(&mut self) -> (r: Result<(), LedgerError>)
        ensures
            r is Ok <==> old(self)@.match_state == MatchState::Future,
            r is Ok ==> final(self)@ == (MatchView {
                match_state: MatchState::InProgress,
                ..old(self)@
            }),
            r matches Err(e) ==> e == LedgerError::StateError && final(self)@ == old(self)@,
            old(self)@.wf() ==> final(self)@.wf(),
            final(self)@.contribution() == old(self)@.contribution(),
    {
        if self.match_state != MatchState::Future {
            return Err(LedgerError::StateError);
        }
        self.match_state = MatchState::InProgress;
        Ok(())
    }

    /// Settles the match and takes its exposure out of the ledger.
    pub(crate) fn settle(&mut self, ledger: &mut ExposureLedger, mode: Settlement) -> (transfers:
        Vec<Transfer>)
        requires
            old(self)@.wf(),
            !old(self)@.match_state.is_terminal(),
            old(self)@.contribution() <= old(ledger).total_committed_exposure,
        ensures
            transfer_views(transfers@) == transfers_due(old(self)@.bets, mode),
            final(self)@ == old(self)@.settled(mode),
            final(ledger).total_committed_exposure == old(ledger).total_committed_exposure - old(
                self,
            )@.exposure(),
            final(self)@.wf(),
            final(self)@.contribution() == 0,
    {
        let exposure: u64 = self.exposure();
        proof {
            lemma_settlement_keeps_promises(self@.bets, mode, Side::TeamOne);
            lemma_settlement_keeps_promises(self@.bets, mode, Side::TeamTwo);
        }
        let transfers: Vec<Transfer> = dispatch(&mut self.bets, mode);
        match mode {
            Settlement::Payout(winner) => {
                self.winner = Some(winner);
                self.match_state = MatchState::Complete;
            },
            Settlement::Refund => {
                self.winner = None;
                self.match_state = MatchState::Error;
            },
        }
        ledger.release(exposure);
        transfers
    }

    /// Finishes a match that is in progress: the bets on the winning side
    /// are paid what they were promised, the winner is recorded, and the
    /// match is complete. Returns the transfers to request, in the order of
    /// the bets.
    ///
    /// A match that is not in progress is refused with a state error, and a
    /// name of neither side as an invalid side; nothing changes then.
    pub fn finish(&mut self, ledger: &mut ExposureLedger, winning_team: &String) -> (r: Result<
        Vec<Transfer>,
        LedgerError,
    >)
        requires
            old(self)@.wf(),
            old(self)@.contribution() <= old(ledger).total_committed_exposure,
        ensures
            match old(self)@.declared(winning_team@) {
                Err(e) => r == Err::<Vec<Transfer>, LedgerError>(e) && final(self)@ == old(self)@
                    && *final(ledger) == *old(ledger),
                Ok(winner) => {
                    &&& r matches Ok(transfers)
                    &&& transfer_views(transfers@) == transfers_due(
                        old(self)@.bets,
                        Settlement::Payout(winner),
                    )
                    &&& final(self)@ == old(self)@.settled(Settlement::Payout(winner))
                    &&& final(ledger).total_committed_exposure == old(
                        ledger,
                    ).total_committed_exposure - old(self)@.exposure()
                },
            },
            final(self)@.wf(),
            final(self)@.contribution() <= final(ledger).total_committed_exposure,
    {
        if self.match_state != MatchState::InProgress {
            return Err(LedgerError::StateError);
        }
        let winner: Side = match self.side_named(winning_team) {
            Some(side) => side,
            None => {
                return Err(LedgerError::InvalidSide);
            },
        };
        Ok(self.settle(ledger, Settlement::Payout(winner)))
    }

    /// Cancels a match that is not settled yet: every bet that nothing was
    /// sent for gets its stake back, whatever its side, and the match ends
    /// in the error state. Returns the transfers to request, in the order of
    /// the bets.
    ///
    /// A match that is settled already is refused with a state error;
    /// nothing changes then.
    pub fn cancel(&mut self, ledger: &mut ExposureLedger) -> (r: Result<Vec<Transfer>, LedgerError>)
        requires
            old(self)@.wf(),
            old(self)@.contribution() <= old(ledger).total_committed_exposure,
        ensures
            old(self)@.match_state.is_terminal() ==> r == Err::<Vec<Transfer>, LedgerError>(
                LedgerError::StateError,
            ) && final(self)@ == old(self)@ && *final(ledger) == *old(ledger),
            !old(self)@.match_state.is_terminal() ==> {
                &&& r matches Ok(transfers)
                &&& transfer_views(transfers@) == transfers_due(old(self)@.bets, Settlement::Refund)
                &&& final(self)@ == old(self)@.settled(Settlement::Refund)
                &&& final(ledger).total_committed_exposure == old(
                    ledger,
                ).total_committed_exposure - old(self)@.exposure()
            },
            final(self)@.wf(),
            final(self)@.contribution() <= final(ledger).total_committed_exposure,
    {
        match self.match_state {
            MatchState::Future | MatchState::InProgress => {},
            _ => {
                return Err(LedgerError::StateError);
            },
        }
        Ok(self.settle(ledger, Settlement::Refund))
    }

    /// What is shown of the match: its identifier, the names and the odds
    /// of its sides in hundredths, its winner and its state.
    pub fn summary(&self) -> (r: MatchSummary)
        requires
            self@.wf(),
        ensures
            summary_view(r) == self@.summary(),
    {
        let odds: (u64, u64) = match find_starting_odds(
            self.team_1_total_bets,
            self.team_2_total_bets,
        ) {
            Ok(odds) => odds,
            Err(_) => unreached(),
        };
        let winner: Option<String> = match self.winner {
            Some(Side::TeamOne) => Some(self.team_1.clone()),
            Some(Side::TeamTwo) => Some(self.team_2.clone()),
            None => None,
        };
        (
            self.match_id.clone(),
            self.team_1.clone(),
            odds.0,
            self.team_2.clone(),
            odds.1,
            winner,
            self.match_state,
        )
    }

    /// The bets that `name` selects, in the order in which they were placed:
    /// all of them for the name `all`, and otherwise those of the bettor of
    /// that name.
    pub fn bets_of(&self, name: &String) -> (rows: Vec<BetRow>)
        ensures
            bet_row_views(rows@) == self@.bets_shown(name@, self@.bets.len() as int),
    {
        let all: String = String::from_str("all");
        let every: bool = *name == all;
        let mut rows: Vec<BetRow> = Vec::new();
        let mut i: usize = 0;
        while i < self.bets.len()
            invariant
                i <= self.bets.len(),
                every == (name@ == "all"@),
                bet_row_views(rows@) =~= self@.bets_shown(name@, i as int),
            decreases self.bets.len() - i,
        {
            let bet: &Bet = &self.bets[i];
            if every || bet.bettor == *name {
                let team: String = match bet.decision {
                    Side::TeamOne => self.team_1.clone(),
                    Side::TeamTwo => self.team_2.clone(),
                };
                rows.push(
                    (
                        bet.bettor.clone(),
                        team,
                        bet.bet_amount,
                        bet.potential_winnings,
                        bet.payed_out,
                    ),
                );
            }
            i = i + 1;
        }
        rows
    }
}

} // verus!
