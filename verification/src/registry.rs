//! The list of matches and the operations on it.
//!
//! The list owns every match, from its creation on, and the exposure
//! ledger. Each operation finds its match by identifier, checks that the
//! match is in the state in which the operation is legal, and then either
//! completes or leaves the list exactly as it was.

use vstd::prelude::*;
use vstd::utf8::encode_utf8;
use crate::account::{account_id_rule, is_account_id};
use crate::bet::{transfer_views, transfers_due, Settlement, Transfer};
use crate::decimal::{base_unit_amount, decimal_amount, parse_base_units, parse_decimal};
use crate::error::LedgerError;
use crate::event::{
    bet_row_views, match_id_of, summary_view, BetRow, Match, MatchSummary,
    MatchSummaryView, MatchView,
};
use crate::ledger::ExposureLedger;
use crate::message::{bet_message, parse_message};
use crate::odds::seedable;
use crate::state::MatchState;

verus! {

/// Every match, in the order of creation, and the exposure ledger.
#[derive(Clone, Debug, PartialEq, Eq)]
pub struct MatchList {
    /// The matches. No two have the same identifier.
    pub matches: Vec<Match>,
    /// The sum of what the matches that are not settled may still cost.
    pub ledger: ExposureLedger,
}

/// The list as a value.
pub struct MatchListView {
    pub matches: Seq<MatchView>,
    pub total_committed_exposure: u64,
}

/// The matches of a vector as values.
pub open spec fn match_views(matches: Seq<Match>) -> Seq<MatchView> {
    Seq::new(matches.len(), |i: int| matches[i]@)
}

impl View for MatchList {
    type V = MatchListView;

    open spec fn view(&self) -> MatchListView {
        MatchListView {
            matches: match_views(self.matches@),
            total_committed_exposure: self.ledger.total_committed_exposure,
        }
    }
}

/// What the matches that are not settled may cost together: the full
/// recomputation of the ledger.
pub open spec fn open_exposure(matches: Seq<MatchView>) -> int
    decreases matches.len(),
{
    if matches.len() == 0 {
        0
    } else {
        open_exposure(matches.drop_last()) + matches.last().contribution()
    }
}

/// The place of the first match with the given identifier.
pub open spec fn position(matches: Seq<MatchView>, match_id: Seq<char>) -> Option<int>
    decreases matches.len(),
{
    if matches.len() == 0 {
        None
    } else {
        match position(matches.drop_last(), match_id) {
            Some(i) => Some(i),
            None => if matches.last().match_id == match_id {
                Some(matches.len() - 1)
            } else {
                None
            },
        }
    }
}

/// The summaries of the matches among the first `count` that still take
/// bets, in the order of creation.
pub open spec fn future_summaries(matches: Seq<MatchView>, count: int) -> Seq<MatchSummaryView>
    decreases count,
{
    if count <= 0 {
        Seq::empty()
    } else if matches[count - 1].match_state == MatchState::Future {
        future_summaries(matches, count - 1).push(matches[count - 1].summary())
    } else {
        future_summaries(matches, count - 1)
    }
}

/// The summaries of a vector as values.
pub open spec fn summary_views(summaries: Seq<MatchSummary>) -> Seq<MatchSummaryView> {
    Seq::new(summaries.len(), |i: int| summary_view(summaries[i]))
}

impl MatchListView {
    /// What holds of the list at every time: every match is well formed, no
    /// identifier occurs twice, and the ledger equals the sum, over the
    /// matches that are not settled, of what each may cost.
    pub open spec fn wf(self) -> bool {
        &&& forall|i: int| 0 <= i < self.matches.len() ==> (#[trigger] self.matches[i]).wf()
        &&& forall|i: int, j: int|
            0 <= i < j < self.matches.len() ==> (#[trigger] self.matches[i]).match_id != (
            #[trigger] self.matches[j]).match_id
        &&& self.total_committed_exposure == open_exposure(self.matches)
    }

    /// The place of the match with the given identifier.
    pub open spec fn find(self, match_id: Seq<char>) -> Option<int> {
        position(self.matches, match_id)
    }

    /// The match that a creation adds, or why it adds none: odds that are
    /// no decimals or that seed an empty pool are malformed, and an
    /// identifier that is taken already makes the creation a duplicate.
    pub open spec fn creation(
        self,
        team_1: Seq<char>,
        team_2: Seq<char>,
        in_odds_1: Seq<char>,
        in_odds_2: Seq<char>,
        date: Seq<char>,
    ) -> Result<MatchView, LedgerError> {
        match (decimal_amount(in_odds_1), decimal_amount(in_odds_2)) {
            (Some(odds_1), Some(odds_2)) => if !seedable(odds_1 as int, odds_2 as int) {
                Err(LedgerError::MalformedInput)
            } else if self.find(match_id_of(team_1, team_2, date)) is Some {
                Err(LedgerError::StateError)
            } else {
                Ok(MatchView::opening(team_1, team_2, odds_1, odds_2, date))
            },
            _ => Err(LedgerError::MalformedInput),
        }
    }

    /// What a bet on a match is promised, or why it is refused: no match has
    /// the identifier, or what the match itself objects.
    pub open spec fn bet(
        self,
        bet_amount: u64,
        match_id: Seq<char>,
        decision: Seq<char>,
        available_funds: u64,
    ) -> Result<u64, LedgerError> {
        match self.find(match_id) {
            None => Err(LedgerError::NotFound),
            Some(place) => self.matches[place].admission(
                self.total_committed_exposure,
                decision,
                bet_amount,
                available_funds,
            ),
        }
    }

    /// What a stake that arrives as text is promised, or why it is refused,
    /// in the order in which the reasons are looked for: the sender is no
    /// account name, the amount is no count of base units, or the message
    /// names no match and decision; and then what the bet itself meets.
    pub open spec fn stake(
        self,
        sender_id: Seq<char>,
        amount: Seq<char>,
        msg: Seq<char>,
        available_funds: u64,
    ) -> Result<u64, LedgerError> {
        if !account_id_rule(encode_utf8(sender_id)) {
            Err(LedgerError::MalformedInput)
        } else {
            match (base_unit_amount(amount), bet_message(msg)) {
                (Some(bet_amount), Some((match_id, decision))) => self.bet(
                    bet_amount,
                    match_id,
                    decision,
                    available_funds,
                ),
                _ => Err(LedgerError::MalformedInput),
            }
        }
    }

    /// The place of the match on which a transition out of `from` acts, or
    /// why there is none: no match has the identifier, or the match is not
    /// in that state.
    pub open spec fn transition(self, match_id: Seq<char>, from: MatchState) -> Result<
        int,
        LedgerError,
    > {
        match self.find(match_id) {
            None => Err(LedgerError::NotFound),
            Some(place) => if self.matches[place].match_state != from {
                Err(LedgerError::IllegalState)
            } else {
                Ok(place)
            },
        }
    }

    /// What `finish_match` settles, or why it settles nothing: the place of
    /// the match and the side that won.
    pub open spec fn resolution(self, match_id: Seq<char>, winning_team: Seq<char>) -> Result<
        (int, Settlement),
        LedgerError,
    > {
        match self.transition(match_id, MatchState::InProgress) {
            Err(e) => Err(e),
            Ok(place) => match self.matches[place].side_named(winning_team) {
                None => Err(LedgerError::InvalidSide),
                Some(winner) => Ok((place, Settlement::Payout(winner))),
            },
        }
    }

    /// What `return_funds` settles, or why it settles nothing. Only a match
    /// that takes bets or is in progress can be cancelled, and `state` must
    /// say which of the two the match is.
    pub open spec fn cancellation(self, match_id: Seq<char>, state: MatchState) -> Result<
        (int, Settlement),
        LedgerError,
    > {
        if state.is_terminal() {
            Err(LedgerError::IllegalState)
        } else {
            match self.transition(match_id, state) {
                Err(e) => Err(e),
                Ok(place) => Ok((place, Settlement::Refund)),
            }
        }
    }

    /// The list after the match at `place` was settled.
    pub open spec fn settled(self, place: int, mode: Settlement) -> MatchListView {
        self.replaced(place, self.matches[place].settled(mode))
    }

    /// What `view_future_matches` lists: for `all` every match that takes
    /// bets, and otherwise the one match with the identifier, which must
    /// take bets.
    pub open spec fn listing(self, match_id: Seq<char>) -> Result<
        Seq<MatchSummaryView>,
        LedgerError,
    > {
        if match_id == "all"@ {
            Ok(future_summaries(self.matches, self.matches.len() as int))
        } else {
            match self.transition(match_id, MatchState::Future) {
                Err(e) => Err(e),
                Ok(place) => Ok(seq![self.matches[place].summary()]),
            }
        }
    }

    /// What a bet would be promised, or why it cannot be quoted, in the
    /// order in which the reasons are looked for.
    pub open spec fn quotation(
        self,
        match_id: Seq<char>,
        team: Seq<char>,
        bet_amount: Seq<char>,
    ) -> Result<u64, LedgerError> {
        match self.transition(match_id, MatchState::Future) {
            Err(e) => Err(e),
            Ok(place) => if self.matches[place].side_named(team) is None {
                Err(LedgerError::InvalidSide)
            } else {
                match decimal_amount(bet_amount) {
                    None => Err(LedgerError::MalformedInput),
                    Some(amount) => self.matches[place].quote(team, amount),
                }
            },
        }
    }

    /// The list with the match at `place` replaced and the ledger moved by
    /// the difference of what the two contribute.
    pub open spec fn replaced(self, place: int, by: MatchView) -> MatchListView {
        MatchListView {
            matches: self.matches.update(place, by),
            total_committed_exposure: (self.total_committed_exposure
                - self.matches[place].contribution() + by.contribution()) as u64,
        }
    }
}

/// A place that `position` reports holds the identifier, and is the first to
/// do so; when it reports none, no match has the identifier.
pub proof fn lemma_position(matches: Seq<MatchView>, match_id: Seq<char>)
    ensures
        match position(matches, match_id) {
            Some(place) => {
                &&& 0 <= place < matches.len()
                &&& matches[place].match_id == match_id
                &&& forall|i: int| 0 <= i < place ==> (#[trigger] matches[i]).match_id != match_id
            },
            None => forall|i: int|
                0 <= i < matches.len() ==> (#[trigger] matches[i]).match_id != match_id,
        },
    decreases matches.len(),
{
    if matches.len() > 0 {
        lemma_position(matches.drop_last(), match_id);
        assert(forall|i: int|
            0 <= i < matches.len() - 1 ==> matches.drop_last()[i] == #[trigger] matches[i]);
    }
}

/// No match may cost less than nothing, so the sum is at least what any
/// one of them contributes.
pub proof fn lemma_open_exposure_covers(matches: Seq<MatchView>, place: int)
    requires
        0 <= place < matches.len(),
    ensures
        0 <= matches[place].contribution() <= open_exposure(matches),
    decreases matches.len(),
{
    lemma_open_exposure_nonnegative(matches.drop_last());
    if place < matches.len() - 1 {
        lemma_open_exposure_covers(matches.drop_last(), place);
    }
}

proof fn lemma_open_exposure_nonnegative(matches: Seq<MatchView>)
    ensures
        0 <= open_exposure(matches),
    decreases matches.len(),
{
    if matches.len() > 0 {
        lemma_open_exposure_nonnegative(matches.drop_last());
    }
}

/// Replacing one match moves the sum by the difference of what the two
/// contribute.
pub proof fn lemma_open_exposure_update(matches: Seq<MatchView>, place: int, by: MatchView)
    requires
        0 <= place < matches.len(),
    ensures
        open_exposure(matches.update(place, by)) == open_exposure(matches)
            - matches[place].contribution() + by.contribution(),
    decreases matches.len(),
{
    if place < matches.len() - 1 {
        assert(matches.update(place, by).drop_last() =~= matches.drop_last().update(place, by));
        lemma_open_exposure_update(matches.drop_last(), place, by);
    } else {
        assert(matches.update(place, by).drop_last() =~= matches.drop_last());
    }
}

/// A list stays well formed when one of its matches is replaced by a well
/// formed match with the same identifier and the ledger follows.
pub proof fn lemma_replaced_is_wf(list: MatchListView, place: int, by: MatchView)
    requires
        list.wf(),
        0 <= place < list.matches.len(),
        by.wf(),
        by.match_id == list.matches[place].match_id,
        list.total_committed_exposure - list.matches[place].contribution() + by.contribution()
            <= u64::MAX,
    ensures
        list.replaced(place, by).wf(),
        list.replaced(place, by).total_committed_exposure == list.total_committed_exposure
            - list.matches[place].contribution() + by.contribution(),
{
    lemma_open_exposure_update(list.matches, place, by);
    lemma_open_exposure_covers(list.matches, place);
    lemma_open_exposure_covers(list.matches.update(place, by), place);
    let after = list.replaced(place, by);
    assert forall|i: int, j: int| 0 <= i < j < after.matches.len() implies (
    #[trigger] after.matches[i]).match_id != (#[trigger] after.matches[j]).match_id by {
        assert(after.matches[i].match_id == list.matches[i].match_id);
        assert(after.matches[j].match_id == list.matches[j].match_id);
    }
}

/// Replacing a match by one with the same identifier moves no match to
/// another place.
pub proof fn lemma_position_after_update(
    matches: Seq<MatchView>,
    place: int,
    by: MatchView,
    match_id: Seq<char>,
)
    requires
        0 <= place < matches.len(),
        by.match_id == matches[place].match_id,
    ensures
        position(matches.update(place, by), match_id) == position(matches, match_id),
{
    let updated = matches.update(place, by);
    lemma_position(matches, match_id);
    lemma_position(updated, match_id);
    assert forall|i: int| 0 <= i < matches.len() implies (#[trigger] updated[i]).match_id
        == matches[i].match_id by {}
    match position(matches, match_id) {
        Some(first) => {
            assert(updated[first].match_id == match_id);
        },
        None => {},
    }
    match position(updated, match_id) {
        Some(first) => {
            assert(matches[first].match_id == updated[first].match_id);
        },
        None => {},
    }
}

/// A settlement is final. Once a match has been finished or cancelled, it
/// is still found under its identifier, it is in a terminal state, and
/// every further attempt to close its betting, to finish it, to cancel it
/// or to bet on it is refused as illegal in its state, whatever winner,
/// state or stake the attempt names. A refused attempt changes nothing, so
/// no transfer is requested twice.
pub proof fn lemma_settlement_is_final(
    list: MatchListView,
    match_id: Seq<char>,
    place: int,
    mode: Settlement,
    winning_team: Seq<char>,
    state: MatchState,
    bet_amount: u64,
    decision: Seq<char>,
    available_funds: u64,
)
    requires
        list.wf(),
        list.find(match_id) == Some(place),
    ensures
        ({
            let after = list.settled(place, mode);
            &&& after.find(match_id) == Some(place)
            &&& after.matches[place].match_state.is_terminal()
            &&& after.transition(match_id, MatchState::Future) == Err::<int, LedgerError>(
                LedgerError::IllegalState,
            )
            &&& after.resolution(match_id, winning_team) == Err::<(int, Settlement), LedgerError>(
                LedgerError::IllegalState,
            )
            &&& after.cancellation(match_id, state) == Err::<(int, Settlement), LedgerError>(
                LedgerError::IllegalState,
            )
            &&& after.bet(bet_amount, match_id, decision, available_funds) == Err::<
                u64,
                LedgerError,
            >(LedgerError::IllegalState)
        }),
{
    lemma_position(list.matches, match_id);
    lemma_position_after_update(
        list.matches,
        place,
        list.matches[place].settled(mode),
        match_id,
    );
}

impl MatchList {
    /// A list without matches, with nothing committed.
    pub fn new() -> (r: MatchList)
        ensures
            r@.matches.len() == 0,
            r@.total_committed_exposure == 0,
            r@.wf(),
    {
        let list = MatchList { matches: Vec::new(), ledger: ExposureLedger::new() };
        assert(list@.matches =~= Seq::<MatchView>::empty());
        list
    }

    /// The place of the match with the given identifier in the list.
    pub fn find(&self, match_id: &String) -> (r: Option<usize>)
        ensures
            match r {
                Some(place) => self@.find(match_id@) == Some(place as int) && place
                    < self.matches.len(),
                None => self@.find(match_id@) is None,
            },
    {
        let ghost all: Seq<MatchView> = self@.matches;
        let mut i: usize = 0;
        while i < self.matches.len()
            invariant
                i <= self.matches.len(),
                all == self@.matches,
                position(all.take(i as int), match_id@) is None,
            decreases self.matches.len() - i,
        {
            assert(all.take(i + 1).drop_last() =~= all.take(i as int));
            if self.matches[i].match_id == *match_id {
                proof {
                    lemma_position_extends(all, match_id@, i + 1);
                }
                return Some(i);
            }
            i = i + 1;
        }
        assert(all.take(i as int) =~= all);
        None
    }

    /// Creates a match between `team_1` and `team_2` on `date`, open for
    /// bets, and returns its identifier. The odds are decimals, such as
    /// `1.85`; they seed the two pools.
    pub fn create_match(
        &mut self,
        team_1: String,
        team_2: String,
        in_odds_1: String,
        in_odds_2: String,
        date: String,
    ) -> (r: Result<String, LedgerError>)
        requires
            old(self)@.wf(),
        ensures
            final(self)@.wf(),
            match old(self)@.creation(team_1@, team_2@, in_odds_1@, in_odds_2@, date@) {
                Err(e) => r == Err::<String, LedgerError>(e) && final(self)@ == old(self)@,
                Ok(opened) => {
                    &&& r matches Ok(match_id)
                    &&& match_id@ == opened.match_id
                    &&& final(self)@.matches == old(self)@.matches.push(opened)
                    &&& final(self)@.total_committed_exposure == old(
                        self,
                    )@.total_committed_exposure
                },
            },
    {
        let odds_1: u64 = match parse_decimal(in_odds_1.as_str()) {
            Some(odds) => odds,
            None => {
                return Err(LedgerError::MalformedInput);
            },
        };
        let odds_2: u64 = match parse_decimal(in_odds_2.as_str()) {
            Some(odds) => odds,
            None => {
                return Err(LedgerError::MalformedInput);
            },
        };
        let opened: Match = match Match::new(team_1, team_2, odds_1, odds_2, date) {
            Ok(opened) => opened,
            Err(e) => {
                return Err(e);
            },
        };
        if self.find(&opened.match_id).is_some() {
            return Err(LedgerError::StateError);
        }
        let match_id: String = opened.match_id.clone();
        proof {
            lemma_position(self@.matches, opened@.match_id);
            assert(match_views(self.matches@.push(opened)) =~= self@.matches.push(opened@));
            assert(self@.matches.push(opened@).drop_last() =~= self@.matches);
        }
        self.matches.push(opened);
        Ok(match_id)
    }

    /// Places a bet of `bet_amount` for `bettor` on the side named `decision`
    /// of a match, and returns what the bet is promised. `available_funds` is
    /// what the ledger could pay out at this moment, in millionths.
    ///
    /// A bet is admitted only if the ledger then stays below
    /// `available_funds`. A bet that is refused leaves everything as it was.
    pub fn place_bet(
        &mut self,
        bettor: String,
        bet_amount: u64,
        match_id: String,
        decision: String,
        available_funds: u64,
    ) -> (r: Result<u64, LedgerError>)
        requires
            old(self)@.wf(),
        ensures
            final(self)@.wf(),
            r == old(self)@.bet(bet_amount, match_id@, decision@, available_funds),
            r is Err ==> final(self)@ == old(self)@,
            r matches Ok(promise) ==> {
                let place = old(self)@.find(match_id@).unwrap();
                let before = old(self)@.matches[place];
                &&& final(self)@ == old(self)@.replaced(
                    place,
                    before.staked(
                        before.side_named(decision@).unwrap(),
                        bettor@,
                        bet_amount,
                        promise,
                    ),
                )
                &&& final(self)@.total_committed_exposure < available_funds
            },
    {
        let place: usize = match self.find(&match_id) {
            Some(place) => place,
            None => {
                return Err(LedgerError::NotFound);
            },
        };
        proof {
            lemma_open_exposure_covers(self@.matches, place as int);
        }
        let r = self.matches[place].place_bet(
            &mut self.ledger,
            bettor,
            &decision,
            bet_amount,
            available_funds,
        );
        proof {
            if r is Ok {
                lemma_replaced_is_wf(old(self)@, place as int, self.matches[place as int]@);
                assert(self@.matches =~= old(self)@.matches.update(
                    place as int,
                    self.matches[place as int]@,
                ));
            } else {
                assert(self@.matches =~= old(self)@.matches);
            }
        }
        r
    }

    /// Places the bet that comes with a transfer: `sender_id` has sent
    /// `amount`, a count of base units, and `msg` names the match and the
    /// decision, as in `{"match_id": "A-B-2024-01-01", "decision": "A"}`.
    /// Returns what the bet is promised.
    ///
    /// A sender that is no account name, an amount that is no count, and a
    /// message that names no match and decision are malformed. After that
    /// the bet is placed as by [`MatchList::place_bet`].
    pub fn ft_on_transfer(
        &mut self,
        sender_id: String,
        amount: String,
        msg: String,
        available_funds: u64,
    ) -> (r: Result<u64, LedgerError>)
        requires
            old(self)@.wf(),
        ensures
            final(self)@.wf(),
            r == old(self)@.stake(sender_id@, amount@, msg@, available_funds),
            r is Err ==> final(self)@ == old(self)@,
            r matches Ok(promise) ==> {
                let (match_id, decision) = bet_message(msg@).unwrap();
                let place = old(self)@.find(match_id).unwrap();
                let before = old(self)@.matches[place];
                &&& final(self)@ == old(self)@.replaced(
                    place,
                    before.staked(
                        before.side_named(decision).unwrap(),
                        sender_id@,
                        base_unit_amount(amount@).unwrap(),
                        promise,
                    ),
                )
                &&& final(self)@.total_committed_exposure < available_funds
            },
    {
        if !is_account_id(sender_id.as_str()) {
            return Err(LedgerError::MalformedInput);
        }
        let bet_amount: u64 = match parse_base_units(amount.as_str()) {
            Some(bet_amount) => bet_amount,
            None => {
                return Err(LedgerError::MalformedInput);
            },
        };
        let (match_id, decision): (String, String) = match parse_message(msg.as_str()) {
            Some(named) => named,
            None => {
                return Err(LedgerError::MalformedInput);
            },
        };
        self.place_bet(sender_id, bet_amount, match_id, decision, available_funds)
    }

    /// The place of the match with the given identifier, if the match is
    /// in the state `from`.
    fn find_in_state(&self, match_id: &String, from: MatchState) -> (r: Result<usize, LedgerError>)
        requires
            self@.wf(),
        ensures
            match self@.transition(match_id@, from) {
                Err(e) => r == Err::<usize, LedgerError>(e),
                Ok(place) => r == Ok::<usize, LedgerError>(place as usize) && 0 <= place
                    < self.matches.len(),
            },
            r matches Ok(place) ==> {
                &&& self@.matches[place as int].match_id == match_id@
                &&& self@.matches[place as int].wf()
                &&& 0 <= self@.matches[place as int].contribution()
                    <= self@.total_committed_exposure
            },
    {
        let place: usize = match self.find(match_id) {
            Some(place) => place,
            None => {
                return Err(LedgerError::NotFound);
            },
        };
        proof {
            lemma_position(self@.matches, match_id@);
            lemma_open_exposure_covers(self@.matches, place as int);
        }
        if self.matches[place].match_state != from {
            return Err(LedgerError::IllegalState);
        }
        Ok(place)
    }

    /// Closes the betting on a match: it is now in progress and takes no
    /// more bets. The ledger keeps counting what the match may cost.
    pub fn end_betting(&mut self, match_id: String) -> (r: Result<(), LedgerError>)
        requires
            old(self)@.wf(),
        ensures
            final(self)@.wf(),
            match old(self)@.transition(match_id@, MatchState::Future) {
                Err(e) => r == Err::<(), LedgerError>(e) && final(self)@ == old(self)@,
                Ok(place) => r is Ok && final(self)@ == old(self)@.replaced(
                    place,
                    MatchView { match_state: MatchState::InProgress, ..old(self)@.matches[place] },
                ),
            },
            final(self)@.total_committed_exposure == old(self)@.total_committed_exposure,
    {
        let place: usize = match self.find_in_state(&match_id, MatchState::Future) {
            Ok(place) => place,
            Err(e) => {
                return Err(e);
            },
        };
        let closed = self.matches[place].end_betting();
        proof {
            lemma_replaced_is_wf(old(self)@, place as int, self.matches[place as int]@);
            assert(self@.matches =~= old(self)@.matches.update(
                place as int,
                self.matches[place as int]@,
            ));
        }
        closed
    }

    /// Settles the match at `place` and takes it out of the ledger.
    fn settle(&mut self, place: usize, mode: Settlement) -> (transfers: Vec<Transfer>)
        requires
            old(self)@.wf(),
            place < old(self).matches.len(),
            match mode {
                Settlement::Payout(_) => old(self)@.matches[place as int].match_state
                    == MatchState::InProgress,
                Settlement::Refund => !old(self)@.matches[place as int].match_state.is_terminal(),
            },
        ensures
            final(self)@.wf(),
            transfer_views(transfers@) == transfers_due(
                old(self)@.matches[place as int].bets,
                mode,
            ),
            final(self)@ == old(self)@.settled(place as int, mode),
    {
        proof {
            lemma_open_exposure_covers(self@.matches, place as int);
        }
        let transfers: Vec<Transfer> = self.matches[place].settle(&mut self.ledger, mode);
        proof {
            lemma_replaced_is_wf(old(self)@, place as int, self.matches[place as int]@);
            assert(self@.matches =~= old(self)@.matches.update(
                place as int,
                self.matches[place as int]@,
            ));
        }
        transfers
    }

    /// Finishes a match that is in progress: declares the winner, pays the
    /// bets on the winning side what they were promised, and takes the match
    /// out of the ledger. Returns the transfers to request, in the order in
    /// which the bets were placed.
    ///
    /// The match is complete afterwards, and any further transition of it is
    /// refused as illegal in its state.
    pub fn finish_match(&mut self, match_id: String, winning_team: String) -> (r: Result<
        Vec<Transfer>,
        LedgerError,
    >)
        requires
            old(self)@.wf(),
        ensures
            final(self)@.wf(),
            match old(self)@.resolution(match_id@, winning_team@) {
                Err(e) => r == Err::<Vec<Transfer>, LedgerError>(e) && final(self)@ == old(self)@,
                Ok((place, mode)) => {
                    &&& r matches Ok(transfers)
                    &&& transfer_views(transfers@) == transfers_due(
                        old(self)@.matches[place].bets,
                        mode,
                    )
                    &&& final(self)@ == old(self)@.settled(place, mode)
                },
            },
    {
        let place: usize = match self.find_in_state(&match_id, MatchState::InProgress) {
            Ok(place) => place,
            Err(e) => {
                return Err(e);
            },
        };
        let winner = match self.matches[place].side_named(&winning_team) {
            Some(winner) => winner,
            None => {
                return Err(LedgerError::InvalidSide);
            },
        };
        Ok(self.settle(place, Settlement::Payout(winner)))
    }

    /// Cancels a match that is not settled yet: every bet that nothing was
    /// sent for gets its stake back, and the match is taken out of the
    /// ledger. `state` is the state that the caller takes the match to be
    /// in. Returns the transfers to request, in the order in which the bets
    /// were placed.
    pub fn return_funds(&mut self, match_id: String, state: MatchState) -> (r: Result<
        Vec<Transfer>,
        LedgerError,
    >)
        requires
            old(self)@.wf(),
        ensures
            final(self)@.wf(),
            match old(self)@.cancellation(match_id@, state) {
                Err(e) => r == Err::<Vec<Transfer>, LedgerError>(e) && final(self)@ == old(self)@,
                Ok((place, mode)) => {
                    &&& r matches Ok(transfers)
                    &&& transfer_views(transfers@) == transfers_due(
                        old(self)@.matches[place].bets,
                        mode,
                    )
                    &&& final(self)@ == old(self)@.settled(place, mode)
                },
            },
    {
        match state {
            MatchState::Future | MatchState::InProgress => {},
            _ => {
                return Err(LedgerError::IllegalState);
            },
        }
        let place: usize = match self.find_in_state(&match_id, state) {
            Ok(place) => place,
            Err(e) => {
                return Err(e);
            },
        };
        Ok(self.settle(place, Settlement::Refund))
    }

    /// Lists matches that take bets: for `all` every one of them, in the
    /// order of creation, and otherwise the one with the given identifier.
    pub fn view_future_matches(&self, match_id: String) -> (r: Result<
        Vec<MatchSummary>,
        LedgerError,
    >)
        requires
            self@.wf(),
        ensures
            match self@.listing(match_id@) {
                Err(e) => r == Err::<Vec<MatchSummary>, LedgerError>(e),
                Ok(listed) => r matches Ok(summaries) && summary_views(summaries@) == listed,
            },
    {
        let all: String = String::from_str("all");
        let mut summaries: Vec<MatchSummary> = Vec::new();
        if match_id == all {
            let mut i: usize = 0;
            while i < self.matches.len()
                invariant
                    i <= self.matches.len(),
                    self@.wf(),
                    summary_views(summaries@) =~= future_summaries(self@.matches, i as int),
                decreases self.matches.len() - i,
            {
                if self.matches[i].match_state == MatchState::Future {
                    assert(self@.matches[i as int].wf());
                    let summary: MatchSummary = self.matches[i].summary();
                    summaries.push(summary);
                }
                i = i + 1;
            }
            Ok(summaries)
        } else {
            let place: usize = match self.find_in_state(&match_id, MatchState::Future) {
                Ok(place) => place,
                Err(e) => {
                    return Err(e);
                },
            };
            let summary: MatchSummary = self.matches[place].summary();
            summaries.push(summary);
            assert(summary_views(summaries@) =~= seq![self@.matches[place as int].summary()]);
            Ok(summaries)
        }
    }

    /// Lists the bets of a match that `name` selects, in the order in which
    /// they were placed: all of them for the name `all`, and otherwise
    /// those of the bettor of that name.
    pub fn view_bets(&self, match_id: String, name: String) -> (r: Result<Vec<BetRow>, LedgerError>)
        ensures
            match self@.find(match_id@) {
                None => r == Err::<Vec<BetRow>, LedgerError>(LedgerError::NotFound),
                Some(place) => r matches Ok(rows) && bet_row_views(rows@)
                    == self@.matches[place].bets_shown(
                    name@,
                    self@.matches[place].bets.len() as int,
                ),
            },
    {
        match self.find(&match_id) {
            Some(place) => Ok(self.matches[place].bets_of(&name)),
            None => Err(LedgerError::NotFound),
        }
    }

    /// What a bet of `bet_amount`, a decimal in units, on the side named
    /// `team` would be promised at this moment. Nothing changes.
    pub fn view_potential_winnings(&self, match_id: String, team: String, bet_amount: String) -> (r:
        Result<u64, LedgerError>)
        requires
            self@.wf(),
        ensures
            r == self@.quotation(match_id@, team@, bet_amount@),
    {
        let place: usize = match self.find_in_state(&match_id, MatchState::Future) {
            Ok(place) => place,
            Err(e) => {
                return Err(e);
            },
        };
        if self.matches[place].side_named(&team).is_none() {
            return Err(LedgerError::InvalidSide);
        }
        let amount: u64 = match parse_decimal(bet_amount.as_str()) {
            Some(amount) => amount,
            None => {
                return Err(LedgerError::MalformedInput);
            },
        };
        self.matches[place].quote(&team, amount)
    }

    /// Whether the list is well formed: every match is, no identifier
    /// occurs twice, and the ledger equals its recomputation.
    pub fn is_well_formed(&self) -> (r: bool)
        ensures
            r == self@.wf(),
    {
        let mut i: usize = 0;
        while i < self.matches.len()
            invariant
                i <= self.matches.len(),
                forall|k: int| 0 <= k < i ==> (#[trigger] self@.matches[k]).wf(),
                forall|k: int, j: int|
                    0 <= k < j < i ==> (#[trigger] self@.matches[k]).match_id != (
                    #[trigger] self@.matches[j]).match_id,
            decreases self.matches.len() - i,
        {
            if !self.matches[i].is_well_formed() {
                assert(!self@.matches[i as int].wf());
                return false;
            }
            let mut k: usize = 0;
            while k < i
                invariant
                    k <= i < self.matches.len(),
                    forall|j: int|
                        0 <= j < k ==> (#[trigger] self@.matches[j]).match_id
                            != self@.matches[i as int].match_id,
                decreases i - k,
            {
                if self.matches[k].match_id == self.matches[i].match_id {
                    assert(self@.matches[k as int].match_id == self@.matches[i as int].match_id);
                    return false;
                }
                k = k + 1;
            }
            i = i + 1;
        }
        self.recompute_exposure() == self.ledger.total_committed_exposure as u128
    }

    /// Recomputes the ledger from the matches: the sum, over the matches
    /// that are not settled, of what each may cost.
    pub fn recompute_exposure(&self) -> (r: u128)
        requires
            forall|i: int| 0 <= i < self@.matches.len() ==> (#[trigger] self@.matches[i]).wf(),
        ensures
            r == open_exposure(self@.matches),
    {
        let ghost all: Seq<MatchView> = self@.matches;
        let mut sum: u128 = 0;
        let mut i: usize = 0;
        assert(all.take(0) =~= Seq::<MatchView>::empty());
        while i < self.matches.len()
            invariant
                i <= self.matches.len(),
                all == self@.matches,
                forall|j: int| 0 <= j < all.len() ==> (#[trigger] all[j]).wf(),
                sum == open_exposure(all.take(i as int)),
                sum <= i * u64::MAX,
            decreases self.matches.len() - i,
        {
            assert(all.take(i + 1).drop_last() =~= all.take(i as int));
            assert(all[i as int].wf());
            assert(i * u64::MAX + u64::MAX <= usize::MAX * u64::MAX + u64::MAX <= u128::MAX)
                by (nonlinear_arith)
                requires
                    i <= usize::MAX,
                    usize::MAX <= u64::MAX,
            ;
            assert((i + 1) * u64::MAX == i * u64::MAX + u64::MAX) by (nonlinear_arith);
            match self.matches[i].match_state {
                MatchState::Future | MatchState::InProgress => {
                    sum = sum + self.matches[i].exposure() as u128;
                },
                _ => {},
            }
            i = i + 1;
        }
        assert(all.take(i as int) =~= all);
        sum
    }
}

impl Default for MatchList {
    /// A list without matches, with nothing committed.
    fn default() -> (r: MatchList)
        ensures
            r@.matches.len() == 0,
            r@.total_committed_exposure == 0,
            r@.wf(),
    {
        MatchList::new()
    }
}

/// A match found among the first `count` is found at the same place in
/// the whole list.
proof fn lemma_position_extends(matches: Seq<MatchView>, match_id: Seq<char>, count: int)
    requires
        0 <= count <= matches.len(),
        position(matches.take(count), match_id) is Some,
    ensures
        position(matches, match_id) == position(matches.take(count), match_id),
    decreases matches.len() - count,
{
    if count < matches.len() {
        assert(matches.take(count + 1).drop_last() =~= matches.take(count));
        lemma_position_extends(matches, match_id, count + 1);
    } else {
        assert(matches.take(count) =~= matches);
    }
}

} // verus!
