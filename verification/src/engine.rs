//! The round lifecycle: configuration and validation, ticket purchase,
//! draw orchestration and result archival.
//!
//! The engine is one value, the single tracked round. Callers drive the
//! external collaborators around it: they check authorization before calling,
//! read escrow balances and hand them in, and perform the transfers the
//! engine returns. Every operation either completes or returns an error with
//! the engine unchanged.

use vstd::prelude::*;
use crate::assoc::{
    sget, shas, keys_unique, lemma_shas_index, lemma_sget_index, lemma_sget_push,
    lemma_sget_update, find_key_u32, find_key_u64,
};
use crate::classify::{
    total_pairs, tier_winners, winners_spec, winners_match, get_winners,
    lemma_winners_spec_props, lemma_tier_winners_len,
    lemma_total_pairs_entry, lemma_total_pairs_update, lemma_total_pairs_push,
};
use crate::prize::{
    sum_pct, sum_amounts, tot_ths, owed, appears, amt, calculate_prizes, copy_pairs,
    lemma_sum_pct_entry,
};
use crate::draw::{draw_numbers, valid_draw};
use crate::rng::RandomNumberGenerator;

verus! {

/// Lifecycle of the tracked round.
#[derive(Clone, Copy, PartialEq, Eq, Structural, Debug)]
pub enum LotteryState {
    Initialized,
    Active,
    Finished,
}

/// Why an operation was refused.
#[derive(Clone, Copy, PartialEq, Eq, Structural, Debug)]
pub enum Error {
    AlreadyInitialized,
    InsufficientFunds,
    NotInitialized,
    MinParticipantsNotSatisfied,
    MaxRangeTooLow,
    NumberOfNumbersTooLow,
    NumberOfThresholdsTooLow,
    NotEnoughOrTooManyNumbers,
    InvalidNumbers,
    WrongLotteryNumber,
    NoLotteryResultsAvailable,
    AlreadyActive,
    NotActive,
    InvalidThresholds,
    InvalidTicketPrice,
}

/// A ticket fit for the configuration: exactly `number_of_numbers` values,
/// each in `[1, max_range]`; values may repeat within one ticket.
pub open spec fn valid_ticket(t: Seq<u32>, number_of_numbers: u32, max_range: u32) -> bool {
    &&& t.len() == number_of_numbers
    &&& forall|i: int| 0 <= i < t.len() ==> 1 <= #[trigger] t[i] <= max_range
}

/// The error round creation reports for a configuration, checked in order;
/// none means the configuration is accepted.
pub open spec fn create_error(
    ticket_price: i128,
    number_of_numbers: u32,
    max_range: u32,
    thresholds: Seq<(u32, u32)>,
) -> Option<Error> {
    if max_range < number_of_numbers {
        Some(Error::MaxRangeTooLow)
    } else if number_of_numbers < 2 {
        Some(Error::NumberOfNumbersTooLow)
    } else if thresholds.len() == 0 {
        Some(Error::NumberOfThresholdsTooLow)
    } else if ticket_price <= 0 {
        Some(Error::InvalidTicketPrice)
    } else if !(1 <= sum_pct(thresholds) <= 100) {
        Some(Error::InvalidThresholds)
    } else if exists|i: int|
        0 <= i < thresholds.len()
            && !(1 <= (#[trigger] thresholds[i]).0 <= number_of_numbers) {
        Some(Error::InvalidThresholds)
    } else {
        None
    }
}

/// The lottery engine: the tracked round's configuration, ticket ledger and
/// archived draws.
pub struct LotteryContract {
    /// lifecycle; absent until initialization
    pub state: Option<LotteryState>,
    /// operator identity, kept for the caller's authorization collaborator
    pub admin: u64,
    /// escrow token reference, kept for the caller's transfer collaborator
    pub token: u64,
    pub ticket_price: i128,
    pub number_of_numbers: u32,
    pub max_range: u32,
    /// match count to percentage of the pool
    pub thresholds: Vec<(u32, u32)>,
    pub min_players_count: u32,
    /// round counter; the first round is 1
    pub lottery_number: u32,
    /// participant to tickets bought in the current round
    pub tickets: Vec<(u64, Vec<Vec<u32>>)>,
    /// round number to archived draw
    pub results: Vec<(u32, Vec<u32>)>,
}

impl LotteryContract {
    /// A configuration that validation admits.
    pub open spec fn config_ok(self) -> bool {
        &&& self.number_of_numbers >= 2
        &&& self.max_range >= self.number_of_numbers
        &&& self.thresholds@.len() >= 1
        &&& self.ticket_price > 0
        &&& 1 <= sum_pct(self.thresholds@) <= 100
        &&& forall|i: int| 0 <= i < self.thresholds@.len()
            ==> 1 <= (#[trigger] self.thresholds@[i]).0 <= self.number_of_numbers
        &&& forall|i: int| 0 <= i < self.thresholds@.len()
            ==> (#[trigger] self.thresholds@[i]).1 <= 100
        &&& self.lottery_number >= 1
    }

    /// Every stored ticket fits the configuration.
    pub open spec fn tickets_ok(self) -> bool {
        forall|i: int, j: int|
            0 <= i < self.tickets@.len() && 0 <= j < (#[trigger] self.tickets@[i]).1@.len()
                ==> valid_ticket(
                    #[trigger] self.tickets@[i].1@[j]@,
                    self.number_of_numbers,
                    self.max_range,
                )
    }

    /// Well-formedness: distinct map keys everywhere, a bounded pair count,
    /// archived rounds no later than the counter, a fresh slot for the active
    /// round's result, and, once a round was configured, a valid
    /// configuration with fitting tickets.
    pub open spec fn wf(self) -> bool {
        &&& keys_unique(self.tickets@)
        &&& keys_unique(self.results@)
        &&& keys_unique(self.thresholds@)
        &&& total_pairs(self.tickets@) <= u32::MAX
        &&& (forall|i: int| 0 <= i < self.results@.len()
            ==> (#[trigger] self.results@[i]).0 <= self.lottery_number)
        &&& (self.state == Some(LotteryState::Active) ==> !shas(self.results@, self.lottery_number))
        &&& (self.state is None
            ==> self.tickets@.len() == 0 && self.results@.len() == 0 && self.lottery_number == 0)
        &&& ((self.state == Some(LotteryState::Active) || self.state == Some(LotteryState::Finished))
            ==> self.config_ok() && self.tickets_ok())
    }

    /// A not-yet-initialized engine.
    pub fn new() -> (r: LotteryContract)
        ensures
            r.wf(),
            r.state is None,
            r.admin == 0 && r.token == 0,
            r.lottery_number == 0,
            r.tickets@.len() == 0 && r.results@.len() == 0,
    {
        LotteryContract {
            state: None,
            admin: 0,
            token: 0,
            ticket_price: 0,
            number_of_numbers: 0,
            max_range: 0,
            thresholds: Vec::new(),
            min_players_count: 0,
            lottery_number: 0,
            tickets: Vec::new(),
            results: Vec::new(),
        }
    }

    /// The active-round gate every player-facing operation passes first.
    pub fn lottery_must_be_active(&self) -> (r: Result<(), Error>)
        ensures
            self.state is None ==> r == Err::<(), Error>(Error::NotInitialized),
            self.state is Some && self.state != Some(LotteryState::Active)
                ==> r == Err::<(), Error>(Error::NotActive),
            self.state == Some(LotteryState::Active) ==> r == Ok::<(), Error>(()),
    {
        match self.state {
            None => Err(Error::NotInitialized),
            Some(LotteryState::Active) => Ok(()),
            Some(_) => Err(Error::NotActive),
        }
    }

    /// One-time setup: records the operator and escrow token, then creates
    /// the first round. Refused once any lifecycle state is recorded. On a
    /// configuration error nothing is stored.
    pub fn init(
        &mut self,
        admin: u64,
        token: u64,
        ticket_price: i128,
        number_of_numbers: u32,
        max_range: u32,
        thresholds: Vec<(u32, u32)>,
        min_players_count: u32,
    ) -> (r: Result<u32, Error>)
        requires
            old(self).wf(),
            keys_unique(thresholds@),
        ensures
            final(self).wf(),
            old(self).state is Some ==> r == Err::<u32, Error>(Error::AlreadyInitialized)
                && *final(self) == *old(self),
            old(self).state is None ==> match create_error(
                ticket_price, number_of_numbers, max_range, thresholds@) {
                Some(e) => r == Err::<u32, Error>(e) && *final(self) == *old(self),
                None => {
                    &&& r == Ok::<u32, Error>(1u32)
                    &&& final(self).state == Some(LotteryState::Active)
                    &&& final(self).admin == admin
                    &&& final(self).token == token
                    &&& final(self).lottery_number == 1
                    &&& final(self).ticket_price == ticket_price
                    &&& final(self).number_of_numbers == number_of_numbers
                    &&& final(self).max_range == max_range
                    &&& final(self).thresholds@ == thresholds@
                    &&& final(self).min_players_count == min_players_count
                    &&& final(self).tickets@.len() == 0
                    &&& final(self).results@.len() == 0
                },
            },
    {
        if self.state.is_some() {
            return Err(Error::AlreadyInitialized);
        }
        let saved_admin = self.admin;
        let saved_token = self.token;
        self.admin = admin;
        self.token = token;
        self.state = Some(LotteryState::Initialized);
        let r = self.create_lottery(
            ticket_price,
            number_of_numbers,
            max_range,
            thresholds,
            min_players_count,
        );
        if r.is_err() {
            // all or nothing: a refused configuration leaves no trace
            self.admin = saved_admin;
            self.token = saved_token;
            self.state = None;
        }
        r
    }

    /// Creates the next round: validates the configuration, advances the
    /// round counter, installs the configuration with a fresh empty ledger,
    /// and activates the round. Refused while a round is active. Returns the
    /// new round number; the caller announces the round to its notification
    /// collaborator.
    #[verifier::loop_isolation(false)]
    pub fn create_lottery(
        &mut self,
        ticket_price: i128,
        number_of_numbers: u32,
        max_range: u32,
        thresholds: Vec<(u32, u32)>,
        min_players_count: u32,
    ) -> (r: Result<u32, Error>)
        requires
            old(self).wf(),
            old(self).lottery_number < u32::MAX,
            keys_unique(thresholds@),
        ensures
            final(self).wf(),
            old(self).state is None ==> r == Err::<u32, Error>(Error::NotInitialized)
                && *final(self) == *old(self),
            old(self).state == Some(LotteryState::Active)
                ==> r == Err::<u32, Error>(Error::AlreadyActive) && *final(self) == *old(self),
            (old(self).state == Some(LotteryState::Initialized)
                || old(self).state == Some(LotteryState::Finished)) ==> match create_error(
                ticket_price, number_of_numbers, max_range, thresholds@) {
                Some(e) => r == Err::<u32, Error>(e) && *final(self) == *old(self),
                None => {
                    &&& r == Ok::<u32, Error>((old(self).lottery_number + 1) as u32)
                    &&& final(self).state == Some(LotteryState::Active)
                    &&& final(self).lottery_number == old(self).lottery_number + 1
                    &&& final(self).ticket_price == ticket_price
                    &&& final(self).number_of_numbers == number_of_numbers
                    &&& final(self).max_range == max_range
                    &&& final(self).thresholds@ == thresholds@
                    &&& final(self).min_players_count == min_players_count
                    &&& final(self).tickets@.len() == 0
                    &&& final(self).results == old(self).results
                    &&& final(self).admin == old(self).admin
                    &&& final(self).token == old(self).token
                },
            },
    {
        match self.state {
            None => {
                return Err(Error::NotInitialized);
            },
            Some(LotteryState::Active) => {
                return Err(Error::AlreadyActive);
            },
            Some(_) => {},
        }
        if max_range < number_of_numbers {
            return Err(Error::MaxRangeTooLow);
        }
        if number_of_numbers < 2 {
            return Err(Error::NumberOfNumbersTooLow);
        }
        if thresholds.len() == 0 {
            return Err(Error::NumberOfThresholdsTooLow);
        }
        if ticket_price <= 0 {
            return Err(Error::InvalidTicketPrice);
        }
        // sum the percentages; past one hundred the exact value no longer
        // matters, only that the range check fails
        let mut acc: u64 = 0;
        let mut i: usize = 0;
        while i < thresholds.len()
            invariant
                i <= thresholds@.len(),
                acc <= 100 + 0xFFFF_FFFFu64,
                acc <= 100 ==> acc as int == sum_pct(thresholds@.take(i as int)),
                acc > 100 ==> sum_pct(thresholds@.take(i as int)) > 100,
            decreases thresholds@.len() - i,
        {
            proof {
                assert(thresholds@.take(i as int + 1).drop_last() =~= thresholds@.take(i as int));
                assert(thresholds@.take(i as int + 1).last() == thresholds@[i as int]);
                if sum_pct(thresholds@.take(i as int)) > 100 {
                    lemma_sum_pct_entry(thresholds@.take(i as int + 1), i as int);
                    assert(sum_pct(thresholds@.take(i as int + 1))
                        == sum_pct(thresholds@.take(i as int)) + thresholds@[i as int].1);
                }
            }
            if acc <= 100 {
                acc = acc + thresholds[i].1 as u64;
            }
            i = i + 1;
        }
        proof {
            assert(thresholds@.take(thresholds@.len() as int) =~= thresholds@);
        }
        if acc < 1 || acc > 100 {
            return Err(Error::InvalidThresholds);
        }
        let mut j: usize = 0;
        while j < thresholds.len()
            invariant
                j <= thresholds@.len(),
                forall|m: int| 0 <= m < j
                    ==> 1 <= (#[trigger] thresholds@[m]).0 <= number_of_numbers,
            decreases thresholds@.len() - j,
        {
            let key = thresholds[j].0;
            if key < 1 || key > number_of_numbers {
                proof {
                    assert(!(1 <= thresholds@[j as int].0 <= number_of_numbers));
                }
                return Err(Error::InvalidThresholds);
            }
            j = j + 1;
        }
        proof {
            assert(!(exists|m: int|
                0 <= m < thresholds@.len()
                    && !(1 <= (#[trigger] thresholds@[m]).0 <= number_of_numbers)));
            assert forall|m: int| 0 <= m < thresholds@.len()
                implies (#[trigger] thresholds@[m]).1 <= 100 by {
                lemma_sum_pct_entry(thresholds@, m);
            }
        }
        let lottery_number = self.lottery_number + 1;
        self.number_of_numbers = number_of_numbers;
        self.max_range = max_range;
        self.thresholds = thresholds;
        self.min_players_count = min_players_count;
        self.ticket_price = ticket_price;
        self.tickets = Vec::new();
        self.state = Some(LotteryState::Active);
        self.lottery_number = lottery_number;
        proof {
            lemma_shas_index(self.results@, lottery_number);
            if shas(self.results@, lottery_number) {
                let ix = choose|ix: int|
                    0 <= ix < self.results@.len() && self.results@[ix].0 == lottery_number;
                assert(self.results@[ix].0 <= old(self).lottery_number);
                assert(false);
            }
        }
        Ok(lottery_number)
    }

    /// Records one ticket purchase: the ticket must fit the configuration
    /// and the buyer's escrow balance must strictly exceed the ticket price.
    /// On success the ticket joins the buyer's entry and the caller escrows
    /// the ticket price from the buyer into the pool. Returns the buyer's
    /// ticket count after the purchase.
    #[verifier::loop_isolation(false)]
    pub fn buy_ticket(&mut self, by: u64, ticket: Vec<u32>, balance: i128) -> (r: Result<
        u32,
        Error,
    >)
        requires
            old(self).wf(),
            total_pairs(old(self).tickets@) < u32::MAX,
        ensures
            final(self).wf(),
            old(self).state is None ==> r == Err::<u32, Error>(Error::NotInitialized)
                && *final(self) == *old(self),
            old(self).state is Some && old(self).state != Some(LotteryState::Active)
                ==> r == Err::<u32, Error>(Error::NotActive) && *final(self) == *old(self),
            old(self).state == Some(LotteryState::Active) ==> {
                if ticket@.len() != old(self).number_of_numbers {
                    r == Err::<u32, Error>(Error::NotEnoughOrTooManyNumbers)
                        && *final(self) == *old(self)
                } else if exists|i: int|
                    0 <= i < ticket@.len()
                        && ((#[trigger] ticket@[i]) == 0 || ticket@[i] > old(self).max_range) {
                    r == Err::<u32, Error>(Error::InvalidNumbers) && *final(self) == *old(self)
                } else if balance <= old(self).ticket_price {
                    r == Err::<u32, Error>(Error::InsufficientFunds) && *final(self) == *old(self)
                } else {
                    &&& shas(final(self).tickets@, by)
                    &&& (sget(final(self).tickets@, by)->Some_0)@ == match sget(
                        old(self).tickets@, by) {
                        Some(l) => l@.push(ticket),
                        None => seq![ticket],
                    }
                    &&& forall|p: u64| p != by
                        ==> #[trigger] sget(final(self).tickets@, p) == sget(old(self).tickets@, p)
                    &&& total_pairs(final(self).tickets@) == total_pairs(old(self).tickets@) + 1
                    &&& r == Ok::<u32, Error>(
                        ((sget(final(self).tickets@, by)->Some_0)@.len()) as u32)
                    &&& final(self).state == old(self).state
                    &&& final(self).thresholds == old(self).thresholds
                    &&& final(self).results == old(self).results
                    &&& final(self).lottery_number == old(self).lottery_number
                    &&& final(self).ticket_price == old(self).ticket_price
                    &&& final(self).number_of_numbers == old(self).number_of_numbers
                    &&& final(self).max_range == old(self).max_range
                    &&& final(self).min_players_count == old(self).min_players_count
                    &&& final(self).admin == old(self).admin
                    &&& final(self).token == old(self).token
                }
            },
    {
        let gate = self.lottery_must_be_active();
        if let Err(e) = gate {
            return Err(e);
        }
        if ticket.len() != self.number_of_numbers as usize {
            return Err(Error::NotEnoughOrTooManyNumbers);
        }
        let mut i: usize = 0;
        while i < ticket.len()
            invariant
                i <= ticket@.len(),
                forall|j: int| 0 <= j < i
                    ==> 1 <= #[trigger] ticket@[j] <= self.max_range,
            decreases ticket@.len() - i,
        {
            let number = ticket[i];
            if number == 0 || number > self.max_range {
                proof {
                    assert(ticket@[i as int] == 0 || ticket@[i as int] > self.max_range);
                }
                return Err(Error::InvalidNumbers);
            }
            i = i + 1;
        }
        if balance <= self.ticket_price {
            return Err(Error::InsufficientFunds);
        }
        let ghost before = self.tickets@;
        let count: usize;
        match find_key_u64(&self.tickets, by) {
            Some(ix) => {
                proof {
                    lemma_sget_index(before, ix as int);
                    lemma_total_pairs_entry(before, ix as int);
                }
                let mut entry = self.tickets.remove(ix);
                entry.1.push(ticket);
                count = entry.1.len();
                let ghost newlist = entry.1;
                self.tickets.insert(ix, entry);
                proof {
                    assert(self.tickets@ =~= before.update(ix as int, (by, newlist)));
                    lemma_sget_update(before, ix as int, newlist);
                    lemma_total_pairs_update(before, ix as int, newlist);
                }
            },
            None => {
                proof {
                    lemma_shas_index(before, by);
                }
                let mut fresh: Vec<Vec<u32>> = Vec::new();
                fresh.push(ticket);
                count = 1;
                let ghost newlist = fresh;
                self.tickets.push((by, fresh));
                proof {
                    lemma_sget_push(before, (by, newlist));
                    lemma_total_pairs_push(before, (by, newlist));
                    assert(keys_unique(self.tickets@)) by {
                        assert(forall|q: int| 0 <= q < before.len()
                            ==> self.tickets@[q] == before[q]);
                        assert(self.tickets@[self.tickets@.len() - 1].0 == by);
                    }
                }
            },
        }
        proof {
            assert forall|p: int, j: int|
                0 <= p < self.tickets@.len() && 0 <= j < (#[trigger] self.tickets@[p]).1@.len()
                implies valid_ticket(
                    #[trigger] self.tickets@[p].1@[j]@,
                    self.number_of_numbers,
                    self.max_range,
                ) by {
                if p < before.len() && self.tickets@[p] == before[p] {
                } else {
                    if j < self.tickets@[p].1@.len() - 1 {
                        assert(self.tickets@[p].1@[j] == before[p].1@[j]);
                    } else {
                        assert(self.tickets@[p].1@[j] == ticket);
                    }
                }
            }
        }
        Ok(count as u32)
    }

    /// Runs the draw for the active round: refuses it under the configured
    /// minimum of participants, draws the winning numbers from the seed,
    /// classifies the winners, computes the owed amounts, archives the draw
    /// under the round number and finishes the round. Returns the owed map;
    /// the caller pays each positive entry from the pool and announces it.
    pub fn play_lottery(&mut self, random_seed: u64, pool: i128) -> (r: Result<
        Vec<(u64, i128)>,
        Error,
    >)
        requires
            old(self).wf(),
            0 <= pool <= i128::MAX as int / 100,
        ensures
            final(self).wf(),
            old(self).state is None ==> r == Err::<Vec<(u64, i128)>, Error>(Error::NotInitialized)
                && *final(self) == *old(self),
            old(self).state is Some && old(self).state != Some(LotteryState::Active)
                ==> r == Err::<Vec<(u64, i128)>, Error>(Error::NotActive)
                    && *final(self) == *old(self),
            old(self).state == Some(LotteryState::Active)
                && old(self).tickets@.len() < old(self).min_players_count
                ==> r == Err::<Vec<(u64, i128)>, Error>(Error::MinParticipantsNotSatisfied)
                    && *final(self) == *old(self),
            old(self).state == Some(LotteryState::Active)
                && old(self).tickets@.len() >= old(self).min_players_count ==> {
                &&& r is Ok
                &&& final(self).state == Some(LotteryState::Finished)
                &&& final(self).tickets == old(self).tickets
                &&& final(self).thresholds == old(self).thresholds
                &&& final(self).lottery_number == old(self).lottery_number
                &&& final(self).ticket_price == old(self).ticket_price
                &&& final(self).number_of_numbers == old(self).number_of_numbers
                &&& final(self).max_range == old(self).max_range
                &&& final(self).min_players_count == old(self).min_players_count
                &&& final(self).admin == old(self).admin
                &&& final(self).token == old(self).token
                &&& shas(final(self).results@, old(self).lottery_number)
                &&& final(self).results@.len() == old(self).results@.len() + 1
                &&& forall|q: u32| q != old(self).lottery_number
                    ==> #[trigger] sget(final(self).results@, q) == sget(old(self).results@, q)
                &&& {
                    let d = (sget(final(self).results@, old(self).lottery_number)->Some_0)@;
                    &&& valid_draw(d, old(self).number_of_numbers, old(self).max_range)
                    &&& exists|w: Seq<(u32, Vec<u64>)>| {
                        &&& #[trigger] winners_match(
                            w, winners_spec(old(self).thresholds@, old(self).tickets@, d))
                        &&& forall|x: u64| amt(#[trigger] sget(r->Ok_0@, x)) == owed(
                            old(self).thresholds@, w, tot_ths(old(self).thresholds@, w),
                            pool as int, x)
                        &&& forall|x: u64| #[trigger] shas(r->Ok_0@, x)
                            <==> appears(old(self).thresholds@, w, x)
                    }
                }
                &&& keys_unique(r->Ok_0@)
                &&& forall|q: int| 0 <= q < r->Ok_0@.len() ==> (#[trigger] r->Ok_0@[q]).1 >= 0
                &&& sum_amounts(r->Ok_0@) <= pool as int
            },
    {
        let gate = self.lottery_must_be_active();
        if let Err(e) = gate {
            return Err(e);
        }
        if (self.tickets.len() as u64) < (self.min_players_count as u64) {
            return Err(Error::MinParticipantsNotSatisfied);
        }
        let drawn_numbers = draw_numbers::<RandomNumberGenerator>(
            self.max_range,
            self.number_of_numbers,
            random_seed,
        );
        let winners = get_winners(&drawn_numbers, &self.tickets, &self.thresholds);
        proof {
            let ws = winners_spec(self.thresholds@, self.tickets@, drawn_numbers@);
            lemma_winners_spec_props(self.thresholds@, self.tickets@, drawn_numbers@);
            assert(keys_unique(winners@)) by {
                assert(forall|p: int| 0 <= p < winners@.len()
                    ==> (#[trigger] winners@[p]).0 == ws[p].0);
            }
            assert forall|p: int| 0 <= p < winners@.len()
                implies 1 <= (#[trigger] winners@[p]).1@.len() <= u32::MAX by {
                assert(winners@[p].0 == ws[p].0);
                assert(winners@[p].1@ == ws[p].1);
                assert(ws[p].1 == tier_winners(self.tickets@, drawn_numbers@, ws[p].0));
                lemma_tier_winners_len(self.tickets@, drawn_numbers@, ws[p].0);
            }
        }
        let mut working_thresholds = copy_pairs(&self.thresholds);
        let prizes = calculate_prizes(&winners, &mut working_thresholds, pool);
        let round = self.lottery_number;
        let ghost results_before = self.results@;
        proof {
            lemma_sget_push(results_before, (round, drawn_numbers));
            lemma_shas_index(results_before, round);
        }
        self.results.push((round, drawn_numbers));
        self.state = Some(LotteryState::Finished);
        proof {
            assert(keys_unique(self.results@)) by {
                assert(forall|q: int| 0 <= q < results_before.len()
                    ==> self.results@[q] == results_before[q]);
                assert(self.results@[self.results@.len() - 1].0 == round);
            }
            let d = (sget(self.results@, round)->Some_0)@;
            let w = winners@;
            assert(winners_match(w, winners_spec(old(self).thresholds@, old(self).tickets@, d)));
        }
        Ok(prizes)
    }

    /// The archived draw of a round: refused while no draw was ever
    /// completed, or when the round has no recorded result.
    #[verifier::loop_isolation(false)]
    pub fn check_lottery_results(&self, lottery_number: u32) -> (r: Result<Vec<u32>, Error>)
        requires
            self.wf(),
        ensures
            self.results@.len() == 0
                ==> r == Err::<Vec<u32>, Error>(Error::NoLotteryResultsAvailable),
            self.results@.len() > 0 && !shas(self.results@, lottery_number)
                ==> r == Err::<Vec<u32>, Error>(Error::WrongLotteryNumber),
            shas(self.results@, lottery_number) ==> r is Ok
                && (r->Ok_0)@ == (sget(self.results@, lottery_number)->Some_0)@,
            self.results@.len() == 0 ==> !shas(self.results@, lottery_number),
    {
        if self.results.len() == 0 {
            proof {
                lemma_shas_index(self.results@, lottery_number);
            }
            return Err(Error::NoLotteryResultsAvailable);
        }
        match find_key_u32(&self.results, lottery_number) {
            None => {
                proof {
                    lemma_shas_index(self.results@, lottery_number);
                }
                Err(Error::WrongLotteryNumber)
            },
            Some(ix) => {
                proof {
                    lemma_sget_index(self.results@, ix as int);
                }
                let mut out: Vec<u32> = Vec::new();
                let mut i: usize = 0;
                while i < self.results[ix].1.len()
                    invariant
                        ix < self.results@.len(),
                        i <= self.results@[ix as int].1@.len(),
                        out@ == self.results@[ix as int].1@.take(i as int),
                    decreases self.results@[ix as int].1@.len() - i,
                {
                    out.push(self.results[ix].1[i]);
                    proof {
                        assert(out@ =~= self.results@[ix as int].1@.take(i as int + 1));
                    }
                    i = i + 1;
                }
                proof {
                    assert(self.results@[ix as int].1@.take(self.results@[ix as int].1@.len() as int)
                        =~= self.results@[ix as int].1@);
                }
                Ok(out)
            },
        }
    }
}

/// A round created with a participant minimum cannot be drawn before anyone
/// registers: its fresh ledger is empty, so the draw is refused with the
/// minimum-participants error whenever the minimum is positive.
pub proof fn lemma_fresh_round_needs_players(l: LotteryContract)
    requires
        l.tickets@.len() == 0,
        l.min_players_count > 0,
    ensures
        l.tickets@.len() < l.min_players_count,
{
}

/// Round numbers are strictly increasing across successive round creations:
/// each creation returns one more than the counter it found, and no other
/// operation moves the counter.
pub proof fn lemma_round_numbers_strictly_increase(
    l0: LotteryContract,
    l1: LotteryContract,
    l2: LotteryContract,
    n1: u32,
    n2: u32,
)
    requires
        n1 == l0.lottery_number + 1,
        l1.lottery_number == n1,
        l2.lottery_number == l1.lottery_number,
        n2 == l2.lottery_number + 1,
    ensures
        n2 > n1,
{
}

/// A draw archived under its round number is retrievable by that number
/// alone: every other round still reads exactly what it read before.
pub proof fn lemma_results_keyed_by_round(
    results: Seq<(u32, Vec<u32>)>,
    round: u32,
    d: Vec<u32>,
    q: u32,
)
    ensures
        sget(results.push((round, d)), q) == if q == round {
            Some(d)
        } else {
            sget(results, q)
        },
{
    lemma_sget_push(results, (round, d));
}

} // verus!
