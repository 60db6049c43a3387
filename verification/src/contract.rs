//! The market itself: its persistent state and its entry points.

use vstd::prelude::*;
use crate::errors::ContractError;
use crate::invocation::Invocation;
use crate::model::INITIAL_BALANCE;
use crate::model::State;
use crate::oracle::validate_report;
use crate::positions::PositionLedger;
use crate::precision::has_predicted;
use crate::precision::is_closest;
use crate::precision::precision_credit;
use crate::precision::prediction_of;
use crate::precision::record_precision;
use crate::round::phase_of;
use crate::safety::lemma_claim_keeps_inv;
use crate::safety::lemma_create_round_keeps_inv;
use crate::safety::lemma_initial_inv;
use crate::safety::lemma_initialize_keeps_inv;
use crate::safety::lemma_mint_keeps_inv;
use crate::safety::lemma_place_bet_keeps_inv;
use crate::safety::lemma_place_prediction_keeps_inv;
use crate::safety::lemma_resolve_keeps_inv;
use crate::safety::lemma_set_windows_keeps_inv;
use crate::settlement::credit_of;
use crate::settlement::credited;
use crate::settlement::outcome_of;
use crate::settlement::owed;
use crate::settlement::record_of;
use crate::settlement::record_outcome;
use crate::settlement::record_refunds;
use crate::settlement::record_winnings;
use crate::settlement::recorded;
use crate::snapshot::Snapshot;
use crate::snapshot::all_non_negative;
use crate::snapshot::all_stakes_positive;
use crate::snapshot::all_stats_valid;
use crate::snapshot::check_predictions;
use crate::snapshot::lemma_staked_in_is_staked_on;
use crate::snapshot::lemma_valid_snapshot_state;
use crate::snapshot::listed_users;
use crate::snapshot::stakes_within;
use crate::store::AddressMap;
use crate::store::lemma_entries_map;
use crate::types::Address;
use crate::types::BetSide;
use crate::types::OraclePayload;
use crate::types::PrecisionPrediction;
use crate::types::Round;
use crate::types::RoundMode;
use crate::types::RoundPhase;
use crate::types::UserPosition;
use crate::types::UserStats;
use crate::types::Windows;

verus! {

/// The prediction market with everything it persists.
pub struct VirtualTokenContract {
    admin: Option<Address>,
    oracle: Option<Address>,
    windows: Option<Windows>,
    last_round_id: u64,
    active_round: Option<Round>,
    positions: PositionLedger,
    predictions: Vec<PrecisionPrediction>,
    balances: AddressMap<i128>,
    pending: AddressMap<i128>,
    stats: AddressMap<UserStats>,
}

impl View for VirtualTokenContract {
    type V = State;

    /// The market as a mathematical state.
    closed spec fn view(&self) -> State {
        State {
            admin: self.admin,
            oracle: self.oracle,
            windows: self.windows,
            last_round_id: self.last_round_id,
            active_round: self.active_round,
            positions: self.positions@,
            predictions: self.predictions@,
            balances: self.balances@,
            pending: Map::total(|a: Address| self.pending.value_or(a, 0)),
            stats: Map::total(|a: Address| self.stats.value_or(a, UserStats::spec_new())),
        }
    }
}

impl VirtualTokenContract {
    /// The stores are sound and the market's invariant holds.
    pub closed spec fn wf(&self) -> bool {
        &&& self.positions.wf()
        &&& self.balances.wf()
        &&& self.pending.wf()
        &&& self.stats.wf()
        &&& self@.inv()
    }

    /// In a well-formed market the invariant holds: no balance and no pending
    /// winnings are negative, the pools cover the stakes, and so on.
    pub proof fn lemma_wf_holds_inv(&self)
        requires
            self.wf(),
        ensures
            self@.inv(),
    {
    }

    /// A market that nothing has happened to yet. Its position ledger lives
    /// in the given environment.
    pub fn new(env: soroban_sdk::Env) -> (contract: VirtualTokenContract)
        ensures
            contract.wf(),
            contract@ == State::initial(),
    {
        let contract = VirtualTokenContract {
            admin: None,
            oracle: None,
            windows: None,
            last_round_id: 0,
            active_round: None,
            positions: PositionLedger::new(env),
            predictions: Vec::new(),
            balances: AddressMap::new(),
            pending: AddressMap::new(),
            stats: AddressMap::new(),
        };
        proof {
            lemma_initial_inv();
            assert(contract@ =~= State::initial());
        }
        contract
    }

    /// Rebuilds the market from its persisted entries; `None` where the
    /// entries do not describe a valid market. The position ledger is kept in
    /// the given environment.
    pub fn restore(env: soroban_sdk::Env, snapshot: &Snapshot) -> (contract: Option<
        VirtualTokenContract,
    >)
        ensures
            match contract {
                Some(c) => snapshot.valid() && c.wf() && c@ == snapshot.state(),
                None => !snapshot.valid(),
            },
    {
        match snapshot.windows {
            Some(w) => {
                if w.bet_ledgers == 0 || w.bet_ledgers >= w.run_ledgers {
                    return None;
                }
            },
            None => {},
        }
        if !all_stakes_positive(&snapshot.positions) || !check_predictions(&snapshot.predictions)
            || !all_non_negative(&snapshot.balances) || !all_non_negative(
            &snapshot.pending_winnings,
        ) || !all_stats_valid(&snapshot.user_stats) {
            return None;
        }
        match snapshot.active_round {
            Some(round) => {
                if round.round_id < 1 || round.price_start == 0 || round.start_ledger
                    >= round.bet_end_ledger || round.bet_end_ledger >= round.end_ledger
                    || round.pool_up < 0 || round.pool_down < 0 {
                    return None;
                }
                if round.round_id != snapshot.last_round_id {
                    return None;
                }
                match round.mode {
                    RoundMode::UpDown => {
                        if snapshot.predictions.len() != 0 {
                            return None;
                        }
                    },
                    RoundMode::Precision => {
                        if snapshot.positions.len() != 0 {
                            return None;
                        }
                    },
                }
                if !stakes_within(&snapshot.positions, BetSide::Up, round.pool_up)
                    || !stakes_within(&snapshot.positions, BetSide::Down, round.pool_down) {
                    return None;
                }
            },
            None => {
                if snapshot.positions.len() != 0 || snapshot.predictions.len() != 0 {
                    return None;
                }
            },
        }
        let positions = match PositionLedger::from_entries(env, &snapshot.positions) {
            Some(ledger) => ledger,
            None => { return None; },
        };
        let contract = VirtualTokenContract {
            admin: snapshot.admin,
            oracle: snapshot.oracle,
            windows: snapshot.windows,
            last_round_id: snapshot.last_round_id,
            active_round: snapshot.active_round,
            positions,
            predictions: snapshot.predictions.clone(),
            balances: AddressMap::from_entries(&snapshot.balances),
            pending: AddressMap::from_entries(&snapshot.pending_winnings),
            stats: AddressMap::from_entries(&snapshot.user_stats),
        };
        proof {
            lemma_valid_snapshot_state(*snapshot);
            assert(contract@ =~= snapshot.state());
        }
        Some(contract)
    }

    /// The persisted entries of the market, from which `restore` rebuilds it.
    pub fn snapshot(&self) -> (snapshot: Snapshot)
        requires
            self.wf(),
        ensures
            snapshot.valid(),
            snapshot.state() == self@,
    {
        let snapshot = Snapshot {
            admin: self.admin,
            oracle: self.oracle,
            windows: self.windows,
            last_round_id: self.last_round_id,
            active_round: self.active_round,
            positions: self.positions.entries(),
            predictions: self.predictions.clone(),
            balances: self.balances.entries(),
            pending_winnings: self.pending.entries(),
            user_stats: self.stats.entries(),
        };
        proof {
            assert(self@.inv());
            assert(snapshot.state() =~= self@);
            lemma_entries_map(snapshot.positions@);
            lemma_entries_map(snapshot.balances@);
            lemma_entries_map(snapshot.pending_winnings@);
            lemma_entries_map(snapshot.user_stats@);
            assert forall|i: int| 0 <= i < snapshot.positions@.len() implies (
            #[trigger] snapshot.positions@[i]).1.amount > 0 by {
                let a = snapshot.positions@[i].0;
                assert(crate::store::lists_key(snapshot.positions@, a));
                assert(self@.positions[a].amount > 0);
            }
            assert forall|i: int| 0 <= i < snapshot.balances@.len() implies (
            #[trigger] snapshot.balances@[i]).1 >= 0 by {
                let a = snapshot.balances@[i].0;
                assert(crate::store::lists_key(snapshot.balances@, a));
                assert(self@.balances[a] >= 0);
            }
            assert forall|i: int| 0 <= i < snapshot.pending_winnings@.len() implies (
            #[trigger] snapshot.pending_winnings@[i]).1 >= 0 by {
                let a = snapshot.pending_winnings@[i].0;
                assert(crate::store::lists_key(snapshot.pending_winnings@, a));
                assert(self@.pending[a] >= 0);
            }
            assert forall|i: int| 0 <= i < snapshot.user_stats@.len() implies (
            #[trigger] snapshot.user_stats@[i]).1.valid() by {
                let a = snapshot.user_stats@[i].0;
                assert(crate::store::lists_key(snapshot.user_stats@, a));
                assert(self@.stats[a].valid());
            }
            lemma_staked_in_is_staked_on(snapshot.positions@, BetSide::Up);
            lemma_staked_in_is_staked_on(snapshot.positions@, BetSide::Down);
            match self.active_round {
                Some(round) => {
                    assert(crate::settlement::enumerates(
                        listed_users(snapshot.positions@),
                        self@.positions,
                    ));
                    if round.mode == RoundMode::Precision {
                        if snapshot.positions@.len() > 0 {
                            assert(crate::store::lists_key(
                                snapshot.positions@,
                                snapshot.positions@[0].0,
                            ));
                            assert(self@.positions.contains_key(snapshot.positions@[0].0));
                        }
                    }
                },
                None => {
                    if snapshot.positions@.len() > 0 {
                        assert(crate::store::lists_key(
                            snapshot.positions@,
                            snapshot.positions@[0].0,
                        ));
                        assert(self@.positions.contains_key(snapshot.positions@[0].0));
                    }
                },
            }
        }
        snapshot
    }

    // Read-only views

    /// The admin, once the contract is initialized.
    pub fn get_admin(&self) -> (admin: Option<Address>)
        ensures
            admin == self@.admin,
    {
        self.admin
    }

    /// The oracle, once the contract is initialized.
    pub fn get_oracle(&self) -> (oracle: Option<Address>)
        ensures
            oracle == self@.oracle,
    {
        self.oracle
    }

    /// The windows that the next round gets: the configured ones, or the
    /// standard ones where none were set.
    pub fn get_windows(&self) -> (windows: Windows)
        ensures
            windows == self@.effective_windows(),
    {
        match self.windows {
            Some(w) => w,
            None => Windows::standard(),
        }
    }

    /// Number of rounds created so far, which is the id of the last one.
    pub fn get_last_round_id(&self) -> (id: u64)
        ensures
            id == self@.last_round_id,
    {
        self.last_round_id
    }

    /// The active round, if there is one.
    pub fn get_active_round(&self) -> (round: Option<Round>)
        ensures
            round == self@.active_round,
    {
        self.active_round
    }

    /// Where the market stands at `ledger`.
    pub fn round_phase(&self, ledger: u32) -> (phase: RoundPhase)
        ensures
            phase == phase_of(self@.active_round, ledger),
    {
        match self.active_round {
            Some(round) => round.phase(ledger),
            None => RoundPhase::NoRound,
        }
    }

    /// The position of `user` in the active Up/Down round, if there is one.
    pub fn get_user_position(&self, user: Address) -> (position: Option<UserPosition>)
        requires
            self.wf(),
        ensures
            position == (if self@.positions.contains_key(user) {
                Some(self@.positions[user])
            } else {
                None
            }),
    {
        self.positions.get(&user)
    }

    /// The prediction of `user` in the active Precision round, if there is
    /// one.
    pub fn get_user_prediction(&self, user: Address) -> (prediction: Option<PrecisionPrediction>)
        requires
            self.wf(),
        ensures
            prediction == (if has_predicted(self@.predictions, user) {
                Some(prediction_of(self@.predictions, user))
            } else {
                None
            }),
    {
        match self.find_prediction(&user) {
            Some(i) => Some(self.predictions[i]),
            None => None,
        }
    }

    /// The record of `user`: all zeros for a user who never took part.
    pub fn get_user_stats(&self, user: Address) -> (stats: UserStats)
        requires
            self.wf(),
        ensures
            stats == self@.stats[user],
            stats.valid(),
    {
        proof {
            assert(self@.inv());
            assert(self@.stats[user].valid());
        }
        match self.stats.get(&user) {
            Some(stats) => stats,
            None => UserStats::new(),
        }
    }

    /// What `user` is owed and has not claimed yet.
    pub fn get_pending_winnings(&self, user: Address) -> (pending: i128)
        requires
            self.wf(),
        ensures
            pending == self@.pending[user],
            0 <= pending,
    {
        proof {
            assert(self@.inv());
            assert(0 <= self@.pending[user]);
        }
        match self.pending.get(&user) {
            Some(amount) => amount,
            None => 0,
        }
    }

    /// The spendable balance of `user`: zero for a user who has none.
    pub fn balance(&self, user: Address) -> (balance: i128)
        requires
            self.wf(),
        ensures
            balance == self@.balance_of(user),
            0 <= balance,
    {
        proof {
            assert(self@.inv());
            assert(self@.balances.contains_key(user) ==> 0 <= self@.balances[user]);
        }
        match self.balances.get(&user) {
            Some(amount) => amount,
            None => 0,
        }
    }

    /// Where the prediction of `user` stands in the list, if there is one.
    fn find_prediction(&self, user: &Address) -> (found: Option<usize>)
        requires
            self.wf(),
        ensures
            match found {
                Some(i) => i < self@.predictions.len() && self@.predictions[i as int].user
                    == *user && has_predicted(self@.predictions, *user) && prediction_of(
                    self@.predictions,
                    *user,
                ) == self@.predictions[i as int],
                None => !has_predicted(self@.predictions, *user),
            },
    {
        let mut i: usize = 0;
        while i < self.predictions.len()
            invariant
                self.wf(),
                i <= self.predictions@.len(),
                forall|j: int| 0 <= j < i ==> (#[trigger] self.predictions@[j]).user != *user,
            decreases self.predictions@.len() - i,
        {
            if self.predictions[i].user == *user {
                proof {
                    let k = choose|k: int|
                        0 <= k < self.predictions@.len() && (#[trigger] self.predictions@[k]).user
                            == *user;
                    assert(self@.inv());
                    assert(self@.predictions[k].user == self@.predictions[i as int].user);
                    assert(k == i);
                }
                return Some(i);
            }
            i += 1;
        }
        None
    }

    /// Stores `amount` as the balance of `user`.
    fn set_balance(&mut self, user: Address, amount: i128)
        requires
            old(self).wf(),
            0 <= amount,
        ensures
            final(self).wf(),
            final(self)@ == (State { balances: old(self)@.balances.insert(user, amount), ..old(self)@ }),
    {
        self.balances.insert(user, amount);
        proof {
            assert(self@ =~= (State {
                balances: old(self)@.balances.insert(user, amount),
                ..old(self)@
            }));
        }
    }

    // Entry points

    /// Registers the admin and the oracle, once. The invocation has to carry
    /// the admin's authorization.
    pub fn initialize(&mut self, call: &Invocation, admin: Address, oracle: Address) -> (done:
        Result<(), ContractError>)
        requires
            old(self).wf(),
        ensures
            final(self).wf(),
            done == (match old(self)@.initialize_error(*call, admin) {
                Some(e) => Err(e),
                None => Ok(()),
            }),
            final(self)@ == (if done is Ok {
                old(self)@.after_initialize(admin, oracle)
            } else {
                old(self)@
            }),
    {
        if !call.is_authorized(&admin) {
            return Err(ContractError::UnauthorizedAdmin);
        }
        if self.admin.is_some() {
            return Err(ContractError::AlreadyInitialized);
        }
        self.admin = Some(admin);
        self.oracle = Some(oracle);
        proof {
            lemma_initialize_keeps_inv(old(self)@, admin, oracle);
            assert(self@ =~= old(self)@.after_initialize(admin, oracle));
        }
        Ok(())
    }

    /// What an admin-only entry point asks first: the admin is registered and the invocation
    /// carries the admin's authorization.
    fn require_admin(&self, call: &Invocation) -> (checked: Result<(), ContractError>)
        ensures
            checked == (match self@.admin_error(*call) {
                Some(e) => Err(e),
                None => Ok(()),
            }),
    {
        match self.admin {
            None => Err(ContractError::AdminNotSet),
            Some(admin) => if call.is_authorized(&admin) {
                Ok(())
            } else {
                Err(ContractError::UnauthorizedAdmin)
            },
        }
    }

    /// Configures the windows of the rounds to come (admin only).
    pub fn set_windows(&mut self, call: &Invocation, bet_ledgers: u32, run_ledgers: u32) -> (done:
        Result<(), ContractError>)
        requires
            old(self).wf(),
        ensures
            final(self).wf(),
            done == (match old(self)@.set_windows_error(*call, bet_ledgers, run_ledgers) {
                Some(e) => Err(e),
                None => Ok(()),
            }),
            final(self)@ == (if done is Ok {
                old(self)@.after_set_windows(bet_ledgers, run_ledgers)
            } else {
                old(self)@
            }),
    {
        match self.require_admin(call) {
            Err(e) => { return Err(e); },
            Ok(()) => {},
        }
        let windows = match Windows::new(bet_ledgers, run_ledgers) {
            Err(e) => { return Err(e); },
            Ok(w) => w,
        };
        self.windows = Some(windows);
        proof {
            lemma_set_windows_keeps_inv(old(self)@, *call, bet_ledgers, run_ledgers);
            assert(self@ =~= old(self)@.after_set_windows(bet_ledgers, run_ledgers));
        }
        Ok(())
    }

    /// Creates the next round at the current ledger (admin only). The round
    /// gets the id after the last one and the windows in force.
    pub fn create_round(&mut self, call: &Invocation, start_price: u128, mode: RoundMode) -> (done:
        Result<(), ContractError>)
        requires
            old(self).wf(),
        ensures
            final(self).wf(),
            done == (match old(self)@.create_round_error(*call, start_price, mode) {
                Some(e) => Err(e),
                None => Ok(()),
            }),
            final(self)@ == (if done is Ok {
                old(self)@.after_create_round(*call, start_price, mode)
            } else {
                old(self)@
            }),
    {
        match self.require_admin(call) {
            Err(e) => { return Err(e); },
            Ok(()) => {},
        }
        if start_price == 0 {
            return Err(ContractError::InvalidPrice);
        }
        if self.active_round.is_some() {
            return Err(ContractError::RoundAlreadyActive);
        }
        let round_id: u64 = match self.last_round_id.checked_add(1) {
            Some(id) => id,
            None => { return Err(ContractError::Overflow); },
        };
        let windows = self.get_windows();
        let round = match Round::open(round_id, mode, start_price, call.ledger_sequence, windows) {
            Err(e) => { return Err(e); },
            Ok(r) => r,
        };
        self.last_round_id = round_id;
        self.active_round = Some(round);
        proof {
            lemma_create_round_keeps_inv(old(self)@, *call, start_price, mode);
            assert(self@ =~= old(self)@.after_create_round(*call, start_price, mode));
        }
        Ok(())
    }

    /// What every stake has to pass, whatever the mode: the user's
    /// authorization, a positive amount, an active round of the right mode
    /// with its betting window open, and a balance that covers the stake.
    /// Returns the round and the balance.
    fn check_stake(&self, call: &Invocation, user: Address, amount: i128, mode: RoundMode) -> (checked:
        Result<(Round, i128), ContractError>)
        requires
            self.wf(),
        ensures
            match checked {
                Ok((round, balance)) => self@.stake_error(*call, user, amount, mode) is None
                    && self@.active_round == Some(round) && balance == self@.balance_of(user),
                Err(e) => self@.stake_error(*call, user, amount, mode) == Some(e),
            },
    {
        if !call.is_authorized(&user) {
            return Err(ContractError::UnauthorizedUser);
        }
        if amount <= 0 {
            return Err(ContractError::InvalidBetAmount);
        }
        let round = match self.active_round {
            Some(r) => r,
            None => { return Err(ContractError::NoActiveRound); },
        };
        if round.mode != mode {
            return Err(ContractError::WrongRoundMode);
        }
        if call.ledger_sequence >= round.bet_end_ledger {
            return Err(ContractError::RoundEnded);
        }
        let balance = self.balance(user);
        if balance < amount {
            return Err(ContractError::InsufficientBalance);
        }
        Ok((round, balance))
    }

    /// Stakes `amount` of the balance of `user` on `side` in the active
    /// Up/Down round.
    pub fn place_bet(&mut self, call: &Invocation, user: Address, amount: i128, side: BetSide) -> (done:
        Result<(), ContractError>)
        requires
            old(self).wf(),
        ensures
            final(self).wf(),
            done == (match old(self)@.place_bet_error(*call, user, amount, side) {
                Some(e) => Err(e),
                None => Ok(()),
            }),
            final(self)@ == (if done is Ok {
                old(self)@.after_place_bet(user, amount, side)
            } else {
                old(self)@
            }),
    {
        let (round, balance) = match self.check_stake(call, user, amount, RoundMode::UpDown) {
            Err(e) => { return Err(e); },
            Ok(found) => found,
        };
        if self.positions.contains_key(&user) {
            return Err(ContractError::AlreadyBet);
        }
        let new_balance: i128 = match balance.checked_sub(amount) {
            Some(b) => b,
            None => { return Err(ContractError::Overflow); },
        };
        let new_round = match side {
            BetSide::Up => match round.pool_up.checked_add(amount) {
                Some(pool) => Round { pool_up: pool, ..round },
                None => { return Err(ContractError::Overflow); },
            },
            BetSide::Down => match round.pool_down.checked_add(amount) {
                Some(pool) => Round { pool_down: pool, ..round },
                None => { return Err(ContractError::Overflow); },
            },
        };
        self.balances.insert(user, new_balance);
        self.positions.insert(user, UserPosition { amount, side });
        self.active_round = Some(new_round);
        proof {
            lemma_place_bet_keeps_inv(old(self)@, *call, user, amount, side);
            assert(self@ =~= old(self)@.after_place_bet(user, amount, side));
        }
        Ok(())
    }

    /// Stakes `amount` of the balance of `user` on `predicted_price` in the
    /// active Precision round.
    pub fn place_precision_prediction(
        &mut self,
        call: &Invocation,
        user: Address,
        amount: i128,
        predicted_price: u128,
    ) -> (done: Result<(), ContractError>)
        requires
            old(self).wf(),
        ensures
            final(self).wf(),
            done == (match old(self)@.place_prediction_error(*call, user, amount) {
                Some(e) => Err(e),
                None => Ok(()),
            }),
            final(self)@ == (if done is Ok {
                old(self)@.after_place_prediction(user, amount, predicted_price)
            } else {
                old(self)@
            }),
    {
        let (_, balance) = match self.check_stake(call, user, amount, RoundMode::Precision) {
            Err(e) => { return Err(e); },
            Ok(found) => found,
        };
        if self.find_prediction(&user).is_some() {
            return Err(ContractError::AlreadyBet);
        }
        let new_balance: i128 = match balance.checked_sub(amount) {
            Some(b) => b,
            None => { return Err(ContractError::Overflow); },
        };
        self.balances.insert(user, new_balance);
        self.predictions.push(PrecisionPrediction { user, predicted_price, amount });
        proof {
            lemma_place_prediction_keeps_inv(old(self)@, *call, user, amount, predicted_price);
            assert(self@ =~= old(self)@.after_place_prediction(user, amount, predicted_price));
        }
        Ok(())
    }

    /// Moves what `user` is owed into the spendable balance and returns the
    /// amount. With nothing owed it returns zero and changes nothing.
    pub fn claim_winnings(&mut self, call: &Invocation, user: Address) -> (claimed: Result<
        i128,
        ContractError,
    >)
        requires
            old(self).wf(),
        ensures
            final(self).wf(),
            claimed == (match old(self)@.claim_error(*call, user) {
                Some(e) => Err(e),
                None => Ok(old(self)@.pending[user]),
            }),
            final(self)@ == (if claimed is Ok {
                old(self)@.after_claim(user)
            } else {
                old(self)@
            }),
    {
        if !call.is_authorized(&user) {
            return Err(ContractError::UnauthorizedUser);
        }
        let pending = self.get_pending_winnings(user);
        if pending == 0 {
            return Ok(0);
        }
        let balance = self.balance(user);
        let new_balance: i128 = match balance.checked_add(pending) {
            Some(b) => b,
            None => { return Err(ContractError::Overflow); },
        };
        self.balances.insert(user, new_balance);
        self.pending.insert(user, 0);
        proof {
            lemma_claim_keeps_inv(old(self)@, *call, user);
            assert(self@ =~= old(self)@.after_claim(user));
        }
        Ok(pending)
    }

    /// Grants `user` the initial balance on the first visit and returns the
    /// balance; on any later visit it returns the balance as it stands.
    pub fn mint_initial(&mut self, call: &Invocation, user: Address) -> (balance: Result<
        i128,
        ContractError,
    >)
        requires
            old(self).wf(),
        ensures
            final(self).wf(),
            balance == (match old(self)@.mint_error(*call, user) {
                Some(e) => Err(e),
                None => Ok(old(self)@.after_mint(user).balance_of(user)),
            }),
            final(self)@ == (if balance is Ok {
                old(self)@.after_mint(user)
            } else {
                old(self)@
            }),
    {
        if !call.is_authorized(&user) {
            return Err(ContractError::UnauthorizedUser);
        }
        match self.balances.get(&user) {
            Some(existing) => Ok(existing),
            None => {
                proof {
                    lemma_mint_keeps_inv(old(self)@, user);
                }
                self.set_balance(user, INITIAL_BALANCE);
                Ok(INITIAL_BALANCE)
            },
        }
    }

    /// The prediction at index `i` is the prediction of its user.
    proof fn lemma_prediction_at(&self, i: int)
        requires
            self.wf(),
            0 <= i < self@.predictions.len(),
        ensures
            has_predicted(self@.predictions, self@.predictions[i].user),
            prediction_of(self@.predictions, self@.predictions[i].user) == self@.predictions[i],
    {
        let user = self@.predictions[i].user;
        let k = choose|k: int|
            0 <= k < self@.predictions.len() && (#[trigger] self@.predictions[k]).user == user;
        assert(self@.inv());
        assert(self@.predictions[k].user == self@.predictions[i].user);
        assert(k == i);
    }

    /// What an oracle-only entry point asks first: the oracle is registered and the invocation
    /// carries the oracle's authorization.
    fn require_oracle(&self, call: &Invocation) -> (checked: Result<(), ContractError>)
        ensures
            checked == (match self@.oracle_error(*call) {
                Some(e) => Err(e),
                None => Ok(()),
            }),
    {
        match self.oracle {
            None => Err(ContractError::OracleNotSet),
            Some(oracle) => if call.is_authorized(&oracle) {
                Ok(())
            } else {
                Err(ContractError::UnauthorizedOracle)
            },
        }
    }

    /// Settles the active round with the oracle's report (oracle only):
    /// credits what every participant is owed, counts wins and losses, and
    /// removes the round with its positions. Nothing changes where it fails.
    pub fn resolve_round(&mut self, call: &Invocation, payload: OraclePayload) -> (done: Result<
        (),
        ContractError,
    >)
        requires
            old(self).wf(),
        ensures
            final(self).wf(),
            done == (match old(self)@.resolve_error(*call, payload) {
                Some(e) => Err(e),
                None => Ok(()),
            }),
            final(self)@ == (if done is Ok {
                old(self)@.after_resolve(payload.price)
            } else {
                old(self)@
            }),
    {
        match self.require_oracle(call) {
            Err(e) => { return Err(e); },
            Ok(()) => {},
        }
        let round = match self.active_round {
            Some(r) => r,
            None => { return Err(ContractError::NoActiveRound); },
        };
        if call.ledger_sequence < round.end_ledger {
            return Err(ContractError::RoundNotEnded);
        }
        match validate_report(&payload, round.round_id, call.ledger_timestamp) {
            Err(e) => { return Err(e); },
            Ok(()) => {},
        }
        let final_price = payload.price;
        let settled = match round.mode {
            RoundMode::UpDown => {
                if final_price > round.price_start {
                    record_winnings(
                        &self.positions,
                        BetSide::Up,
                        round.pool_up,
                        round.pool_down,
                        &mut self.pending,
                        &mut self.stats,
                    )
                } else if final_price < round.price_start {
                    record_winnings(
                        &self.positions,
                        BetSide::Down,
                        round.pool_down,
                        round.pool_up,
                        &mut self.pending,
                        &mut self.stats,
                    )
                } else {
                    record_refunds(&self.positions, &mut self.pending)
                }
            },
            RoundMode::Precision => record_precision(
                &self.predictions,
                final_price,
                &mut self.pending,
                &mut self.stats,
            ),
        };
        let ghost before = old(self)@;
        match settled {
            Err(e) => {
                proof {
                    assert(self@ =~= before);
                    match round.mode {
                        RoundMode::UpDown => {
                            let a = choose|a: Address| #[trigger]
                                before.positions.contains_key(a) && (credited(
                                    owed(old(self).pending@, a),
                                    credit_of(round, final_price, before.positions[a]),
                                ) is None || recorded(
                                    record_of(old(self).stats@, a),
                                    outcome_of(round, final_price, before.positions[a]),
                                ) is None);
                            assert(before.positions.contains_key(a));
                            assert(before.settled_pending(final_price, a) is None
                                || before.settled_stats(final_price, a) is None);
                        },
                        RoundMode::Precision => {
                            let i = choose|i: int|
                                0 <= i < before.predictions.len() && (credited(
                                    owed(old(self).pending@, (#[trigger] before.predictions[i]).user),
                                    precision_credit(
                                        before.predictions,
                                        final_price,
                                        before.predictions[i],
                                    ),
                                ) is None || recorded(
                                    record_of(old(self).stats@, before.predictions[i].user),
                                    Some(
                                        is_closest(
                                            before.predictions,
                                            final_price,
                                            before.predictions[i],
                                        ),
                                    ),
                                ) is None);
                            let a = before.predictions[i].user;
                            old(self).lemma_prediction_at(i);
                            assert(before.settled_pending(final_price, a) is None
                                || before.settled_stats(final_price, a) is None);
                        },
                    }
                    assert(before.settlement_overflows(final_price));
                }
                Err(e)
            },
            Ok(()) => {
                proof {
                    assert forall|a: Address|
                        before.settled_pending(final_price, a) == Some(owed(self.pending@, a))
                            && before.settled_stats(final_price, a) == Some(
                            record_of(self.stats@, a),
                        ) by {
                        assert(0 <= before.pending[a]);
                        match round.mode {
                            RoundMode::UpDown => {
                                if before.positions.contains_key(a) {
                                    assert(self.positions@.contains_key(a));
                                } else {
                                    assert(owed(self.pending@, a) == owed(old(self).pending@, a));
                                    assert(record_of(self.stats@, a) == record_of(
                                        old(self).stats@,
                                        a,
                                    ));
                                }
                            },
                            RoundMode::Precision => {
                                if has_predicted(before.predictions, a) {
                                    let i = choose|i: int|
                                        0 <= i < before.predictions.len() && (
                                        #[trigger] before.predictions[i]).user == a;
                                    old(self).lemma_prediction_at(i);
                                } else {
                                    assert(owed(self.pending@, a) == owed(old(self).pending@, a));
                                    assert(record_of(self.stats@, a) == record_of(
                                        old(self).stats@,
                                        a,
                                    ));
                                }
                            },
                        }
                    }
                    assert(!before.settlement_overflows(final_price));
                    lemma_resolve_keeps_inv(before, *call, payload);
                }
                self.active_round = None;
                self.positions.clear();
                self.predictions = Vec::new();
                proof {
                    assert(self@ =~= before.after_resolve(payload.price));
                }
                Ok(())
            },
        }
    }

    /// Counts a win in the record of `user`.
    pub fn update_stats_win(&mut self, user: Address) -> (done: Result<(), ContractError>)
        requires
            old(self).wf(),
        ensures
            final(self).wf(),
            done == (if old(self)@.stats[user].win_overflows() {
                Err(ContractError::Overflow)
            } else {
                Ok(())
            }),
            final(self)@ == (if done is Ok {
                State {
                    stats: old(self)@.stats.insert(user, old(self)@.stats[user].after_win()),
                    ..old(self)@
                }
            } else {
                old(self)@
            }),
    {
        proof {
            assert(self@.inv());
            assert(self@.stats[user].valid());
        }
        match record_outcome(&mut self.stats, user, true) {
            Ok(()) => {
                proof {
                    crate::stats::lemma_outcome_is_monotonic(old(self)@.stats[user], true);
                    assert(self@ =~= (State {
                        stats: old(self)@.stats.insert(user, old(self)@.stats[user].after_win()),
                        ..old(self)@
                    }));
                    assert forall|a: Address| (#[trigger] self@.stats[a]).valid() by {
                        assert(old(self)@.stats[a].valid());
                    }
                }
                Ok(())
            },
            Err(e) => {
                proof {
                    assert(self@ =~= old(self)@);
                }
                Err(e)
            },
        }
    }

    /// Counts a loss in the record of `user`.
    pub fn update_stats_loss(&mut self, user: Address) -> (done: Result<(), ContractError>)
        requires
            old(self).wf(),
        ensures
            final(self).wf(),
            done == (if old(self)@.stats[user].loss_overflows() {
                Err(ContractError::Overflow)
            } else {
                Ok(())
            }),
            final(self)@ == (if done is Ok {
                State {
                    stats: old(self)@.stats.insert(user, old(self)@.stats[user].after_loss()),
                    ..old(self)@
                }
            } else {
                old(self)@
            }),
    {
        proof {
            assert(self@.inv());
            assert(self@.stats[user].valid());
        }
        match record_outcome(&mut self.stats, user, false) {
            Ok(()) => {
                proof {
                    crate::stats::lemma_outcome_is_monotonic(old(self)@.stats[user], false);
                    assert(self@ =~= (State {
                        stats: old(self)@.stats.insert(user, old(self)@.stats[user].after_loss()),
                        ..old(self)@
                    }));
                    assert forall|a: Address| (#[trigger] self@.stats[a]).valid() by {
                        assert(old(self)@.stats[a].valid());
                    }
                }
                Ok(())
            },
            Err(e) => {
                proof {
                    assert(self@ =~= old(self)@);
                }
                Err(e)
            },
        }
    }
}

} // verus!
