//! The market as a mathematical state, and each entry point as a rule that
//! says when it fails, with which error, and what state it leaves.

use vstd::prelude::*;
use crate::errors::ContractError;
use crate::invocation::Invocation;
use crate::oracle::report_error;
use crate::precision::has_predicted;
use crate::precision::is_closest;
use crate::precision::precision_credit;
use crate::precision::prediction_of;
use crate::precision::predictions_valid;
use crate::settlement::credit_of;
use crate::settlement::credited;
use crate::settlement::outcome_of;
use crate::settlement::pool_of;
use crate::settlement::pools_cover;
use crate::settlement::recorded;
use crate::settlement::stakes_positive;
use crate::types::Address;
use crate::types::BetSide;
use crate::types::OraclePayload;
use crate::types::PrecisionPrediction;
use crate::types::Round;
use crate::types::RoundMode;
use crate::types::UserPosition;
use crate::types::UserStats;
use crate::types::Windows;

verus! {

/// The balance that a user is granted on the first visit.
pub const INITIAL_BALANCE: i128 = 10_000_000_000;

/// Everything the market persists.
#[verifier::ext_equal]
pub struct State {
    /// Who may configure the market and create rounds, once initialized.
    pub admin: Option<Address>,
    /// Who may report the settlement price, once initialized.
    pub oracle: Option<Address>,
    /// The configured windows, if any were set.
    pub windows: Option<Windows>,
    /// Number of rounds created so far.
    pub last_round_id: u64,
    /// The round that is active, if one is.
    pub active_round: Option<Round>,
    /// The positions of the active Up/Down round.
    pub positions: Map<Address, UserPosition>,
    /// The predictions of the active Precision round, in order of arrival.
    pub predictions: Seq<PrecisionPrediction>,
    /// The spendable balance of every address that has one.
    pub balances: Map<Address, i128>,
    /// What every address is owed and has not claimed yet.
    pub pending: Map<Address, i128>,
    /// The record of every address.
    pub stats: Map<Address, UserStats>,
}

impl State {
    /// The market before anything has happened.
    pub open spec fn initial() -> State {
        State {
            admin: None,
            oracle: None,
            windows: None,
            last_round_id: 0,
            active_round: None,
            positions: Map::empty(),
            predictions: Seq::empty(),
            balances: Map::empty(),
            pending: Map::total(|a: Address| 0i128),
            stats: Map::total(|a: Address| UserStats::spec_new()),
        }
    }

    /// The spendable balance of `user`: zero where none is stored.
    pub open spec fn balance_of(self, user: Address) -> i128 {
        if self.balances.contains_key(user) {
            self.balances[user]
        } else {
            0
        }
    }

    /// The windows that the next round gets.
    pub open spec fn effective_windows(self) -> Windows {
        match self.windows {
            Some(w) => w,
            None => Windows::spec_standard(),
        }
    }

    /// What holds of the market at all times.
    pub open spec fn inv(self) -> bool {
        &&& self.windows is Some ==> self.windows->Some_0.valid()
        &&& match self.active_round {
            Some(round) => {
                &&& round.valid()
                &&& round.round_id == self.last_round_id
                &&& round.mode == RoundMode::UpDown ==> self.predictions.len() == 0
                &&& round.mode == RoundMode::Precision ==> self.positions == Map::<
                    Address,
                    UserPosition,
                >::empty()
                &&& pools_cover(self.positions, round.pool_up as int, round.pool_down as int)
            },
            None => {
                &&& self.positions == Map::<Address, UserPosition>::empty()
                &&& self.predictions.len() == 0
            },
        }
        &&& stakes_positive(self.positions)
        &&& predictions_valid(self.predictions)
        &&& forall|a: Address| self.balances.contains_key(a) ==> 0 <= #[trigger] self.balances[a]
        &&& forall|a: Address| #[trigger] self.pending.contains_key(a)
        &&& forall|a: Address| 0 <= #[trigger] self.pending[a]
        &&& forall|a: Address| #[trigger] self.stats.contains_key(a)
        &&& forall|a: Address| (#[trigger] self.stats[a]).valid()
    }

    // Access control

    /// Why an admin-only entry point refuses the invocation, if it does.
    pub open spec fn admin_error(self, call: Invocation) -> Option<ContractError> {
        match self.admin {
            None => Some(ContractError::AdminNotSet),
            Some(admin) => if call.authorizes(admin) {
                None
            } else {
                Some(ContractError::UnauthorizedAdmin)
            },
        }
    }

    /// Why an oracle-only entry point refuses the invocation, if it does.
    pub open spec fn oracle_error(self, call: Invocation) -> Option<ContractError> {
        match self.oracle {
            None => Some(ContractError::OracleNotSet),
            Some(oracle) => if call.authorizes(oracle) {
                None
            } else {
                Some(ContractError::UnauthorizedOracle)
            },
        }
    }

    // initialize

    /// Why `initialize` fails, if it does.
    pub open spec fn initialize_error(self, call: Invocation, admin: Address) -> Option<
        ContractError,
    > {
        if !call.authorizes(admin) {
            Some(ContractError::UnauthorizedAdmin)
        } else if self.admin is Some {
            Some(ContractError::AlreadyInitialized)
        } else {
            None
        }
    }

    /// The market after `initialize`.
    pub open spec fn after_initialize(self, admin: Address, oracle: Address) -> State {
        State { admin: Some(admin), oracle: Some(oracle), ..self }
    }

    // set_windows

    /// Why `set_windows` fails, if it does.
    pub open spec fn set_windows_error(
        self,
        call: Invocation,
        bet_ledgers: u32,
        run_ledgers: u32,
    ) -> Option<ContractError> {
        if self.admin_error(call) is Some {
            self.admin_error(call)
        } else if !(0 < bet_ledgers < run_ledgers) {
            Some(ContractError::InvalidDuration)
        } else {
            None
        }
    }

    /// The market after `set_windows`.
    pub open spec fn after_set_windows(self, bet_ledgers: u32, run_ledgers: u32) -> State {
        State { windows: Some(Windows { bet_ledgers, run_ledgers }), ..self }
    }

    // create_round

    /// The round that `create_round` opens; `None` where the round id or a
    /// ledger number leaves its range.
    pub open spec fn next_round(self, call: Invocation, start_price: u128, mode: RoundMode) -> Option<
        Round,
    > {
        if self.last_round_id == u64::MAX {
            None
        } else {
            Round::spec_open(
                (self.last_round_id + 1) as u64,
                mode,
                start_price,
                call.ledger_sequence,
                self.effective_windows(),
            )
        }
    }

    /// Why `create_round` fails, if it does.
    pub open spec fn create_round_error(
        self,
        call: Invocation,
        start_price: u128,
        mode: RoundMode,
    ) -> Option<ContractError> {
        if self.admin_error(call) is Some {
            self.admin_error(call)
        } else if start_price == 0 {
            Some(ContractError::InvalidPrice)
        } else if self.active_round is Some {
            Some(ContractError::RoundAlreadyActive)
        } else if self.next_round(call, start_price, mode) is None {
            Some(ContractError::Overflow)
        } else {
            None
        }
    }

    /// The market after `create_round`.
    pub open spec fn after_create_round(
        self,
        call: Invocation,
        start_price: u128,
        mode: RoundMode,
    ) -> State {
        State {
            last_round_id: (self.last_round_id + 1) as u64,
            active_round: self.next_round(call, start_price, mode),
            ..self
        }
    }

    // place_bet and place_precision_prediction

    /// Why a stake is refused whatever the mode, if it is.
    pub open spec fn stake_error(
        self,
        call: Invocation,
        user: Address,
        amount: i128,
        mode: RoundMode,
    ) -> Option<ContractError> {
        if !call.authorizes(user) {
            Some(ContractError::UnauthorizedUser)
        } else if amount <= 0 {
            Some(ContractError::InvalidBetAmount)
        } else if self.active_round is None {
            Some(ContractError::NoActiveRound)
        } else if self.active_round->Some_0.mode != mode {
            Some(ContractError::WrongRoundMode)
        } else if call.ledger_sequence >= self.active_round->Some_0.bet_end_ledger {
            Some(ContractError::RoundEnded)
        } else if self.balance_of(user) < amount {
            Some(ContractError::InsufficientBalance)
        } else {
            None
        }
    }

    /// Why `place_bet` fails, if it does.
    pub open spec fn place_bet_error(
        self,
        call: Invocation,
        user: Address,
        amount: i128,
        side: BetSide,
    ) -> Option<ContractError> {
        if self.stake_error(call, user, amount, RoundMode::UpDown) is Some {
            self.stake_error(call, user, amount, RoundMode::UpDown)
        } else if self.positions.contains_key(user) {
            Some(ContractError::AlreadyBet)
        } else if pool_of(self.active_round->Some_0, side) + amount > i128::MAX {
            Some(ContractError::Overflow)
        } else {
            None
        }
    }

    /// The active round with `amount` more in the pool of `side`.
    pub open spec fn round_with_stake(self, amount: i128, side: BetSide) -> Round {
        let round = self.active_round->Some_0;
        match side {
            BetSide::Up => Round { pool_up: (round.pool_up + amount) as i128, ..round },
            BetSide::Down => Round { pool_down: (round.pool_down + amount) as i128, ..round },
        }
    }

    /// The market after `place_bet`.
    pub open spec fn after_place_bet(self, user: Address, amount: i128, side: BetSide) -> State {
        State {
            active_round: Some(self.round_with_stake(amount, side)),
            positions: self.positions.insert(user, UserPosition { amount, side }),
            balances: self.balances.insert(user, (self.balance_of(user) - amount) as i128),
            ..self
        }
    }

    /// Why `place_precision_prediction` fails, if it does.
    pub open spec fn place_prediction_error(
        self,
        call: Invocation,
        user: Address,
        amount: i128,
    ) -> Option<ContractError> {
        if self.stake_error(call, user, amount, RoundMode::Precision) is Some {
            self.stake_error(call, user, amount, RoundMode::Precision)
        } else if has_predicted(self.predictions, user) {
            Some(ContractError::AlreadyBet)
        } else {
            None
        }
    }

    /// The market after `place_precision_prediction`.
    pub open spec fn after_place_prediction(
        self,
        user: Address,
        amount: i128,
        predicted_price: u128,
    ) -> State {
        State {
            predictions: self.predictions.push(PrecisionPrediction { user, predicted_price, amount }),
            balances: self.balances.insert(user, (self.balance_of(user) - amount) as i128),
            ..self
        }
    }

    // resolve_round

    /// What the resolution at `final_price` credits to `user`; `None` where
    /// the arithmetic leaves the range of `i128`.
    pub open spec fn credit_for(self, final_price: u128, user: Address) -> Option<int> {
        match self.active_round {
            Some(round) => match round.mode {
                RoundMode::UpDown => if self.positions.contains_key(user) {
                    credit_of(round, final_price, self.positions[user])
                } else {
                    Some(0)
                },
                RoundMode::Precision => if has_predicted(self.predictions, user) {
                    precision_credit(
                        self.predictions,
                        final_price,
                        prediction_of(self.predictions, user),
                    )
                } else {
                    Some(0)
                },
            },
            None => Some(0),
        }
    }

    /// Whether the resolution at `final_price` counts as a win or as a loss
    /// for `user`, or as neither.
    pub open spec fn outcome_for(self, final_price: u128, user: Address) -> Option<bool> {
        match self.active_round {
            Some(round) => match round.mode {
                RoundMode::UpDown => if self.positions.contains_key(user) {
                    outcome_of(round, final_price, self.positions[user])
                } else {
                    None
                },
                RoundMode::Precision => if has_predicted(self.predictions, user) {
                    Some(
                        is_closest(
                            self.predictions,
                            final_price,
                            prediction_of(self.predictions, user),
                        ),
                    )
                } else {
                    None
                },
            },
            None => None,
        }
    }

    /// What `user` is owed after the resolution; `None` where it leaves the
    /// range of `i128`.
    pub open spec fn settled_pending(self, final_price: u128, user: Address) -> Option<i128> {
        credited(self.pending[user], self.credit_for(final_price, user))
    }

    /// The record of `user` after the resolution; `None` where a counter
    /// leaves its range.
    pub open spec fn settled_stats(self, final_price: u128, user: Address) -> Option<UserStats> {
        recorded(self.stats[user], self.outcome_for(final_price, user))
    }

    /// Whether the resolution would leave the range of a number for anyone.
    pub open spec fn settlement_overflows(self, final_price: u128) -> bool {
        exists|a: Address| #[trigger]
            self.settled_pending(final_price, a) is None || self.settled_stats(final_price, a)
                is None
    }

    /// Why `resolve_round` fails, if it does.
    pub open spec fn resolve_error(self, call: Invocation, payload: OraclePayload) -> Option<
        ContractError,
    > {
        if self.oracle_error(call) is Some {
            self.oracle_error(call)
        } else if self.active_round is None {
            Some(ContractError::NoActiveRound)
        } else if call.ledger_sequence < self.active_round->Some_0.end_ledger {
            Some(ContractError::RoundNotEnded)
        } else if report_error(payload, self.active_round->Some_0.round_id, call.ledger_timestamp)
            is Some {
            report_error(payload, self.active_round->Some_0.round_id, call.ledger_timestamp)
        } else if self.settlement_overflows(payload.price) {
            Some(ContractError::Overflow)
        } else {
            None
        }
    }

    /// The market after `resolve_round`: everyone is credited and recorded,
    /// and the round with its positions is gone.
    pub open spec fn after_resolve(self, final_price: u128) -> State {
        State {
            active_round: None,
            positions: Map::empty(),
            predictions: Seq::empty(),
            pending: Map::total(|a: Address| self.settled_pending(final_price, a)->Some_0),
            stats: Map::total(|a: Address| self.settled_stats(final_price, a)->Some_0),
            ..self
        }
    }

    // claim_winnings

    /// Why `claim_winnings` fails, if it does.
    pub open spec fn claim_error(self, call: Invocation, user: Address) -> Option<ContractError> {
        if !call.authorizes(user) {
            Some(ContractError::UnauthorizedUser)
        } else if self.balance_of(user) + self.pending[user] > i128::MAX {
            Some(ContractError::Overflow)
        } else {
            None
        }
    }

    /// The market after `claim_winnings`.
    pub open spec fn after_claim(self, user: Address) -> State {
        if self.pending[user] == 0 {
            self
        } else {
            State {
                balances: self.balances.insert(
                    user,
                    (self.balance_of(user) + self.pending[user]) as i128,
                ),
                pending: self.pending.insert(user, 0),
                ..self
            }
        }
    }

    // mint_initial

    /// Why `mint_initial` fails, if it does.
    pub open spec fn mint_error(self, call: Invocation, user: Address) -> Option<ContractError> {
        if !call.authorizes(user) {
            Some(ContractError::UnauthorizedUser)
        } else {
            None
        }
    }

    /// The market after `mint_initial`.
    pub open spec fn after_mint(self, user: Address) -> State {
        if self.balances.contains_key(user) {
            self
        } else {
            State { balances: self.balances.insert(user, INITIAL_BALANCE), ..self }
        }
    }
}

} // verus!
