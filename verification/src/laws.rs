//! What holds of the market as a whole: conservation of the pools, balances
//! that never turn negative, round ids that count up, and the windows and
//! oracle rules that no invocation gets around.

use vstd::prelude::*;
use crate::errors::ContractError;
use crate::invocation::Invocation;
use crate::model::INITIAL_BALANCE;
use crate::model::State;
use crate::payout::lemma_payout_without_losers;
use crate::precision::has_predicted;
use crate::precision::lemma_precision_within_pot;
use crate::precision::pot;
use crate::precision::precision_total;
use crate::precision::prediction_of;
use crate::safety::lemma_claim_keeps_inv;
use crate::safety::lemma_create_round_keeps_inv;
use crate::safety::lemma_initial_inv;
use crate::safety::lemma_initialize_keeps_inv;
use crate::safety::lemma_mint_keeps_inv;
use crate::safety::lemma_place_bet_keeps_inv;
use crate::safety::lemma_place_prediction_keeps_inv;
use crate::safety::lemma_resolve_keeps_inv;
use crate::safety::lemma_set_windows_keeps_inv;
use crate::settlement::credit_of;
use crate::settlement::credited_total;
use crate::settlement::enumerates;
use crate::settlement::lemma_credits_within_pools;
use crate::settlement::other_side;
use crate::settlement::outcome_of;
use crate::settlement::pool_of;
use crate::settlement::winning_side;
use crate::stats::lemma_outcome_is_monotonic;
use crate::types::Address;
use crate::types::BetSide;
use crate::types::OraclePayload;
use crate::types::Round;
use crate::types::RoundMode;
use crate::types::UserPosition;

verus! {

/// One call of an entry point with its arguments.
pub enum Operation {
    Initialize { call: Invocation, admin: Address, oracle: Address },
    SetWindows { call: Invocation, bet_ledgers: u32, run_ledgers: u32 },
    CreateRound { call: Invocation, start_price: u128, mode: RoundMode },
    PlaceBet { call: Invocation, user: Address, amount: i128, side: BetSide },
    PlacePrediction { call: Invocation, user: Address, amount: i128, predicted_price: u128 },
    ResolveRound { call: Invocation, payload: OraclePayload },
    ClaimWinnings { call: Invocation, user: Address },
    MintInitial { call: Invocation, user: Address },
    CountWin { user: Address },
    CountLoss { user: Address },
}

/// Whether the operation succeeds in the given state.
pub open spec fn succeeds(state: State, operation: Operation) -> bool {
    match operation {
        Operation::Initialize { call, admin, oracle } => state.initialize_error(call, admin)
            is None,
        Operation::SetWindows { call, bet_ledgers, run_ledgers } => state.set_windows_error(
            call,
            bet_ledgers,
            run_ledgers,
        ) is None,
        Operation::CreateRound { call, start_price, mode } => state.create_round_error(
            call,
            start_price,
            mode,
        ) is None,
        Operation::PlaceBet { call, user, amount, side } => state.place_bet_error(
            call,
            user,
            amount,
            side,
        ) is None,
        Operation::PlacePrediction { call, user, amount, predicted_price } => state.place_prediction_error(
        call, user, amount) is None,
        Operation::ResolveRound { call, payload } => state.resolve_error(call, payload) is None,
        Operation::ClaimWinnings { call, user } => state.claim_error(call, user) is None,
        Operation::MintInitial { call, user } => state.mint_error(call, user) is None,
        Operation::CountWin { user } => !state.stats[user].win_overflows(),
        Operation::CountLoss { user } => !state.stats[user].loss_overflows(),
    }
}

/// The state that the operation leaves: the state it found where it fails.
pub open spec fn step(state: State, operation: Operation) -> State {
    if !succeeds(state, operation) {
        state
    } else {
        match operation {
            Operation::Initialize { call, admin, oracle } => state.after_initialize(admin, oracle),
            Operation::SetWindows { call, bet_ledgers, run_ledgers } => state.after_set_windows(
                bet_ledgers,
                run_ledgers,
            ),
            Operation::CreateRound { call, start_price, mode } => state.after_create_round(
                call,
                start_price,
                mode,
            ),
            Operation::PlaceBet { call, user, amount, side } => state.after_place_bet(
                user,
                amount,
                side,
            ),
            Operation::PlacePrediction {
                call,
                user,
                amount,
                predicted_price,
            } => state.after_place_prediction(user, amount, predicted_price),
            Operation::ResolveRound { call, payload } => state.after_resolve(payload.price),
            Operation::ClaimWinnings { call, user } => state.after_claim(user),
            Operation::MintInitial { call, user } => state.after_mint(user),
            Operation::CountWin { user } => State {
                stats: state.stats.insert(user, state.stats[user].after_win()),
                ..state
            },
            Operation::CountLoss { user } => State {
                stats: state.stats.insert(user, state.stats[user].after_loss()),
                ..state
            },
        }
    }
}

/// The state after a sequence of operations, oldest first.
pub open spec fn run(state: State, operations: Seq<Operation>) -> State
    decreases operations.len(),
{
    if operations.len() == 0 {
        state
    } else {
        step(run(state, operations.drop_last()), operations.last())
    }
}

/// How many of the operations created a round.
pub open spec fn rounds_created(state: State, operations: Seq<Operation>) -> nat
    decreases operations.len(),
{
    if operations.len() == 0 {
        0
    } else {
        let before = run(state, operations.drop_last());
        rounds_created(state, operations.drop_last()) + (if operations.last()
            is CreateRound && succeeds(before, operations.last()) {
            1nat
        } else {
            0nat
        })
    }
}

/// No operation breaks the invariant, whether it succeeds or fails.
pub proof fn lemma_step_keeps_inv(state: State, operation: Operation)
    requires
        state.inv(),
    ensures
        step(state, operation).inv(),
{
    if succeeds(state, operation) {
        match operation {
            Operation::Initialize { call, admin, oracle } => {
                lemma_initialize_keeps_inv(state, admin, oracle);
            },
            Operation::SetWindows { call, bet_ledgers, run_ledgers } => {
                lemma_set_windows_keeps_inv(state, call, bet_ledgers, run_ledgers);
            },
            Operation::CreateRound { call, start_price, mode } => {
                lemma_create_round_keeps_inv(state, call, start_price, mode);
            },
            Operation::PlaceBet { call, user, amount, side } => {
                lemma_place_bet_keeps_inv(state, call, user, amount, side);
            },
            Operation::PlacePrediction { call, user, amount, predicted_price } => {
                lemma_place_prediction_keeps_inv(state, call, user, amount, predicted_price);
            },
            Operation::ResolveRound { call, payload } => {
                lemma_resolve_keeps_inv(state, call, payload);
            },
            Operation::ClaimWinnings { call, user } => {
                lemma_claim_keeps_inv(state, call, user);
            },
            Operation::MintInitial { call, user } => {
                lemma_mint_keeps_inv(state, user);
            },
            Operation::CountWin { user } => {
                let after = step(state, operation);
                assert(state.stats[user].valid());
                lemma_outcome_is_monotonic(state.stats[user], true);
                assert forall|a: Address| (#[trigger] after.stats[a]).valid() by {
                    assert(state.stats[a].valid());
                }
            },
            Operation::CountLoss { user } => {
                let after = step(state, operation);
                assert(state.stats[user].valid());
                lemma_outcome_is_monotonic(state.stats[user], false);
                assert forall|a: Address| (#[trigger] after.stats[a]).valid() by {
                    assert(state.stats[a].valid());
                }
            },
        }
    }
}

/// The invariant holds after any sequence of operations on a new market.
pub proof fn lemma_run_keeps_inv(operations: Seq<Operation>)
    ensures
        run(State::initial(), operations).inv(),
    decreases operations.len(),
{
    if operations.len() == 0 {
        lemma_initial_inv();
    } else {
        lemma_run_keeps_inv(operations.drop_last());
        lemma_step_keeps_inv(run(State::initial(), operations.drop_last()), operations.last());
    }
}

/// Non-negativity: after any sequence of operations on a new market, no
/// balance and no pending winnings are negative.
pub proof fn lemma_never_negative(operations: Seq<Operation>, user: Address)
    ensures
        0 <= run(State::initial(), operations).balance_of(user),
        0 <= run(State::initial(), operations).pending[user],
{
    lemma_run_keeps_inv(operations);
    let state = run(State::initial(), operations);
    assert(0 <= state.pending[user]);
    if state.balances.contains_key(user) {
        assert(0 <= state.balances[user]);
    }
}

/// Idempotent bootstrap: the first grant gives a new user the initial
/// balance, and a second grant changes nothing at all.
pub proof fn lemma_mint_is_idempotent(state: State, user: Address)
    ensures
        !state.balances.contains_key(user) ==> state.after_mint(user).balance_of(user)
            == INITIAL_BALANCE,
        state.balances.contains_key(user) ==> state.after_mint(user) == state,
        state.after_mint(user).after_mint(user) == state.after_mint(user),
{
}

/// Claiming is idempotent: after a claim nothing is owed to the user, and a
/// second claim changes nothing.
pub proof fn lemma_claim_is_idempotent(state: State, user: Address)
    ensures
        state.after_claim(user).pending[user] == 0,
        state.after_claim(user).after_claim(user) == state.after_claim(user),
        state.pending[user] == 0 ==> state.after_claim(user) == state,
{
}

/// Round ids count up: the round that `create_round` opens carries the id
/// after the last one, whatever its mode, and that id becomes the last one.
pub proof fn lemma_round_id_increments(
    state: State,
    call: Invocation,
    start_price: u128,
    mode: RoundMode,
)
    requires
        state.create_round_error(call, start_price, mode) is None,
    ensures
        state.after_create_round(call, start_price, mode).last_round_id == state.last_round_id
            + 1,
        state.after_create_round(call, start_price, mode).active_round is Some,
        state.after_create_round(call, start_price, mode).active_round->Some_0.round_id
            == state.last_round_id + 1,
        state.after_create_round(call, start_price, mode).active_round->Some_0.mode == mode,
        state == State::initial() ==> state.after_create_round(
            call,
            start_price,
            mode,
        ).active_round->Some_0.round_id == 1,
{
}

/// Only `create_round` moves the round counter, and by exactly one.
pub proof fn lemma_step_counts_rounds(state: State, operation: Operation)
    ensures
        step(state, operation).last_round_id == (if operation is CreateRound && succeeds(
            state,
            operation,
        ) {
            state.last_round_id + 1
        } else {
            state.last_round_id as int
        }),
{
}

/// Round id monotonicity: after any sequence of operations on a new market
/// the round counter equals the number of rounds created, so the first round
/// has id 1 and every further one the next id.
pub proof fn lemma_round_ids_count_creations(operations: Seq<Operation>)
    ensures
        run(State::initial(), operations).last_round_id == rounds_created(
            State::initial(),
            operations,
        ),
    decreases operations.len(),
{
    if operations.len() > 0 {
        lemma_round_ids_count_creations(operations.drop_last());
        lemma_step_counts_rounds(run(State::initial(), operations.drop_last()), operations.last());
    }
}

/// Window enforcement: once the current ledger has reached the end of the
/// betting window, a stake that would otherwise be looked at is refused with
/// `RoundEnded`; before that ledger the window does not refuse it.
pub proof fn lemma_betting_window_is_enforced(
    state: State,
    call: Invocation,
    user: Address,
    amount: i128,
    side: BetSide,
)
    requires
        call.authorizes(user),
        0 < amount,
        state.active_round is Some,
        state.active_round->Some_0.mode == RoundMode::UpDown,
    ensures
        call.ledger_sequence >= state.active_round->Some_0.bet_end_ledger
            ==> state.place_bet_error(call, user, amount, side) == Some(ContractError::RoundEnded),
        call.ledger_sequence < state.active_round->Some_0.bet_end_ledger
            ==> state.place_bet_error(call, user, amount, side) != Some(ContractError::RoundEnded),
{
}

/// Window enforcement: before the end ledger the authorized oracle is
/// refused with `RoundNotEnded`; from the end ledger on the window does not
/// refuse the resolution.
pub proof fn lemma_resolution_window_is_enforced(
    state: State,
    call: Invocation,
    payload: OraclePayload,
)
    requires
        state.oracle_error(call) is None,
        state.active_round is Some,
    ensures
        call.ledger_sequence < state.active_round->Some_0.end_ledger ==> state.resolve_error(
            call,
            payload,
        ) == Some(ContractError::RoundNotEnded),
        call.ledger_sequence >= state.active_round->Some_0.end_ledger ==> state.resolve_error(
            call,
            payload,
        ) != Some(ContractError::RoundNotEnded),
{
}

/// Oracle gating: when the authorized oracle resolves a round that has
/// ended, a report that names another round fails with `InvalidOracleRound`,
/// and one for the right round that is more than 300 seconds older than the
/// ledger clock fails with `StaleOracleData`. Either way nothing is paid.
pub proof fn lemma_oracle_report_is_checked(state: State, call: Invocation, payload: OraclePayload)
    requires
        state.oracle_error(call) is None,
        state.active_round is Some,
        call.ledger_sequence >= state.active_round->Some_0.end_ledger,
    ensures
        payload.round_id != state.active_round->Some_0.round_id ==> state.resolve_error(
            call,
            payload,
        ) == Some(ContractError::InvalidOracleRound),
        payload.round_id == state.active_round->Some_0.round_id && call.ledger_timestamp
            - payload.timestamp > 300 ==> state.resolve_error(call, payload) == Some(
            ContractError::StaleOracleData,
        ),
        payload.round_id == state.active_round->Some_0.round_id && call.ledger_timestamp
            - payload.timestamp <= 300 && payload.price == 0 ==> state.resolve_error(
            call,
            payload,
        ) == Some(ContractError::InvalidPrice),
{
}

/// With an unchanged price every position is credited exactly its stake and
/// counts neither as a win nor as a loss.
pub proof fn lemma_unchanged_price_refunds_stake(
    round: Round,
    final_price: u128,
    position: UserPosition,
)
    requires
        final_price == round.price_start,
    ensures
        credit_of(round, final_price, position) == Some(position.amount as int),
        outcome_of(round, final_price, position) is None,
{
}

/// With nothing staked on the losing side every winner is credited exactly
/// the stake.
pub proof fn lemma_single_sided_pool_returns_stake(
    round: Round,
    final_price: u128,
    position: UserPosition,
)
    requires
        winning_side(round.price_start, final_price) == Some(position.side),
        0 < pool_of(round, position.side),
        pool_of(round, other_side(position.side)) == 0,
    ensures
        credit_of(round, final_price, position) == Some(position.amount as int),
        outcome_of(round, final_price, position) == Some(true),
{
    lemma_payout_without_losers(position.amount as int, pool_of(round, position.side) as int);
    assert(position.amount * 0 == 0) by (nonlinear_arith);
}

/// What the listed users are owed more after a resolution than before it,
/// added up.
pub open spec fn granted_total(before: State, after: State, users: Seq<Address>) -> int
    decreases users.len(),
{
    if users.len() == 0 {
        0
    } else {
        granted_total(before, after, users.drop_last()) + (after.pending[users.last()]
            - before.pending[users.last()])
    }
}

proof fn lemma_granted_is_credited(
    state: State,
    call: Invocation,
    payload: OraclePayload,
    users: Seq<Address>,
)
    requires
        state.inv(),
        state.resolve_error(call, payload) is None,
        state.active_round->Some_0.mode == RoundMode::UpDown,
        forall|j: int| 0 <= j < users.len() ==> state.positions.contains_key(#[trigger] users[j]),
    ensures
        granted_total(state, state.after_resolve(payload.price), users) == credited_total(
            users,
            state.positions,
            state.active_round->Some_0,
            payload.price,
        ),
    decreases users.len(),
{
    if users.len() > 0 {
        let rest = users.drop_last();
        assert forall|j: int| 0 <= j < rest.len() implies state.positions.contains_key(
            #[trigger] rest[j],
        ) by {
            assert(rest[j] == users[j]);
        }
        lemma_granted_is_credited(state, call, payload, rest);
        let user = users.last();
        assert(state.positions.contains_key(users[users.len() - 1]));
        assert(state.settled_pending(payload.price, user) is Some);
    }
}

/// Conservation in an Up/Down round: what one resolution grants to all
/// participants together is not negative and never more than the two pools
/// held when the round was resolved.
pub proof fn lemma_resolution_conserves_pools(
    state: State,
    call: Invocation,
    payload: OraclePayload,
    users: Seq<Address>,
)
    requires
        state.inv(),
        state.resolve_error(call, payload) is None,
        state.active_round->Some_0.mode == RoundMode::UpDown,
        enumerates(users, state.positions),
    ensures
        0 <= granted_total(state, state.after_resolve(payload.price), users)
            <= state.active_round->Some_0.pool_up + state.active_round->Some_0.pool_down,
{
    let round = state.active_round->Some_0;
    assert forall|j: int| 0 <= j < users.len() implies state.positions.contains_key(
        #[trigger] users[j],
    ) && state.positions[users[j]].amount > 0 by {
        assert(users.contains(users[j]));
    }
    lemma_granted_is_credited(state, call, payload, users);
    lemma_credits_within_pools(users, state.positions, round, payload.price);
}

/// What the makers of the first `upto` predictions are owed more after a
/// resolution than before it, added up.
pub open spec fn granted_to_predictions(before: State, after: State, upto: int) -> int
    decreases upto,
{
    if upto <= 0 {
        0
    } else {
        granted_to_predictions(before, after, upto - 1) + (after.pending[before.predictions[upto
            - 1].user] - before.pending[before.predictions[upto - 1].user])
    }
}

proof fn lemma_granted_is_precision_total(
    state: State,
    call: Invocation,
    payload: OraclePayload,
    upto: int,
)
    requires
        state.inv(),
        state.resolve_error(call, payload) is None,
        state.active_round->Some_0.mode == RoundMode::Precision,
        0 <= upto <= state.predictions.len(),
    ensures
        granted_to_predictions(state, state.after_resolve(payload.price), upto)
            == precision_total(state.predictions, payload.price, upto),
    decreases upto,
{
    if upto > 0 {
        lemma_granted_is_precision_total(state, call, payload, upto - 1);
        let p = state.predictions[upto - 1];
        let k = choose|k: int|
            0 <= k < state.predictions.len() && (#[trigger] state.predictions[k]).user == p.user;
        assert(state.predictions[k].user == state.predictions[upto - 1].user);
        assert(k == upto - 1);
        assert(has_predicted(state.predictions, p.user));
        assert(prediction_of(state.predictions, p.user) == p);
        assert(state.settled_pending(payload.price, p.user) is Some);
    }
}

/// Conservation in a Precision round: what one resolution grants to all
/// participants together is never more than the pot.
pub proof fn lemma_resolution_conserves_pot(state: State, call: Invocation, payload: OraclePayload)
    requires
        state.inv(),
        state.resolve_error(call, payload) is None,
        state.active_round->Some_0.mode == RoundMode::Precision,
    ensures
        granted_to_predictions(
            state,
            state.after_resolve(payload.price),
            state.predictions.len() as int,
        ) <= pot(state.predictions),
{
    lemma_granted_is_precision_total(state, call, payload, state.predictions.len() as int);
    lemma_precision_within_pot(state.predictions, payload.price);
}

} // verus!
