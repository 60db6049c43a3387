//! Why the market's invariant holds at all times: it holds at the start,
//! and every entry point that succeeds keeps it.

use vstd::prelude::*;
use crate::invocation::Invocation;
use crate::model::State;
use crate::precision::has_predicted;
use crate::precision::lemma_precision_value_bounds;
use crate::precision::prediction_of;
use crate::settlement::lemma_credit_not_negative;
use crate::settlement::lemma_pools_cover_new_position;
use crate::settlement::lemma_pools_cover_nothing;
use crate::settlement::stake_on;
use crate::stats::lemma_outcome_is_monotonic;
use crate::types::Address;
use crate::types::BetSide;
use crate::types::OraclePayload;
use crate::types::RoundMode;
use crate::types::UserPosition;

verus! {

/// The invariant holds before anything has happened.
pub proof fn lemma_initial_inv()
    ensures
        State::initial().inv(),
{
}

/// `initialize` keeps the invariant.
pub proof fn lemma_initialize_keeps_inv(state: State, admin: Address, oracle: Address)
    requires
        state.inv(),
    ensures
        state.after_initialize(admin, oracle).inv(),
{
}

/// `set_windows` keeps the invariant.
pub proof fn lemma_set_windows_keeps_inv(
    state: State,
    call: Invocation,
    bet_ledgers: u32,
    run_ledgers: u32,
)
    requires
        state.inv(),
        state.set_windows_error(call, bet_ledgers, run_ledgers) is None,
    ensures
        state.after_set_windows(bet_ledgers, run_ledgers).inv(),
{
}

/// `create_round` keeps the invariant.
pub proof fn lemma_create_round_keeps_inv(
    state: State,
    call: Invocation,
    start_price: u128,
    mode: RoundMode,
)
    requires
        state.inv(),
        state.create_round_error(call, start_price, mode) is None,
    ensures
        state.after_create_round(call, start_price, mode).inv(),
{
    lemma_pools_cover_nothing(0, 0);
}

/// `place_bet` keeps the invariant.
pub proof fn lemma_place_bet_keeps_inv(
    state: State,
    call: Invocation,
    user: Address,
    amount: i128,
    side: BetSide,
)
    requires
        state.inv(),
        state.place_bet_error(call, user, amount, side) is None,
    ensures
        state.after_place_bet(user, amount, side).inv(),
{
    let round = state.active_round->Some_0;
    let position = UserPosition { amount, side };
    let after = state.after_place_bet(user, amount, side);
    lemma_pools_cover_new_position(
        state.positions,
        round.pool_up as int,
        round.pool_down as int,
        user,
        position,
    );
    assert(after.active_round->Some_0.pool_up == round.pool_up + stake_on(position, BetSide::Up));
    assert(after.active_round->Some_0.pool_down == round.pool_down + stake_on(
        position,
        BetSide::Down,
    ));
    assert(after.predictions.len() == 0);
}

/// `place_precision_prediction` keeps the invariant.
pub proof fn lemma_place_prediction_keeps_inv(
    state: State,
    call: Invocation,
    user: Address,
    amount: i128,
    predicted_price: u128,
)
    requires
        state.inv(),
        state.place_prediction_error(call, user, amount) is None,
    ensures
        state.after_place_prediction(user, amount, predicted_price).inv(),
{
    let after = state.after_place_prediction(user, amount, predicted_price);
    let n = state.predictions.len() as int;
    assert forall|i: int, j: int|
        0 <= i < after.predictions.len() && 0 <= j < after.predictions.len() && i != j implies (
    #[trigger] after.predictions[i]).user != (#[trigger] after.predictions[j]).user by {
        if i < n {
            assert(after.predictions[i] == state.predictions[i]);
        }
        if j < n {
            assert(after.predictions[j] == state.predictions[j]);
        }
    }
    assert forall|i: int| 0 <= i < after.predictions.len() implies (
    #[trigger] after.predictions[i]).amount > 0 by {
        if i < n {
            assert(after.predictions[i] == state.predictions[i]);
        }
    }
}

/// What a resolution credits to a user is never negative.
pub proof fn lemma_credit_for_not_negative(state: State, final_price: u128, user: Address)
    requires
        state.inv(),
        state.credit_for(final_price, user) is Some,
    ensures
        0 <= state.credit_for(final_price, user)->Some_0,
{
    match state.active_round {
        Some(round) => {
            match round.mode {
                RoundMode::UpDown => {
                    if state.positions.contains_key(user) {
                        assert(state.positions[user].amount > 0);
                        lemma_credit_not_negative(round, final_price, state.positions[user]);
                    }
                },
                RoundMode::Precision => {
                    if has_predicted(state.predictions, user) {
                        let i = choose|i: int|
                            0 <= i < state.predictions.len() && (
                            #[trigger] state.predictions[i]).user == user;
                        assert(prediction_of(state.predictions, user) == state.predictions[i]);
                        lemma_precision_value_bounds(state.predictions, final_price, i);
                    }
                },
            }
        },
        None => {},
    }
}

/// `resolve_round` keeps the invariant.
pub proof fn lemma_resolve_keeps_inv(state: State, call: Invocation, payload: OraclePayload)
    requires
        state.inv(),
        state.resolve_error(call, payload) is None,
    ensures
        state.after_resolve(payload.price).inv(),
{
    let after = state.after_resolve(payload.price);
    assert forall|a: Address| 0 <= #[trigger] after.pending[a] by {
        assert(state.settled_pending(payload.price, a) is Some);
        lemma_credit_for_not_negative(state, payload.price, a);
        assert(0 <= state.pending[a]);
    }
    assert forall|a: Address| (#[trigger] after.stats[a]).valid() by {
        assert(state.settled_pending(payload.price, a) is Some);
        assert(state.settled_stats(payload.price, a) is Some);
        assert(state.stats[a].valid());
        match state.outcome_for(payload.price, a) {
            Some(won) => {
                lemma_outcome_is_monotonic(state.stats[a], won);
            },
            None => {},
        }
    }
    assert(crate::settlement::stakes_positive(after.positions));
    assert(crate::precision::predictions_valid(after.predictions));
}

/// `claim_winnings` keeps the invariant.
pub proof fn lemma_claim_keeps_inv(state: State, call: Invocation, user: Address)
    requires
        state.inv(),
        state.claim_error(call, user) is None,
    ensures
        state.after_claim(user).inv(),
{
    assert(0 <= state.pending[user]);
    if state.balances.contains_key(user) {
        assert(0 <= state.balances[user]);
    }
}

/// `mint_initial` keeps the invariant.
pub proof fn lemma_mint_keeps_inv(state: State, user: Address)
    requires
        state.inv(),
    ensures
        state.after_mint(user).inv(),
{
}

} // verus!
