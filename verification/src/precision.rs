//! The payout engine for Precision rounds. The whole pot goes to the
//! predictions that come closest to the final price, split among them in
//! proportion to their stakes; every other prediction loses its stake.

use vstd::prelude::*;
use crate::errors::ContractError;
use crate::payout::lemma_share_bounds;
use crate::payout::payout_of;
use crate::payout::payout_value;
use crate::payout::winner_payout;
use crate::settlement::credit_pending;
use crate::settlement::credited;
use crate::settlement::owed;
use crate::settlement::record_of;
use crate::settlement::record_outcome;
use crate::settlement::recorded;
use crate::store::AddressMap;
use crate::types::Address;
use crate::types::PrecisionPrediction;
use crate::types::UserStats;

verus! {

/// How far a predicted price lies from the final one.
pub open spec fn distance(predicted: u128, final_price: u128) -> int {
    if predicted >= final_price {
        predicted - final_price
    } else {
        final_price - predicted
    }
}

/// The smallest distance of any prediction from the final price; zero where
/// there is no prediction.
pub open spec fn min_distance(predictions: Seq<PrecisionPrediction>, final_price: u128) -> int
    decreases predictions.len(),
{
    if predictions.len() == 0 {
        0
    } else if predictions.len() == 1 {
        distance(predictions[0].predicted_price, final_price)
    } else {
        let before = min_distance(predictions.drop_last(), final_price);
        let here = distance(predictions.last().predicted_price, final_price);
        if here < before {
            here
        } else {
            before
        }
    }
}

/// Whether a prediction is among the closest to the final price. A
/// prediction that matches the final price exactly always is.
pub open spec fn is_closest(
    predictions: Seq<PrecisionPrediction>,
    final_price: u128,
    prediction: PrecisionPrediction,
) -> bool {
    distance(prediction.predicted_price, final_price) == min_distance(predictions, final_price)
}

/// The pot of a round: all stakes added up.
pub open spec fn pot(predictions: Seq<PrecisionPrediction>) -> int
    decreases predictions.len(),
{
    if predictions.len() == 0 {
        0
    } else {
        pot(predictions.drop_last()) + predictions.last().amount
    }
}

/// The stakes of the predictions at distance `at` from the final price,
/// added up.
pub open spec fn stake_at(predictions: Seq<PrecisionPrediction>, final_price: u128, at: int) -> int
    decreases predictions.len(),
{
    if predictions.len() == 0 {
        0
    } else {
        stake_at(predictions.drop_last(), final_price, at) + (if distance(
            predictions.last().predicted_price,
            final_price,
        ) == at {
            predictions.last().amount as int
        } else {
            0
        })
    }
}

/// The stakes of the closest predictions, added up.
pub open spec fn closest_stake(predictions: Seq<PrecisionPrediction>, final_price: u128) -> int {
    stake_at(predictions, final_price, min_distance(predictions, final_price))
}

/// What a prediction is credited, in exact arithmetic: one of the closest
/// its stake and its share of the stakes that lost, any other nothing.
pub open spec fn precision_value(
    predictions: Seq<PrecisionPrediction>,
    final_price: u128,
    prediction: PrecisionPrediction,
) -> int {
    if is_closest(predictions, final_price, prediction) {
        payout_value(
            prediction.amount as int,
            closest_stake(predictions, final_price),
            pot(predictions) - closest_stake(predictions, final_price),
        )
    } else {
        0
    }
}

/// What a prediction is credited, as checked arithmetic yields it: `None`
/// where the pot or the payout leaves the range of `i128`.
pub open spec fn precision_credit(
    predictions: Seq<PrecisionPrediction>,
    final_price: u128,
    prediction: PrecisionPrediction,
) -> Option<int> {
    if pot(predictions) > i128::MAX {
        None
    } else if is_closest(predictions, final_price, prediction) {
        payout_of(
            prediction.amount as int,
            closest_stake(predictions, final_price),
            pot(predictions) - closest_stake(predictions, final_price),
        )
    } else {
        Some(0)
    }
}

/// What the resolution credits to all predictions together, in exact
/// arithmetic.
pub open spec fn precision_total(
    predictions: Seq<PrecisionPrediction>,
    final_price: u128,
    upto: int,
) -> int
    decreases upto,
{
    if upto <= 0 {
        0
    } else {
        precision_total(predictions, final_price, upto - 1) + precision_value(
            predictions,
            final_price,
            predictions[upto - 1],
        )
    }
}

/// Whether `user` has made a prediction.
pub open spec fn has_predicted(predictions: Seq<PrecisionPrediction>, user: Address) -> bool {
    exists|i: int| 0 <= i < predictions.len() && (#[trigger] predictions[i]).user == user
}

/// The prediction of `user`, where there is one.
pub open spec fn prediction_of(predictions: Seq<PrecisionPrediction>, user: Address) -> PrecisionPrediction {
    predictions[choose|i: int| 0 <= i < predictions.len() && (#[trigger] predictions[i]).user == user]
}

/// Every prediction holds a positive stake, and no user has made two.
pub open spec fn predictions_valid(predictions: Seq<PrecisionPrediction>) -> bool {
    &&& forall|i: int| 0 <= i < predictions.len() ==> (#[trigger] predictions[i]).amount > 0
    &&& forall|i: int, j: int|
        0 <= i < predictions.len() && 0 <= j < predictions.len() && i != j ==> (
        #[trigger] predictions[i]).user != (#[trigger] predictions[j]).user
}

/// No prediction lies closer to the final price than the smallest distance,
/// and where there is a prediction, one lies exactly that far.
pub proof fn lemma_min_distance(predictions: Seq<PrecisionPrediction>, final_price: u128)
    ensures
        0 <= min_distance(predictions, final_price),
        forall|i: int|
            0 <= i < predictions.len() ==> min_distance(predictions, final_price) <= distance(
                (#[trigger] predictions[i]).predicted_price,
                final_price,
            ),
        predictions.len() > 0 ==> exists|i: int|
            0 <= i < predictions.len() && is_closest(
                predictions,
                final_price,
                #[trigger] predictions[i],
            ),
    decreases predictions.len(),
{
    if predictions.len() == 1 {
        assert(is_closest(predictions, final_price, predictions[0]));
    } else if predictions.len() > 1 {
        let before = predictions.drop_last();
        lemma_min_distance(before, final_price);
        let here = distance(predictions.last().predicted_price, final_price);
        assert forall|i: int| 0 <= i < predictions.len() implies min_distance(
            predictions,
            final_price,
        ) <= distance((#[trigger] predictions[i]).predicted_price, final_price) by {
            if i < predictions.len() - 1 {
                assert(before[i] == predictions[i]);
            }
        }
        if here < min_distance(before, final_price) {
            assert(is_closest(predictions, final_price, predictions[predictions.len() - 1]));
        } else {
            let i = choose|i: int|
                0 <= i < before.len() && is_closest(before, final_price, #[trigger] before[i]);
            assert(before[i] == predictions[i]);
            assert(is_closest(predictions, final_price, predictions[i]));
        }
    }
}

/// The stakes at one distance never exceed the pot, and they hold the stake
/// of every prediction at that distance.
pub proof fn lemma_stake_at_bounds(
    predictions: Seq<PrecisionPrediction>,
    final_price: u128,
    at: int,
)
    requires
        forall|i: int| 0 <= i < predictions.len() ==> (#[trigger] predictions[i]).amount > 0,
    ensures
        0 <= stake_at(predictions, final_price, at) <= pot(predictions),
        forall|i: int|
            0 <= i < predictions.len() && distance(
                (#[trigger] predictions[i]).predicted_price,
                final_price,
            ) == at ==> predictions[i].amount <= stake_at(predictions, final_price, at),
    decreases predictions.len(),
{
    if predictions.len() > 0 {
        let before = predictions.drop_last();
        assert forall|i: int| 0 <= i < before.len() implies (#[trigger] before[i]).amount > 0 by {
            assert(before[i] == predictions[i]);
        }
        lemma_stake_at_bounds(before, final_price, at);
        assert(predictions[predictions.len() - 1].amount > 0);
        assert forall|i: int|
            0 <= i < predictions.len() && distance(
                (#[trigger] predictions[i]).predicted_price,
                final_price,
            ) == at implies predictions[i].amount <= stake_at(predictions, final_price, at) by {
            if i < predictions.len() - 1 {
                assert(before[i] == predictions[i]);
            }
        }
    }
}

/// With positive stakes, the closest predictions hold a positive part of the
/// pot, and what is left of the pot is not negative.
pub proof fn lemma_closest_stake(predictions: Seq<PrecisionPrediction>, final_price: u128)
    requires
        forall|i: int| 0 <= i < predictions.len() ==> (#[trigger] predictions[i]).amount > 0,
    ensures
        0 <= closest_stake(predictions, final_price) <= pot(predictions),
        predictions.len() > 0 ==> 0 < closest_stake(predictions, final_price),
        forall|i: int|
            0 <= i < predictions.len() && is_closest(
                predictions,
                final_price,
                #[trigger] predictions[i],
            ) ==> predictions[i].amount <= closest_stake(predictions, final_price),
{
    lemma_min_distance(predictions, final_price);
    lemma_stake_at_bounds(predictions, final_price, min_distance(predictions, final_price));
    if predictions.len() > 0 {
        let i = choose|i: int|
            0 <= i < predictions.len() && is_closest(
                predictions,
                final_price,
                #[trigger] predictions[i],
            );
        assert(predictions[i].amount > 0);
    }
}

/// No prediction is credited less than nothing, and one of the closest at
/// least its stake.
pub proof fn lemma_precision_value_bounds(
    predictions: Seq<PrecisionPrediction>,
    final_price: u128,
    i: int,
)
    requires
        forall|i: int| 0 <= i < predictions.len() ==> (#[trigger] predictions[i]).amount > 0,
        0 <= i < predictions.len(),
    ensures
        0 <= precision_value(predictions, final_price, predictions[i]),
        is_closest(predictions, final_price, predictions[i]) ==> predictions[i].amount
            <= precision_value(predictions, final_price, predictions[i]),
{
    lemma_closest_stake(predictions, final_price);
    assert(predictions[i].amount > 0);
    if is_closest(predictions, final_price, predictions[i]) {
        lemma_share_bounds(
            predictions[i].amount as int,
            closest_stake(predictions, final_price),
            pot(predictions) - closest_stake(predictions, final_price),
        );
    }
}

proof fn lemma_precision_shares_bounded(
    predictions: Seq<PrecisionPrediction>,
    final_price: u128,
    upto: int,
)
    requires
        forall|i: int| 0 <= i < predictions.len() ==> (#[trigger] predictions[i]).amount > 0,
        0 <= upto <= predictions.len(),
        predictions.len() > 0,
    ensures
        (precision_total(predictions, final_price, upto) - stake_at(
            predictions.subrange(0, upto),
            final_price,
            min_distance(predictions, final_price),
        )) * closest_stake(predictions, final_price) <= (pot(predictions) - closest_stake(
            predictions,
            final_price,
        )) * stake_at(
            predictions.subrange(0, upto),
            final_price,
            min_distance(predictions, final_price),
        ),
    decreases upto,
{
    let w = closest_stake(predictions, final_price);
    let l = pot(predictions) - w;
    let at = min_distance(predictions, final_price);
    lemma_closest_stake(predictions, final_price);
    if upto > 0 {
        lemma_precision_shares_bounded(predictions, final_price, upto - 1);
        let p = predictions[upto - 1];
        assert(p.amount > 0);
        assert(predictions.subrange(0, upto).drop_last() =~= predictions.subrange(0, upto - 1));
        assert(predictions.subrange(0, upto).last() == p);
        let t0 = precision_total(predictions, final_price, upto - 1);
        let s0 = stake_at(predictions.subrange(0, upto - 1), final_price, at);
        let c = precision_value(predictions, final_price, p);
        if is_closest(predictions, final_price, p) {
            let a = p.amount as int;
            lemma_share_bounds(a, w, l);
            assert(((t0 + c) - (s0 + a)) * w <= l * (s0 + a)) by (nonlinear_arith)
                requires
                    (t0 - s0) * w <= l * s0,
                    (c - a) * w <= a * l,
            ;
        }
    } else {
        assert(predictions.subrange(0, 0).len() == 0);
        assert((0int - 0int) * w <= l * 0int) by (nonlinear_arith);
    }
}

/// Conservation: the credits of one resolution to all predictions add up to
/// no more than the pot.
pub proof fn lemma_precision_within_pot(predictions: Seq<PrecisionPrediction>, final_price: u128)
    requires
        forall|i: int| 0 <= i < predictions.len() ==> (#[trigger] predictions[i]).amount > 0,
    ensures
        precision_total(predictions, final_price, predictions.len() as int) <= pot(predictions),
{
    if predictions.len() > 0 {
        let n = predictions.len() as int;
        lemma_precision_shares_bounded(predictions, final_price, n);
        lemma_closest_stake(predictions, final_price);
        assert(predictions.subrange(0, n) =~= predictions);
        let w = closest_stake(predictions, final_price);
        let l = pot(predictions) - w;
        let t = precision_total(predictions, final_price, n);
        assert(t - w <= l) by (nonlinear_arith)
            requires
                (t - w) * w <= l * w,
                0 < w,
        ;
    }
}

/// A prediction that matches the final price exactly is among the closest,
/// whatever the others predicted, and is paid at least its stake.
pub proof fn lemma_exact_match_is_closest(
    predictions: Seq<PrecisionPrediction>,
    final_price: u128,
    i: int,
)
    requires
        forall|i: int| 0 <= i < predictions.len() ==> (#[trigger] predictions[i]).amount > 0,
        0 <= i < predictions.len(),
        predictions[i].predicted_price == final_price,
    ensures
        is_closest(predictions, final_price, predictions[i]),
        predictions[i].amount <= precision_value(predictions, final_price, predictions[i]),
{
    lemma_min_distance(predictions, final_price);
    lemma_precision_value_bounds(predictions, final_price, i);
}

/// The first predictions of a list never hold more than the whole list.
proof fn lemma_pot_of_prefix(predictions: Seq<PrecisionPrediction>, upto: int)
    requires
        forall|i: int| 0 <= i < predictions.len() ==> (#[trigger] predictions[i]).amount > 0,
        0 <= upto <= predictions.len(),
    ensures
        pot(predictions.subrange(0, upto)) <= pot(predictions),
    decreases predictions.len() - upto,
{
    if upto == predictions.len() {
        assert(predictions.subrange(0, upto) =~= predictions);
    } else {
        lemma_pot_of_prefix(predictions, upto + 1);
        assert(predictions.subrange(0, upto + 1).drop_last() =~= predictions.subrange(0, upto));
        assert(predictions.subrange(0, upto + 1).last() == predictions[upto]);
        assert(predictions[upto].amount > 0);
    }
}

/// Whether `user` made one of the first `upto` predictions.
pub open spec fn predicted_before(
    predictions: Seq<PrecisionPrediction>,
    upto: int,
    user: Address,
) -> bool {
    exists|j: int| 0 <= j < upto && (#[trigger] predictions[j]).user == user
}

/// Whether `user` made one of the first `upto` predictions and it is among
/// the closest.
pub open spec fn won_before(
    predictions: Seq<PrecisionPrediction>,
    final_price: u128,
    upto: int,
    user: Address,
) -> bool {
    exists|j: int|
        0 <= j < upto && (#[trigger] predictions[j]).user == user && is_closest(
            predictions,
            final_price,
            predictions[j],
        )
}

proof fn lemma_predicted_step(
    predictions: Seq<PrecisionPrediction>,
    final_price: u128,
    upto: int,
    user: Address,
)
    requires
        0 <= upto < predictions.len(),
    ensures
        predicted_before(predictions, upto + 1, user) <==> predicted_before(
            predictions,
            upto,
            user,
        ) || predictions[upto].user == user,
        won_before(predictions, final_price, upto + 1, user) <==> won_before(
            predictions,
            final_price,
            upto,
            user,
        ) || (predictions[upto].user == user && is_closest(
            predictions,
            final_price,
            predictions[upto],
        )),
{
    if predicted_before(predictions, upto + 1, user) {
        let j = choose|j: int| 0 <= j < upto + 1 && (#[trigger] predictions[j]).user == user;
        if j < upto {
            assert(0 <= j < upto && predictions[j].user == user);
        }
    }
    if predicted_before(predictions, upto, user) {
        let j = choose|j: int| 0 <= j < upto && (#[trigger] predictions[j]).user == user;
        assert(0 <= j < upto + 1 && predictions[j].user == user);
    }
    if predictions[upto].user == user {
        assert(0 <= upto < upto + 1 && predictions[upto].user == user);
    }
    if won_before(predictions, final_price, upto + 1, user) {
        let j = choose|j: int|
            0 <= j < upto + 1 && (#[trigger] predictions[j]).user == user && is_closest(
                predictions,
                final_price,
                predictions[j],
            );
        if j < upto {
            assert(0 <= j < upto && predictions[j].user == user && is_closest(
                predictions,
                final_price,
                predictions[j],
            ));
        }
    }
    if won_before(predictions, final_price, upto, user) {
        let j = choose|j: int|
            0 <= j < upto && (#[trigger] predictions[j]).user == user && is_closest(
                predictions,
                final_price,
                predictions[j],
            );
        assert(0 <= j < upto + 1 && predictions[j].user == user && is_closest(
            predictions,
            final_price,
            predictions[j],
        ));
    }
    if predictions[upto].user == user && is_closest(predictions, final_price, predictions[upto]) {
        assert(0 <= upto < upto + 1 && predictions[upto].user == user && is_closest(
            predictions,
            final_price,
            predictions[upto],
        ));
    }
}

proof fn lemma_not_predicted(predictions: Seq<PrecisionPrediction>, upto: int, user: Address)
    requires
        0 <= upto < predictions.len(),
        !predicted_before(predictions, upto + 1, user),
    ensures
        !predicted_before(predictions, upto, user),
        predictions[upto].user != user,
{
    if predicted_before(predictions, upto, user) {
        let j = choose|j: int| 0 <= j < upto && (#[trigger] predictions[j]).user == user;
        assert(0 <= j < upto + 1 && predictions[j].user == user);
    }
    if predictions[upto].user == user {
        assert(0 <= upto < upto + 1 && predictions[upto].user == user);
    }
}

/// How far a predicted price lies from the final one.
pub fn price_distance(predicted: u128, final_price: u128) -> (d: u128)
    ensures
        d == distance(predicted, final_price),
{
    if predicted >= final_price {
        predicted - final_price
    } else {
        final_price - predicted
    }
}

/// Finds the smallest distance of any prediction from the final price.
pub fn closest_distance(predictions: &Vec<PrecisionPrediction>, final_price: u128) -> (best: u128)
    ensures
        best == min_distance(predictions@, final_price),
{
    if predictions.len() == 0 {
        return 0;
    }
    let mut best: u128 = price_distance(predictions[0].predicted_price, final_price);
    let mut i: usize = 1;
    assert(predictions@.subrange(0, 1).len() == 1);
    while i < predictions.len()
        invariant
            1 <= i <= predictions@.len(),
            best == min_distance(predictions@.subrange(0, i as int), final_price),
        decreases predictions@.len() - i,
    {
        let here: u128 = price_distance(predictions[i].predicted_price, final_price);
        proof {
            let next = predictions@.subrange(0, i + 1);
            assert(next.drop_last() =~= predictions@.subrange(0, i as int));
            assert(next.last() == predictions@[i as int]);
            assert(next.len() > 1);
        }
        if here < best {
            best = here;
        }
        i += 1;
    }
    assert(predictions@.subrange(0, predictions@.len() as int) =~= predictions@);
    best
}

/// Adds up the pot and the stakes at distance `at` from the final price.
pub fn tally(predictions: &Vec<PrecisionPrediction>, final_price: u128, at: u128) -> (sums: Result<
    (i128, i128),
    ContractError,
>)
    requires
        forall|i: int| 0 <= i < predictions@.len() ==> (#[trigger] predictions@[i]).amount > 0,
    ensures
        match sums {
            Ok((whole, part)) => whole == pot(predictions@) && part == stake_at(
                predictions@,
                final_price,
                at as int,
            ),
            Err(e) => e == ContractError::Overflow && pot(predictions@) > i128::MAX,
        },
{
    let mut whole: i128 = 0;
    let mut part: i128 = 0;
    let mut i: usize = 0;
    assert(predictions@.subrange(0, 0).len() == 0);
    while i < predictions.len()
        invariant
            forall|i: int| 0 <= i < predictions@.len() ==> (#[trigger] predictions@[i]).amount > 0,
            i <= predictions@.len(),
            whole == pot(predictions@.subrange(0, i as int)),
            part == stake_at(predictions@.subrange(0, i as int), final_price, at as int),
        decreases predictions@.len() - i,
    {
        let prediction = predictions[i];
        proof {
            let next = predictions@.subrange(0, i + 1);
            assert(next.drop_last() =~= predictions@.subrange(0, i as int));
            assert(next.last() == predictions@[i as int]);
            assert forall|k: int| 0 <= k < next.len() implies (#[trigger] next[k]).amount > 0 by {
                assert(next[k] == predictions@[k]);
            }
            lemma_stake_at_bounds(next, final_price, at as int);
            lemma_pot_of_prefix(predictions@, i + 1);
        }
        whole = match whole.checked_add(prediction.amount) {
            Some(sum) => sum,
            None => { return Err(ContractError::Overflow); },
        };
        if price_distance(prediction.predicted_price, final_price) == at {
            part = part + prediction.amount;
        }
        i += 1;
    }
    assert(predictions@.subrange(0, predictions@.len() as int) =~= predictions@);
    Ok((whole, part))
}

/// Records the outcome of a Precision round: every prediction that comes
/// closest to the final price is credited its stake and its share of the
/// stakes that lost, and counts a win; every other prediction counts a loss.
pub fn record_precision(
    predictions: &Vec<PrecisionPrediction>,
    final_price: u128,
    pending: &mut AddressMap<i128>,
    stats: &mut AddressMap<UserStats>,
) -> (done: Result<(), ContractError>)
    requires
        predictions_valid(predictions@),
        old(pending).wf(),
        old(stats).wf(),
    ensures
        final(pending).wf(),
        final(stats).wf(),
        match done {
            Ok(()) => {
                &&& forall|i: int|
                    0 <= i < predictions@.len() ==> credited(
                        owed(old(pending)@, (#[trigger] predictions@[i]).user),
                        precision_credit(predictions@, final_price, predictions@[i]),
                    ) == Some(owed(final(pending)@, predictions@[i].user)) && recorded(
                        record_of(old(stats)@, predictions@[i].user),
                        Some(is_closest(predictions@, final_price, predictions@[i])),
                    ) == Some(record_of(final(stats)@, predictions@[i].user))
                &&& forall|a: Address|
                    !has_predicted(predictions@, a) ==> #[trigger] owed(final(pending)@, a)
                        == owed(old(pending)@, a)
                &&& forall|a: Address|
                    !has_predicted(predictions@, a) ==> #[trigger] record_of(final(stats)@, a)
                        == record_of(old(stats)@, a)
                &&& forall|a: Address| #[trigger]
                    final(pending)@.contains_key(a) <==> old(pending)@.contains_key(a)
                        || won_before(predictions@, final_price, predictions@.len() as int, a)
                &&& forall|a: Address| #[trigger]
                    final(stats)@.contains_key(a) <==> old(stats)@.contains_key(a)
                        || has_predicted(predictions@, a)
            },
            Err(e) => {
                &&& e == ContractError::Overflow
                &&& final(pending)@ == old(pending)@
                &&& final(stats)@ == old(stats)@
                &&& exists|i: int|
                    0 <= i < predictions@.len() && (credited(
                        owed(old(pending)@, (#[trigger] predictions@[i]).user),
                        precision_credit(predictions@, final_price, predictions@[i]),
                    ) is None || recorded(
                        record_of(old(stats)@, predictions@[i].user),
                        Some(is_closest(predictions@, final_price, predictions@[i])),
                    ) is None)
            },
        },
{
    if predictions.len() == 0 {
        proof {
            assert forall|a: Address| !predicted_before(predictions@, 0, a) by {}
        }
        return Ok(());
    }
    let best: u128 = closest_distance(predictions, final_price);
    let (whole, part) = match tally(predictions, final_price, best) {
        Ok(sums) => sums,
        Err(e) => {
            proof {
                assert(precision_credit(predictions@, final_price, predictions@[0]) is None);
            }
            return Err(e);
        },
    };
    proof {
        lemma_closest_stake(predictions@, final_price);
    }
    let rest: i128 = whole - part;
    let mut work_pending = pending.duplicate();
    let mut work_stats = stats.duplicate();
    let mut i: usize = 0;
    while i < predictions.len()
        invariant
            pending.wf(),
            pending@ == old(pending)@,
            stats.wf(),
            stats@ == old(stats)@,
            predictions_valid(predictions@),
            work_pending.wf(),
            work_stats.wf(),
            i <= predictions@.len(),
            best == min_distance(predictions@, final_price),
            whole == pot(predictions@),
            part == closest_stake(predictions@, final_price),
            rest == whole - part,
            0 < part <= whole,
            forall|j: int|
                0 <= j < i ==> credited(
                    owed(old(pending)@, (#[trigger] predictions@[j]).user),
                    precision_credit(predictions@, final_price, predictions@[j]),
                ) == Some(owed(work_pending@, predictions@[j].user)) && recorded(
                    record_of(old(stats)@, predictions@[j].user),
                    Some(is_closest(predictions@, final_price, predictions@[j])),
                ) == Some(record_of(work_stats@, predictions@[j].user)),
            forall|a: Address|
                !predicted_before(predictions@, i as int, a) ==> #[trigger] owed(work_pending@, a)
                    == owed(old(pending)@, a),
            forall|a: Address|
                !predicted_before(predictions@, i as int, a) ==> #[trigger] record_of(work_stats@, a)
                    == record_of(old(stats)@, a),
            forall|a: Address| #[trigger]
                work_pending@.contains_key(a) <==> old(pending)@.contains_key(a) || won_before(
                    predictions@,
                    final_price,
                    i as int,
                    a,
                ),
            forall|a: Address| #[trigger]
                work_stats@.contains_key(a) <==> old(stats)@.contains_key(a) || predicted_before(
                    predictions@,
                    i as int,
                    a,
                ),
        decreases predictions@.len() - i,
    {
        let prediction = predictions[i];
        let user = prediction.user;
        let ghost pending_before = work_pending@;
        let ghost stats_before = work_stats@;
        proof {
            assert(predictions@[i as int].amount > 0);
            if predicted_before(predictions@, i as int, user) {
                let j = choose|j: int| 0 <= j < i && (#[trigger] predictions@[j]).user == user;
                assert(predictions@[j].user == predictions@[i as int].user);
            }
            assert(owed(work_pending@, user) == owed(old(pending)@, user));
            assert(record_of(work_stats@, user) == record_of(old(stats)@, user));
        }
        if price_distance(prediction.predicted_price, final_price) == best {
            let payout = match winner_payout(prediction.amount, part, rest) {
                Ok(p) => p,
                Err(e) => { return Err(e); },
            };
            match credit_pending(&mut work_pending, user, payout) {
                Ok(()) => {},
                Err(e) => { return Err(e); },
            }
            match record_outcome(&mut work_stats, user, true) {
                Ok(()) => {},
                Err(e) => { return Err(e); },
            }
        } else {
            match record_outcome(&mut work_stats, user, false) {
                Ok(()) => {},
                Err(e) => { return Err(e); },
            }
        }
        proof {
            assert forall|a: Address| #[trigger]
                work_pending@.contains_key(a) <==> old(pending)@.contains_key(a) || won_before(
                    predictions@,
                    final_price,
                    i + 1,
                    a,
                ) by {
                lemma_predicted_step(predictions@, final_price, i as int, a);
                assert(pending_before.contains_key(a) <==> old(pending)@.contains_key(a)
                    || won_before(predictions@, final_price, i as int, a));
            }
            assert forall|a: Address| #[trigger]
                work_stats@.contains_key(a) <==> old(stats)@.contains_key(a) || predicted_before(
                    predictions@,
                    i + 1,
                    a,
                ) by {
                lemma_predicted_step(predictions@, final_price, i as int, a);
                assert(stats_before.contains_key(a) <==> old(stats)@.contains_key(a)
                    || predicted_before(predictions@, i as int, a));
            }
            assert forall|a: Address|
                !predicted_before(predictions@, i + 1, a) implies #[trigger] owed(work_pending@, a)
                == owed(old(pending)@, a) by {
                lemma_not_predicted(predictions@, i as int, a);
                assert(owed(pending_before, a) == owed(old(pending)@, a));
            }
            assert forall|a: Address|
                !predicted_before(predictions@, i + 1, a) implies #[trigger] record_of(work_stats@, a)
                == record_of(old(stats)@, a) by {
                lemma_not_predicted(predictions@, i as int, a);
                assert(record_of(stats_before, a) == record_of(old(stats)@, a));
            }
            assert forall|j: int| 0 <= j < i implies owed(
                work_pending@,
                (#[trigger] predictions@[j]).user,
            ) == owed(pending_before, predictions@[j].user) && record_of(
                work_stats@,
                predictions@[j].user,
            ) == record_of(stats_before, predictions@[j].user) by {
                assert(predictions@[j].user != predictions@[i as int].user);
            }
        }
        i += 1;
    }
    proof {
        assert forall|a: Address| !has_predicted(predictions@, a) implies #[trigger] owed(
            work_pending@,
            a,
        ) == owed(old(pending)@, a) by {
            assert(!predicted_before(predictions@, predictions@.len() as int, a));
        }
        assert forall|a: Address| !has_predicted(predictions@, a) implies #[trigger] record_of(
            work_stats@,
            a,
        ) == record_of(old(stats)@, a) by {
            assert(!predicted_before(predictions@, predictions@.len() as int, a));
        }
    }
    *pending = work_pending;
    *stats = work_stats;
    Ok(())
}

} // verus!
