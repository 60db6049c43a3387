//! The payout engine for Up/Down rounds: what a resolution credits to each
//! position, and why it never credits more than the pools hold.

use vstd::prelude::*;
use crate::errors::ContractError;
use crate::payout::lemma_share_bounds;
use crate::payout::payout_of;
use crate::payout::payout_value;
use crate::payout::winner_payout;
use crate::positions::PositionLedger;
use crate::store::AddressMap;
use crate::types::Address;
use crate::types::BetSide;
use crate::types::Round;
use crate::types::UserPosition;
use crate::types::UserStats;

verus! {

/// The side that wins when the price moves from `price_start` to
/// `final_price`; `None` where the price is unchanged.
pub open spec fn winning_side(price_start: u128, final_price: u128) -> Option<BetSide> {
    if final_price > price_start {
        Some(BetSide::Up)
    } else if final_price < price_start {
        Some(BetSide::Down)
    } else {
        None
    }
}

/// The side opposite to `side`.
pub open spec fn other_side(side: BetSide) -> BetSide {
    match side {
        BetSide::Up => BetSide::Down,
        BetSide::Down => BetSide::Up,
    }
}

/// The pool of a round that holds the stakes on `side`.
pub open spec fn pool_of(round: Round, side: BetSide) -> i128 {
    match side {
        BetSide::Up => round.pool_up,
        BetSide::Down => round.pool_down,
    }
}

/// What a position counts towards the pool of `side`.
pub open spec fn stake_on(position: UserPosition, side: BetSide) -> int {
    if position.side == side {
        position.amount as int
    } else {
        0
    }
}

/// What a position is credited when `side` wins, in exact arithmetic: a
/// winner its stake and its share of the losing pool, a loser nothing, and
/// nobody anything where the winning pool is empty.
pub open spec fn winnings_value(
    position: UserPosition,
    side: BetSide,
    winning_pool: int,
    losing_pool: int,
) -> int {
    if winning_pool != 0 && position.side == side {
        payout_value(position.amount as int, winning_pool, losing_pool)
    } else {
        0
    }
}

/// What a position is credited when `side` wins, as checked arithmetic
/// yields it: `None` where the payout leaves the range of `i128`.
pub open spec fn winnings_credit(
    position: UserPosition,
    side: BetSide,
    winning_pool: int,
    losing_pool: int,
) -> Option<int> {
    if winning_pool != 0 && position.side == side {
        payout_of(position.amount as int, winning_pool, losing_pool)
    } else {
        Some(0)
    }
}

/// Whether a position counts as a win (`Some(true)`), as a loss
/// (`Some(false)`) or as neither when `side` wins: with an empty winning
/// pool nothing is recorded.
pub open spec fn winnings_outcome(position: UserPosition, side: BetSide, winning_pool: int) -> Option<
    bool,
> {
    if winning_pool != 0 {
        Some(position.side == side)
    } else {
        None
    }
}

/// What the resolution of `round` at `final_price` credits to a position, in
/// exact arithmetic: the stake where the price is unchanged, else the
/// winnings.
pub open spec fn credit_value(round: Round, final_price: u128, position: UserPosition) -> int {
    match winning_side(round.price_start, final_price) {
        None => position.amount as int,
        Some(side) => winnings_value(
            position,
            side,
            pool_of(round, side) as int,
            pool_of(round, other_side(side)) as int,
        ),
    }
}

/// What the resolution credits to a position, as checked arithmetic yields it.
pub open spec fn credit_of(round: Round, final_price: u128, position: UserPosition) -> Option<int> {
    match winning_side(round.price_start, final_price) {
        None => Some(position.amount as int),
        Some(side) => winnings_credit(
            position,
            side,
            pool_of(round, side) as int,
            pool_of(round, other_side(side)) as int,
        ),
    }
}

/// Whether the resolution counts a position as a win, as a loss, or as
/// neither (a refund, or an empty winning pool).
pub open spec fn outcome_of(round: Round, final_price: u128, position: UserPosition) -> Option<bool> {
    match winning_side(round.price_start, final_price) {
        None => None,
        Some(side) => winnings_outcome(position, side, pool_of(round, side) as int),
    }
}

/// What a user is owed according to the stored entries: nothing where no
/// entry is stored.
pub open spec fn owed(pending: Map<Address, i128>, user: Address) -> i128 {
    if pending.contains_key(user) {
        pending[user]
    } else {
        0
    }
}

/// The record of a user according to the stored entries: all zeros where no
/// entry is stored.
pub open spec fn record_of(stats: Map<Address, UserStats>, user: Address) -> UserStats {
    if stats.contains_key(user) {
        stats[user]
    } else {
        UserStats::spec_new()
    }
}

/// What a user is owed once a credit is added; `None` where the credit
/// could not be computed or the sum leaves the range of `i128`.
pub open spec fn credited(owed: i128, credit: Option<int>) -> Option<i128> {
    match credit {
        Some(c) => if owed + c > i128::MAX || owed + c < i128::MIN {
            None
        } else {
            Some((owed + c) as i128)
        },
        None => None,
    }
}

/// The record of a user once an outcome is counted, if there is one to
/// count; `None` where a counter leaves its range.
pub open spec fn recorded(stats: UserStats, outcome: Option<bool>) -> Option<UserStats> {
    match outcome {
        Some(won) => stats.after_outcome(won),
        None => Some(stats),
    }
}

/// `users` names every holder of a position exactly once.
pub open spec fn enumerates(users: Seq<Address>, positions: Map<Address, UserPosition>) -> bool {
    &&& users.no_duplicates()
    &&& forall|a: Address| users.contains(a) <==> positions.contains_key(a)
}

/// The stakes on `side` of the positions that `users` names, added up.
pub open spec fn staked_on(
    users: Seq<Address>,
    positions: Map<Address, UserPosition>,
    side: BetSide,
) -> int
    decreases users.len(),
{
    if users.len() == 0 {
        0
    } else {
        staked_on(users.drop_last(), positions, side) + stake_on(positions[users.last()], side)
    }
}

/// What the resolution of `round` at `final_price` credits to the positions
/// that `users` names, added up.
pub open spec fn credited_total(
    users: Seq<Address>,
    positions: Map<Address, UserPosition>,
    round: Round,
    final_price: u128,
) -> int
    decreases users.len(),
{
    if users.len() == 0 {
        0
    } else {
        credited_total(users.drop_last(), positions, round, final_price) + credit_value(
            round,
            final_price,
            positions[users.last()],
        )
    }
}

/// Every position holds a positive stake.
pub open spec fn stakes_positive(positions: Map<Address, UserPosition>) -> bool {
    forall|a: Address| positions.contains_key(a) ==> (#[trigger] positions[a]).amount > 0
}

/// The pools hold at least what the positions on their side add up to,
/// however the positions are listed.
pub open spec fn pools_cover(
    positions: Map<Address, UserPosition>,
    pool_up: int,
    pool_down: int,
) -> bool {
    forall|users: Seq<Address>| #[trigger]
        enumerates(users, positions) ==> staked_on(users, positions, BetSide::Up) <= pool_up
            && staked_on(users, positions, BetSide::Down) <= pool_down
}

/// Leaving one user out of a list lowers the sum by that user's stake.
pub proof fn lemma_staked_without(
    users: Seq<Address>,
    positions: Map<Address, UserPosition>,
    side: BetSide,
    i: int,
)
    requires
        0 <= i < users.len(),
    ensures
        staked_on(users, positions, side) == staked_on(users.remove(i), positions, side)
            + stake_on(positions[users[i]], side),
    decreases users.len(),
{
    if i == users.len() - 1 {
        assert(users.remove(i) =~= users.drop_last());
    } else {
        lemma_staked_without(users.drop_last(), positions, side, i);
        assert(users.remove(i).drop_last() =~= users.drop_last().remove(i));
        assert(users.remove(i).last() == users.last());
    }
}

/// Two sets of positions that agree on the listed users give the same sum.
pub proof fn lemma_staked_agrees(
    users: Seq<Address>,
    before: Map<Address, UserPosition>,
    after: Map<Address, UserPosition>,
    side: BetSide,
)
    requires
        forall|j: int| 0 <= j < users.len() ==> before[#[trigger] users[j]] == after[users[j]],
    ensures
        staked_on(users, before, side) == staked_on(users, after, side),
    decreases users.len(),
{
    if users.len() > 0 {
        lemma_staked_agrees(users.drop_last(), before, after, side);
        assert(before[users[users.len() - 1]] == after[users[users.len() - 1]]);
    }
}

/// A new position raises the pool of its side by its stake, and the pools
/// still cover the positions.
pub proof fn lemma_pools_cover_new_position(
    positions: Map<Address, UserPosition>,
    pool_up: int,
    pool_down: int,
    user: Address,
    position: UserPosition,
)
    requires
        pools_cover(positions, pool_up, pool_down),
        !positions.contains_key(user),
    ensures
        pools_cover(
            positions.insert(user, position),
            pool_up + stake_on(position, BetSide::Up),
            pool_down + stake_on(position, BetSide::Down),
        ),
{
    let after = positions.insert(user, position);
    assert forall|users: Seq<Address>| #[trigger] enumerates(users, after) implies staked_on(
        users,
        after,
        BetSide::Up,
    ) <= pool_up + stake_on(position, BetSide::Up) && staked_on(users, after, BetSide::Down)
        <= pool_down + stake_on(position, BetSide::Down) by {
        assert(after.contains_key(user));
        assert(users.contains(user));
        let i = users.index_of(user);
        let rest = users.remove(i);
        assert(rest.no_duplicates()) by {
            assert forall|j: int, k: int|
                0 <= j < rest.len() && 0 <= k < rest.len() && j != k implies rest[j]
                != rest[k] by {
                let jj = if j < i { j } else { j + 1 };
                let kk = if k < i { k } else { k + 1 };
                assert(rest[j] == users[jj]);
                assert(rest[k] == users[kk]);
            }
        }
        assert forall|a: Address| rest.contains(a) <==> positions.contains_key(a) by {
            if rest.contains(a) {
                let j = rest.index_of(a);
                let jj = if j < i { j } else { j + 1 };
                assert(rest[j] == users[jj]);
                assert(users.contains(a));
                assert(a != user);
            }
            if positions.contains_key(a) {
                assert(after.contains_key(a));
                assert(users.contains(a));
                let j = users.index_of(a);
                assert(j != i);
                let jj = if j < i { j } else { j - 1 };
                assert(rest[jj] == a);
            }
        }
        assert(enumerates(rest, positions));
        assert forall|j: int| 0 <= j < rest.len() implies positions[#[trigger] rest[j]] == after[rest[j]] by {
            assert(rest.contains(rest[j]));
        }
        lemma_staked_without(users, after, BetSide::Up, i);
        lemma_staked_without(users, after, BetSide::Down, i);
        lemma_staked_agrees(rest, positions, after, BetSide::Up);
        lemma_staked_agrees(rest, positions, after, BetSide::Down);
    }
}

/// However the positions are listed, their stakes on a side add up to the
/// same.
pub proof fn lemma_staked_same_for_every_listing(
    first: Seq<Address>,
    second: Seq<Address>,
    positions: Map<Address, UserPosition>,
    side: BetSide,
)
    requires
        enumerates(first, positions),
        enumerates(second, positions),
    ensures
        staked_on(first, positions, side) == staked_on(second, positions, side),
    decreases first.len(),
{
    if first.len() == 0 {
        if second.len() > 0 {
            assert(second.contains(second[0]));
            assert(positions.contains_key(second[0]));
            assert(first.contains(second[0]));
        }
    } else {
        let user = first.last();
        assert(first.contains(user)) by {
            assert(first[first.len() - 1] == user);
        }
        assert(positions.contains_key(user));
        assert(second.contains(user));
        let i = second.index_of(user);
        let rest = positions.remove(user);
        let first_rest = first.drop_last();
        let second_rest = second.remove(i);
        assert(enumerates(first_rest, rest)) by {
            assert forall|a: Address| first_rest.contains(a) <==> rest.contains_key(a) by {
                if first_rest.contains(a) {
                    let j = first_rest.index_of(a);
                    assert(first[j] == a);
                    assert(first.contains(a));
                    assert(a != user);
                }
                if rest.contains_key(a) {
                    assert(first.contains(a));
                    let j = first.index_of(a);
                    assert(j != first.len() - 1);
                    assert(first_rest[j] == a);
                }
            }
        }
        assert(enumerates(second_rest, rest)) by {
            assert forall|j: int, k: int|
                0 <= j < second_rest.len() && 0 <= k < second_rest.len() && j != k implies second_rest[j]
                != second_rest[k] by {
                let jj = if j < i { j } else { j + 1 };
                let kk = if k < i { k } else { k + 1 };
                assert(second_rest[j] == second[jj]);
                assert(second_rest[k] == second[kk]);
            }
            assert forall|a: Address| second_rest.contains(a) <==> rest.contains_key(a) by {
                if second_rest.contains(a) {
                    let j = second_rest.index_of(a);
                    let jj = if j < i { j } else { j + 1 };
                    assert(second_rest[j] == second[jj]);
                    assert(second.contains(a));
                    assert(a != user);
                }
                if rest.contains_key(a) {
                    assert(second.contains(a));
                    let j = second.index_of(a);
                    assert(j != i);
                    let jj = if j < i { j } else { j - 1 };
                    assert(second_rest[jj] == a);
                }
            }
        }
        lemma_staked_same_for_every_listing(first_rest, second_rest, rest, side);
        assert forall|j: int| 0 <= j < first_rest.len() implies rest[#[trigger] first_rest[j]]
            == positions[first_rest[j]] by {
            assert(first_rest.contains(first_rest[j]));
        }
        assert forall|j: int| 0 <= j < second_rest.len() implies rest[#[trigger] second_rest[j]]
            == positions[second_rest[j]] by {
            assert(second_rest.contains(second_rest[j]));
        }
        lemma_staked_agrees(first_rest, rest, positions, side);
        lemma_staked_agrees(second_rest, rest, positions, side);
        lemma_staked_without(second, positions, side, i);
    }
}

/// No positions are covered by any pools that are not negative.
pub proof fn lemma_pools_cover_nothing(pool_up: int, pool_down: int)
    requires
        0 <= pool_up,
        0 <= pool_down,
    ensures
        pools_cover(Map::<Address, UserPosition>::empty(), pool_up, pool_down),
{
    let none = Map::<Address, UserPosition>::empty();
    assert forall|users: Seq<Address>| #[trigger] enumerates(users, none) implies staked_on(
        users,
        none,
        BetSide::Up,
    ) <= pool_up && staked_on(users, none, BetSide::Down) <= pool_down by {
        if users.len() > 0 {
            assert(users.contains(users[0]));
        }
    }
}

/// The stakes of positive positions never add up to less than nothing.
pub proof fn lemma_staked_not_negative(
    users: Seq<Address>,
    positions: Map<Address, UserPosition>,
    side: BetSide,
)
    requires
        forall|j: int| 0 <= j < users.len() ==> (#[trigger] positions[users[j]]).amount > 0,
    ensures
        0 <= staked_on(users, positions, side),
    decreases users.len(),
{
    if users.len() > 0 {
        lemma_staked_not_negative(users.drop_last(), positions, side);
        assert(positions[users[users.len() - 1]].amount > 0);
    }
}

/// When a side wins, the shares that the listed winners take from the
/// losing pool, multiplied back by the winning pool, stay within the losing
/// pool times what those winners staked.
proof fn lemma_shares_bounded(
    users: Seq<Address>,
    positions: Map<Address, UserPosition>,
    round: Round,
    final_price: u128,
    side: BetSide,
)
    requires
        winning_side(round.price_start, final_price) == Some(side),
        0 < pool_of(round, side),
        0 <= pool_of(round, other_side(side)),
        forall|j: int| 0 <= j < users.len() ==> (#[trigger] positions[users[j]]).amount > 0,
    ensures
        (credited_total(users, positions, round, final_price) - staked_on(users, positions, side))
            * pool_of(round, side) <= pool_of(round, other_side(side)) * staked_on(
            users,
            positions,
            side,
        ),
    decreases users.len(),
{
    let w = pool_of(round, side) as int;
    let l = pool_of(round, other_side(side)) as int;
    if users.len() > 0 {
        let rest = users.drop_last();
        let p = positions[users.last()];
        lemma_shares_bounded(rest, positions, round, final_price, side);
        assert(p.amount > 0) by {
            assert(positions[users[users.len() - 1]].amount > 0);
        }
        let t0 = credited_total(rest, positions, round, final_price);
        let s0 = staked_on(rest, positions, side);
        let c = credit_value(round, final_price, p);
        let a = stake_on(p, side);
        if p.side == side {
            lemma_share_bounds(p.amount as int, w, l);
            assert(((t0 + c) - (s0 + a)) * w <= l * (s0 + a)) by (nonlinear_arith)
                requires
                    (t0 - s0) * w <= l * s0,
                    (c - a) * w <= a * l,
            ;
        } else {
            assert(c == 0 && a == 0);
        }
    } else {
        assert((0int - 0int) * w <= l * 0int) by (nonlinear_arith);
    }
}

/// What an unchanged price hands back is what was staked on both sides.
proof fn lemma_refunds_are_stakes(
    users: Seq<Address>,
    positions: Map<Address, UserPosition>,
    round: Round,
    final_price: u128,
)
    requires
        winning_side(round.price_start, final_price) is None,
    ensures
        credited_total(users, positions, round, final_price) == staked_on(
            users,
            positions,
            BetSide::Up,
        ) + staked_on(users, positions, BetSide::Down),
    decreases users.len(),
{
    if users.len() > 0 {
        lemma_refunds_are_stakes(users.drop_last(), positions, round, final_price);
    }
}

/// With an empty winning pool nothing is credited.
proof fn lemma_nothing_credited(
    users: Seq<Address>,
    positions: Map<Address, UserPosition>,
    round: Round,
    final_price: u128,
    side: BetSide,
)
    requires
        winning_side(round.price_start, final_price) == Some(side),
        pool_of(round, side) == 0,
    ensures
        credited_total(users, positions, round, final_price) == 0,
    decreases users.len(),
{
    if users.len() > 0 {
        lemma_nothing_credited(users.drop_last(), positions, round, final_price, side);
    }
}

/// Conservation: whatever the final price, the credits of one resolution to
/// the listed positions add up to no more than the two pools together,
/// provided the pools hold at least what those positions staked on each side.
pub proof fn lemma_credits_within_pools(
    users: Seq<Address>,
    positions: Map<Address, UserPosition>,
    round: Round,
    final_price: u128,
)
    requires
        0 <= round.pool_up,
        0 <= round.pool_down,
        forall|j: int| 0 <= j < users.len() ==> (#[trigger] positions[users[j]]).amount > 0,
        staked_on(users, positions, BetSide::Up) <= round.pool_up,
        staked_on(users, positions, BetSide::Down) <= round.pool_down,
    ensures
        0 <= credited_total(users, positions, round, final_price) <= round.pool_up
            + round.pool_down,
{
    match winning_side(round.price_start, final_price) {
        None => {
            lemma_refunds_are_stakes(users, positions, round, final_price);
            lemma_staked_not_negative(users, positions, BetSide::Up);
            lemma_staked_not_negative(users, positions, BetSide::Down);
        },
        Some(side) => {
            let w = pool_of(round, side) as int;
            let l = pool_of(round, other_side(side)) as int;
            if w == 0 {
                lemma_nothing_credited(users, positions, round, final_price, side);
            } else {
                lemma_shares_bounded(users, positions, round, final_price, side);
                lemma_staked_not_negative(users, positions, side);
                lemma_credits_not_negative(users, positions, round, final_price);
                let t = credited_total(users, positions, round, final_price);
                let s = staked_on(users, positions, side);
                assert(t - s <= l) by (nonlinear_arith)
                    requires
                        (t - s) * w <= l * s,
                        0 <= s <= w,
                        0 < w,
                        0 <= l,
                ;
            }
        },
    }
}

/// No resolution credits less than nothing.
pub proof fn lemma_credits_not_negative(
    users: Seq<Address>,
    positions: Map<Address, UserPosition>,
    round: Round,
    final_price: u128,
)
    requires
        0 <= round.pool_up,
        0 <= round.pool_down,
        forall|j: int| 0 <= j < users.len() ==> (#[trigger] positions[users[j]]).amount > 0,
    ensures
        0 <= credited_total(users, positions, round, final_price),
    decreases users.len(),
{
    if users.len() > 0 {
        lemma_credits_not_negative(users.drop_last(), positions, round, final_price);
        let p = positions[users.last()];
        assert(p.amount > 0) by {
            assert(positions[users[users.len() - 1]].amount > 0);
        }
        lemma_credit_not_negative(round, final_price, p);
    }
}

/// No position is credited less than nothing, and a winner and a refunded
/// user at least the stake.
pub proof fn lemma_credit_not_negative(round: Round, final_price: u128, position: UserPosition)
    requires
        0 <= round.pool_up,
        0 <= round.pool_down,
        0 < position.amount,
    ensures
        0 <= credit_value(round, final_price, position),
        outcome_of(round, final_price, position) != Some(false) && credit_value(
            round,
            final_price,
            position,
        ) != 0 ==> position.amount <= credit_value(round, final_price, position),
{
    match winning_side(round.price_start, final_price) {
        None => {},
        Some(side) => {
            let w = pool_of(round, side) as int;
            let l = pool_of(round, other_side(side)) as int;
            if w != 0 && position.side == side {
                lemma_share_bounds(position.amount as int, w, l);
            }
        },
    }
}

/// Whether `user` is among the first `upto` of the listed users.
pub open spec fn listed(users: Seq<Address>, upto: int, user: Address) -> bool {
    exists|j: int| 0 <= j < upto && #[trigger] users[j] == user
}

/// A user who is not among the first `upto + 1` is neither among the first
/// `upto` nor the one after them.
proof fn lemma_not_listed(users: Seq<Address>, upto: int, user: Address)
    requires
        0 <= upto < users.len(),
        !listed(users, upto + 1, user),
    ensures
        !listed(users, upto, user),
        users[upto] != user,
{
    if listed(users, upto, user) {
        let j = choose|j: int| 0 <= j < upto && #[trigger] users[j] == user;
        assert(0 <= j < upto + 1 && users[j] == user);
    }
    if users[upto] == user {
        assert(0 <= upto < upto + 1 && users[upto] == user);
    }
}

/// The first `upto + 1` of the listed users are the first `upto` and the one
/// after them.
proof fn lemma_listed_step(users: Seq<Address>, upto: int, user: Address)
    requires
        0 <= upto < users.len(),
    ensures
        listed(users, upto + 1, user) <==> listed(users, upto, user) || users[upto] == user,
{
    if listed(users, upto + 1, user) {
        let j = choose|j: int| 0 <= j < upto + 1 && #[trigger] users[j] == user;
        if j < upto {
            assert(0 <= j < upto && users[j] == user);
        }
    }
    if listed(users, upto, user) {
        let j = choose|j: int| 0 <= j < upto && #[trigger] users[j] == user;
        assert(0 <= j < upto + 1 && users[j] == user);
    }
    if users[upto] == user {
        assert(0 <= upto < upto + 1 && users[upto] == user);
    }
}

/// Every user in the list is among its first `len`, and nobody else is.
proof fn lemma_listed_all(users: Seq<Address>, user: Address)
    ensures
        listed(users, users.len() as int, user) <==> users.contains(user),
{
    if listed(users, users.len() as int, user) {
        let j = choose|j: int| 0 <= j < users.len() && #[trigger] users[j] == user;
        assert(users[j] == user);
    }
    if users.contains(user) {
        let j = users.index_of(user);
        assert(0 <= j < users.len() && users[j] == user);
    }
}

/// Adds `amount` to what `user` is owed.
pub fn credit_pending(pending: &mut AddressMap<i128>, user: Address, amount: i128) -> (done:
    Result<(), ContractError>)
    requires
        old(pending).wf(),
    ensures
        final(pending).wf(),
        match done {
            Ok(()) => {
                &&& credited(owed(old(pending)@, user), Some(amount as int)) is Some
                &&& final(pending)@ == old(pending)@.insert(
                    user,
                    credited(owed(old(pending)@, user), Some(amount as int))->Some_0,
                )
            },
            Err(e) => {
                &&& e == ContractError::Overflow
                &&& credited(owed(old(pending)@, user), Some(amount as int)) is None
                &&& final(pending)@ == old(pending)@
            },
        },
{
    let existing: i128 = match pending.get(&user) {
        Some(amount) => amount,
        None => 0,
    };
    match existing.checked_add(amount) {
        Some(total) => {
            pending.insert(user, total);
            Ok(())
        },
        None => Err(ContractError::Overflow),
    }
}

/// Counts an outcome, a win (`true`) or a loss, in the record of `user`.
pub fn record_outcome(stats: &mut AddressMap<UserStats>, user: Address, won: bool) -> (done:
    Result<(), ContractError>)
    requires
        old(stats).wf(),
    ensures
        final(stats).wf(),
        match done {
            Ok(()) => {
                &&& recorded(record_of(old(stats)@, user), Some(won)) is Some
                &&& final(stats)@ == old(stats)@.insert(
                    user,
                    recorded(record_of(old(stats)@, user), Some(won))->Some_0,
                )
            },
            Err(e) => {
                &&& e == ContractError::Overflow
                &&& recorded(record_of(old(stats)@, user), Some(won)) is None
                &&& final(stats)@ == old(stats)@
            },
        },
{
    let existing = match stats.get(&user) {
        Some(s) => s,
        None => UserStats::new(),
    };
    let updated = if won {
        existing.record_win()
    } else {
        existing.record_loss()
    };
    match updated {
        Ok(s) => {
            stats.insert(user, s);
            Ok(())
        },
        Err(e) => Err(e),
    }
}

/// Records the refunds of an unchanged price: every position is credited
/// its stake, or nobody is where a sum leaves the range of `i128`. Nobody's
/// record changes.
pub fn record_refunds(positions: &PositionLedger, pending: &mut AddressMap<i128>) -> (done:
    Result<(), ContractError>)
    requires
        positions.wf(),
        old(pending).wf(),
    ensures
        final(pending).wf(),
        match done {
            Ok(()) => {
                &&& forall|a: Address| #[trigger]
                    positions@.contains_key(a) ==> credited(
                        owed(old(pending)@, a),
                        Some(positions@[a].amount as int),
                    ) == Some(owed(final(pending)@, a))
                &&& forall|a: Address|
                    !positions@.contains_key(a) ==> #[trigger] owed(final(pending)@, a) == owed(
                        old(pending)@,
                        a,
                    )
                &&& forall|a: Address| #[trigger]
                    final(pending)@.contains_key(a) <==> old(pending)@.contains_key(a)
                        || positions@.contains_key(a)
            },
            Err(e) => {
                &&& e == ContractError::Overflow
                &&& final(pending)@ == old(pending)@
                &&& exists|a: Address| #[trigger]
                    positions@.contains_key(a) && credited(
                        owed(old(pending)@, a),
                        Some(positions@[a].amount as int),
                    ) is None
            },
        },
{
    let users = positions.users();
    let mut work_pending = pending.duplicate();
    let mut i: usize = 0;
    while i < users.len()
        invariant
            pending.wf(),
            pending@ == old(pending)@,
            positions.wf(),
            enumerates(users@, positions@),
            work_pending.wf(),
            i <= users@.len(),
            forall|j: int|
                0 <= j < i ==> credited(
                    owed(old(pending)@, #[trigger] users@[j]),
                    Some(positions@[users@[j]].amount as int),
                ) == Some(owed(work_pending@, users@[j])),
            forall|a: Address|
                !listed(users@, i as int, a) ==> #[trigger] owed(work_pending@, a) == owed(
                    old(pending)@,
                    a,
                ),
            forall|a: Address| #[trigger]
                work_pending@.contains_key(a) <==> old(pending)@.contains_key(a) || listed(
                    users@,
                    i as int,
                    a,
                ),
        decreases users@.len() - i,
    {
        let user = users[i];
        let ghost pending_before = work_pending@;
        proof {
            assert(users@.contains(user));
            assert(positions@.contains_key(user));
            assert(!listed(users@, i as int, user));
            assert(owed(work_pending@, user) == owed(old(pending)@, user));
        }
        let position = match positions.get(&user) {
            Some(p) => p,
            None => { return Ok(()); },
        };
        match credit_pending(&mut work_pending, user, position.amount) {
            Ok(()) => {},
            Err(e) => { return Err(e); },
        }
        proof {
            assert forall|a: Address| #[trigger]
                work_pending@.contains_key(a) <==> old(pending)@.contains_key(a) || listed(
                    users@,
                    i + 1,
                    a,
                ) by {
                lemma_listed_step(users@, i as int, a);
                assert(pending_before.contains_key(a) <==> old(pending)@.contains_key(a) || listed(
                    users@,
                    i as int,
                    a,
                ));
            }
            assert forall|a: Address| !listed(users@, i + 1, a) implies #[trigger] owed(
                work_pending@,
                a,
            ) == owed(old(pending)@, a) by {
                lemma_not_listed(users@, i as int, a);
                assert(owed(pending_before, a) == owed(old(pending)@, a));
            }
            assert forall|j: int| 0 <= j < i implies owed(work_pending@, #[trigger] users@[j]) == owed(
                pending_before,
                users@[j],
            ) by {
                assert(users@[j] != user);
            }
        }
        i += 1;
    }
    proof {
        assert forall|a: Address| #[trigger] positions@.contains_key(a) implies credited(
            owed(old(pending)@, a),
            Some(positions@[a].amount as int),
        ) == Some(owed(work_pending@, a)) by {
            assert(users@.contains(a));
            let j = users@.index_of(a);
            assert(users@[j] == a);
        }
        assert forall|a: Address| #[trigger]
            work_pending@.contains_key(a) <==> old(pending)@.contains_key(a)
                || positions@.contains_key(a) by {
            lemma_listed_all(users@, a);
        }
        assert forall|a: Address| !positions@.contains_key(a) implies #[trigger] owed(work_pending@, a)
            == owed(old(pending)@, a) by {
            assert(!users@.contains(a));
            assert(!listed(users@, users@.len() as int, a));
        }
    }
    *pending = work_pending;
    Ok(())
}

/// Records the winnings when `winning_side` wins: every winner is credited
/// the stake and its share of the losing pool and counts a win, every loser
/// counts a loss. With an empty winning pool nothing is recorded, and where
/// a number leaves its range nothing is either.
pub fn record_winnings(
    positions: &PositionLedger,
    winning_side: BetSide,
    winning_pool: i128,
    losing_pool: i128,
    pending: &mut AddressMap<i128>,
    stats: &mut AddressMap<UserStats>,
) -> (done: Result<(), ContractError>)
    requires
        positions.wf(),
        stakes_positive(positions@),
        0 <= winning_pool,
        0 <= losing_pool,
        old(pending).wf(),
        old(stats).wf(),
    ensures
        final(pending).wf(),
        final(stats).wf(),
        match done {
            Ok(()) => {
                &&& forall|a: Address| #[trigger]
                    positions@.contains_key(a) ==> credited(
                        owed(old(pending)@, a),
                        winnings_credit(
                            positions@[a],
                            winning_side,
                            winning_pool as int,
                            losing_pool as int,
                        ),
                    ) == Some(owed(final(pending)@, a)) && recorded(
                        record_of(old(stats)@, a),
                        winnings_outcome(positions@[a], winning_side, winning_pool as int),
                    ) == Some(record_of(final(stats)@, a))
                &&& forall|a: Address|
                    !positions@.contains_key(a) ==> #[trigger] owed(final(pending)@, a) == owed(
                        old(pending)@,
                        a,
                    )
                &&& forall|a: Address|
                    !positions@.contains_key(a) ==> #[trigger] record_of(final(stats)@, a)
                        == record_of(old(stats)@, a)
                &&& forall|a: Address| #[trigger]
                    final(pending)@.contains_key(a) <==> old(pending)@.contains_key(a) || (
                    winning_pool != 0 && positions@.contains_key(a) && positions@[a].side
                        == winning_side)
                &&& forall|a: Address| #[trigger]
                    final(stats)@.contains_key(a) <==> old(stats)@.contains_key(a) || (winning_pool
                        != 0 && positions@.contains_key(a))
            },
            Err(e) => {
                &&& e == ContractError::Overflow
                &&& final(pending)@ == old(pending)@
                &&& final(stats)@ == old(stats)@
                &&& exists|a: Address| #[trigger]
                    positions@.contains_key(a) && (credited(
                        owed(old(pending)@, a),
                        winnings_credit(
                            positions@[a],
                            winning_side,
                            winning_pool as int,
                            losing_pool as int,
                        ),
                    ) is None || recorded(
                        record_of(old(stats)@, a),
                        winnings_outcome(positions@[a], winning_side, winning_pool as int),
                    ) is None)
            },
        },
{
    if winning_pool == 0 {
        return Ok(());
    }
    let users = positions.users();
    let mut work_pending = pending.duplicate();
    let mut work_stats = stats.duplicate();
    let mut i: usize = 0;
    while i < users.len()
        invariant
            pending.wf(),
            pending@ == old(pending)@,
            stats.wf(),
            stats@ == old(stats)@,
            positions.wf(),
            enumerates(users@, positions@),
            stakes_positive(positions@),
            0 < winning_pool,
            0 <= losing_pool,
            work_pending.wf(),
            work_stats.wf(),
            i <= users@.len(),
            forall|j: int|
                0 <= j < i ==> credited(
                    owed(old(pending)@, #[trigger] users@[j]),
                    winnings_credit(
                        positions@[users@[j]],
                        winning_side,
                        winning_pool as int,
                        losing_pool as int,
                    ),
                ) == Some(owed(work_pending@, users@[j])) && recorded(
                    record_of(old(stats)@, users@[j]),
                    winnings_outcome(positions@[users@[j]], winning_side, winning_pool as int),
                ) == Some(record_of(work_stats@, users@[j])),
            forall|a: Address|
                !listed(users@, i as int, a) ==> #[trigger] owed(work_pending@, a) == owed(
                    old(pending)@,
                    a,
                ),
            forall|a: Address|
                !listed(users@, i as int, a) ==> #[trigger] record_of(work_stats@, a) == record_of(
                    old(stats)@,
                    a,
                ),
            forall|a: Address| #[trigger]
                work_pending@.contains_key(a) <==> old(pending)@.contains_key(a) || (listed(
                    users@,
                    i as int,
                    a,
                ) && positions@[a].side == winning_side),
            forall|a: Address| #[trigger]
                work_stats@.contains_key(a) <==> old(stats)@.contains_key(a) || listed(
                    users@,
                    i as int,
                    a,
                ),
        decreases users@.len() - i,
    {
        let user = users[i];
        let ghost pending_before = work_pending@;
        let ghost stats_before = work_stats@;
        proof {
            assert(users@.contains(user));
            assert(positions@.contains_key(user));
            assert(positions@[user].amount > 0);
            assert(!listed(users@, i as int, user));
            assert(owed(work_pending@, user) == owed(old(pending)@, user));
            assert(record_of(work_stats@, user) == record_of(old(stats)@, user));
        }
        let position = match positions.get(&user) {
            Some(p) => p,
            None => { return Ok(()); },
        };
        if position.side == winning_side {
            let payout = match winner_payout(position.amount, winning_pool, losing_pool) {
                Ok(p) => p,
                Err(e) => { return Err(e); },
            };
            match credit_pending(&mut work_pending, user, payout) {
                Ok(()) => {},
                Err(e) => { return Err(e); },
            }
            match record_outcome(&mut work_stats, user, true) {
                Ok(()) => {},
                Err(e) => { return Err(e); },
            }
        } else {
            match record_outcome(&mut work_stats, user, false) {
                Ok(()) => {},
                Err(e) => { return Err(e); },
            }
        }
        proof {
            assert forall|a: Address| #[trigger]
                work_pending@.contains_key(a) <==> old(pending)@.contains_key(a) || (listed(
                    users@,
                    i + 1,
                    a,
                ) && positions@[a].side == winning_side) by {
                lemma_listed_step(users@, i as int, a);
                assert(pending_before.contains_key(a) <==> old(pending)@.contains_key(a) || (listed(
                    users@,
                    i as int,
                    a,
                ) && positions@[a].side == winning_side));
            }
            assert forall|a: Address| #[trigger]
                work_stats@.contains_key(a) <==> old(stats)@.contains_key(a) || listed(
                    users@,
                    i + 1,
                    a,
                ) by {
                lemma_listed_step(users@, i as int, a);
                assert(stats_before.contains_key(a) <==> old(stats)@.contains_key(a) || listed(
                    users@,
                    i as int,
                    a,
                ));
            }
            assert forall|a: Address| !listed(users@, i + 1, a) implies #[trigger] owed(
                work_pending@,
                a,
            ) == owed(old(pending)@, a) by {
                lemma_not_listed(users@, i as int, a);
                assert(owed(pending_before, a) == owed(old(pending)@, a));
            }
            assert forall|a: Address| !listed(users@, i + 1, a) implies #[trigger] record_of(
                work_stats@,
                a,
            ) == record_of(old(stats)@, a) by {
                lemma_not_listed(users@, i as int, a);
                assert(record_of(stats_before, a) == record_of(old(stats)@, a));
            }
            assert forall|j: int| 0 <= j < i implies owed(work_pending@, #[trigger] users@[j]) == owed(
                pending_before,
                users@[j],
            ) && record_of(work_stats@, users@[j]) == record_of(stats_before, users@[j]) by {
                assert(users@[j] != user);
            }
        }
        i += 1;
    }
    proof {
        assert forall|a: Address| #[trigger] positions@.contains_key(a) implies credited(
            owed(old(pending)@, a),
            winnings_credit(positions@[a], winning_side, winning_pool as int, losing_pool as int),
        ) == Some(owed(work_pending@, a)) && recorded(
            record_of(old(stats)@, a),
            winnings_outcome(positions@[a], winning_side, winning_pool as int),
        ) == Some(record_of(work_stats@, a)) by {
            assert(users@.contains(a));
            let j = users@.index_of(a);
            assert(users@[j] == a);
        }
        assert forall|a: Address| #[trigger]
            work_pending@.contains_key(a) <==> old(pending)@.contains_key(a) || (
            positions@.contains_key(a) && positions@[a].side == winning_side) by {
            lemma_listed_all(users@, a);
        }
        assert forall|a: Address| #[trigger]
            work_stats@.contains_key(a) <==> old(stats)@.contains_key(a)
                || positions@.contains_key(a) by {
            lemma_listed_all(users@, a);
        }
        assert forall|a: Address| !positions@.contains_key(a) implies #[trigger] owed(work_pending@, a)
            == owed(old(pending)@, a) by {
            assert(!users@.contains(a));
            assert(!listed(users@, users@.len() as int, a));
        }
        assert forall|a: Address| !positions@.contains_key(a) implies #[trigger] record_of(
            work_stats@,
            a,
        ) == record_of(old(stats)@, a) by {
            assert(!users@.contains(a));
            assert(!listed(users@, users@.len() as int, a));
        }
    }
    *pending = work_pending;
    *stats = work_stats;
    Ok(())
}

} // verus!
