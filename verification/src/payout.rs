//! The payout arithmetic: how a winning stake is paid from the pools.

use vstd::prelude::*;
use crate::errors::ContractError;

verus! {

/// The part of the losing pool that falls to a winning stake of `amount`
/// when the winners' stakes add up to `winning_pool`: in proportion to the
/// stake, rounded down.
pub open spec fn share_of(amount: int, winning_pool: int, losing_pool: int) -> int {
    (amount * losing_pool) / winning_pool
}

/// What a winning stake of `amount` is paid: the stake itself and its share
/// of the losing pool.
pub open spec fn payout_value(amount: int, winning_pool: int, losing_pool: int) -> int {
    amount + share_of(amount, winning_pool, losing_pool)
}

/// The payout as checked arithmetic yields it: `None` where the product of
/// stake and losing pool, or the payout itself, leaves the range of `i128`.
pub open spec fn payout_of(amount: int, winning_pool: int, losing_pool: int) -> Option<int> {
    if amount * losing_pool > i128::MAX {
        None
    } else if payout_value(amount, winning_pool, losing_pool) > i128::MAX {
        None
    } else {
        Some(payout_value(amount, winning_pool, losing_pool))
    }
}

/// Computes the payout of one winning stake with checked arithmetic.
pub fn winner_payout(amount: i128, winning_pool: i128, losing_pool: i128) -> (paid: Result<
    i128,
    ContractError,
>)
    requires
        0 < amount,
        0 < winning_pool,
        0 <= losing_pool,
    ensures
        paid == (match payout_of(amount as int, winning_pool as int, losing_pool as int) {
            Some(p) => Ok(p as i128),
            None => Err(ContractError::Overflow),
        }),
        paid is Ok ==> amount <= paid->Ok_0,
{
    assert(amount * losing_pool >= 0) by (nonlinear_arith)
        requires
            0 < amount,
            0 <= losing_pool,
    ;
    let share_numerator: i128 = match amount.checked_mul(losing_pool) {
        Some(n) => n,
        None => { return Err(ContractError::Overflow); },
    };
    let share: i128 = share_numerator / winning_pool;
    assert(share >= 0) by (nonlinear_arith)
        requires
            share == share_numerator / winning_pool,
            share_numerator >= 0,
            winning_pool > 0,
    ;
    match amount.checked_add(share) {
        Some(p) => Ok(p),
        None => Err(ContractError::Overflow),
    }
}

/// The share of a stake is never negative, and the shares multiplied back by
/// the winning pool stay within the stake's part of the losing pool.
pub proof fn lemma_share_bounds(amount: int, winning_pool: int, losing_pool: int)
    requires
        0 <= amount,
        0 < winning_pool,
        0 <= losing_pool,
    ensures
        0 <= share_of(amount, winning_pool, losing_pool),
        share_of(amount, winning_pool, losing_pool) * winning_pool <= amount * losing_pool,
        amount <= payout_value(amount, winning_pool, losing_pool),
{
    let n = amount * losing_pool;
    assert(n >= 0) by (nonlinear_arith)
        requires
            n == amount * losing_pool,
            0 <= amount,
            0 <= losing_pool,
    ;
    vstd::arithmetic::div_mod::lemma_fundamental_div_mod(n, winning_pool);
    vstd::arithmetic::div_mod::lemma_mod_bound(n, winning_pool);
    vstd::arithmetic::div_mod::lemma_div_pos_is_pos(n, winning_pool);
    assert((n / winning_pool) * winning_pool == winning_pool * (n / winning_pool))
        by (nonlinear_arith);
}

/// With no losing pool a winner is paid exactly the stake.
pub proof fn lemma_payout_without_losers(amount: int, winning_pool: int)
    requires
        0 < winning_pool,
    ensures
        payout_value(amount, winning_pool, 0) == amount,
{
    assert(amount * 0 == 0) by (nonlinear_arith);
    assert(0int / winning_pool == 0) by (nonlinear_arith)
        requires
            0 < winning_pool,
    ;
}

} // verus!
