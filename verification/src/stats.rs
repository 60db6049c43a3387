//! The stats tracker: wins, losses and streaks of one user.

use vstd::prelude::*;
use crate::errors::ContractError;
use crate::types::UserStats;

verus! {

impl UserStats {
    /// The record of a user who has not taken part in any round.
    pub open spec fn spec_new() -> UserStats {
        UserStats { total_wins: 0, total_losses: 0, current_streak: 0, best_streak: 0 }
    }

    /// The best streak is never shorter than the running one.
    pub open spec fn valid(self) -> bool {
        self.current_streak <= self.best_streak
    }

    /// Whether one more win leaves the range of a counter.
    pub open spec fn win_overflows(self) -> bool {
        self.total_wins == u32::MAX || self.current_streak == u32::MAX
    }

    /// The record after one more win.
    pub open spec fn after_win(self) -> UserStats
        recommends
            !self.win_overflows(),
    {
        UserStats {
            total_wins: (self.total_wins + 1) as u32,
            total_losses: self.total_losses,
            current_streak: (self.current_streak + 1) as u32,
            best_streak: if self.current_streak + 1 > self.best_streak {
                (self.current_streak + 1) as u32
            } else {
                self.best_streak
            },
        }
    }

    /// Whether one more loss leaves the range of a counter.
    pub open spec fn loss_overflows(self) -> bool {
        self.total_losses == u32::MAX
    }

    /// The record after one more loss.
    pub open spec fn after_loss(self) -> UserStats
        recommends
            !self.loss_overflows(),
    {
        UserStats {
            total_wins: self.total_wins,
            total_losses: (self.total_losses + 1) as u32,
            current_streak: 0,
            best_streak: self.best_streak,
        }
    }

    /// The record after one more outcome, a win (`true`) or a loss; `None`
    /// where a counter would leave its range.
    pub open spec fn after_outcome(self, won: bool) -> Option<UserStats> {
        if won {
            if self.win_overflows() {
                None
            } else {
                Some(self.after_win())
            }
        } else {
            if self.loss_overflows() {
                None
            } else {
                Some(self.after_loss())
            }
        }
    }

    /// The record after a sequence of outcomes, oldest first; `None` where a
    /// counter would leave its range on the way.
    pub open spec fn after_outcomes(self, outcomes: Seq<bool>) -> Option<UserStats>
        decreases outcomes.len(),
    {
        if outcomes.len() == 0 {
            Some(self)
        } else {
            match self.after_outcomes(outcomes.drop_last()) {
                Some(before) => before.after_outcome(outcomes.last()),
                None => None,
            }
        }
    }

    /// The record of a user who has not taken part in any round.
    pub fn new() -> (stats: UserStats)
        ensures
            stats == UserStats::spec_new(),
            stats.valid(),
    {
        UserStats { total_wins: 0, total_losses: 0, current_streak: 0, best_streak: 0 }
    }

    /// Counts a win: one more win, a streak longer by one, and a best streak
    /// that follows where the running one passes it.
    pub fn record_win(self) -> (updated: Result<UserStats, ContractError>)
        ensures
            updated == (if self.win_overflows() {
                Err(ContractError::Overflow)
            } else {
                Ok(self.after_win())
            }),
            self.valid() && updated is Ok ==> updated->Ok_0.valid(),
    {
        let total_wins: u32 = match self.total_wins.checked_add(1) {
            Some(n) => n,
            None => { return Err(ContractError::Overflow); },
        };
        let current_streak: u32 = match self.current_streak.checked_add(1) {
            Some(n) => n,
            None => { return Err(ContractError::Overflow); },
        };
        let best_streak: u32 = if current_streak > self.best_streak {
            current_streak
        } else {
            self.best_streak
        };
        Ok(UserStats { total_wins, total_losses: self.total_losses, current_streak, best_streak })
    }

    /// Counts a loss: one more loss, and the running streak starts over.
    pub fn record_loss(self) -> (updated: Result<UserStats, ContractError>)
        ensures
            updated == (if self.loss_overflows() {
                Err(ContractError::Overflow)
            } else {
                Ok(self.after_loss())
            }),
            self.valid() && updated is Ok ==> updated->Ok_0.valid(),
    {
        let total_losses: u32 = match self.total_losses.checked_add(1) {
            Some(n) => n,
            None => { return Err(ContractError::Overflow); },
        };
        Ok(
            UserStats {
                total_wins: self.total_wins,
                total_losses,
                current_streak: 0,
                best_streak: self.best_streak,
            },
        )
    }
}

/// One outcome never lowers the wins, the losses or the best streak; a loss
/// sets the running streak to exactly zero, a win lengthens it by one.
pub proof fn lemma_outcome_is_monotonic(stats: UserStats, won: bool)
    requires
        stats.after_outcome(won) is Some,
    ensures
        stats.after_outcome(won)->Some_0.total_wins >= stats.total_wins,
        stats.after_outcome(won)->Some_0.total_losses >= stats.total_losses,
        stats.after_outcome(won)->Some_0.best_streak >= stats.best_streak,
        !won ==> stats.after_outcome(won)->Some_0.current_streak == 0,
        won ==> stats.after_outcome(won)->Some_0.current_streak == stats.current_streak + 1,
        stats.valid() ==> stats.after_outcome(won)->Some_0.valid(),
{
}

/// Across any sequence of wins and losses the wins, the losses and the best
/// streak never decrease, and a record that was valid stays valid.
pub proof fn lemma_outcomes_are_monotonic(stats: UserStats, outcomes: Seq<bool>)
    requires
        stats.after_outcomes(outcomes) is Some,
    ensures
        stats.after_outcomes(outcomes)->Some_0.total_wins >= stats.total_wins,
        stats.after_outcomes(outcomes)->Some_0.total_losses >= stats.total_losses,
        stats.after_outcomes(outcomes)->Some_0.best_streak >= stats.best_streak,
        outcomes.len() > 0 && !outcomes.last() ==> stats.after_outcomes(
            outcomes,
        )->Some_0.current_streak == 0,
        stats.valid() ==> stats.after_outcomes(outcomes)->Some_0.valid(),
    decreases outcomes.len(),
{
    if outcomes.len() > 0 {
        let before = stats.after_outcomes(outcomes.drop_last());
        lemma_outcomes_are_monotonic(stats, outcomes.drop_last());
        lemma_outcome_is_monotonic(before->Some_0, outcomes.last());
    }
}

} // verus!
