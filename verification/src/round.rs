//! The round manager's rules: the windows of a round and the phase it is in.

use vstd::prelude::*;
use crate::errors::ContractError;
use crate::types::Round;
use crate::types::RoundMode;
use crate::types::RoundPhase;
use crate::types::Windows;

verus! {

impl Windows {
    /// Both windows are positive and betting closes before the round ends.
    pub open spec fn valid(self) -> bool {
        0 < self.bet_ledgers < self.run_ledgers
    }

    /// The windows that apply where none were configured.
    pub open spec fn spec_standard() -> Windows {
        Windows { bet_ledgers: 6, run_ledgers: 12 }
    }

    /// The windows that apply where none were configured: six ledgers of
    /// betting in a round of twelve.
    pub fn standard() -> (windows: Windows)
        ensures
            windows == Windows::spec_standard(),
            windows.valid(),
    {
        Windows { bet_ledgers: 6, run_ledgers: 12 }
    }

    /// Checks a pair of window lengths.
    pub fn new(bet_ledgers: u32, run_ledgers: u32) -> (windows: Result<Windows, ContractError>)
        ensures
            windows == (if 0 < bet_ledgers < run_ledgers {
                Ok(Windows { bet_ledgers, run_ledgers })
            } else {
                Err(ContractError::InvalidDuration)
            }),
            windows is Ok ==> windows->Ok_0.valid(),
    {
        if bet_ledgers == 0 || run_ledgers == 0 || bet_ledgers >= run_ledgers {
            Err(ContractError::InvalidDuration)
        } else {
            Ok(Windows { bet_ledgers, run_ledgers })
        }
    }
}

impl Round {
    /// The round has an id and a start price, betting closes after the start
    /// and before the end, and no pool is negative.
    pub open spec fn valid(self) -> bool {
        &&& 1 <= self.round_id
        &&& 0 < self.price_start
        &&& self.start_ledger < self.bet_end_ledger < self.end_ledger
        &&& 0 <= self.pool_up
        &&& 0 <= self.pool_down
    }

    /// The round that opens at `start_ledger` under `windows`, with empty
    /// pools; `None` where a ledger number leaves the range of `u32`.
    pub open spec fn spec_open(
        round_id: u64,
        mode: RoundMode,
        price_start: u128,
        start_ledger: u32,
        windows: Windows,
    ) -> Option<Round> {
        if start_ledger + windows.run_ledgers > u32::MAX || start_ledger + windows.bet_ledgers
            > u32::MAX {
            None
        } else {
            Some(
                Round {
                    round_id,
                    mode,
                    price_start,
                    start_ledger,
                    bet_end_ledger: (start_ledger + windows.bet_ledgers) as u32,
                    end_ledger: (start_ledger + windows.run_ledgers) as u32,
                    pool_up: 0,
                    pool_down: 0,
                },
            )
        }
    }

    /// Opens a round at `start_ledger`: betting closes `bet_ledgers` later,
    /// the round ends `run_ledgers` later, and both pools are empty.
    pub fn open(
        round_id: u64,
        mode: RoundMode,
        price_start: u128,
        start_ledger: u32,
        windows: Windows,
    ) -> (round: Result<Round, ContractError>)
        ensures
            round == (match Round::spec_open(round_id, mode, price_start, start_ledger, windows) {
                Some(r) => Ok(r),
                None => Err(ContractError::Overflow),
            }),
            round is Ok && windows.valid() && 1 <= round_id && 0 < price_start
                ==> round->Ok_0.valid(),
    {
        let bet_end_ledger: u32 = match start_ledger.checked_add(windows.bet_ledgers) {
            Some(l) => l,
            None => { return Err(ContractError::Overflow); },
        };
        let end_ledger: u32 = match start_ledger.checked_add(windows.run_ledgers) {
            Some(l) => l,
            None => { return Err(ContractError::Overflow); },
        };
        Ok(
            Round {
                round_id,
                mode,
                price_start,
                start_ledger,
                bet_end_ledger,
                end_ledger,
                pool_up: 0,
                pool_down: 0,
            },
        )
    }

    /// Where the round stands at `ledger`.
    pub open spec fn spec_phase(self, ledger: u32) -> RoundPhase {
        if ledger < self.bet_end_ledger {
            RoundPhase::BettingOpen
        } else if ledger < self.end_ledger {
            RoundPhase::BettingClosed
        } else {
            RoundPhase::ResolutionReady
        }
    }

    /// Where the round stands at `ledger`: open for bets before the betting
    /// window closes, closed from then on, and ready to be resolved from the
    /// end ledger on.
    pub fn phase(&self, ledger: u32) -> (phase: RoundPhase)
        ensures
            phase == self.spec_phase(ledger),
    {
        if ledger < self.bet_end_ledger {
            RoundPhase::BettingOpen
        } else if ledger < self.end_ledger {
            RoundPhase::BettingClosed
        } else {
            RoundPhase::ResolutionReady
        }
    }
}

/// Where the market stands at `ledger`, with or without an active round.
pub open spec fn phase_of(round: Option<Round>, ledger: u32) -> RoundPhase {
    match round {
        Some(r) => r.spec_phase(ledger),
        None => RoundPhase::NoRound,
    }
}

/// A round never moves back: as the ledger advances, betting that has closed
/// stays closed and a round that is ready to be resolved stays ready.
pub proof fn lemma_phase_only_advances(round: Round, earlier: u32, later: u32)
    requires
        round.valid(),
        earlier <= later,
    ensures
        round.spec_phase(earlier) == RoundPhase::ResolutionReady ==> round.spec_phase(later)
            == RoundPhase::ResolutionReady,
        round.spec_phase(earlier) == RoundPhase::BettingClosed ==> round.spec_phase(later)
            != RoundPhase::BettingOpen,
        round.spec_phase(round.start_ledger) == RoundPhase::BettingOpen,
{
}

} // verus!
