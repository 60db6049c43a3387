//! The plain data that the market keeps and exchanges.

use vstd::prelude::*;

verus! {

/// Who a principal is: an account or a contract, named by a 256-bit
/// identifier that is held as two halves.
#[derive(Clone, Copy, Debug, PartialEq, Eq, Structural)]
pub struct Address {
    /// `true` for a contract, `false` for an account.
    pub contract: bool,
    /// The upper 128 bits of the identifier.
    pub hi: u128,
    /// The lower 128 bits of the identifier.
    pub lo: u128,
}

impl Address {
    /// The account with the given identifier.
    pub fn account(hi: u128, lo: u128) -> (address: Address)
        ensures
            address == (Address { contract: false, hi, lo }),
    {
        Address { contract: false, hi, lo }
    }

    /// The contract with the given identifier.
    pub fn contract(hi: u128, lo: u128) -> (address: Address)
        ensures
            address == (Address { contract: true, hi, lo }),
    {
        Address { contract: true, hi, lo }
    }
}

/// The direction a user stakes on.
#[derive(Clone, Copy, Debug, PartialEq, Eq, Structural)]
pub enum BetSide {
    Up,
    Down,
}

/// What the participants of a round predict.
#[derive(Clone, Copy, Debug, PartialEq, Eq, Structural)]
pub enum RoundMode {
    /// The direction of the price movement.
    UpDown,
    /// The final price itself.
    Precision,
}

/// A stake on one side of an Up/Down round.
#[derive(Clone, Copy, Debug, PartialEq, Eq, Structural)]
pub struct UserPosition {
    pub amount: i128,
    pub side: BetSide,
}

/// A stake on an exact final price in a Precision round.
#[derive(Clone, Copy, Debug, PartialEq, Eq, Structural)]
pub struct PrecisionPrediction {
    pub user: Address,
    pub predicted_price: u128,
    pub amount: i128,
}

/// A user's record of wins, losses and streaks.
#[derive(Clone, Copy, Debug, PartialEq, Eq, Structural)]
pub struct UserStats {
    pub total_wins: u32,
    pub total_losses: u32,
    pub current_streak: u32,
    pub best_streak: u32,
}

/// The lengths, in ledgers, of the betting window and of the whole round.
#[derive(Clone, Copy, Debug, PartialEq, Eq, Structural)]
pub struct Windows {
    pub bet_ledgers: u32,
    pub run_ledgers: u32,
}

/// The one round that may be active at a time.
#[derive(Clone, Copy, Debug, PartialEq, Eq, Structural)]
pub struct Round {
    /// Position of the round among all rounds ever created, counted from 1.
    pub round_id: u64,
    pub mode: RoundMode,
    /// Price at the start of the round.
    pub price_start: u128,
    /// Ledger at which the round was created.
    pub start_ledger: u32,
    /// First ledger at which no stake is accepted any more.
    pub bet_end_ledger: u32,
    /// First ledger at which the round may be resolved.
    pub end_ledger: u32,
    /// Total staked on Up.
    pub pool_up: i128,
    /// Total staked on Down.
    pub pool_down: i128,
}

/// The oracle's report of the settlement price.
#[derive(Clone, Copy, Debug, PartialEq, Eq, Structural)]
pub struct OraclePayload {
    pub price: u128,
    /// Ledger time, in seconds, at which the price was observed.
    pub timestamp: u64,
    /// The round that the report settles.
    pub round_id: u64,
}

/// Where a round stands at a given ledger.
#[derive(Clone, Copy, Debug, PartialEq, Eq, Structural)]
pub enum RoundPhase {
    NoRound,
    BettingOpen,
    BettingClosed,
    ResolutionReady,
}

} // verus!
