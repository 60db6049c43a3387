//! The typed failures of the market's entry points.

use vstd::prelude::*;

verus! {

/// Why an entry point refused to act. An entry point that fails leaves the
/// contract's state exactly as it found it.
#[derive(Clone, Copy, Debug, PartialEq, Eq, PartialOrd, Ord, Structural)]
pub enum ContractError {
    /// The contract has already been initialized.
    AlreadyInitialized,
    /// No admin is registered: `initialize` has not run yet.
    AdminNotSet,
    /// No oracle is registered: `initialize` has not run yet.
    OracleNotSet,
    /// The invocation does not carry the admin's authorization.
    UnauthorizedAdmin,
    /// The invocation does not carry the oracle's authorization.
    UnauthorizedOracle,
    /// A stake must be greater than zero.
    InvalidBetAmount,
    /// There is no active round.
    NoActiveRound,
    /// The betting window of the active round has closed.
    RoundEnded,
    /// The stake exceeds the user's spendable balance.
    InsufficientBalance,
    /// The user already holds a position in the active round.
    AlreadyBet,
    /// A checked arithmetic operation left the range of its type.
    Overflow,
    /// A price must be greater than zero.
    InvalidPrice,
    /// Both windows must be positive and betting must close before the round ends.
    InvalidDuration,
    /// The active round has not reached its end ledger yet.
    RoundNotEnded,
    /// The oracle report is older than the freshness bound allows.
    StaleOracleData,
    /// The oracle report names another round than the active one.
    InvalidOracleRound,
    /// A round is still active; it has to be resolved before the next one starts.
    RoundAlreadyActive,
    /// The invocation does not carry the authorization of the user it acts for.
    UnauthorizedUser,
    /// The active round runs in the other mode than the one this entry point serves.
    WrongRoundMode,
}

impl ContractError {
    /// The numeric code that stands for each failure outside the contract.
    pub open spec fn spec_code(self) -> u32 {
        match self {
            ContractError::AlreadyInitialized => 1,
            ContractError::AdminNotSet => 2,
            ContractError::OracleNotSet => 3,
            ContractError::UnauthorizedAdmin => 4,
            ContractError::UnauthorizedOracle => 5,
            ContractError::InvalidBetAmount => 6,
            ContractError::NoActiveRound => 7,
            ContractError::RoundEnded => 8,
            ContractError::InsufficientBalance => 9,
            ContractError::AlreadyBet => 10,
            ContractError::Overflow => 11,
            ContractError::InvalidPrice => 12,
            ContractError::InvalidDuration => 13,
            ContractError::RoundNotEnded => 14,
            ContractError::StaleOracleData => 15,
            ContractError::InvalidOracleRound => 16,
            ContractError::RoundAlreadyActive => 17,
            ContractError::UnauthorizedUser => 18,
            ContractError::WrongRoundMode => 19,
        }
    }

    /// Returns the numeric code of this failure.
    pub fn code(self) -> (code: u32)
        ensures
            code == self.spec_code(),
            1 <= code <= 19,
    {
        match self {
            ContractError::AlreadyInitialized => 1,
            ContractError::AdminNotSet => 2,
            ContractError::OracleNotSet => 3,
            ContractError::UnauthorizedAdmin => 4,
            ContractError::UnauthorizedOracle => 5,
            ContractError::InvalidBetAmount => 6,
            ContractError::NoActiveRound => 7,
            ContractError::RoundEnded => 8,
            ContractError::InsufficientBalance => 9,
            ContractError::AlreadyBet => 10,
            ContractError::Overflow => 11,
            ContractError::InvalidPrice => 12,
            ContractError::InvalidDuration => 13,
            ContractError::RoundNotEnded => 14,
            ContractError::StaleOracleData => 15,
            ContractError::InvalidOracleRound => 16,
            ContractError::RoundAlreadyActive => 17,
            ContractError::UnauthorizedUser => 18,
            ContractError::WrongRoundMode => 19,
        }
    }
}

/// No two failures share a code.
pub proof fn lemma_codes_are_distinct(a: ContractError, b: ContractError)
    ensures
        a.spec_code() == b.spec_code() <==> a == b,
{
}

} // verus!
