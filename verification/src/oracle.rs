//! The oracle validator: what a price report has to satisfy before any
//! payout is computed.

use vstd::prelude::*;
use crate::errors::ContractError;
use crate::types::OraclePayload;

verus! {

/// The age, in seconds, beyond which a report is stale.
pub const MAX_REPORT_AGE: u64 = 300;

/// Why a report is refused for the round `round_id` at ledger time `now`, if
/// it is: it names another round, it is older than the freshness bound, or it
/// carries no price — looked at in this order.
pub open spec fn report_error(payload: OraclePayload, round_id: u64, now: u64) -> Option<
    ContractError,
> {
    if payload.round_id != round_id {
        Some(ContractError::InvalidOracleRound)
    } else if now - payload.timestamp > 300 {
        Some(ContractError::StaleOracleData)
    } else if payload.price == 0 {
        Some(ContractError::InvalidPrice)
    } else {
        None
    }
}

/// Checks a report against the round it is meant to settle and the ledger
/// clock.
pub fn validate_report(payload: &OraclePayload, round_id: u64, now: u64) -> (checked: Result<
    (),
    ContractError,
>)
    ensures
        checked == (match report_error(*payload, round_id, now) {
            Some(e) => Err(e),
            None => Ok(()),
        }),
{
    if payload.round_id != round_id {
        return Err(ContractError::InvalidOracleRound);
    }
    if now > payload.timestamp && now - payload.timestamp > MAX_REPORT_AGE {
        return Err(ContractError::StaleOracleData);
    }
    if payload.price == 0 {
        return Err(ContractError::InvalidPrice);
    }
    Ok(())
}

} // verus!
