use prediction_market::contract::VirtualTokenContract;
use prediction_market::errors::ContractError;
use prediction_market::invocation::Invocation;
use prediction_market::types::{Address, OraclePayload, RoundMode};
use soroban_sdk::Env;

const ADMIN: Address = Address { contract: false, hi: 0, lo: 1 };
const ORACLE: Address = Address { contract: false, hi: 0, lo: 2 };

fn call_at(ledger_sequence: u32, ledger_timestamp: u64) -> Invocation {
    let mut call = Invocation::new(ledger_sequence, ledger_timestamp);
    call.authorize(ADMIN);
    call.authorize(ORACLE);
    call
}

fn with_first_round(env: &Env) -> VirtualTokenContract {
    let mut market = VirtualTokenContract::new(env.clone());
    market.initialize(&call_at(0, 0), ADMIN, ORACLE).unwrap();
    market.create_round(&call_at(0, 0), 1_0000000, RoundMode::UpDown).unwrap();
    market
}

#[test]
fn test_resolve_round_stale_timestamp() {
    let env = Env::default();
    let mut market = with_first_round(&env);

    // The ledger clock stands at 1000; the report is 400 s old.
    let payload = OraclePayload { price: 1_5000000, timestamp: 600, round_id: 1 };

    let result = market.resolve_round(&call_at(12, 1000), payload);
    assert_eq!(result, Err(ContractError::StaleOracleData));
    assert!(market.get_active_round().is_some());
}

#[test]
fn test_resolve_round_invalid_round_id() {
    let env = Env::default();
    let mut market = with_first_round(&env);

    let payload = OraclePayload { price: 1_5000000, timestamp: 0, round_id: 999 };

    let result = market.resolve_round(&call_at(12, 0), payload);
    assert_eq!(result, Err(ContractError::InvalidOracleRound));
    assert!(market.get_active_round().is_some());
}

#[test]
fn test_resolve_round_valid_payload() {
    let env = Env::default();
    let mut market = with_first_round(&env);

    // Within 300 s and for the right round.
    let payload = OraclePayload { price: 1_5000000, timestamp: 900, round_id: 1 };

    market.resolve_round(&call_at(12, 1000), payload).unwrap();
    assert_eq!(market.get_active_round(), None);
}
