use prediction_market::contract::VirtualTokenContract;
use prediction_market::invocation::Invocation;
use prediction_market::types::{Address, OraclePayload, RoundMode};
use soroban_sdk::Env;

const ADMIN: Address = Address { contract: false, hi: 0, lo: 1 };
const ORACLE: Address = Address { contract: false, hi: 0, lo: 2 };

fn call_at(ledger_sequence: u32) -> Invocation {
    let mut call = Invocation::new(ledger_sequence, 0);
    call.authorize(ADMIN);
    call.authorize(ORACLE);
    call
}

fn initialized(env: &Env) -> VirtualTokenContract {
    let mut market = VirtualTokenContract::new(env.clone());
    market.initialize(&call_at(0), ADMIN, ORACLE).unwrap();
    market
}

fn resolve_at(market: &mut VirtualTokenContract, ledger: u32, final_price: u128) {
    let round_id = market.get_active_round().unwrap().round_id;
    market
        .resolve_round(&call_at(ledger), OraclePayload { price: final_price, timestamp: 0, round_id })
        .unwrap();
}

#[test]
fn test_round_id_starts_at_one() {
    let env = Env::default();
    let mut market = initialized(&env);

    market.create_round(&call_at(0), 1_0000000, RoundMode::UpDown).unwrap();

    let round = market.get_active_round().expect("Round should exist");
    assert_eq!(round.round_id, 1);

    assert_eq!(market.get_last_round_id(), 1);
}

#[test]
fn test_round_id_increments() {
    let env = Env::default();
    let mut market = initialized(&env);

    market.create_round(&call_at(0), 1_0000000, RoundMode::UpDown).unwrap();
    let round1 = market.get_active_round().unwrap();
    assert_eq!(round1.round_id, 1);

    resolve_at(&mut market, 12, 1_5000000);

    market.create_round(&call_at(12), 1_5000000, RoundMode::UpDown).unwrap();
    let round2 = market.get_active_round().unwrap();
    assert_eq!(round2.round_id, 2);
    assert_eq!(market.get_last_round_id(), 2);

    resolve_at(&mut market, 24, 2_0000000);

    market.create_round(&call_at(24), 2_0000000, RoundMode::UpDown).unwrap();
    let round3 = market.get_active_round().unwrap();
    assert_eq!(round3.round_id, 3);
    assert_eq!(market.get_last_round_id(), 3);
}

#[test]
fn test_round_id_persists_across_modes() {
    let env = Env::default();
    let mut market = initialized(&env);

    market.create_round(&call_at(0), 1_0000000, RoundMode::UpDown).unwrap();
    let round1 = market.get_active_round().unwrap();
    assert_eq!(round1.round_id, 1);

    resolve_at(&mut market, 12, 1_5000000);

    market.create_round(&call_at(12), 1_5000000, RoundMode::Precision).unwrap();
    let round2 = market.get_active_round().unwrap();
    assert_eq!(round2.round_id, 2);

    resolve_at(&mut market, 24, 2_0000000);

    market.create_round(&call_at(24), 2_0000000, RoundMode::UpDown).unwrap();
    let round3 = market.get_active_round().unwrap();
    assert_eq!(round3.round_id, 3);

    assert_eq!(market.get_last_round_id(), 3);
}

#[test]
fn test_get_last_round_id_before_any_rounds() {
    let env = Env::default();
    let market = initialized(&env);

    assert_eq!(market.get_last_round_id(), 0);
}
