use prediction_market::contract::VirtualTokenContract;
use prediction_market::errors::ContractError;
use prediction_market::invocation::Invocation;
use prediction_market::types::{
    Address, BetSide, OraclePayload, Round, RoundMode, UserPosition, UserStats,
};
use soroban_sdk::Env;

const ADMIN: Address = Address { contract: false, hi: 0, lo: 1 };
const ORACLE: Address = Address { contract: false, hi: 0, lo: 2 };
const ALICE: Address = Address { contract: false, hi: 0, lo: 10 };
const BOB: Address = Address { contract: false, hi: 0, lo: 11 };
const CHARLIE: Address = Address { contract: false, hi: 0, lo: 12 };

/// An invocation at the given ledger that everybody in the tests has authorized.
fn call_at(ledger_sequence: u32) -> Invocation {
    let mut call = Invocation::new(ledger_sequence, 0);
    for who in [ADMIN, ORACLE, ALICE, BOB, CHARLIE] {
        call.authorize(who);
    }
    call
}

fn initialized(env: &Env) -> VirtualTokenContract {
    let mut market = VirtualTokenContract::new(env.clone());
    market.initialize(&call_at(0), ADMIN, ORACLE).unwrap();
    market
}

/// Creates an Up/Down round that ends `duration` ledgers after `ledger`;
/// betting closes halfway.
fn create_round(market: &mut VirtualTokenContract, ledger: u32, start_price: u128, duration: u32) {
    market.set_windows(&call_at(ledger), duration / 2, duration).unwrap();
    market.create_round(&call_at(ledger), start_price, RoundMode::UpDown).unwrap();
}

/// Resolves the active round at its end ledger with a fresh report.
fn resolve(market: &mut VirtualTokenContract, final_price: u128) -> Result<(), ContractError> {
    let (ledger, round_id) = match market.get_active_round() {
        Some(round) => (round.end_ledger, round.round_id),
        None => (0, 0),
    };
    market.resolve_round(&call_at(ledger), OraclePayload { price: final_price, timestamp: 0, round_id })
}

/// Writes the given positions and pools into the persisted entries of the
/// active round, leaving everything else as it is.
fn install_positions(
    env: &Env,
    market: VirtualTokenContract,
    positions: Vec<(Address, UserPosition)>,
    pool_up: i128,
    pool_down: i128,
) -> VirtualTokenContract {
    let mut snapshot = market.snapshot();
    let round = snapshot.active_round.expect("an active round");
    snapshot.positions = positions;
    snapshot.active_round = Some(Round { pool_up, pool_down, ..round });
    VirtualTokenContract::restore(env.clone(), &snapshot).expect("a valid market")
}

#[test]
fn test_mint_initial() {
    let env = Env::default();
    let mut market = VirtualTokenContract::new(env.clone());

    let balance = market.mint_initial(&call_at(0), ALICE).unwrap();
    assert_eq!(balance, 1000_0000000);

    let queried_balance = market.balance(ALICE);
    assert_eq!(queried_balance, 1000_0000000);
}

#[test]
fn lib_test_mint_initial() {
    let env = Env::default();
    let mut market = VirtualTokenContract::new(env.clone());
    let user = Address::account(7, 7);
    let mut call = Invocation::new(0, 0);
    call.authorize(user);

    let balance = market.mint_initial(&call, user).unwrap();
    assert_eq!(balance, 1000_0000000);
    assert_eq!(market.balance(user), 1000_0000000);
}

#[test]
fn test_mint_initial_only_once() {
    let env = Env::default();
    let mut market = VirtualTokenContract::new(env.clone());

    let first_mint = market.mint_initial(&call_at(0), ALICE).unwrap();
    assert_eq!(first_mint, 1000_0000000);

    let second_mint = market.mint_initial(&call_at(0), ALICE).unwrap();
    assert_eq!(second_mint, 1000_0000000);

    let balance = market.balance(ALICE);
    assert_eq!(balance, 1000_0000000);
}

#[test]
fn lib_test_mint_initial_only_once() {
    let env = Env::default();
    let mut market = VirtualTokenContract::new(env.clone());
    let user = Address::contract(0, 99);
    let mut call = Invocation::new(3, 0);
    call.authorize(user);

    assert_eq!(market.mint_initial(&call, user), Ok(1000_0000000));
    assert_eq!(market.mint_initial(&call, user), Ok(1000_0000000));
    assert_eq!(market.balance(user), 1000_0000000);
}

#[test]
fn test_balance_for_new_user() {
    let env = Env::default();
    let market = VirtualTokenContract::new(env.clone());

    let balance = market.balance(ALICE);
    assert_eq!(balance, 0);
}

#[test]
fn lib_test_balance_for_new_user() {
    let env = Env::default();
    let market = VirtualTokenContract::new(env.clone());
    assert_eq!(market.balance(Address::contract(5, 5)), 0);
}

#[test]
fn test_initialize() {
    let env = Env::default();
    let mut market = VirtualTokenContract::new(env.clone());

    market.initialize(&call_at(0), ADMIN, ORACLE).unwrap();

    let stored_admin = market.get_admin();
    let stored_oracle = market.get_oracle();
    assert_eq!(stored_admin, Some(ADMIN));
    assert_eq!(stored_oracle, Some(ORACLE));
}

#[test]
fn test_initialize_twice_fails() {
    let env = Env::default();
    let mut market = VirtualTokenContract::new(env.clone());

    market.initialize(&call_at(0), ADMIN, ORACLE).unwrap();

    let result = market.initialize(&call_at(0), ADMIN, ORACLE);
    assert_eq!(result, Err(ContractError::AlreadyInitialized));
}

#[test]
fn test_create_round() {
    let env = Env::default();
    let mut market = initialized(&env);

    let start_price: u128 = 1_5000000;
    let duration: u32 = 60;

    create_round(&mut market, 0, start_price, duration);

    let round = market.get_active_round().expect("Round should exist");

    assert_eq!(round.price_start, start_price);
    assert_eq!(round.pool_up, 0);
    assert_eq!(round.pool_down, 0);
    assert_eq!(round.end_ledger, duration);
}

#[test]
fn test_create_round_without_init_fails() {
    let env = Env::default();
    let mut market = VirtualTokenContract::new(env.clone());

    let result = market.create_round(&call_at(0), 1_0000000, RoundMode::UpDown);
    assert_eq!(result, Err(ContractError::AdminNotSet));
    assert_eq!(market.set_windows(&call_at(0), 30, 60), Err(ContractError::AdminNotSet));
}

#[test]
fn test_get_active_round_when_none() {
    let env = Env::default();
    let market = VirtualTokenContract::new(env.clone());

    let round = market.get_active_round();
    assert_eq!(round, None);
}

#[test]
fn test_resolve_round_price_unchanged() {
    let env = Env::default();
    let mut market = initialized(&env);

    let start_price: u128 = 1_5000000;
    create_round(&mut market, 0, start_price, 60);

    let user1 = ALICE;
    let user2 = BOB;
    market.mint_initial(&call_at(0), user1).unwrap();
    market.mint_initial(&call_at(0), user2).unwrap();

    let mut market = install_positions(
        &env,
        market,
        vec![
            (user1, UserPosition { amount: 100_0000000, side: BetSide::Up }),
            (user2, UserPosition { amount: 50_0000000, side: BetSide::Down }),
        ],
        100_0000000,
        50_0000000,
    );

    let user1_balance_before = market.balance(user1);
    let user2_balance_before = market.balance(user2);

    resolve(&mut market, start_price).unwrap();

    assert_eq!(market.get_pending_winnings(user1), 100_0000000);
    assert_eq!(market.get_pending_winnings(user2), 50_0000000);

    let claimed1 = market.claim_winnings(&call_at(60), user1).unwrap();
    let claimed2 = market.claim_winnings(&call_at(60), user2).unwrap();

    assert_eq!(claimed1, 100_0000000);
    assert_eq!(claimed2, 50_0000000);

    assert_eq!(market.balance(user1), user1_balance_before + 100_0000000);
    assert_eq!(market.balance(user2), user2_balance_before + 50_0000000);

    assert_eq!(market.get_active_round(), None);

    // A refund is neither a win nor a loss.
    assert_eq!(market.get_user_stats(user1), UserStats::new());
    assert_eq!(market.get_user_stats(user2), UserStats::new());
}

#[test]
fn test_resolve_round_price_went_up() {
    let env = Env::default();
    let mut market = initialized(&env);

    let start_price: u128 = 1_0000000;
    create_round(&mut market, 0, start_price, 60);

    market.mint_initial(&call_at(0), ALICE).unwrap();
    market.mint_initial(&call_at(0), BOB).unwrap();
    market.mint_initial(&call_at(0), CHARLIE).unwrap();

    let mut market = install_positions(
        &env,
        market,
        vec![
            (ALICE, UserPosition { amount: 100_0000000, side: BetSide::Up }),
            (BOB, UserPosition { amount: 200_0000000, side: BetSide::Up }),
            (CHARLIE, UserPosition { amount: 150_0000000, side: BetSide::Down }),
        ],
        300_0000000,
        150_0000000,
    );

    let alice_before = market.balance(ALICE);
    let bob_before = market.balance(BOB);
    let charlie_before = market.balance(CHARLIE);

    resolve(&mut market, 1_5000000).unwrap();

    assert_eq!(market.get_pending_winnings(ALICE), 150_0000000);
    assert_eq!(market.get_pending_winnings(BOB), 300_0000000);
    assert_eq!(market.get_pending_winnings(CHARLIE), 0);

    let alice_stats = market.get_user_stats(ALICE);
    assert_eq!(alice_stats.total_wins, 1);
    assert_eq!(alice_stats.current_streak, 1);

    let charlie_stats = market.get_user_stats(CHARLIE);
    assert_eq!(charlie_stats.total_losses, 1);
    assert_eq!(charlie_stats.current_streak, 0);

    market.claim_winnings(&call_at(60), ALICE).unwrap();
    market.claim_winnings(&call_at(60), BOB).unwrap();

    assert_eq!(market.balance(ALICE), alice_before + 150_0000000);
    assert_eq!(market.balance(BOB), bob_before + 300_0000000);
    assert_eq!(market.balance(CHARLIE), charlie_before);
}

#[test]
fn test_resolve_round_price_went_down() {
    let env = Env::default();
    let mut market = initialized(&env);

    let start_price: u128 = 2_0000000;
    create_round(&mut market, 0, start_price, 60);

    market.mint_initial(&call_at(0), ALICE).unwrap();
    market.mint_initial(&call_at(0), BOB).unwrap();

    let mut market = install_positions(
        &env,
        market,
        vec![
            (ALICE, UserPosition { amount: 200_0000000, side: BetSide::Down }),
            (BOB, UserPosition { amount: 100_0000000, side: BetSide::Up }),
        ],
        100_0000000,
        200_0000000,
    );

    let alice_before = market.balance(ALICE);
    let bob_before = market.balance(BOB);

    resolve(&mut market, 1_0000000).unwrap();

    assert_eq!(market.get_pending_winnings(ALICE), 300_0000000);
    assert_eq!(market.get_pending_winnings(BOB), 0);

    market.claim_winnings(&call_at(60), ALICE).unwrap();

    assert_eq!(market.balance(ALICE), alice_before + 300_0000000);
    assert_eq!(market.balance(BOB), bob_before);
}

#[test]
fn test_claim_winnings_when_none() {
    let env = Env::default();
    let mut market = VirtualTokenContract::new(env.clone());

    let claimed = market.claim_winnings(&call_at(0), ALICE).unwrap();
    assert_eq!(claimed, 0);
    assert_eq!(market.balance(ALICE), 0);
}

#[test]
fn test_user_stats_tracking() {
    let env = Env::default();
    let mut market = initialized(&env);

    let stats = market.get_user_stats(ALICE);
    assert_eq!(stats.total_wins, 0);
    assert_eq!(stats.total_losses, 0);
    assert_eq!(stats.current_streak, 0);
    assert_eq!(stats.best_streak, 0);

    market.update_stats_win(ALICE).unwrap();

    let stats = market.get_user_stats(ALICE);
    assert_eq!(stats.total_wins, 1);
    assert_eq!(stats.current_streak, 1);
    assert_eq!(stats.best_streak, 1);

    market.update_stats_win(ALICE).unwrap();

    let stats = market.get_user_stats(ALICE);
    assert_eq!(stats.total_wins, 2);
    assert_eq!(stats.current_streak, 2);
    assert_eq!(stats.best_streak, 2);

    market.update_stats_loss(ALICE).unwrap();

    let stats = market.get_user_stats(ALICE);
    assert_eq!(stats.total_wins, 2);
    assert_eq!(stats.total_losses, 1);
    assert_eq!(stats.current_streak, 0);
    assert_eq!(stats.best_streak, 2);
}

#[test]
fn test_resolve_round_without_active_round() {
    let env = Env::default();
    let mut market = initialized(&env);

    let result = resolve(&mut market, 1_0000000);
    assert_eq!(result, Err(ContractError::NoActiveRound));
}

#[test]
fn test_full_round_lifecycle() {
    let env = Env::default();
    let mut market = VirtualTokenContract::new(env.clone());

    market.initialize(&call_at(0), ADMIN, ORACLE).unwrap();

    market.mint_initial(&call_at(0), ALICE).unwrap();
    market.mint_initial(&call_at(0), BOB).unwrap();
    market.mint_initial(&call_at(0), CHARLIE).unwrap();

    assert_eq!(market.balance(ALICE), 1000_0000000);
    assert_eq!(market.balance(BOB), 1000_0000000);
    assert_eq!(market.balance(CHARLIE), 1000_0000000);

    let start_price: u128 = 1_0000000;
    create_round(&mut market, 0, start_price, 100);

    let round = market.get_active_round().unwrap();
    assert_eq!(round.price_start, start_price);
    assert_eq!(round.pool_up, 0);
    assert_eq!(round.pool_down, 0);

    market.place_bet(&call_at(0), ALICE, 100_0000000, BetSide::Up).unwrap();
    market.place_bet(&call_at(0), BOB, 200_0000000, BetSide::Up).unwrap();
    market.place_bet(&call_at(0), CHARLIE, 150_0000000, BetSide::Down).unwrap();

    assert_eq!(market.balance(ALICE), 900_0000000);
    assert_eq!(market.balance(BOB), 800_0000000);
    assert_eq!(market.balance(CHARLIE), 850_0000000);

    let alice_pos = market.get_user_position(ALICE).unwrap();
    assert_eq!(alice_pos.amount, 100_0000000);
    assert_eq!(alice_pos.side, BetSide::Up);

    let round = market.get_active_round().unwrap();
    assert_eq!(round.pool_up, 300_0000000);
    assert_eq!(round.pool_down, 150_0000000);

    let final_price: u128 = 1_5000000;
    resolve(&mut market, final_price).unwrap();

    assert_eq!(market.get_active_round(), None);

    assert_eq!(market.get_pending_winnings(ALICE), 150_0000000);
    assert_eq!(market.get_pending_winnings(BOB), 300_0000000);
    assert_eq!(market.get_pending_winnings(CHARLIE), 0);

    let alice_stats = market.get_user_stats(ALICE);
    assert_eq!(alice_stats.total_wins, 1);
    assert_eq!(alice_stats.current_streak, 1);

    let charlie_stats = market.get_user_stats(CHARLIE);
    assert_eq!(charlie_stats.total_losses, 1);
    assert_eq!(charlie_stats.current_streak, 0);

    let alice_claimed = market.claim_winnings(&call_at(100), ALICE).unwrap();
    let bob_claimed = market.claim_winnings(&call_at(100), BOB).unwrap();

    assert_eq!(alice_claimed, 150_0000000);
    assert_eq!(bob_claimed, 300_0000000);

    assert_eq!(market.balance(ALICE), 1050_0000000);
    assert_eq!(market.balance(BOB), 1100_0000000);
    assert_eq!(market.balance(CHARLIE), 850_0000000);

    assert_eq!(market.get_pending_winnings(ALICE), 0);
    assert_eq!(market.get_pending_winnings(BOB), 0);

    // The positions went with the round.
    assert_eq!(market.get_user_position(ALICE), None);
}

#[test]
fn test_multiple_rounds_lifecycle() {
    let env = Env::default();
    let mut market = initialized(&env);
    market.mint_initial(&call_at(0), ALICE).unwrap();

    create_round(&mut market, 0, 1_0000000, 100);
    market.place_bet(&call_at(0), ALICE, 100_0000000, BetSide::Up).unwrap();

    let mut market = install_positions(
        &env,
        market,
        vec![(ALICE, UserPosition { amount: 100_0000000, side: BetSide::Up })],
        100_0000000,
        50_0000000,
    );

    resolve(&mut market, 1_5000000).unwrap();
    market.claim_winnings(&call_at(100), ALICE).unwrap();

    let stats = market.get_user_stats(ALICE);
    assert_eq!(stats.total_wins, 1);
    assert_eq!(stats.current_streak, 1);

    create_round(&mut market, 100, 2_0000000, 100);
    market.place_bet(&call_at(100), ALICE, 100_0000000, BetSide::Down).unwrap();

    let mut market = install_positions(
        &env,
        market,
        vec![(ALICE, UserPosition { amount: 100_0000000, side: BetSide::Down })],
        80_0000000,
        100_0000000,
    );

    resolve(&mut market, 1_5000000).unwrap();

    let stats = market.get_user_stats(ALICE);
    assert_eq!(stats.total_wins, 2);
    assert_eq!(stats.current_streak, 2);
    assert_eq!(stats.best_streak, 2);
}

#[test]
fn test_place_bet_zero_amount() {
    let env = Env::default();
    let mut market = initialized(&env);
    market.mint_initial(&call_at(0), ALICE).unwrap();
    create_round(&mut market, 0, 1_0000000, 100);

    let result = market.place_bet(&call_at(0), ALICE, 0, BetSide::Up);
    assert_eq!(result, Err(ContractError::InvalidBetAmount));
}

#[test]
fn test_place_bet_negative_amount() {
    let env = Env::default();
    let mut market = initialized(&env);
    market.mint_initial(&call_at(0), ALICE).unwrap();
    create_round(&mut market, 0, 1_0000000, 100);

    let result = market.place_bet(&call_at(0), ALICE, -100, BetSide::Up);
    assert_eq!(result, Err(ContractError::InvalidBetAmount));
}

#[test]
fn test_place_bet_no_active_round() {
    let env = Env::default();
    let mut market = initialized(&env);
    market.mint_initial(&call_at(0), ALICE).unwrap();

    let result = market.place_bet(&call_at(0), ALICE, 100_0000000, BetSide::Up);
    assert_eq!(result, Err(ContractError::NoActiveRound));
}

#[test]
fn test_place_bet_after_round_ended() {
    let env = Env::default();
    let mut market = initialized(&env);
    market.mint_initial(&call_at(0), ALICE).unwrap();

    create_round(&mut market, 0, 1_0000000, 50);

    let result = market.place_bet(&call_at(100), ALICE, 100_0000000, BetSide::Up);
    assert_eq!(result, Err(ContractError::RoundEnded));
}

#[test]
fn test_place_bet_insufficient_balance() {
    let env = Env::default();
    let mut market = initialized(&env);
    market.mint_initial(&call_at(0), ALICE).unwrap();
    create_round(&mut market, 0, 1_0000000, 100);

    let result = market.place_bet(&call_at(0), ALICE, 2000_0000000, BetSide::Up);
    assert_eq!(result, Err(ContractError::InsufficientBalance));
    assert_eq!(market.balance(ALICE), 1000_0000000);
}

#[test]
fn test_place_bet_twice_same_round() {
    let env = Env::default();
    let mut market = initialized(&env);
    market.mint_initial(&call_at(0), ALICE).unwrap();
    create_round(&mut market, 0, 1_0000000, 100);

    market.place_bet(&call_at(0), ALICE, 100_0000000, BetSide::Up).unwrap();

    let result = market.place_bet(&call_at(0), ALICE, 50_0000000, BetSide::Down);
    assert_eq!(result, Err(ContractError::AlreadyBet));

    // The first position stands, and the balance was debited once.
    assert_eq!(
        market.get_user_position(ALICE),
        Some(UserPosition { amount: 100_0000000, side: BetSide::Up })
    );
    assert_eq!(market.balance(ALICE), 900_0000000);
}

#[test]
fn test_round_with_no_participants() {
    let env = Env::default();
    let mut market = initialized(&env);

    create_round(&mut market, 0, 1_0000000, 100);

    let round = market.get_active_round().unwrap();
    assert_eq!(round.pool_up, 0);
    assert_eq!(round.pool_down, 0);

    resolve(&mut market, 1_5000000).unwrap();

    assert_eq!(market.get_active_round(), None);
}

#[test]
fn test_round_with_only_one_side() {
    let env = Env::default();
    let mut market = initialized(&env);
    market.mint_initial(&call_at(0), ALICE).unwrap();
    market.mint_initial(&call_at(0), BOB).unwrap();

    create_round(&mut market, 0, 1_0000000, 100);
    market.place_bet(&call_at(0), ALICE, 100_0000000, BetSide::Up).unwrap();
    market.place_bet(&call_at(0), BOB, 150_0000000, BetSide::Up).unwrap();

    let round = market.get_active_round().unwrap();
    assert_eq!(round.pool_up, 250_0000000);
    assert_eq!(round.pool_down, 0);

    resolve(&mut market, 1_5000000).unwrap();

    assert_eq!(market.get_pending_winnings(ALICE), 100_0000000);
    assert_eq!(market.get_pending_winnings(BOB), 150_0000000);
}

#[test]
fn test_get_user_position_no_bet() {
    let env = Env::default();
    let market = VirtualTokenContract::new(env.clone());

    let position = market.get_user_position(ALICE);
    assert_eq!(position, None);
}

#[test]
fn test_accumulate_pending_winnings() {
    let env = Env::default();
    let mut market = initialized(&env);
    market.mint_initial(&call_at(0), ALICE).unwrap();

    create_round(&mut market, 0, 1_0000000, 100);
    market.place_bet(&call_at(0), ALICE, 100_0000000, BetSide::Up).unwrap();

    let mut market = install_positions(
        &env,
        market,
        vec![(ALICE, UserPosition { amount: 100_0000000, side: BetSide::Up })],
        100_0000000,
        50_0000000,
    );

    resolve(&mut market, 1_5000000).unwrap();

    let first_pending = market.get_pending_winnings(ALICE);
    assert!(first_pending > 0);
    assert_eq!(first_pending, 150_0000000);

    create_round(&mut market, 100, 2_0000000, 100);
    market.place_bet(&call_at(100), ALICE, 50_0000000, BetSide::Down).unwrap();

    resolve(&mut market, 2_0000000).unwrap();

    let total_pending = market.get_pending_winnings(ALICE);
    assert_eq!(total_pending, first_pending + 50_0000000);

    let claimed = market.claim_winnings(&call_at(200), ALICE).unwrap();
    assert_eq!(claimed, total_pending);
    assert_eq!(market.get_pending_winnings(ALICE), 0);
}
