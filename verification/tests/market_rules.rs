use prediction_market::contract::VirtualTokenContract;
use prediction_market::errors::ContractError;
use prediction_market::invocation::Invocation;
use prediction_market::oracle::validate_report;
use prediction_market::payout::winner_payout;
use prediction_market::snapshot::Snapshot;
use prediction_market::types::{
    Address, BetSide, OraclePayload, Round, RoundMode, RoundPhase, UserPosition, UserStats,
    Windows,
};
use soroban_sdk::Env;

const ADMIN: Address = Address { contract: false, hi: 0, lo: 1 };
const ORACLE: Address = Address { contract: false, hi: 0, lo: 2 };
const ALICE: Address = Address { contract: false, hi: 0, lo: 10 };
const BOB: Address = Address { contract: false, hi: 0, lo: 11 };
const CHARLIE: Address = Address { contract: false, hi: 0, lo: 12 };

fn call_at(ledger_sequence: u32) -> Invocation {
    let mut call = Invocation::new(ledger_sequence, 0);
    for who in [ADMIN, ORACLE, ALICE, BOB, CHARLIE] {
        call.authorize(who);
    }
    call
}

fn round_at_zero(pool_up: i128, pool_down: i128) -> Round {
    Round {
        round_id: 1,
        mode: RoundMode::UpDown,
        price_start: 1_0000000,
        start_ledger: 0,
        bet_end_ledger: 6,
        end_ledger: 12,
        pool_up,
        pool_down,
    }
}

fn market_with(
    positions: Vec<(Address, UserPosition)>,
    pool_up: i128,
    pool_down: i128,
    pending_winnings: Vec<(Address, i128)>,
    user_stats: Vec<(Address, UserStats)>,
) -> VirtualTokenContract {
    let snapshot = Snapshot {
        admin: Some(ADMIN),
        oracle: Some(ORACLE),
        windows: None,
        last_round_id: 1,
        active_round: Some(round_at_zero(pool_up, pool_down)),
        positions,
        predictions: vec![],
        balances: vec![],
        pending_winnings,
        user_stats,
    };
    VirtualTokenContract::restore(Env::default(), &snapshot).expect("a valid market")
}

fn report(price: u128) -> OraclePayload {
    OraclePayload { price, timestamp: 0, round_id: 1 }
}

fn up(amount: i128) -> UserPosition {
    UserPosition { amount, side: BetSide::Up }
}

fn down(amount: i128) -> UserPosition {
    UserPosition { amount, side: BetSide::Down }
}

// Payout arithmetic

#[test]
fn payout_is_stake_plus_share_rounded_down() {
    assert_eq!(winner_payout(100, 300, 150), Ok(150));
    assert_eq!(winner_payout(200, 300, 150), Ok(300));
    // 1 * 2 / 3 rounds down to nothing.
    assert_eq!(winner_payout(1, 3, 2), Ok(1));
    // 7 * 10 / 4 = 17.5 rounds down to 17.
    assert_eq!(winner_payout(7, 4, 10), Ok(24));
    assert_eq!(winner_payout(5, 5, 0), Ok(5));
}

#[test]
fn payout_overflow_is_reported() {
    // The product leaves the range although the payout would fit.
    assert_eq!(winner_payout(i128::MAX, i128::MAX, 2), Err(ContractError::Overflow));
    // The product fits, the sum does not.
    assert_eq!(winner_payout(i128::MAX, 1, 1), Err(ContractError::Overflow));
    assert_eq!(winner_payout(i128::MAX, i128::MAX, 0), Ok(i128::MAX));
}

// Conservation

#[test]
fn payouts_never_exceed_the_pools() {
    let cases: [(i128, i128, i128); 5] = [
        (1, 1, 2),
        (3, 7, 5),
        (999_999_999, 1, 999_999_999),
        (123_456_789, 987_654_321, 555_555_555),
        (1, 999_999_999, 1),
    ];
    for (a_up, b_up, c_down) in cases {
        let mut market = market_with(
            vec![(ALICE, up(a_up)), (BOB, up(b_up)), (CHARLIE, down(c_down))],
            a_up + b_up,
            c_down,
            vec![],
            vec![],
        );
        market.resolve_round(&call_at(12), report(2_0000000)).unwrap();

        let alice_pending = market.get_pending_winnings(ALICE);
        let bob_pending = market.get_pending_winnings(BOB);
        let charlie_pending = market.get_pending_winnings(CHARLIE);

        assert!(alice_pending >= 0);
        assert!(bob_pending >= 0);
        assert_eq!(charlie_pending, 0);
        assert!(alice_pending + bob_pending <= a_up + b_up + c_down);
        assert!(alice_pending + bob_pending >= a_up + b_up);
        assert_eq!(alice_pending, a_up + a_up * c_down / (a_up + b_up));
        assert_eq!(bob_pending, b_up + b_up * c_down / (a_up + b_up));
    }
}

#[test]
fn rounding_leaves_dust_unallocated() {
    let mut market = market_with(
        vec![(ALICE, up(1)), (BOB, up(1)), (CHARLIE, up(1)), (ADMIN, down(2))],
        3,
        2,
        vec![],
        vec![],
    );
    market.resolve_round(&call_at(12), report(2_0000000)).unwrap();
    // Each winner's share, 1 * 2 / 3, rounds down to nothing: 2 stay behind.
    assert_eq!(market.get_pending_winnings(ALICE), 1);
    assert_eq!(market.get_pending_winnings(BOB), 1);
    assert_eq!(market.get_pending_winnings(CHARLIE), 1);
    assert_eq!(market.get_pending_winnings(ADMIN), 0);
}

#[test]
fn empty_winning_pool_records_nothing() {
    let mut market = market_with(vec![(ALICE, down(50))], 0, 50, vec![], vec![]);
    market.resolve_round(&call_at(12), report(2_0000000)).unwrap();
    assert_eq!(market.get_pending_winnings(ALICE), 0);
    assert_eq!(market.get_user_stats(ALICE), UserStats::new());
    assert_eq!(market.get_active_round(), None);
    assert_eq!(market.get_user_position(ALICE), None);
}

#[test]
fn pending_winnings_accumulate() {
    let mut market =
        market_with(vec![(ALICE, up(100)), (BOB, down(40))], 100, 40, vec![(ALICE, 7)], vec![]);
    market.resolve_round(&call_at(12), report(2_0000000)).unwrap();
    assert_eq!(market.get_pending_winnings(ALICE), 147);
}

// All-or-nothing resolution

#[test]
fn overflow_aborts_the_whole_resolution() {
    let mut market = market_with(
        vec![(ALICE, up(100)), (BOB, up(100)), (CHARLIE, down(100))],
        200,
        100,
        vec![(BOB, i128::MAX), (ALICE, 5)],
        vec![],
    );
    let result = market.resolve_round(&call_at(12), report(2_0000000));
    assert_eq!(result, Err(ContractError::Overflow));

    assert_eq!(market.get_pending_winnings(ALICE), 5);
    assert_eq!(market.get_pending_winnings(BOB), i128::MAX);
    assert_eq!(market.get_user_stats(ALICE), UserStats::new());
    assert_eq!(market.get_user_stats(CHARLIE), UserStats::new());
    assert_eq!(market.get_active_round(), Some(round_at_zero(200, 100)));
    assert_eq!(market.get_user_position(CHARLIE), Some(down(100)));
}

#[test]
fn counter_overflow_aborts_the_resolution() {
    let worn = UserStats { total_wins: 3, total_losses: u32::MAX, current_streak: 0, best_streak: 3 };
    let mut market = market_with(
        vec![(ALICE, up(100)), (CHARLIE, down(100))],
        100,
        100,
        vec![],
        vec![(CHARLIE, worn)],
    );
    let result = market.resolve_round(&call_at(12), report(2_0000000));
    assert_eq!(result, Err(ContractError::Overflow));
    assert_eq!(market.get_pending_winnings(ALICE), 0);
    assert_eq!(market.get_user_stats(CHARLIE), worn);
    assert!(market.get_active_round().is_some());
}

#[test]
fn claim_overflow_is_reported() {
    let snapshot = Snapshot {
        admin: Some(ADMIN),
        oracle: Some(ORACLE),
        windows: None,
        last_round_id: 0,
        active_round: None,
        positions: vec![],
        predictions: vec![],
        balances: vec![(ALICE, i128::MAX)],
        pending_winnings: vec![(ALICE, 1)],
        user_stats: vec![],
    };
    let mut market = VirtualTokenContract::restore(Env::default(), &snapshot).unwrap();
    assert_eq!(market.claim_winnings(&call_at(0), ALICE), Err(ContractError::Overflow));
    assert_eq!(market.balance(ALICE), i128::MAX);
    assert_eq!(market.get_pending_winnings(ALICE), 1);
}

// Idempotent bootstrap

#[test]
fn second_grant_changes_nothing_even_for_an_empty_balance() {
    let mut market = VirtualTokenContract::new(Env::default());
    market.initialize(&call_at(0), ADMIN, ORACLE).unwrap();
    assert_eq!(market.mint_initial(&call_at(0), ALICE), Ok(1000_0000000));

    market.create_round(&call_at(0), 1_0000000, RoundMode::UpDown).unwrap();
    market.place_bet(&call_at(0), ALICE, 1000_0000000, BetSide::Up).unwrap();
    assert_eq!(market.balance(ALICE), 0);

    assert_eq!(market.mint_initial(&call_at(0), ALICE), Ok(0));
    assert_eq!(market.balance(ALICE), 0);
}

// Stats

#[test]
fn stats_are_monotonic() {
    let outcomes = [true, true, false, true, false, false, true, true, true, false, true];
    let mut market = VirtualTokenContract::new(Env::default());
    let mut wins: u32 = 0;
    let mut losses: u32 = 0;
    for outcome in outcomes {
        let before = market.get_user_stats(ALICE);
        if outcome {
            market.update_stats_win(ALICE).unwrap();
            wins += 1;
        } else {
            market.update_stats_loss(ALICE).unwrap();
            losses += 1;
        }
        let after = market.get_user_stats(ALICE);

        assert!(after.total_wins >= before.total_wins);
        assert!(after.total_losses >= before.total_losses);
        assert!(after.best_streak >= before.best_streak);
        assert!(after.best_streak >= after.current_streak);
        if outcome {
            assert_eq!(after.current_streak, before.current_streak + 1);
        } else {
            assert_eq!(after.current_streak, 0);
        }
    }
    let stats = market.get_user_stats(ALICE);
    assert_eq!(stats.total_wins, wins);
    assert_eq!(stats.total_losses, losses);
    assert_eq!(stats.best_streak, 3);
    assert_eq!(stats.current_streak, 1);
    assert_eq!(market.get_user_stats(BOB), UserStats::new());
}

#[test]
fn stats_counters_do_not_wrap() {
    let full = UserStats { total_wins: u32::MAX, total_losses: 0, current_streak: 1, best_streak: 9 };
    assert_eq!(full.record_win(), Err(ContractError::Overflow));
    assert_eq!(
        full.record_loss(),
        Ok(UserStats { total_wins: u32::MAX, total_losses: 1, current_streak: 0, best_streak: 9 })
    );
    let streak = UserStats { total_wins: 5, total_losses: 2, current_streak: 2, best_streak: 2 };
    assert_eq!(
        streak.record_win(),
        Ok(UserStats { total_wins: 6, total_losses: 2, current_streak: 3, best_streak: 3 })
    );
}

// Access control and errors

#[test]
fn oracle_only_resolution() {
    let env = Env::default();
    let mut market = VirtualTokenContract::new(env.clone());
    assert_eq!(market.resolve_round(&call_at(12), report(1)), Err(ContractError::OracleNotSet));

    market.initialize(&call_at(0), ADMIN, ORACLE).unwrap();
    market.create_round(&call_at(0), 1_0000000, RoundMode::UpDown).unwrap();

    let mut not_the_oracle = Invocation::new(12, 0);
    not_the_oracle.authorize(ADMIN);
    not_the_oracle.authorize(ALICE);
    assert_eq!(
        market.resolve_round(&not_the_oracle, report(1_5000000)),
        Err(ContractError::UnauthorizedOracle)
    );
    assert!(market.get_active_round().is_some());
}

#[test]
fn initialize_needs_the_admin() {
    let mut market = VirtualTokenContract::new(Env::default());
    let mut call = Invocation::new(0, 0);
    call.authorize(ORACLE);
    assert_eq!(market.initialize(&call, ADMIN, ORACLE), Err(ContractError::UnauthorizedAdmin));
    assert_eq!(market.get_admin(), None);
    assert_eq!(market.get_oracle(), None);
}

#[test]
fn users_act_for_themselves_only() {
    let mut market = VirtualTokenContract::new(Env::default());
    let mut call = Invocation::new(0, 0);
    call.authorize(BOB);
    assert_eq!(market.mint_initial(&call, ALICE), Err(ContractError::UnauthorizedUser));
    assert_eq!(market.claim_winnings(&call, ALICE), Err(ContractError::UnauthorizedUser));
    assert_eq!(
        market.place_bet(&call, ALICE, 10, BetSide::Up),
        Err(ContractError::UnauthorizedUser)
    );
    assert_eq!(market.balance(ALICE), 0);
}

#[test]
fn create_round_rejects_bad_input() {
    let mut market = VirtualTokenContract::new(Env::default());
    market.initialize(&call_at(0), ADMIN, ORACLE).unwrap();

    assert_eq!(
        market.create_round(&call_at(0), 0, RoundMode::UpDown),
        Err(ContractError::InvalidPrice)
    );
    assert_eq!(
        market.create_round(&call_at(u32::MAX - 5), 1, RoundMode::UpDown),
        Err(ContractError::Overflow)
    );
    assert_eq!(market.get_last_round_id(), 0);

    market.create_round(&call_at(0), 1, RoundMode::UpDown).unwrap();
    assert_eq!(
        market.create_round(&call_at(3), 2, RoundMode::Precision),
        Err(ContractError::RoundAlreadyActive)
    );
    assert_eq!(market.get_last_round_id(), 1);
    assert_eq!(market.get_active_round().unwrap().price_start, 1);
}

#[test]
fn stakes_go_to_the_round_of_their_mode() {
    let mut market = VirtualTokenContract::new(Env::default());
    market.initialize(&call_at(0), ADMIN, ORACLE).unwrap();
    market.mint_initial(&call_at(0), ALICE).unwrap();

    market.create_round(&call_at(0), 1_0000000, RoundMode::Precision).unwrap();
    assert_eq!(
        market.place_bet(&call_at(0), ALICE, 10, BetSide::Up),
        Err(ContractError::WrongRoundMode)
    );
    market
        .resolve_round(&call_at(12), OraclePayload { price: 5, timestamp: 0, round_id: 1 })
        .unwrap();

    market.create_round(&call_at(12), 1_0000000, RoundMode::UpDown).unwrap();
    assert_eq!(
        market.place_precision_prediction(&call_at(12), ALICE, 10, 77),
        Err(ContractError::WrongRoundMode)
    );
    assert_eq!(market.balance(ALICE), 1000_0000000);
}

#[test]
fn pool_overflow_is_reported() {
    let snapshot = Snapshot {
        admin: Some(ADMIN),
        oracle: Some(ORACLE),
        windows: None,
        last_round_id: 1,
        active_round: Some(round_at_zero(i128::MAX, 0)),
        positions: vec![],
        predictions: vec![],
        balances: vec![(ALICE, 100)],
        pending_winnings: vec![],
        user_stats: vec![],
    };
    let mut market = VirtualTokenContract::restore(Env::default(), &snapshot).unwrap();
    assert_eq!(market.place_bet(&call_at(0), ALICE, 1, BetSide::Up), Err(ContractError::Overflow));
    assert_eq!(market.balance(ALICE), 100);
    assert_eq!(market.get_user_position(ALICE), None);
    market.place_bet(&call_at(0), ALICE, 1, BetSide::Down).unwrap();
    assert_eq!(market.get_active_round(), Some(round_at_zero(i128::MAX, 1)));
}

#[test]
fn error_codes() {
    let all = [
        ContractError::AlreadyInitialized,
        ContractError::AdminNotSet,
        ContractError::OracleNotSet,
        ContractError::UnauthorizedAdmin,
        ContractError::UnauthorizedOracle,
        ContractError::InvalidBetAmount,
        ContractError::NoActiveRound,
        ContractError::RoundEnded,
        ContractError::InsufficientBalance,
        ContractError::AlreadyBet,
        ContractError::Overflow,
        ContractError::InvalidPrice,
        ContractError::InvalidDuration,
        ContractError::RoundNotEnded,
        ContractError::StaleOracleData,
        ContractError::InvalidOracleRound,
        ContractError::RoundAlreadyActive,
        ContractError::UnauthorizedUser,
        ContractError::WrongRoundMode,
    ];
    for (i, error) in all.iter().enumerate() {
        assert_eq!(error.code(), i as u32 + 1);
    }
}

// Oracle validation

#[test]
fn report_checks_come_in_order() {
    let report = OraclePayload { price: 0, timestamp: 100, round_id: 4 };
    assert_eq!(validate_report(&report, 5, 1000), Err(ContractError::InvalidOracleRound));
    assert_eq!(validate_report(&report, 4, 1000), Err(ContractError::StaleOracleData));
    assert_eq!(validate_report(&report, 4, 400), Err(ContractError::InvalidPrice));
    let priced = OraclePayload { price: 1, timestamp: 100, round_id: 4 };
    assert_eq!(validate_report(&priced, 4, 400), Ok(()));
}

#[test]
fn freshness_bound_is_300_seconds() {
    let report = OraclePayload { price: 1, timestamp: 1000, round_id: 1 };
    assert_eq!(validate_report(&report, 1, 1300), Ok(()));
    assert_eq!(validate_report(&report, 1, 1301), Err(ContractError::StaleOracleData));
    // A report stamped after the ledger clock is not old.
    assert_eq!(validate_report(&report, 1, 0), Ok(()));
    assert_eq!(validate_report(&report, 1, u64::MAX), Err(ContractError::StaleOracleData));
}

#[test]
fn failed_resolution_changes_nothing() {
    let mut market = market_with(vec![(ALICE, up(100))], 100, 0, vec![], vec![]);
    assert_eq!(
        market.resolve_round(&call_at(12), OraclePayload { price: 0, timestamp: 0, round_id: 1 }),
        Err(ContractError::InvalidPrice)
    );
    assert_eq!(
        market.resolve_round(&call_at(11), report(2_0000000)),
        Err(ContractError::RoundNotEnded)
    );
    assert_eq!(market.get_pending_winnings(ALICE), 0);
    assert_eq!(market.get_user_position(ALICE), Some(up(100)));
    assert_eq!(market.get_active_round(), Some(round_at_zero(100, 0)));
}

// Round phases and windows

#[test]
fn round_moves_through_its_phases() {
    let mut market = VirtualTokenContract::new(Env::default());
    assert_eq!(market.round_phase(0), RoundPhase::NoRound);
    market.initialize(&call_at(0), ADMIN, ORACLE).unwrap();
    market.create_round(&call_at(100), 1_0000000, RoundMode::UpDown).unwrap();

    assert_eq!(market.round_phase(100), RoundPhase::BettingOpen);
    assert_eq!(market.round_phase(105), RoundPhase::BettingOpen);
    assert_eq!(market.round_phase(106), RoundPhase::BettingClosed);
    assert_eq!(market.round_phase(111), RoundPhase::BettingClosed);
    assert_eq!(market.round_phase(112), RoundPhase::ResolutionReady);
    assert_eq!(market.round_phase(u32::MAX), RoundPhase::ResolutionReady);

    market
        .resolve_round(&call_at(112), OraclePayload { price: 9, timestamp: 0, round_id: 1 })
        .unwrap();
    assert_eq!(market.round_phase(112), RoundPhase::NoRound);
}

#[test]
fn windows_default_to_six_and_twelve() {
    let market = VirtualTokenContract::new(Env::default());
    assert_eq!(market.get_windows(), Windows { bet_ledgers: 6, run_ledgers: 12 });
    assert_eq!(Windows::standard(), Windows { bet_ledgers: 6, run_ledgers: 12 });
    assert_eq!(Windows::new(1, 2), Ok(Windows { bet_ledgers: 1, run_ledgers: 2 }));
    assert_eq!(Windows::new(0, 2), Err(ContractError::InvalidDuration));
    assert_eq!(Windows::new(2, 2), Err(ContractError::InvalidDuration));
    assert_eq!(
        Round::open(3, RoundMode::Precision, 9, u32::MAX - 12, Windows::standard()),
        Ok(Round {
            round_id: 3,
            mode: RoundMode::Precision,
            price_start: 9,
            start_ledger: u32::MAX - 12,
            bet_end_ledger: u32::MAX - 6,
            end_ledger: u32::MAX,
            pool_up: 0,
            pool_down: 0,
        })
    );
    assert_eq!(
        Round::open(3, RoundMode::Precision, 9, u32::MAX - 11, Windows::standard()),
        Err(ContractError::Overflow)
    );
}

// Persisted entries

#[test]
fn snapshot_round_trip() {
    let env = Env::default();
    let mut market = VirtualTokenContract::new(env.clone());
    market.initialize(&call_at(0), ADMIN, ORACLE).unwrap();
    market.set_windows(&call_at(0), 3, 9).unwrap();
    market.mint_initial(&call_at(0), ALICE).unwrap();
    market.mint_initial(&call_at(0), BOB).unwrap();
    market.create_round(&call_at(4), 1_0000000, RoundMode::UpDown).unwrap();
    market.place_bet(&call_at(5), ALICE, 30, BetSide::Up).unwrap();
    market.place_bet(&call_at(6), BOB, 70, BetSide::Down).unwrap();
    market.update_stats_win(CHARLIE).unwrap();

    let snapshot = market.snapshot();
    assert_eq!(snapshot.admin, Some(ADMIN));
    assert_eq!(snapshot.oracle, Some(ORACLE));
    assert_eq!(snapshot.windows, Some(Windows { bet_ledgers: 3, run_ledgers: 9 }));
    assert_eq!(snapshot.last_round_id, 1);
    assert_eq!(snapshot.positions.len(), 2);
    assert!(snapshot.positions.contains(&(ALICE, up(30))));
    assert!(snapshot.positions.contains(&(BOB, down(70))));
    assert!(snapshot.balances.contains(&(ALICE, 1000_0000000 - 30)));
    assert!(snapshot.balances.contains(&(BOB, 1000_0000000 - 70)));

    let restored = VirtualTokenContract::restore(env, &snapshot).expect("a valid market");
    assert_eq!(restored.get_admin(), Some(ADMIN));
    assert_eq!(restored.get_windows(), Windows { bet_ledgers: 3, run_ledgers: 9 });
    assert_eq!(restored.get_active_round(), market.get_active_round());
    assert_eq!(restored.get_active_round().unwrap().pool_up, 30);
    assert_eq!(restored.get_active_round().unwrap().pool_down, 70);
    assert_eq!(restored.get_user_position(ALICE), Some(up(30)));
    assert_eq!(restored.get_user_position(BOB), Some(down(70)));
    assert_eq!(restored.balance(ALICE), 1000_0000000 - 30);
    assert_eq!(restored.get_user_stats(CHARLIE).total_wins, 1);
    assert_eq!(restored.get_last_round_id(), 1);
}

#[test]
fn restore_rejects_entries_that_break_the_rules() {
    let good = Snapshot {
        admin: Some(ADMIN),
        oracle: Some(ORACLE),
        windows: Some(Windows { bet_ledgers: 6, run_ledgers: 12 }),
        last_round_id: 1,
        active_round: Some(round_at_zero(100, 50)),
        positions: vec![(ALICE, up(100)), (BOB, down(50))],
        predictions: vec![],
        balances: vec![(ALICE, 0)],
        pending_winnings: vec![(BOB, 3)],
        user_stats: vec![],
    };
    assert!(VirtualTokenContract::restore(Env::default(), &good).is_some());

    let mut twice = market_entries(&good);
    twice.positions = vec![(ALICE, up(60)), (ALICE, up(40))];
    assert!(VirtualTokenContract::restore(Env::default(), &twice).is_none());

    let mut uncovered = market_entries(&good);
    uncovered.positions = vec![(ALICE, up(101))];
    assert!(VirtualTokenContract::restore(Env::default(), &uncovered).is_none());

    let mut no_stake = market_entries(&good);
    no_stake.positions = vec![(ALICE, up(0))];
    assert!(VirtualTokenContract::restore(Env::default(), &no_stake).is_none());

    let mut in_debt = market_entries(&good);
    in_debt.balances = vec![(ALICE, -1)];
    assert!(VirtualTokenContract::restore(Env::default(), &in_debt).is_none());

    let mut owing = market_entries(&good);
    owing.pending_winnings = vec![(ALICE, -1)];
    assert!(VirtualTokenContract::restore(Env::default(), &owing).is_none());

    let mut bad_windows = market_entries(&good);
    bad_windows.windows = Some(Windows { bet_ledgers: 12, run_ledgers: 12 });
    assert!(VirtualTokenContract::restore(Env::default(), &bad_windows).is_none());

    let mut stray = market_entries(&good);
    stray.active_round = None;
    assert!(VirtualTokenContract::restore(Env::default(), &stray).is_none());

    let mut wrong_id = market_entries(&good);
    wrong_id.last_round_id = 2;
    assert!(VirtualTokenContract::restore(Env::default(), &wrong_id).is_none());

    let mut bad_streak = market_entries(&good);
    bad_streak.user_stats =
        vec![(ALICE, UserStats { total_wins: 1, total_losses: 0, current_streak: 2, best_streak: 1 })];
    assert!(VirtualTokenContract::restore(Env::default(), &bad_streak).is_none());
}

fn market_entries(snapshot: &Snapshot) -> Snapshot {
    Snapshot {
        admin: snapshot.admin,
        oracle: snapshot.oracle,
        windows: snapshot.windows,
        last_round_id: snapshot.last_round_id,
        active_round: snapshot.active_round,
        positions: snapshot.positions.clone(),
        predictions: snapshot.predictions.clone(),
        balances: snapshot.balances.clone(),
        pending_winnings: snapshot.pending_winnings.clone(),
        user_stats: snapshot.user_stats.clone(),
    }
}
