use cw_drip::contract::DripState;
use cw_drip::cycle::total_staked;
use cw_drip::error::ContractError;
use cw_drip::ledger::ShareLedger;
use cw_drip::msg::{InstantiateMsg, UncheckedDripToken};
use cw_drip::state::{DripPool, DripToken, TransferMsg};

const OWNER: &str = "dao";
const NATIVE: &str = "ujuno";
const TOKEN: &str = "contract1";
const START: u64 = 1_000;
const EPOCH: u64 = 10;

fn engine(min_staking_amount: u128, epoch_duration: u64) -> DripState {
    let msg = InstantiateMsg { staking_module_address: "staking".to_string(), min_staking_amount, epoch_duration };
    DripState::instantiate(OWNER.to_string(), START, msg).unwrap()
}

fn native(amount: u128) -> UncheckedDripToken {
    UncheckedDripToken::Native { denom: NATIVE.to_string(), initial_amount: amount }
}

fn external(amount: u128) -> UncheckedDripToken {
    UncheckedDripToken::Cw20 { address: TOKEN.to_string(), initial_amount: amount }
}

fn owner() -> String {
    OWNER.to_string()
}

fn pool(available: u128, withdrawable: u128, per_epoch: u128, issued: u128, epochs: u64, epoch: u64) -> DripPool {
    DripPool {
        drip_token: DripToken::Native { denom: NATIVE.to_string(), amount: available },
        initial_amount: per_epoch * epochs as u128,
        withdrawable_tokens: withdrawable,
        tokens_per_epoch: per_epoch,
        issued_shares: issued,
        epochs_number: epochs,
        epoch,
    }
}

#[test]
fn single_participant_single_pool_scenario() {
    let mut s = engine(0, EPOCH);
    s.execute_create_drip_pool(&owner(), native(10_000), 1_000, 10, 10_000).unwrap();
    s.execute_add_participant("alice".to_string()).unwrap();
    let emitted = s.execute_distribute_shares(START + EPOCH, &vec![1_000_000]).unwrap();
    assert_eq!(emitted, 1_000_000);
    let p = s.query_drip_pool(&NATIVE.to_string()).drip_pool.unwrap();
    assert_eq!(p.issued_shares, 1_000_000);
    assert_eq!(p.withdrawable_tokens, 1_000);
    assert_eq!(p.drip_token.get_available_amount(), 9_000);
    let msgs = s.execute_withdraw_tokens(&"alice".to_string()).unwrap();
    assert_eq!(
        msgs,
        vec![TransferMsg::BankSend { to_address: "alice".to_string(), denom: NATIVE.to_string(), amount: 1_000 }]
    );
    assert!(s.query_participant_shares(&"alice".to_string()).shares.is_empty());
}

#[test]
fn multi_participant_multi_pool_scenario() {
    let mut s = engine(0, EPOCH);
    s.execute_create_drip_pool(&owner(), native(10_000), 1_000, 10, 10_000).unwrap();
    s.execute_create_drip_pool(&owner(), external(50_000), 5_000, 10, 50_000).unwrap();
    for p in ["p1", "p2", "p3"] {
        s.execute_add_participant(p.to_string()).unwrap();
    }
    let weights = vec![1_000_000, 2_000_000, 3_000_000];
    let emitted = s.execute_distribute_shares(START + EPOCH, &weights).unwrap();
    assert_eq!(emitted, 6_000_000);
    assert_eq!(s.query_drip_pool(&NATIVE.to_string()).drip_pool.unwrap().issued_shares, 6_000_000);
    assert_eq!(s.query_drip_pool(&TOKEN.to_string()).drip_pool.unwrap().issued_shares, 6_000_000);
    s.execute_distribute_shares(START + 2 * EPOCH, &weights).unwrap();
    for (p, w) in [("p1", 1_000_000u128), ("p2", 2_000_000), ("p3", 3_000_000)] {
        let shares = s.query_participant_shares(&p.to_string()).shares;
        assert_eq!(shares, vec![(TOKEN.to_string(), 2 * w), (NATIVE.to_string(), 2 * w)]);
    }
}

#[test]
fn creation_rejections() {
    let mut s = engine(0, EPOCH);
    assert_eq!(
        s.execute_create_drip_pool(&owner(), native(10_000), 1_000, 0, 10_000),
        Err(ContractError::LessThanOneEpoch {})
    );
    assert_eq!(
        s.execute_create_drip_pool(&owner(), native(10_000), 1_000, 9, 10_000),
        Err(ContractError::WrongTokensAmount { tokens_amount: 10_000, total_tokens: 9_000 })
    );
    assert_eq!(s.execute_create_drip_pool(&owner(), native(0), 1_000, 10, 10_000), Err(ContractError::ZeroTokenPool {}));
    assert_eq!(
        s.execute_create_drip_pool(&"mallory".to_string(), native(10_000), 1_000, 10, 10_000),
        Err(ContractError::Unauthorized {})
    );
    assert_eq!(
        s.execute_create_drip_pool(&owner(), native(10_000), 1_000, 10, 9_999),
        Err(ContractError::NoFundedContract { token: NATIVE.to_string(), amount: 10_000 })
    );
    assert_eq!(
        s.execute_create_drip_pool(&owner(), native(10_000), u128::MAX, 10, 10_000),
        Err(ContractError::Overflow {})
    );
    assert!(s.query_drip_tokens().drip_tokens.is_empty());
}

#[test]
fn proportionality_after_three_epochs() {
    let mut s = engine(0, EPOCH);
    s.execute_create_drip_pool(&owner(), native(10_000), 1_000, 10, 10_000).unwrap();
    s.execute_add_participant("a".to_string()).unwrap();
    for k in 1..=3u64 {
        s.execute_distribute_shares(START + k * EPOCH, &vec![7]).unwrap();
    }
    let p = s.query_drip_pool(&NATIVE.to_string()).drip_pool.unwrap();
    assert_eq!(p.withdrawable_tokens, 3_000);
    assert_eq!(p.drip_token.get_available_amount(), 7_000);
    assert_eq!(p.epoch, 3);
}

#[test]
fn share_conservation_over_cycles() {
    let mut s = engine(5, EPOCH);
    s.execute_create_drip_pool(&owner(), native(100), 10, 10, 100).unwrap();
    s.execute_add_participant("a".to_string()).unwrap();
    s.execute_add_participant("b".to_string()).unwrap();
    let cycles = [vec![7u128, 3], vec![4, 9], vec![11, 5]];
    for (k, w) in cycles.iter().enumerate() {
        s.execute_distribute_shares(START + (k as u64 + 1) * EPOCH, w).unwrap();
    }
    assert_eq!(s.query_participant_shares(&"a".to_string()).shares, vec![(NATIVE.to_string(), 7 + 11)]);
    assert_eq!(s.query_participant_shares(&"b".to_string()).shares, vec![(NATIVE.to_string(), 9 + 5)]);
    assert_eq!(s.query_drip_pool(&NATIVE.to_string()).drip_pool.unwrap().issued_shares, 7 + 9 + 16);
}

#[test]
fn tokens_from_shares_floors() {
    let p = pool(7_000, 1_000, 1_000, 3, 10, 3);
    assert_eq!(p.tokens_from_shares(1), 333);
    assert_eq!(p.tokens_from_shares(2), 666);
    assert_eq!(p.tokens_from_shares(3), 1_000);
    let empty = pool(10_000, 0, 1_000, 0, 10, 0);
    assert_eq!(empty.tokens_from_shares(5), 0);
    let wide = pool(0, u128::MAX, 1, u128::MAX, 1, 1);
    assert_eq!(wide.tokens_from_shares(u128::MAX - 1), u128::MAX - 1);
}

#[test]
fn settle_burns_shares_and_tokens() {
    let mut p = pool(7_000, 1_000, 1_000, 3, 10, 3);
    p.remove_tokens_and_shares(1);
    assert_eq!(p.issued_shares, 2);
    assert_eq!(p.withdrawable_tokens, 667);
}

#[test]
fn second_withdrawal_is_refused() {
    let mut s = engine(0, EPOCH);
    s.execute_create_drip_pool(&owner(), native(10_000), 1_000, 10, 10_000).unwrap();
    s.execute_add_participant("a".to_string()).unwrap();
    s.execute_add_participant("b".to_string()).unwrap();
    s.execute_distribute_shares(START + EPOCH, &vec![1, 2]).unwrap();
    let msgs = s.execute_withdraw_tokens(&"a".to_string()).unwrap();
    assert_eq!(msgs, vec![TransferMsg::BankSend { to_address: "a".to_string(), denom: NATIVE.to_string(), amount: 333 }]);
    let p = s.query_drip_pool(&NATIVE.to_string()).drip_pool.unwrap();
    assert_eq!(p.issued_shares, 2);
    assert_eq!(p.withdrawable_tokens, 667);
    assert_eq!(s.execute_withdraw_tokens(&"a".to_string()), Err(ContractError::NoTokensToWithdraw {}));
    let msgs = s.execute_withdraw_tokens(&"b".to_string()).unwrap();
    assert_eq!(msgs, vec![TransferMsg::BankSend { to_address: "b".to_string(), denom: NATIVE.to_string(), amount: 667 }]);
}

#[test]
fn exhausted_pool_leaves_index() {
    let mut s = engine(0, EPOCH);
    s.execute_create_drip_pool(&owner(), native(2_000), 1_000, 2, 2_000).unwrap();
    s.execute_create_drip_pool(&owner(), external(500), 100, 5, 500).unwrap();
    s.execute_add_participant("a".to_string()).unwrap();
    s.execute_distribute_shares(START + EPOCH, &vec![1]).unwrap();
    assert_eq!(s.query_drip_tokens().drip_tokens.len(), 2);
    s.execute_distribute_shares(START + 2 * EPOCH, &vec![1]).unwrap();
    assert_eq!(s.query_drip_tokens().drip_tokens, vec![TOKEN.to_string()]);
    s.execute_distribute_shares(START + 3 * EPOCH, &vec![1]).unwrap();
    let exhausted = s.query_drip_pool(&NATIVE.to_string()).drip_pool.unwrap();
    assert_eq!(exhausted.epoch, 2);
    assert_eq!(exhausted.issued_shares, 2);
    assert_eq!(s.query_drip_pool(&TOKEN.to_string()).drip_pool.unwrap().epoch, 3);
    let mut p = exhausted.clone();
    assert_eq!(p.advance_epoch(1), Err(ContractError::InvalidActiveDripPool));
    assert_eq!(p, exhausted);
}

#[test]
fn only_pool_exhausted_stops_cycles() {
    let mut s = engine(0, EPOCH);
    s.execute_create_drip_pool(&owner(), native(1_000), 1_000, 1, 1_000).unwrap();
    s.execute_distribute_shares(START + EPOCH, &vec![]).unwrap();
    assert_eq!(s.execute_distribute_shares(START + 2 * EPOCH, &vec![]), Err(ContractError::ZeroActiveDripPool {}));
}

#[test]
fn deadline_moves_by_whole_epochs() {
    let mut s = engine(0, EPOCH);
    s.execute_create_drip_pool(&owner(), native(10_000), 1_000, 10, 10_000).unwrap();
    assert_eq!(s.execute_distribute_shares(START + EPOCH - 1, &vec![]), Err(ContractError::NoDistributionTime {}));
    s.execute_distribute_shares(START + 35, &vec![]).unwrap();
    assert_eq!(s.query_config().config.next_distribution_time, START + 40);
    let before = s.clone();
    assert_eq!(s.execute_distribute_shares(START + 35, &vec![]), Err(ContractError::NoDistributionTime {}));
    assert_eq!(s, before);
    assert_eq!(s.query_drip_pool(&NATIVE.to_string()).drip_pool.unwrap().epoch, 1);
    s.execute_distribute_shares(START + 40, &vec![]).unwrap();
    assert_eq!(s.query_config().config.next_distribution_time, START + 50);
}

#[test]
fn cycle_on_deadline_moves_one_epoch() {
    let mut s = engine(0, EPOCH);
    s.execute_create_drip_pool(&owner(), native(10_000), 1_000, 10, 10_000).unwrap();
    s.execute_distribute_shares(START + EPOCH, &vec![]).unwrap();
    assert_eq!(s.query_config().config.next_distribution_time, START + 2 * EPOCH);
}

#[test]
fn zero_epoch_duration_stops_cycles() {
    let mut s = engine(0, 0);
    assert_eq!(s.query_config().config.next_distribution_time, START);
    s.execute_create_drip_pool(&owner(), native(10_000), 1_000, 10, 10_000).unwrap();
    s.execute_add_participant("a".to_string()).unwrap();
    let before = s.clone();
    assert_eq!(s.execute_distribute_shares(START, &vec![5]), Err(ContractError::ZeroEpochDuration {}));
    assert_eq!(s, before);
}

#[test]
fn update_drip_pools_reports_pool_errors() {
    let mut s = engine(0, EPOCH);
    s.execute_create_drip_pool(&owner(), native(2_000), 1_000, 2, 2_000).unwrap();
    s.execute_create_drip_pool(&owner(), external(500), 100, 5, 500).unwrap();
    s.drip_pools[1].epoch = 5;
    let before = s.clone();
    assert_eq!(s.update_drip_pools(3), Err(ContractError::InvalidActiveDripPool));
    assert_eq!(s, before);
    s.drip_pools[1].epoch = 0;
    s.drip_pools[1].drip_token = DripToken::CW20 { address: TOKEN.to_string(), amount: 50 };
    let before = s.clone();
    assert_eq!(s.update_drip_pools(3), Err(ContractError::DripPoolHasNotENoughFunds));
    assert_eq!(s, before);
    s.drip_pools[1].drip_token = DripToken::CW20 { address: TOKEN.to_string(), amount: 500 };
    assert_eq!(s.update_drip_pools(3), Ok(vec![NATIVE.to_string(), TOKEN.to_string()]));
    assert_eq!(s.drip_pools[0].issued_shares, 3);
    assert_eq!(s.drip_pools[1].withdrawable_tokens, 100);
}

#[test]
fn deadline_out_of_range_refused() {
    let msg = InstantiateMsg { staking_module_address: "s".to_string(), min_staking_amount: 0, epoch_duration: 1 << 62 };
    let mut s = DripState::instantiate(OWNER.to_string(), START, msg).unwrap();
    s.execute_create_drip_pool(&owner(), native(10_000), 1_000, 10, 10_000).unwrap();
    let before = s.clone();
    let late = START + (1u64 << 62) + (1u64 << 63);
    assert_eq!(s.execute_distribute_shares(late, &vec![]), Err(ContractError::Overflow {}));
    assert_eq!(s, before);
}

#[test]
fn below_minimum_accrues_nothing() {
    let mut s = engine(100, EPOCH);
    s.execute_create_drip_pool(&owner(), native(10_000), 1_000, 10, 10_000).unwrap();
    s.execute_add_participant("low".to_string()).unwrap();
    s.execute_add_participant("high".to_string()).unwrap();
    assert_eq!(s.execute_distribute_shares(START + EPOCH, &vec![99, 100]).unwrap(), 100);
    assert!(s.query_participant_shares(&"low".to_string()).shares.is_empty());
    assert_eq!(s.query_participant_shares(&"high".to_string()).shares, vec![(NATIVE.to_string(), 100)]);
    assert_eq!(s.execute_withdraw_tokens(&"low".to_string()), Err(ContractError::NoTokensToWithdraw {}));
}

#[test]
fn overflowing_cycle_changes_nothing() {
    let mut s = engine(0, EPOCH);
    s.execute_create_drip_pool(&owner(), native(10_000), 1_000, 10, 10_000).unwrap();
    s.execute_add_participant("a".to_string()).unwrap();
    s.execute_add_participant("b".to_string()).unwrap();
    let before = s.clone();
    assert_eq!(s.execute_distribute_shares(START + EPOCH, &vec![u128::MAX, 1]), Err(ContractError::Overflow {}));
    assert_eq!(s, before);
    s.execute_distribute_shares(START + EPOCH, &vec![u128::MAX, 0]).unwrap();
    assert_eq!(s.execute_distribute_shares(START + 2 * EPOCH, &vec![0, 1]), Err(ContractError::Overflow {}));
}

#[test]
fn already_participant() {
    let mut s = engine(0, EPOCH);
    s.execute_add_participant("a".to_string()).unwrap();
    assert_eq!(s.execute_add_participant("a".to_string()), Err(ContractError::AlreadyParticipant {}));
    assert_eq!(s.query_participants().participants, vec!["a".to_string()]);
}

#[test]
fn not_enough_funds_refused() {
    let mut p = pool(500, 0, 1_000, 0, 10, 0);
    assert_eq!(p.advance_epoch(1), Err(ContractError::DripPoolHasNotENoughFunds));
    let mut q = pool(10_000, 0, 1_000, 0, 10, 0);
    assert_eq!(q.advance_epoch(5), Ok(true));
    assert_eq!(q.withdrawable_tokens, 1_000);
    assert_eq!(q.issued_shares, 5);
    assert_eq!(q.drip_token.get_available_amount(), 9_000);
    let mut last = pool(1_000, 9_000, 1_000, 0, 10, 9);
    assert_eq!(last.advance_epoch(0), Ok(false));
}

#[test]
fn external_token_transfer() {
    let p = DripPool {
        drip_token: DripToken::CW20 { address: TOKEN.to_string(), amount: 0 },
        initial_amount: 10,
        withdrawable_tokens: 10,
        tokens_per_epoch: 10,
        issued_shares: 1,
        epochs_number: 1,
        epoch: 1,
    };
    assert_eq!(
        p.send_tokens_message(4, &"bob".to_string()),
        TransferMsg::Cw20Transfer { contract_addr: TOKEN.to_string(), recipient: "bob".to_string(), amount: 4 }
    );
    assert_eq!(p.drip_token.get_token(), TOKEN.to_string());
}

#[test]
fn delegations_sum() {
    assert_eq!(total_staked(&vec![]), Ok(0));
    assert_eq!(total_staked(&vec![1_000, 2_000, 3]), Ok(3_003));
    assert_eq!(total_staked(&vec![u128::MAX, 1]), Err(ContractError::Overflow {}));
}

#[test]
fn instantiate_overflowing_deadline() {
    let msg = InstantiateMsg { staking_module_address: "s".to_string(), min_staking_amount: 0, epoch_duration: u64::MAX };
    assert_eq!(DripState::instantiate(OWNER.to_string(), 1, msg).unwrap_err(), ContractError::Overflow {});
}

#[test]
fn ledger_lists_in_token_order() {
    let mut l = ShareLedger::new();
    let p = "p".to_string();
    for (t, a) in [("zeta", 1u128), ("alpha", 2), ("mid", 3), ("alpha", 4)] {
        l.accrue(&p, &t.to_string(), a).unwrap();
    }
    l.accrue(&"q".to_string(), &"beta".to_string(), 9).unwrap();
    assert_eq!(
        l.list_for_participant(&p),
        vec![("alpha".to_string(), 6), ("mid".to_string(), 3), ("zeta".to_string(), 1)]
    );
    assert_eq!(l.get_shares(&p, &"alpha".to_string()), 6);
    l.clear(&p, &"alpha".to_string());
    assert_eq!(l.get_shares(&p, &"alpha".to_string()), 0);
    assert_eq!(l.get_shares(&"q".to_string(), &"beta".to_string()), 9);
    assert_eq!(l.accrue(&p, &"mid".to_string(), u128::MAX), Err(ContractError::Overflow {}));
}

#[test]
fn validate_checks_funding() {
    assert_eq!(external(5).validate(5), Ok(DripToken::CW20 { address: TOKEN.to_string(), amount: 5 }));
    assert_eq!(
        external(5).validate(4),
        Err(ContractError::NoFundedContract { token: TOKEN.to_string(), amount: 5 })
    );
    assert_eq!(native(0).validate(100), Err(ContractError::ZeroTokenPool {}));
    assert_eq!(ContractError::NoTokensToWithdraw {}.message(), "no tokens to withdraw");
}
