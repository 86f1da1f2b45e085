use std::collections::HashMap;

use cw_drip::contract::DripState;
use cw_drip::cycle::total_staked;
use cw_drip::error::ContractError;
use cw_drip::msg::{InstantiateMsg, UncheckedDripToken};
use cw_drip::state::{DripPool, DripToken, TransferMsg};

const OWNER: &str = "dao";
const NATIVE: &str = "ujuno";
const DRIP: &str = "contract0";
const CW20: &str = "contract1";
const PAR1: &str = "participant1";
const PAR2: &str = "participant2";
const PAR3: &str = "participant3";
const EPOCH: u64 = 10;
const MIN_STAKING: u128 = 1_000_000;
const START: u64 = 1_571_797_419;

/// Plays the host around the engine: the clock, token balances and delegations.
struct Lab {
    state: DripState,
    now: u64,
    /// Balance of (holder, token).
    balances: HashMap<(String, String), u128>,
    /// Delegated amounts of each address.
    delegations: HashMap<String, Vec<u128>>,
}

impl Lab {
    fn build() -> Lab {
        Lab::build_with(MIN_STAKING, EPOCH)
    }

    fn build_with(min_staking_amount: u128, epoch_duration: u64) -> Lab {
        let msg = InstantiateMsg {
            staking_module_address: "staking_addr".to_string(),
            min_staking_amount,
            epoch_duration,
        };
        let state = DripState::instantiate(OWNER.to_string(), START, msg).unwrap();
        Lab { state, now: START, balances: HashMap::new(), delegations: HashMap::new() }
    }

    fn balance(&self, holder: &str, token: &str) -> u128 {
        *self.balances.get(&(holder.to_string(), token.to_string())).unwrap_or(&0)
    }

    fn mint(&mut self, holder: &str, token: &str, amount: u128) {
        let b = self.balance(holder, token);
        self.balances.insert((holder.to_string(), token.to_string()), b + amount);
    }

    fn sudo_mint_1000(&mut self, holder: &str, multiplier: u128) {
        self.mint(holder, NATIVE, 1_000 * multiplier);
    }

    fn delegate(&mut self, who: &str, amount: u128) {
        let b = self.balance(who, NATIVE);
        self.balances.insert((who.to_string(), NATIVE.to_string()), b - amount);
        self.delegations.entry(who.to_string()).or_default().push(amount);
    }

    fn advance_blocks(&mut self, seconds: u64) {
        self.now += seconds;
    }

    fn create_drip_pool_as(
        &mut self,
        sender: &str,
        token_info: UncheckedDripToken,
        tokens_per_epoch: u128,
        epochs_number: u64,
    ) -> Result<(), ContractError> {
        let token = match &token_info {
            UncheckedDripToken::Native { denom, .. } => denom.clone(),
            UncheckedDripToken::Cw20 { address, .. } => address.clone(),
        };
        let held = self.balance(DRIP, &token);
        self.state.execute_create_drip_pool(&sender.to_string(), token_info, tokens_per_epoch, epochs_number, held)
    }

    fn create_drip_pool(
        &mut self,
        token_info: UncheckedDripToken,
        tokens_per_epoch: u128,
        epochs_number: u64,
    ) -> Result<(), ContractError> {
        self.create_drip_pool_as(OWNER, token_info, tokens_per_epoch, epochs_number)
    }

    fn add_participant(&mut self, who: &str) -> Result<(), ContractError> {
        self.state.execute_add_participant(who.to_string())
    }

    fn remove_participant(&mut self, who: &str) {
        self.state.execute_remove_participant(&who.to_string());
    }

    fn distribute_shares(&mut self) -> Result<u128, ContractError> {
        let mut weights = Vec::new();
        for p in self.state.participants.clone() {
            let amounts = self.delegations.get(&p).cloned().unwrap_or_default();
            weights.push(total_staked(&amounts)?);
        }
        self.state.execute_distribute_shares(self.now, &weights)
    }

    fn withdraw_tokens(&mut self, who: &str) -> Result<(), ContractError> {
        let msgs = self.state.execute_withdraw_tokens(&who.to_string())?;
        for m in msgs {
            let (to, token, amount) = match m {
                TransferMsg::BankSend { to_address, denom, amount } => (to_address, denom, amount),
                TransferMsg::Cw20Transfer { contract_addr, recipient, amount } => (recipient, contract_addr, amount),
            };
            let held = self.balance(DRIP, &token);
            self.balances.insert((DRIP.to_string(), token.clone()), held - amount);
            self.mint(&to, &token, amount);
        }
        Ok(())
    }

    fn drip_pool(&self, token: &str) -> Option<DripPool> {
        self.state.query_drip_pool(&token.to_string()).drip_pool
    }

    fn participant_shares(&self, who: &str) -> Vec<(String, u128)> {
        self.state.query_participant_shares(&who.to_string()).shares
    }

    fn participants(&self) -> Vec<String> {
        self.state.query_participants().participants
    }
}

fn native(amount: u128) -> UncheckedDripToken {
    UncheckedDripToken::Native { denom: NATIVE.to_string(), initial_amount: amount }
}

fn cw20(amount: u128) -> UncheckedDripToken {
    UncheckedDripToken::Cw20 { address: CW20.to_string(), initial_amount: amount }
}

fn funded_lab() -> Lab {
    let mut lab = Lab::build();
    lab.sudo_mint_1000(DRIP, 100);
    lab.sudo_mint_1000(PAR1, 1_000);
    lab.mint(DRIP, CW20, 1_000_000);
    lab
}

#[test]
fn zero_active_pool() {
    let mut lab = Lab::build();
    assert_eq!(lab.distribute_shares().unwrap_err(), ContractError::ZeroActiveDripPool {});
}

#[test]
fn no_distribution_time() {
    let mut lab = funded_lab();
    lab.create_drip_pool(native(10_000), 1_000, 10).unwrap();
    assert_eq!(lab.distribute_shares().unwrap_err(), ContractError::NoDistributionTime {});
}

#[test]
fn no_min_staking() {
    let mut lab = funded_lab();
    lab.delegate(PAR1, 1_000);
    lab.create_drip_pool(native(10_000), 1_000, 10).unwrap();
    assert_eq!(
        lab.drip_pool(NATIVE),
        Some(DripPool {
            drip_token: DripToken::Native { denom: NATIVE.to_string(), amount: 10_000 },
            initial_amount: 10_000,
            withdrawable_tokens: 0,
            tokens_per_epoch: 1_000,
            issued_shares: 0,
            epochs_number: 10,
            epoch: 0,
        })
    );
    lab.advance_blocks(EPOCH);
    lab.distribute_shares().unwrap();
    assert_eq!(lab.drip_pool(NATIVE).map(|pool| pool.issued_shares).unwrap(), 0);
}

#[test]
fn distribute_single() {
    let mut lab = funded_lab();
    lab.delegate(PAR1, 1_000_000);
    lab.add_participant(PAR1).unwrap();
    lab.create_drip_pool(native(10_000), 1_000, 10).unwrap();
    lab.advance_blocks(EPOCH);
    lab.distribute_shares().unwrap();
    let pool = lab.drip_pool(NATIVE).unwrap();
    assert_eq!(pool.drip_token.get_available_amount(), 9_000);
    assert_eq!(pool.issued_shares, 1_000_000);
    assert_eq!(pool.withdrawable_tokens, 1_000);
    assert_eq!(lab.participant_shares(PAR1).len(), 1);
}

#[test]
fn distribute_multiple() {
    let mut lab = funded_lab();
    lab.sudo_mint_1000(PAR2, 2_000);
    lab.sudo_mint_1000(PAR3, 3_000);
    lab.delegate(PAR1, 1_000_000);
    lab.delegate(PAR2, 2_000_000);
    lab.delegate(PAR3, 3_000_000);
    lab.add_participant(PAR1).unwrap();
    lab.add_participant(PAR2).unwrap();
    lab.add_participant(PAR3).unwrap();
    lab.create_drip_pool(native(10_000), 1_000, 10).unwrap();

    lab.advance_blocks(EPOCH);
    lab.distribute_shares().unwrap();
    let pool = lab.drip_pool(NATIVE).unwrap();
    assert_eq!(pool.drip_token.get_available_amount(), 9_000);
    assert_eq!(pool.issued_shares, 6_000_000);
    assert_eq!(pool.withdrawable_tokens, 1_000);
    assert_eq!(lab.participant_shares(PAR1).len(), 1);
    assert_eq!(lab.participant_shares(PAR2).len(), 1);
    assert_eq!(lab.participant_shares(PAR3).len(), 1);

    lab.advance_blocks(EPOCH);
    lab.distribute_shares().unwrap();
    let pool = lab.drip_pool(NATIVE).unwrap();
    assert_eq!(pool.drip_token.get_available_amount(), 8_000);
    assert_eq!(pool.issued_shares, 12_000_000);
    assert_eq!(pool.withdrawable_tokens, 2_000);
    assert_eq!(lab.participant_shares(PAR1).len(), 1);
    assert_eq!(lab.participant_shares(PAR2).len(), 1);

    let mut i = 0;
    while i < 8 {
        lab.advance_blocks(EPOCH);
        lab.distribute_shares().unwrap();
        i += 1;
    }
    let pool = lab.drip_pool(NATIVE).unwrap();
    assert_eq!(pool.drip_token.get_available_amount(), 0);
    assert_eq!(pool.issued_shares, 10 * 6_000_000);
    assert_eq!(pool.withdrawable_tokens, 10_000);
    let pool = lab.drip_pool(NATIVE).unwrap();
    assert_eq!(pool.drip_token.get_available_amount(), 0);
    assert_eq!(pool.issued_shares, 10 * 6_000_000);
    assert_eq!(pool.withdrawable_tokens, 10_000);

    lab.advance_blocks(EPOCH);
    assert_eq!(lab.distribute_shares().unwrap_err(), ContractError::ZeroActiveDripPool {});
}

#[test]
fn multiple_drip_pools() {
    let mut lab = funded_lab();
    let shares = 1_000_000;
    lab.delegate(PAR1, shares);
    lab.add_participant(PAR1).unwrap();
    lab.create_drip_pool(native(10_000), 1_000, 10).unwrap();
    lab.advance_blocks(EPOCH);
    lab.distribute_shares().unwrap();
    assert_eq!(lab.drip_pool(NATIVE).map(|pool| pool.issued_shares).unwrap(), shares);
    assert_eq!(lab.participant_shares(PAR1).len(), 1);

    lab.create_drip_pool(cw20(50_000), 25_000, 2).unwrap();
    lab.advance_blocks(EPOCH);
    lab.distribute_shares().unwrap();
    let resp = lab.participant_shares(PAR1);
    assert_eq!(resp.len(), 2);
    assert_eq!(resp, vec![(CW20.to_string(), 1_000_000), (NATIVE.to_string(), 2_000_000)]);
}

#[test]
fn drip_pool_basic_checks() {
    let mut lab = Lab::build();
    lab.sudo_mint_1000(DRIP, 1000);
    lab.mint(DRIP, CW20, 1_000_000);
    let err = lab.create_drip_pool_as("pippo", native(10_000), 0, 10).unwrap_err();
    assert_eq!(err, ContractError::Unauthorized {});
    let err = lab.create_drip_pool(native(10_000), 0, 0).unwrap_err();
    assert_eq!(err, ContractError::LessThanOneEpoch {});
}

#[test]
fn zero_initial_amount() {
    let mut lab = Lab::build();
    lab.mint(OWNER, CW20, 1_000_000);
    let err = lab.create_drip_pool(native(0), 1_000_000, 10).unwrap_err();
    assert_eq!(err, ContractError::ZeroTokenPool {});
    let err = lab.create_drip_pool(cw20(0), 1_000_000, 10).unwrap_err();
    assert_eq!(err, ContractError::ZeroTokenPool {});
}

#[test]
fn no_funded_contract() {
    let mut lab = Lab::build();
    lab.mint(OWNER, CW20, 1_000_000);
    let err = lab.create_drip_pool(native(1_000_000), 1_000_000, 10).unwrap_err();
    assert_eq!(err, ContractError::NoFundedContract { token: NATIVE.to_string(), amount: 1_000_000 });
    let err = lab.create_drip_pool(cw20(1_000_000), 1_000_000, 10).unwrap_err();
    assert_eq!(err, ContractError::NoFundedContract { token: CW20.to_string(), amount: 1_000_000 });
}

#[test]
fn wrong_tokens_amount() {
    let mut lab = Lab::build();
    lab.sudo_mint_1000(DRIP, 1000);
    lab.mint(DRIP, CW20, 1_000);
    let err = lab.create_drip_pool(native(1_000_000), 1_000_000, 10).unwrap_err();
    assert_eq!(err, ContractError::WrongTokensAmount { tokens_amount: 1_000_000, total_tokens: 10_000_000 });
    let err = lab.create_drip_pool(cw20(1_000), 1_000_000, 1).unwrap_err();
    assert_eq!(err, ContractError::WrongTokensAmount { tokens_amount: 1_000, total_tokens: 1_000_000 });
}

#[test]
fn funded_contract() {
    let mut lab = Lab::build();
    lab.sudo_mint_1000(DRIP, 1_000);
    lab.mint(DRIP, CW20, 1_000_000);
    lab.create_drip_pool(native(10_000), 1_000, 10).unwrap();
    assert_eq!(lab.state.query_drip_pools().drip_pools.len(), 1);
    assert_eq!(lab.state.query_drip_tokens().drip_tokens.len(), 1);
    assert_eq!(
        lab.drip_pool(NATIVE),
        Some(DripPool {
            drip_token: DripToken::Native { denom: NATIVE.to_string(), amount: 10_000 },
            initial_amount: 10_000,
            withdrawable_tokens: 0,
            tokens_per_epoch: 1_000,
            issued_shares: 0,
            epochs_number: 10,
            epoch: 0,
        })
    );
    lab.create_drip_pool(cw20(1_000_000), 100_000, 10).unwrap();
    assert_eq!(lab.state.query_drip_pools().drip_pools.len(), 2);
    assert_eq!(lab.state.query_drip_tokens().drip_tokens.len(), 2);
    assert_eq!(
        lab.drip_pool(CW20),
        Some(DripPool {
            drip_token: DripToken::CW20 { address: CW20.to_string(), amount: 1_000_000 },
            initial_amount: 1_000_000,
            withdrawable_tokens: 0,
            tokens_per_epoch: 100_000,
            issued_shares: 0,
            epochs_number: 10,
            epoch: 0,
        })
    );
}

#[test]
fn drip_pool_already_exists() {
    let mut lab = Lab::build();
    lab.sudo_mint_1000(DRIP, 1000);
    lab.mint(DRIP, CW20, 1_000_000);
    lab.create_drip_pool(native(10_000), 1_000, 10).unwrap();
    let err = lab.create_drip_pool(native(10_000), 1_000, 10).unwrap_err();
    assert_eq!(err, ContractError::DripPoolAlreadyExists {});
}

#[test]
fn remove_participant() {
    let mut lab = Lab::build();
    lab.sudo_mint_1000(PAR1, 1_000);
    lab.delegate(PAR1, 1_000_000);
    lab.add_participant(PAR1).unwrap();
    lab.remove_participant(PAR1);
    assert_eq!(lab.participants().len(), 0);
    lab.remove_participant("blablabla");
    assert_eq!(lab.participants().len(), 0);
}

#[test]
fn participants() {
    let mut lab = Lab::build();
    lab.sudo_mint_1000(PAR1, 1_000);
    lab.sudo_mint_1000(PAR2, 1_000);
    lab.sudo_mint_1000(PAR3, 1_000);
    lab.delegate(PAR1, 1_000_000);
    lab.add_participant(PAR1).unwrap();
    lab.delegate(PAR2, 1_000_000);
    lab.add_participant(PAR2).unwrap();
    let resp = lab.participants();
    assert_eq!(resp.len(), 2);
    assert_eq!(resp, vec![PAR1.to_string(), PAR2.to_string()]);
    lab.remove_participant(PAR1);
    lab.delegate(PAR3, 1_000_000);
    lab.add_participant(PAR3).unwrap();
    let resp = lab.participants();
    assert_eq!(resp.len(), 2);
    assert_eq!(resp, vec![PAR2.to_string(), PAR3.to_string()]);
}

#[test]
fn withdraw_single() {
    let mut lab = funded_lab();
    lab.delegate(PAR1, 1_000_000);
    lab.add_participant(PAR1).unwrap();
    lab.create_drip_pool(native(10_000), 1_000, 10).unwrap();
    lab.advance_blocks(EPOCH);
    lab.distribute_shares().unwrap();
    assert_eq!(lab.balance(PAR1, NATIVE), 0);
    lab.withdraw_tokens(PAR1).unwrap();
    assert_eq!(lab.balance(PAR1, NATIVE), 1_000);
    assert_eq!(lab.withdraw_tokens(PAR1).unwrap_err(), ContractError::NoTokensToWithdraw {});
}

#[test]
fn withdraw_multiple() {
    let mut lab = funded_lab();
    lab.delegate(PAR1, 1_000_000);
    lab.add_participant(PAR1).unwrap();
    lab.create_drip_pool(native(10_000), 1_000, 10).unwrap();
    lab.create_drip_pool(cw20(50_000), 25_000, 2).unwrap();
    lab.advance_blocks(EPOCH);
    lab.distribute_shares().unwrap();
    assert_eq!(lab.balance(PAR1, CW20), 0);
    lab.withdraw_tokens(PAR1).unwrap();
    assert_eq!(lab.balance(PAR1, NATIVE), 1_000);
    assert_eq!(lab.balance(PAR1, CW20), 25_000);
}

fn check_instantiated(lab: &Lab) {
    let config = lab.state.query_config().config;
    assert_eq!(config.owner, OWNER.to_string());
    assert_eq!(config.min_staking_amount, 0);
    assert_eq!(config.epoch_duration, 100);
    assert_eq!(config.next_distribution_time, START + 100);
    let no_participants: Vec<String> = Vec::new();
    assert_eq!(lab.participants(), no_participants);
    let no_drip_tokens: Vec<String> = Vec::new();
    assert_eq!(lab.state.query_drip_tokens().drip_tokens, no_drip_tokens);
}

#[test]
fn tests_test_instantiate() {
    let lab = Lab::build_with(0, 100);
    check_instantiated(&lab);
}

#[test]
fn tests101_test_instantiate() {
    let lab = Lab::build_with(0, 100);
    check_instantiated(&lab);
}

fn check_add_participant() {
    let mut lab = Lab::build_with(0, 100);
    assert_eq!(lab.participants().len(), 0);
    lab.add_participant(PAR1).unwrap();
    let resp = lab.participants();
    assert_eq!(resp.len(), 1);
    assert_eq!(resp, vec![PAR1.to_string()]);
}

#[test]
fn tests_test_add_participant() {
    check_add_participant();
}

#[test]
fn tests101_test_add_participant() {
    check_add_participant();
}

fn check_remove_participant() {
    let mut lab = Lab::build_with(0, 100);
    assert_eq!(lab.participants().len(), 0);
    lab.add_participant(PAR1).unwrap();
    lab.remove_participant(OWNER);
    assert_eq!(lab.participants().len(), 1);
    lab.remove_participant(PAR1);
    lab.add_participant(PAR2).unwrap();
    let resp = lab.participants();
    assert_eq!(resp.len(), 1);
    assert_eq!(resp, vec![PAR2.to_string()]);
}

#[test]
fn tests_test_remove_participant() {
    check_remove_participant();
}

#[test]
fn tests101_test_remove_participant() {
    check_remove_participant();
}

#[test]
fn test_create_drip_pool_no_funded_contract() {
    let mut lab = Lab::build_with(0, 100);
    assert_eq!(lab.state.query_drip_pools().drip_pools.len(), 0);
    assert_eq!(lab.state.query_drip_tokens().drip_tokens.len(), 0);
    let err = lab.create_drip_pool(native(1_000_000), 100_000, 10).unwrap_err();
    assert_eq!(err, ContractError::NoFundedContract { token: NATIVE.to_string(), amount: 1_000_000 });
    let err = lab.create_drip_pool(cw20(1_000_000), 100_000, 10).unwrap_err();
    assert_eq!(err, ContractError::NoFundedContract { token: CW20.to_string(), amount: 1_000_000 });
    assert_eq!(lab.drip_pool("uatom"), None);
}

#[test]
fn test_create_drip_pool_funded_contract() {
    let mut lab = Lab::build_with(0, 100);
    lab.mint(DRIP, CW20, 1_000_000);
    lab.mint(DRIP, NATIVE, 1_000_000);
    lab.create_drip_pool(native(1_000_000), 100_000, 10).unwrap();
    assert_eq!(lab.state.query_drip_pools().drip_pools.len(), 1);
    assert_eq!(lab.state.query_drip_tokens().drip_tokens.len(), 1);
    assert_eq!(
        lab.drip_pool(NATIVE),
        Some(DripPool {
            drip_token: DripToken::Native { denom: NATIVE.to_string(), amount: 1_000_000 },
            initial_amount: 1_000_000,
            withdrawable_tokens: 0,
            tokens_per_epoch: 100_000,
            issued_shares: 0,
            epochs_number: 10,
            epoch: 0,
        })
    );
    let err = lab.create_drip_pool(native(1_000_000), 100_000, 10).unwrap_err();
    assert_eq!(err, ContractError::DripPoolAlreadyExists {});
    lab.create_drip_pool(cw20(1_000_000), 100_000, 10).unwrap();
    assert_eq!(lab.state.query_drip_pools().drip_pools.len(), 2);
    let resp = lab.state.query_drip_tokens().drip_tokens;
    assert_eq!(resp.len(), 2);
    assert_eq!(resp, vec![NATIVE.to_string(), CW20.to_string()]);
    let err = lab.create_drip_pool(cw20(1_000_000), 100_000, 10).unwrap_err();
    assert_eq!(err, ContractError::DripPoolAlreadyExists {});
    assert_eq!(
        lab.drip_pool(CW20),
        Some(DripPool {
            drip_token: DripToken::CW20 { address: CW20.to_string(), amount: 1_000_000 },
            initial_amount: 1_000_000,
            withdrawable_tokens: 0,
            tokens_per_epoch: 100_000,
            issued_shares: 0,
            epochs_number: 10,
            epoch: 0,
        })
    );
}
