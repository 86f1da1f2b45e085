use vstd::prelude::*;

use crate::error::ContractError;
use crate::state::{Config, DripPool, DripToken};

verus! {

/// Parameters of instantiation.
#[derive(Debug, Clone, PartialEq, Eq)]
pub struct InstantiateMsg {
    /// Address of the chain's staking module.
    pub staking_module_address: String,
    /// Minimum eligibility weight to accrue shares.
    pub min_staking_amount: u128,
    /// Duration of a single epoch, in seconds, for all drip pools.
    pub epoch_duration: u64,
}

/// Drip token as requested, before its funding is checked.
#[derive(Debug, Clone, PartialEq, Eq)]
pub enum UncheckedDripToken {
    Native { denom: String, initial_amount: u128 },
    Cw20 { address: String, initial_amount: u128 },
}

/// Operations that change the engine's state.
#[derive(Debug, Clone, PartialEq, Eq)]
pub enum ExecuteMsg {
    /// Participate in the drip distribution.
    Participate {},
    /// Stop participating; no more shares will be accrued.
    RemoveParticipation {},
    /// Create a distribution drip pool.
    CreateDripPool { token_info: UncheckedDripToken, tokens_per_epoch: u128, epochs_number: u64 },
    UpdateDripPool {},
    RemoveDripPool {},
    /// Distribute shares of the active drip pools to the participants.
    DistributeShares {},
    SendShares {},
    WithdrawTokens {},
}

/// Read-only requests.
#[derive(Debug, Clone, PartialEq, Eq)]
pub enum QueryMsg {
    /// The current configuration.
    Config {},
    /// The participants.
    Participants {},
    /// The token identifiers of the active pools.
    DripTokens {},
    /// One drip pool.
    DripPool { token: String },
    /// The active drip pools.
    DripPools {},
    /// The shares of one participant.
    ParticipantShares { address: String },
}

#[derive(Debug, Clone, PartialEq, Eq)]
pub struct ConfigResponse {
    pub config: Config,
}

#[derive(Debug, Clone, PartialEq, Eq)]
pub struct ParticipantSharesResponse {
    pub shares: Vec<(String, u128)>,
}

#[derive(Debug, Clone, PartialEq, Eq)]
pub struct ParticipantsResponse {
    pub participants: Vec<String>,
}

#[derive(Debug, Clone, PartialEq, Eq)]
pub struct DripTokensResponse {
    pub drip_tokens: Vec<String>,
}

#[derive(Debug, Clone, PartialEq, Eq)]
pub struct DripPoolResponse {
    pub drip_pool: Option<DripPool>,
}

#[derive(Debug, Clone, PartialEq, Eq)]
pub struct DripPoolsResponse {
    pub drip_pools: Vec<DripPool>,
}

#[derive(Debug, Clone, PartialEq, Eq)]
pub struct VotingPowerAtHeightReponse {
    pub power: u128,
    pub height: u64,
}

#[derive(Debug, Clone, PartialEq, Eq)]
pub struct TotalPowerAtHeightResponse {
    pub power: u128,
    pub height: u64,
}

#[derive(Debug, Clone, PartialEq, Eq)]
pub struct AddParticipantResponse {
    pub address: String,
    pub eligible: bool,
}

impl UncheckedDripToken {
    /// The amount the pool is to be funded with.
    pub open spec fn initial(self) -> u128 {
        match self {
            UncheckedDripToken::Native { initial_amount, .. } => initial_amount,
            UncheckedDripToken::Cw20 { initial_amount, .. } => initial_amount,
        }
    }

    /// The denom or the contract address that identifies the token.
    pub open spec fn name(self) -> String {
        match self {
            UncheckedDripToken::Native { denom, .. } => denom,
            UncheckedDripToken::Cw20 { address, .. } => address,
        }
    }

    /// The checked token: the same variant and identifier, with the initial
    /// amount available.
    pub open spec fn checked(self) -> DripToken {
        match self {
            UncheckedDripToken::Native { denom, initial_amount } => DripToken::Native {
                denom,
                amount: initial_amount,
            },
            UncheckedDripToken::Cw20 { address, initial_amount } => DripToken::CW20 {
                address,
                amount: initial_amount,
            },
        }
    }

    /// Checks the requested token against `held_balance`, what the engine
    /// holds of it: fails with `ZeroTokenPool` on a zero initial amount, with
    /// `NoFundedContract` when less than the initial amount is held.
    pub fn validate(self, held_balance: u128) -> (r: Result<DripToken, ContractError>)
        ensures
            self.initial() == 0 ==> r == Err::<DripToken, ContractError>(
                ContractError::ZeroTokenPool {},
            ),
            self.initial() != 0 && held_balance < self.initial() ==> r == Err::<
                DripToken,
                ContractError,
            >(ContractError::NoFundedContract { token: self.name(), amount: self.initial() }),
            self.initial() != 0 && held_balance >= self.initial() ==> r == Ok::<
                DripToken,
                ContractError,
            >(self.checked()),
    {
        match self {
            UncheckedDripToken::Native { denom, initial_amount } => {
                if initial_amount == 0 {
                    return Err(ContractError::ZeroTokenPool {});
                }
                if held_balance < initial_amount {
                    return Err(ContractError::NoFundedContract { token: denom, amount: initial_amount });
                }
                Ok(DripToken::Native { denom, amount: initial_amount })
            },
            UncheckedDripToken::Cw20 { address, initial_amount } => {
                if initial_amount == 0 {
                    return Err(ContractError::ZeroTokenPool {});
                }
                if held_balance < initial_amount {
                    return Err(ContractError::NoFundedContract { token: address, amount: initial_amount });
                }
                Ok(DripToken::CW20 { address, amount: initial_amount })
            },
        }
    }
}

} // verus!
