use vstd::prelude::*;

verus! {

/// Every way an operation of the engine can be refused.
#[derive(Debug, Clone, PartialEq, Eq)]
pub enum ContractError {
    /// A checked addition, subtraction or multiplication left the range of its type.
    Overflow {},
    Unauthorized {},
    AlreadyParticipant {},
    DripPoolAlreadyExists {},
    NoFundedContract { token: String, amount: u128 },
    ZeroTokenPool {},
    DripPoolNotFound { token: String },
    ZeroActiveDripPool {},
    WrongTokensAmount { tokens_amount: u128, total_tokens: u128 },
    NoDistributionTime {},
    NoShares {},
    LessThanOneEpoch {},
    InvalidActiveDripPool,
    DripPoolHasNotENoughFunds,
    NoTokensToWithdraw {},
    /// A distribution cycle with an epoch of zero seconds.
    ZeroEpochDuration {},
}

impl ContractError {
    /// The message the error is reported with.
    pub fn message(&self) -> String {
        match self {
            ContractError::Overflow {} => "arithmetic overflow".to_string(),
            ContractError::Unauthorized {} => "Unauthorized".to_string(),
            ContractError::AlreadyParticipant {} => "sender is already a participant".to_string(),
            ContractError::DripPoolAlreadyExists {} => "drip pool already exists".to_string(),
            ContractError::NoFundedContract { .. } => "smart contract has not enough tokens".to_string(),
            ContractError::ZeroTokenPool {} => "zero token pool is not allowed".to_string(),
            ContractError::DripPoolNotFound { .. } => "drip pool not found".to_string(),
            ContractError::ZeroActiveDripPool {} => "no active drip pool".to_string(),
            ContractError::WrongTokensAmount { .. } => "initial tokens amount does not coincide with epochs_number X tokens_per_epoch".to_string(),
            ContractError::NoDistributionTime {} => "wait for distribution time".to_string(),
            ContractError::NoShares {} => "no shares for this address".to_string(),
            ContractError::LessThanOneEpoch {} => "the minimum number of epochs is 1".to_string(),
            ContractError::InvalidActiveDripPool => "drip pool should be unactive".to_string(),
            ContractError::DripPoolHasNotENoughFunds => "drip pool has not enough funds to distribute".to_string(),
            ContractError::NoTokensToWithdraw {} => "no tokens to withdraw".to_string(),
            ContractError::ZeroEpochDuration {} => "the epoch duration must be positive".to_string(),
        }
    }
}

} // verus!
