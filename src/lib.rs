//! Share and pool accounting for a drip distribution: participants accrue
//! shares each epoch in proportion to their eligibility weight, and redeem
//! them against independently funded token pools.
pub mod contract;
pub mod cycle;
pub mod error;
pub mod ledger;
pub mod msg;
pub mod state;
pub mod withdraw;
