//! A verified model of the liquid-staking economics of a "homa lite" pallet:
//! minting a liquid currency against a staking currency, queued redeem
//! requests that minters and freed staking balance match in storage order,
//! and the exchange rate between the two currencies.

pub mod arith;
pub mod account;
pub mod events;
pub mod ledger;
pub mod queue;
pub mod model;
pub mod runtime;
pub mod laws;
pub mod operation_laws;
