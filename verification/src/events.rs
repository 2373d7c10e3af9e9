//! The events that the runtime records, grouped by the part that emits them.

use crate::account::AccountId;
use crate::arith::Permill;
use vstd::prelude::*;

verus! {

/// The two currencies: the staking currency and the liquid currency minted against it.
#[derive(Clone, Copy, Debug, PartialEq, Eq, Structural)]
pub enum CurrencyId {
    KSM,
    LKSM,
}

/// Events of the liquid-staking logic.
#[derive(Clone, Copy, Debug, PartialEq, Eq)]
pub enum HomaLiteEvent {
    /// `(minter, staking paid, liquid received)`
    Minted(AccountId, u128, u128),
    /// The new cap on the total staking currency.
    StakingCurrencyMintCapUpdated(u128),
    /// The new total staking currency.
    TotalStakingCurrencySet(u128),
    /// `(redeemer, liquid released)`
    RedeemRequestCancelled(AccountId, u128),
    /// `(redeemer, liquid amount, extra fee, base withdraw fee)`
    RedeemRequested(AccountId, u128, Permill, u128),
    /// `(redeemer, staking received, liquid redeemed)`
    Redeemed(AccountId, u128, u128),
    /// The new staking balance available for redeeming.
    AvailableStakingBalanceSet(u128),
    /// `(staking amount, relay-chain block at which it unbonds)`
    ScheduledUnbondAdded(u128, u32),
    /// The staking amount that an unbond made available.
    ScheduledUnbondWithdrew(u128),
}

/// Events of the token ledger.
#[derive(Clone, Copy, Debug, PartialEq, Eq)]
pub enum TokensEvent {
    /// An account holds a currency for the first time.
    Endowed(CurrencyId, AccountId, u128),
    /// `(currency, from, to, amount)`
    Transfer(CurrencyId, AccountId, AccountId, u128),
    Reserved(CurrencyId, AccountId, u128),
    Unreserved(CurrencyId, AccountId, u128),
    /// Reserved funds of the first account moved to the free balance of the second.
    ReserveRepatriated(CurrencyId, AccountId, AccountId, u128),
}

/// Events of the multi-currency front of the ledger.
#[derive(Clone, Copy, Debug, PartialEq, Eq)]
pub enum CurrenciesEvent {
    Deposited(CurrencyId, AccountId, u128),
    BalanceUpdated(CurrencyId, AccountId, i128),
}

/// An event of the runtime.
#[derive(Clone, Copy, Debug, PartialEq, Eq)]
pub enum Event {
    HomaLite(HomaLiteEvent),
    Tokens(TokensEvent),
    Currencies(CurrenciesEvent),
}

} // verus!
