//! The liquid-staking economics with no fees: minting, redeeming and the
//! exchange rate, in a runtime whose only costs are the extra fees that
//! redeemers choose.

use homa_lite::account::{hashed_key_for, AccountId};
use homa_lite::arith::{ExchangeRate, Permill};
use homa_lite::events::CurrencyId::{KSM, LKSM};
use homa_lite::events::{CurrenciesEvent, Event, HomaLiteEvent, TokensEvent};
use homa_lite::model::{Config, HomaError};
use homa_lite::runtime::Runtime;

const ALICE: AccountId = AccountId { bytes: [1u8; 32] };
const BOB: AccountId = AccountId { bytes: [2u8; 32] };
const DAVE: AccountId = AccountId { bytes: [4u8; 32] };

fn dollar(amount: u128) -> u128 {
    amount * 1_000_000_000_000
}

fn config() -> Config {
    Config {
        minimum_mint_threshold: 1_000_000_000,
        minimum_redeem_threshold: 1_000_000_000,
        default_exchange_rate: ExchangeRate::saturating_from_rational(1, 10),
        max_matches_on_idle: 100,
    }
}

/// A runtime with no balances.
fn empty() -> Runtime {
    Runtime::new(config())
}

/// A runtime where Alice and Bob hold staking currency and Dave liquid currency.
fn with_balances() -> Runtime {
    let mut rt = empty();
    rt.update_balance(&ALICE, KSM, dollar(1_000_000) as i128).unwrap();
    rt.update_balance(&BOB, KSM, dollar(1_000_000) as i128).unwrap();
    rt.update_balance(&DAVE, LKSM, dollar(1_000_000) as i128).unwrap();
    rt.reset_events();
    rt
}

fn set_staking_to_a_tenth(rt: &mut Runtime) {
    let issuance = rt.total_issuance(LKSM);
    assert!(rt.set_total_staking_currency(issuance / 10).is_ok());
}

fn homa(e: HomaLiteEvent) -> Event {
    Event::HomaLite(e)
}

#[test]
fn no_fee_runtime_has_no_fees() {
    let mut rt = with_balances();
    set_staking_to_a_tenth(&mut rt);
    rt.set_minting_cap(dollar(1_000_000));

    // Mint costs no fees
    assert!(rt.mint(&ALICE, dollar(1_000)).is_ok());
    assert_eq!(rt.get_exchange_rate(), ExchangeRate::saturating_from_rational(1, 10));
    assert_eq!(
        rt.events().last().copied(),
        Some(homa(HomaLiteEvent::Minted(ALICE, dollar(1_000), dollar(10_000))))
    );
    assert_eq!(rt.free_balance(KSM, &ALICE), dollar(999_000));
    assert_eq!(rt.free_balance(LKSM, &ALICE), dollar(10_000));

    assert!(rt.mint(&BOB, dollar(5_000)).is_ok());
    assert_eq!(
        rt.events().last().copied(),
        Some(homa(HomaLiteEvent::Minted(BOB, dollar(5_000), dollar(50_000))))
    );
    assert_eq!(rt.free_balance(KSM, &BOB), dollar(995_000));
    assert_eq!(rt.free_balance(LKSM, &BOB), dollar(50_000));

    // Redeem costs no fees
    assert!(rt.request_redeem(&BOB, dollar(50_000), Permill::zero()).is_ok());
    assert_eq!(
        rt.events().last().copied(),
        Some(homa(HomaLiteEvent::RedeemRequested(BOB, dollar(50_000), Permill::zero(), 0)))
    );
    assert!(rt.mint(&ALICE, dollar(5_000)).is_ok());

    assert_eq!(rt.free_balance(KSM, &ALICE), dollar(994_000));
    assert_eq!(rt.free_balance(LKSM, &ALICE), dollar(60_000));
    assert_eq!(rt.free_balance(KSM, &BOB), dollar(1_000_000));
    assert_eq!(rt.free_balance(LKSM, &BOB), 0);
    let events = rt.events();
    assert_eq!(
        events[events.len() - 2],
        homa(HomaLiteEvent::Redeemed(BOB, dollar(5000), dollar(50000)))
    );
    assert_eq!(
        events[events.len() - 1],
        homa(HomaLiteEvent::Minted(ALICE, dollar(5000), dollar(50000)))
    );

    // Redeem from AvailableStakingBalance costs no fees
    rt.schedule_unbond(dollar(50_000), 0);
    rt.on_idle(0);

    assert!(rt.request_redeem(&DAVE, dollar(100_000), Permill::zero()).is_ok());

    assert_eq!(rt.available_staking_balance(), dollar(40_000));
    assert_eq!(rt.free_balance(KSM, &DAVE), dollar(10_000));
    assert_eq!(rt.free_balance(LKSM, &DAVE), dollar(900_000));

    let events = rt.events();
    assert_eq!(
        events[events.len() - 9],
        homa(HomaLiteEvent::ScheduledUnbondAdded(dollar(50_000), 0))
    );
    assert_eq!(
        events[events.len() - 8],
        homa(HomaLiteEvent::ScheduledUnbondWithdrew(dollar(50_000)))
    );
    assert_eq!(
        events[events.len() - 7],
        Event::Tokens(TokensEvent::Reserved(LKSM, DAVE, dollar(100_000)))
    );
    assert_eq!(
        events[events.len() - 6],
        homa(HomaLiteEvent::RedeemRequested(DAVE, dollar(100_000), Permill::zero(), 0))
    );
    assert_eq!(
        events[events.len() - 5],
        homa(HomaLiteEvent::TotalStakingCurrencySet(dollar(96_000)))
    );
    assert_eq!(
        events[events.len() - 4],
        Event::Tokens(TokensEvent::Endowed(KSM, DAVE, dollar(10_000)))
    );
    assert_eq!(
        events[events.len() - 3],
        Event::Currencies(CurrenciesEvent::Deposited(KSM, DAVE, dollar(10_000)))
    );
    assert_eq!(
        events[events.len() - 2],
        Event::Tokens(TokensEvent::Unreserved(LKSM, DAVE, dollar(100_000)))
    );
    assert_eq!(
        events[events.len() - 1],
        homa(HomaLiteEvent::Redeemed(DAVE, dollar(10_000), dollar(100_000)))
    );
}

#[test]
fn mint_with_xcm_does_not_change_exchange_rate() {
    let mut rt = with_balances();
    set_staking_to_a_tenth(&mut rt);
    rt.set_minting_cap(dollar(1_000_000));

    let exchange_rate = rt.get_exchange_rate();

    for _ in 0..100 {
        assert!(rt.mint(&ALICE, dollar(500)).is_ok());
        assert_eq!(exchange_rate, rt.get_exchange_rate());
    }

    assert_eq!(rt.free_balance(KSM, &ALICE), dollar(950_000));
    assert_eq!(rt.free_balance(LKSM, &ALICE), dollar(500_000));
}

#[test]
fn mint_with_redeem_does_not_change_exchange_rate() {
    let mut rt = with_balances();
    set_staking_to_a_tenth(&mut rt);
    rt.set_minting_cap(dollar(1_000_000));
    assert!(rt.request_redeem(&DAVE, dollar(1_000_000), Permill::zero()).is_ok());
    let exchange_rate = rt.get_exchange_rate();

    for _ in 0..100 {
        assert!(rt.mint(&ALICE, dollar(500)).is_ok());
        assert_eq!(exchange_rate, rt.get_exchange_rate());
    }

    assert_eq!(rt.free_balance(KSM, &ALICE), dollar(950_000));
    assert_eq!(rt.free_balance(LKSM, &ALICE), dollar(500_000));

    assert_eq!(rt.free_balance(KSM, &DAVE), dollar(50_000));
    assert_eq!(rt.free_balance(LKSM, &DAVE), 0);
    assert_eq!(rt.reserved_balance(LKSM, &DAVE), dollar(500_000));

    // Add redeem with 50% extra reward.
    assert!(rt.request_redeem(&ALICE, dollar(500_000), Permill::from_percent(50)).is_ok());

    for _ in 0..100 {
        assert!(rt.mint(&BOB, dollar(1_000)).is_ok());
        assert_eq!(exchange_rate, rt.get_exchange_rate());
    }

    // 950_000 + 50_000 * 50%, since the other 50% went to the minter as rewards.
    assert_eq!(rt.free_balance(KSM, &ALICE), dollar(975_000));
    assert_eq!(rt.free_balance(LKSM, &ALICE), 0);

    // Got 25_000 extra as extra rewards
    assert_eq!(rt.free_balance(KSM, &BOB), dollar(925_000));
    assert_eq!(rt.free_balance(LKSM, &BOB), dollar(1_000_000));

    assert_eq!(rt.free_balance(KSM, &DAVE), dollar(100_000));
    assert_eq!(rt.free_balance(LKSM, &DAVE), 0);
    assert_eq!(rt.reserved_balance(LKSM, &DAVE), 0);
}

#[test]
fn redeem_with_available_staking_does_not_change_exchange_rate() {
    let mut rt = with_balances();
    set_staking_to_a_tenth(&mut rt);
    rt.set_minting_cap(dollar(1_000_000));

    assert!(rt.adjust_available_staking_balance(dollar(100) as i128, 100).is_ok());

    let exchange_rate = rt.get_exchange_rate();

    // test repeated redeem using available staking
    for _ in 0..100 {
        assert!(rt.request_redeem(&DAVE, dollar(10), Permill::zero()).is_ok());
        assert_eq!(exchange_rate, rt.get_exchange_rate());
    }

    assert_eq!(rt.available_staking_balance(), 0);
    assert_eq!(rt.free_balance(KSM, &DAVE), dollar(100));
    assert_eq!(rt.free_balance(LKSM, &DAVE), dollar(999_000));
    assert_eq!(rt.reserved_balance(LKSM, &DAVE), 0);

    // Test repeated adjust_available_staking_balance with a queued redeem request.
    assert!(rt.request_redeem(&DAVE, dollar(10_000), Permill::zero()).is_ok());
    for _ in 0..100 {
        assert!(rt.adjust_available_staking_balance(dollar(10) as i128, 100).is_ok());
        assert_eq!(exchange_rate, rt.get_exchange_rate());
    }

    assert_eq!(rt.available_staking_balance(), 0);
    assert_eq!(rt.free_balance(KSM, &DAVE), dollar(1100));
    assert_eq!(rt.free_balance(LKSM, &DAVE), dollar(989_000));
    assert_eq!(rt.reserved_balance(LKSM, &DAVE), 0);
}

#[test]
fn mint_and_redeem_at_the_same_time_does_not_change_exchange_rate() {
    let mut rt = with_balances();
    set_staking_to_a_tenth(&mut rt);
    rt.set_minting_cap(dollar(1_000_000));
    assert!(rt.adjust_available_staking_balance(dollar(5_000) as i128, 0).is_ok());

    let exchange_rate = rt.get_exchange_rate();

    // The first 50 redeems are done using available_staking_balance.
    // The next 50 redeems are matched with mint.
    for _ in 0..100 {
        assert!(rt.request_redeem(&DAVE, dollar(1000), Permill::zero()).is_ok());
        assert!(rt.mint(&ALICE, dollar(100)).is_ok());
        assert_eq!(exchange_rate, rt.get_exchange_rate());
    }

    assert_eq!(rt.free_balance(KSM, &ALICE), dollar(990_000));
    assert_eq!(rt.free_balance(LKSM, &ALICE), dollar(100_000));

    assert_eq!(rt.free_balance(KSM, &DAVE), dollar(10_000));
    assert_eq!(rt.free_balance(LKSM, &DAVE), dollar(900_000));
}

#[test]
fn updating_and_cancelling_redeem_requests_does_not_change_exchange_rate() {
    let mut rt = with_balances();
    set_staking_to_a_tenth(&mut rt);
    rt.set_minting_cap(dollar(1_000_000));

    let exchange_rate = rt.get_exchange_rate();

    for i in 1..101u128 {
        assert!(rt.request_redeem(&DAVE, dollar(i * 100u128), Permill::from_percent(i as u32)).is_ok());
        assert_eq!(exchange_rate, rt.get_exchange_rate());
    }
    assert_eq!(rt.redeem_requests(&DAVE), Some((dollar(10_000), Permill::one())));

    for i in 1..101u128 {
        assert!(rt
            .request_redeem(&DAVE, dollar((100 - i) * 100u128), Permill::from_percent(100 - i as u32))
            .is_ok());
        assert_eq!(exchange_rate, rt.get_exchange_rate());
    }
    assert_eq!(rt.redeem_requests(&DAVE), None);

    assert_eq!(rt.free_balance(KSM, &DAVE), 0);
    assert_eq!(rt.free_balance(LKSM, &DAVE), dollar(1_000_000));
}

/// The accounts filled with liquid currency and asking to redeem all of it.
fn redeemers(rt: &mut Runtime, count: u8) {
    for i in 0..count {
        let account = AccountId::new([i; 32]);
        assert!(rt.update_balance(&account, LKSM, dollar(1000 as u128) as i128).is_ok());
        assert!(rt.request_redeem(&account, dollar(1000), Permill::zero()).is_ok());
    }
}

fn default_order(indices: &[u8]) -> Vec<AccountId> {
    indices.iter().map(|i| AccountId::new([*i; 32])).collect()
}

#[test]
fn mint_match_from_previous_redeem_requests() {
    let mut rt = empty();
    rt.set_minting_cap(dollar(1_000_000));

    redeemers(&mut rt, 10);

    set_staking_to_a_tenth(&mut rt);

    // This is the default order the redeem requests are iterated.
    let default_order = rt.redeem_request_accounts();
    assert_eq!(default_order, self::default_order(&[1, 6, 2, 3, 8, 9, 7, 4, 5, 0]));

    let minter = AccountId::new([255u8; 32]);
    assert!(rt.update_balance(&minter, KSM, dollar(100 as u128) as i128).is_ok());

    // If unset, `LastRedeemRequestKeyIterated` should be the default account Id
    assert!(rt.last_redeem_request_key_iterated().is_empty());

    // Minting once for each item in redeem request should be iterated once
    for i in 0..10 {
        assert!(rt.mint(&minter, dollar(10)).is_ok());
        // Each item should be iterated once
        assert_eq!(rt.redeem_requests(&default_order[i]), Some((dollar(900), Permill::zero())));
        assert_eq!(rt.free_balance(KSM, &default_order[i]), dollar(10));
        // Ensure `LastRedeemRequestKeyIterated` is setup correctly.
        assert_eq!(rt.last_redeem_request_key_iterated(), hashed_key_for(&default_order[i]));
    }

    // Check mint operations are successful.
    assert_eq!(rt.free_balance(KSM, &minter), 0);
    assert_eq!(rt.free_balance(LKSM, &minter), dollar(1000));

    // Test iterate only wrap around once without double-redeem.
    assert!(rt.update_balance(&minter, KSM, dollar(1000 as u128) as i128).is_ok());

    assert_eq!(rt.total_staking_currency(), dollar(1000));

    // 900 should be minted from redeem requests, 100 from XCM.
    assert!(rt.mint(&minter, dollar(1000)).is_ok());

    // All redeem requests should be fulfilled, and only once.
    for i in 0..10 {
        assert_eq!(rt.redeem_requests(&default_order[i]), None);
        assert_eq!(rt.free_balance(KSM, &default_order[i]), dollar(100));
        assert_eq!(rt.free_balance(LKSM, &default_order[i]), 0);
        assert_eq!(rt.reserved_balance(LKSM, &default_order[i]), 0);
    }

    assert_eq!(rt.free_balance(KSM, &minter), 0);
    assert_eq!(rt.free_balance(LKSM, &minter), dollar(11000));

    // 100 KSM redeemed from XCM, increasing the staking total.
    assert_eq!(rt.total_staking_currency(), dollar(1100));
}

#[test]
fn unbonded_staking_match_from_previous_redeem_requests() {
    let mut unbond = |rt: &mut Runtime, amount: u128| -> Result<(), HomaError> {
        rt.schedule_unbond(amount, 0);
        rt.on_idle(0);
        Ok(())
    };

    let mut adjust_available_staking_balance = |rt: &mut Runtime, amount: u128| -> Result<(), HomaError> {
        rt.adjust_available_staking_balance(amount as i128, 1_000)
    };

    // Test unbonding can iterate from `LastRedeemRequestKeyIterated`
    test_increase_staking_match_from_previous_redeem_requests(&mut unbond);

    // Test `adjust_available_staking_balance` can iterate from `LastRedeemRequestKeyIterated`
    test_increase_staking_match_from_previous_redeem_requests(&mut adjust_available_staking_balance);
}

// Helper function that tests when increasing Staking currency, the redeem requests are processed
// from the `LastRedeemRequestKeyIterated`. Takes a Function that increases the StakingCurrency and
// matches redeem requests.
fn test_increase_staking_match_from_previous_redeem_requests(
    mut increase_staking: impl FnMut(&mut Runtime, u128) -> Result<(), HomaError>,
) {
    let mut rt = empty();
    rt.set_minting_cap(dollar(1_000_000));

    // Give someone extra fund so total staking does not reduce to zero.
    assert!(rt.update_balance(&AccountId::new([255u8; 32]), LKSM, dollar(10 as u128) as i128).is_ok());

    redeemers(&mut rt, 10);

    set_staking_to_a_tenth(&mut rt);

    // This is the default order the redeem requests are iterated.
    let default_order = rt.redeem_request_accounts();
    assert_eq!(default_order, self::default_order(&[1, 6, 2, 3, 8, 9, 7, 4, 5, 0]));

    // If unset, `LastRedeemRequestKeyIterated` should be the default account Id
    assert!(rt.last_redeem_request_key_iterated().is_empty());

    assert_eq!(rt.total_staking_currency(), dollar(1001));

    // Minting once for each item in redeem request should be iterated once
    for i in 0..10 {
        assert!(increase_staking(&mut rt, dollar(10)).is_ok());
        assert_eq!(rt.total_staking_currency(), dollar(1001 - (i as u128 + 1) * 10));
        // Each item should be iterated once
        assert_eq!(rt.redeem_requests(&default_order[i]), Some((dollar(900), Permill::zero())));
        assert_eq!(rt.free_balance(KSM, &default_order[i]), dollar(10));
        // Ensure `LastRedeemRequestKeyIterated` is setup correctly.
        assert_eq!(rt.last_redeem_request_key_iterated(), hashed_key_for(&default_order[i]));
    }

    // Ensure `LastRedeemRequestKeyIterated` is setup correctly.
    assert_eq!(rt.last_redeem_request_key_iterated(), hashed_key_for(&AccountId::default()));

    assert_eq!(rt.total_staking_currency(), dollar(901));

    // Test iterate only wrap around once without double-redeem.
    // 900 should be used to clear all redeem requests, 100 is then left over.
    assert!(increase_staking(&mut rt, dollar(1000)).is_ok());

    // All redeem requests should be fulfilled, and only once.
    for i in 0..10 {
        assert_eq!(rt.redeem_requests(&default_order[i]), None);
        assert_eq!(rt.free_balance(KSM, &default_order[i]), dollar(100));
        assert_eq!(rt.free_balance(LKSM, &default_order[i]), 0);
        assert_eq!(rt.reserved_balance(LKSM, &default_order[i]), 0);
    }

    assert_eq!(rt.total_staking_currency(), dollar(1));
    assert_eq!(rt.available_staking_balance(), dollar(100));
}

#[test]
fn redeem_does_not_restart_if_previous_key_is_removed() {
    let mut rt = empty();
    rt.set_minting_cap(dollar(1_000_000));

    redeemers(&mut rt, 5);

    set_staking_to_a_tenth(&mut rt);

    // This is the default order the redeem requests are iterated.
    let default_order = rt.redeem_request_accounts();
    assert_eq!(default_order, self::default_order(&[1, 2, 3, 4, 0]));

    let minter = AccountId::new([255u8; 32]);
    assert!(rt.update_balance(&minter, KSM, dollar(100 as u128) as i128).is_ok());

    // Mint from the first element in the iterator
    assert!(rt.mint(&minter, dollar(10)).is_ok());
    assert_eq!(rt.redeem_requests(&AccountId::new([1u8; 32])), Some((dollar(900), Permill::zero())));

    assert_eq!(rt.free_balance(KSM, &AccountId::new([1u8; 32])), dollar(10));
    assert_eq!(
        rt.last_redeem_request_key_iterated(),
        hashed_key_for(&AccountId::new([1u8; 32]))
    );

    // Remove the next element
    rt.remove_redeem_request_entry(&AccountId::new([2u8; 32]));
    assert_eq!(rt.redeem_requests(&AccountId::new([2u8; 32])), None);

    // Next mint should continue without restarting
    assert!(rt.mint(&minter, dollar(10)).is_ok());
    assert_eq!(rt.redeem_requests(&AccountId::new([3u8; 32])), Some((dollar(900), Permill::zero())));

    assert_eq!(rt.free_balance(KSM, &AccountId::new([3u8; 32])), dollar(10));
    assert_eq!(
        rt.last_redeem_request_key_iterated(),
        hashed_key_for(&AccountId::new([3u8; 32]))
    );

    // remove the last final 2 elements
    rt.remove_redeem_request_entry(&AccountId::new([4u8; 32]));
    rt.remove_redeem_request_entry(&AccountId::new([0u8; 32]));

    // Next mint should start from the beginning
    assert!(rt.mint(&minter, dollar(10)).is_ok());
    assert_eq!(rt.redeem_requests(&AccountId::new([1u8; 32])), Some((dollar(800), Permill::zero())));

    assert_eq!(rt.free_balance(KSM, &AccountId::new([1u8; 32])), dollar(20));
    assert_eq!(
        rt.last_redeem_request_key_iterated(),
        hashed_key_for(&AccountId::new([1u8; 32]))
    );
}
