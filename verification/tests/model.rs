//! The model on concrete values: rounding, errors, storage keys, and the
//! laws of the exchange rate and of the request walk.

use homa_lite::account::{hashed_key_for, AccountId};
use homa_lite::arith::{ExchangeRate, Permill};
use homa_lite::events::CurrencyId::{KSM, LKSM};
use homa_lite::events::{Event, HomaLiteEvent, TokensEvent};
use homa_lite::ledger::{Ledger, LedgerError};
use homa_lite::model::{Config, HomaError};
use homa_lite::runtime::Runtime;

const ALICE: AccountId = AccountId { bytes: [1u8; 32] };
const BOB: AccountId = AccountId { bytes: [2u8; 32] };
const DAVE: AccountId = AccountId { bytes: [4u8; 32] };

fn dollar(amount: u128) -> u128 {
    amount * 1_000_000_000_000
}

fn runtime() -> Runtime {
    Runtime::new(Config {
        minimum_mint_threshold: 1_000_000_000,
        minimum_redeem_threshold: 1_000_000_000,
        default_exchange_rate: ExchangeRate::saturating_from_rational(1, 10),
        max_matches_on_idle: 100,
    })
}

/// Alice and Bob hold staking currency, Dave liquid currency; the rate is `staking` over a million.
fn funded(staking: u128) -> Runtime {
    let mut rt = runtime();
    rt.update_balance(&ALICE, KSM, dollar(1_000_000) as i128).unwrap();
    rt.update_balance(&BOB, KSM, dollar(1_000_000) as i128).unwrap();
    rt.update_balance(&DAVE, LKSM, dollar(1_000_000) as i128).unwrap();
    rt.set_total_staking_currency(dollar(staking)).unwrap();
    rt.set_minting_cap(dollar(10_000_000));
    rt.reset_events();
    rt
}

#[test]
fn storage_key_is_hashed_names_then_twox64_concat() {
    let expected: Vec<u8> = vec![
        11, 55, 37, 166, 12, 51, 126, 7, 230, 130, 104, 66, 133, 95, 211, 230, 82, 98, 78, 184, 129, 242, 40,
        67, 93, 174, 92, 166, 73, 159, 56, 92, 13, 5, 45, 0, 37, 159, 42, 143, 1, 1, 1, 1, 1, 1, 1, 1, 1, 1, 1,
        1, 1, 1, 1, 1, 1, 1, 1, 1, 1, 1, 1, 1, 1, 1, 1, 1, 1, 1, 1, 1,
    ];
    assert_eq!(hashed_key_for(&ALICE), expected);
    assert_ne!(hashed_key_for(&ALICE), hashed_key_for(&BOB));
}

#[test]
fn exchange_rate_defaults_without_liquid_currency() {
    let rt = runtime();
    assert_eq!(rt.get_exchange_rate().into_inner(), 100_000_000_000_000_000);
    assert_eq!(rt.convert_staking_to_liquid(dollar(3)), Some(dollar(30)));
}

#[test]
fn exchange_rate_is_staking_over_liquid_rounded_down() {
    let mut rt = runtime();
    rt.update_balance(&DAVE, LKSM, 3).unwrap();
    rt.set_total_staking_currency(1).unwrap();
    assert_eq!(rt.get_exchange_rate().into_inner(), 333_333_333_333_333_333);
    assert_eq!(rt.get_exchange_rate(), ExchangeRate::saturating_from_rational(1, 3));
    assert_eq!(rt.get_exchange_rate(), ExchangeRate::checked_from_rational(1, 3).unwrap());
    // Each step of a conversion rounds down.
    assert_eq!(rt.convert_liquid_to_staking(3), Some(0));
    assert_eq!(rt.convert_liquid_to_staking(dollar(3)), Some(dollar(1) - 1));
    assert_eq!(rt.convert_staking_to_liquid(1), Some(3));
    assert_eq!(rt.convert_staking_to_liquid(dollar(1)), Some(dollar(3)));
}

#[test]
fn rational_rates_saturate_or_fail_when_too_large() {
    assert_eq!(ExchangeRate::checked_from_rational(1, 0), None);
    assert_eq!(ExchangeRate::checked_from_rational(u128::MAX, 1), None);
    assert_eq!(ExchangeRate::saturating_from_rational(u128::MAX, 1).into_inner(), u128::MAX);
    assert_eq!(ExchangeRate::checked_from_rational(5, 2).unwrap().into_inner(), 2_500_000_000_000_000_000);
}

#[test]
fn permill_rounds_to_nearest_halves_down() {
    assert_eq!(Permill::from_parts(500_000).mul(3), 1);
    assert_eq!(Permill::from_parts(500_001).mul(3), 2);
    assert_eq!(Permill::from_percent(50).mul(dollar(1)), dollar(1) / 2);
    assert_eq!(Permill::one().mul(u128::MAX), u128::MAX);
    assert_eq!(Permill::from_percent(150), Permill::one());
    assert_eq!(Permill::from_parts(2_000_000), Permill::one());
    assert_eq!(Permill::from_percent(7).deconstruct(), 70_000);
    assert_eq!(Permill::from_percent(7).complement_parts(), 930_000);
}

#[test]
fn mint_errors() {
    let mut rt = funded(100_000);
    assert_eq!(rt.mint(&ALICE, 1), Err(HomaError::AmountBelowMinimumThreshold));
    assert_eq!(rt.mint(&DAVE, dollar(1)), Err(HomaError::InsufficientBalance));
    rt.set_minting_cap(dollar(100_500));
    assert_eq!(rt.mint(&ALICE, dollar(1_000)), Err(HomaError::ExceedStakingCurrencyMintCap));
    assert!(rt.mint(&ALICE, dollar(500)).is_ok());
    assert_eq!(rt.total_staking_currency(), dollar(100_500));
    // A rate of zero has no inverse.
    let mut zero = runtime();
    zero.update_balance(&ALICE, KSM, dollar(1) as i128).unwrap();
    zero.update_balance(&DAVE, LKSM, i128::MAX).unwrap();
    zero.set_total_staking_currency(1).unwrap();
    zero.set_minting_cap(dollar(1_000));
    assert_eq!(zero.get_exchange_rate().into_inner(), 0);
    assert_eq!(zero.mint(&ALICE, dollar(1)), Err(HomaError::ArithmeticOverflow));
    assert_eq!(zero.free_balance(KSM, &ALICE), dollar(1));
}

#[test]
fn redeem_and_admin_errors() {
    let mut rt = funded(100_000);
    assert_eq!(rt.request_redeem(&DAVE, 1, Permill::zero()), Err(HomaError::AmountBelowMinimumThreshold));
    assert_eq!(
        rt.request_redeem(&DAVE, dollar(1_000_001), Permill::zero()),
        Err(HomaError::InsufficientBalance)
    );
    assert_eq!(rt.redeem_requests(&DAVE), None);
    assert_eq!(rt.set_total_staking_currency(0), Err(HomaError::InvalidTotalStakingCurrency));
    let charlie = AccountId::new([3u8; 32]);
    assert!(rt.update_balance(&charlie, KSM, i128::MAX).is_ok());
    assert_eq!(rt.update_balance(&charlie, KSM, i128::MAX), Err(LedgerError::Overflow));
    assert_eq!(rt.free_balance(KSM, &charlie), i128::MAX as u128);
    assert_eq!(rt.update_balance(&BOB, LKSM, -1), Err(LedgerError::BalanceTooLow));
    assert_eq!(rt.free_balance(KSM, &BOB), dollar(1_000_000));
}

#[test]
fn cancelling_an_unmatched_request_restores_balances() {
    let mut rt = funded(100_000);
    let before_free = rt.free_balance(LKSM, &DAVE);
    let before_issuance = rt.total_issuance(LKSM);
    assert!(rt.request_redeem(&DAVE, dollar(1_234), Permill::from_percent(3)).is_ok());
    assert_eq!(rt.reserved_balance(LKSM, &DAVE), dollar(1_234));
    // Lowering the request releases the difference.
    assert!(rt.request_redeem(&DAVE, dollar(1_000), Permill::from_percent(3)).is_ok());
    assert_eq!(rt.reserved_balance(LKSM, &DAVE), dollar(1_000));
    assert!(rt.request_redeem(&DAVE, 0, Permill::zero()).is_ok());
    assert_eq!(
        rt.events().last().copied(),
        Some(Event::HomaLite(HomaLiteEvent::RedeemRequestCancelled(DAVE, dollar(1_000))))
    );
    assert_eq!(rt.redeem_requests(&DAVE), None);
    assert_eq!(rt.free_balance(LKSM, &DAVE), before_free);
    assert_eq!(rt.reserved_balance(LKSM, &DAVE), 0);
    assert_eq!(rt.total_issuance(LKSM), before_issuance);
}

#[test]
fn restaking_at_an_exact_rate_keeps_it() {
    // A quarter: 250_000 staked for 1_000_000 liquid.
    let mut rt = funded(250_000);
    let rate = rt.get_exchange_rate();
    assert!(rt.mint(&ALICE, dollar(100)).is_ok());
    assert_eq!(rt.free_balance(LKSM, &ALICE), dollar(400));
    assert_eq!(rt.total_staking_currency(), dollar(250_100));
    assert_eq!(rt.total_issuance(LKSM), dollar(1_000_400));
    assert_eq!(rt.get_exchange_rate(), rate);
}

#[test]
fn redeeming_with_an_extra_fee_raises_the_rate() {
    let mut rt = funded(100_000);
    let rate = rt.get_exchange_rate();
    assert!(rt.adjust_available_staking_balance(dollar(100) as i128, 10).is_ok());
    assert!(rt.request_redeem(&DAVE, dollar(1_000), Permill::from_percent(50)).is_ok());
    // Worth 100, half given up.
    assert_eq!(rt.free_balance(KSM, &DAVE), dollar(50));
    assert_eq!(rt.available_staking_balance(), dollar(50));
    assert_eq!(rt.total_staking_currency(), dollar(99_950));
    assert_eq!(rt.total_issuance(LKSM), dollar(999_000));
    assert_eq!(rt.get_exchange_rate().into_inner(), 100_050_050_050_050_050);
    assert!(rt.get_exchange_rate().into_inner() > rate.into_inner());
}

#[test]
fn partly_available_staking_redeems_part_of_a_request() {
    let mut rt = funded(100_000);
    assert!(rt.adjust_available_staking_balance(dollar(30) as i128, 10).is_ok());
    assert!(rt.request_redeem(&DAVE, dollar(1_000), Permill::zero()).is_ok());
    assert_eq!(rt.available_staking_balance(), 0);
    assert_eq!(rt.free_balance(KSM, &DAVE), dollar(30));
    assert_eq!(rt.redeem_requests(&DAVE), Some((dollar(700), Permill::zero())));
    assert_eq!(rt.reserved_balance(LKSM, &DAVE), dollar(700));
    // Negative adjustments saturate at zero.
    assert!(rt.adjust_available_staking_balance(-(dollar(5) as i128), 10).is_ok());
    assert_eq!(rt.available_staking_balance(), 0);
}

#[test]
fn a_request_left_below_the_minimum_is_dropped_and_released() {
    let mut rt = funded(100_000);
    let dust = 500_000_000;
    assert!(rt.request_redeem(&DAVE, dollar(10) + dust, Permill::zero()).is_ok());
    assert!(rt.mint(&ALICE, dollar(1)).is_ok());
    assert_eq!(rt.redeem_requests(&DAVE), None);
    assert_eq!(rt.reserved_balance(LKSM, &DAVE), 0);
    assert_eq!(rt.free_balance(LKSM, &DAVE), dollar(1_000_000) - dollar(10));
    assert_eq!(rt.free_balance(KSM, &DAVE), dollar(1));
    let events = rt.events();
    assert_eq!(
        events[events.len() - 3],
        Event::Tokens(TokensEvent::Unreserved(LKSM, DAVE, dust))
    );
}

#[test]
fn a_minter_never_matches_its_own_request() {
    let mut rt = funded(100_000);
    rt.update_balance(&DAVE, KSM, dollar(100) as i128).unwrap();
    assert!(rt.request_redeem(&DAVE, dollar(1_000), Permill::zero()).is_ok());
    assert!(rt.mint(&DAVE, dollar(10)).is_ok());
    assert_eq!(rt.redeem_requests(&DAVE), Some((dollar(1_000), Permill::zero())));
    assert_eq!(rt.total_staking_currency(), dollar(100_010));
    assert_eq!(rt.free_balance(LKSM, &DAVE), dollar(999_100));
    assert_eq!(rt.free_balance(KSM, &DAVE), dollar(90));
}

#[test]
fn unbonds_wait_for_their_block() {
    let mut rt = funded(100_000);
    rt.schedule_unbond(dollar(7), 5);
    rt.schedule_unbond(dollar(3), 2);
    rt.on_idle(4);
    assert_eq!(rt.available_staking_balance(), dollar(3));
    assert_eq!(rt.scheduled_unbonds(), vec![(dollar(7), 5)]);
    rt.on_idle(5);
    assert_eq!(rt.available_staking_balance(), dollar(10));
    assert!(rt.scheduled_unbonds().is_empty());
}

#[test]
fn the_walk_resumes_after_the_last_key_and_wraps_once() {
    let mut rt = runtime();
    let minter = AccountId::new([255u8; 32]);
    rt.update_balance(&minter, KSM, dollar(1_000) as i128).unwrap();
    for i in 0..5u8 {
        let account = AccountId::new([i; 32]);
        rt.update_balance(&account, LKSM, dollar(100) as i128).unwrap();
        assert!(rt.request_redeem(&account, dollar(100), Permill::zero()).is_ok());
    }
    rt.set_total_staking_currency(dollar(50)).unwrap();
    rt.set_minting_cap(dollar(1_000));
    let order: Vec<AccountId> = vec![1u8, 2, 3, 4, 0].into_iter().map(|i| AccountId::new([i; 32])).collect();
    assert_eq!(rt.redeem_request_accounts(), order);
    // Each mint of 10 staking is 100 liquid: exactly one request.
    for account in order.iter() {
        assert!(rt.mint(&minter, dollar(10)).is_ok());
        assert_eq!(rt.redeem_requests(account), None);
        assert_eq!(rt.last_redeem_request_key_iterated(), hashed_key_for(account));
    }
    assert!(rt.redeem_request_accounts().is_empty());
    // With nothing left to match, the mint stakes it all.
    assert!(rt.mint(&minter, dollar(10)).is_ok());
    assert_eq!(rt.total_staking_currency(), dollar(60));
}

/// Three more holders of liquid currency, each asking to redeem all of it
/// with the given fees, at a rate of exactly a tenth.
fn queued_at_a_tenth(fees: [u32; 3]) -> Runtime {
    let mut rt = funded(100_000);
    for i in 0..3u8 {
        let account = AccountId::new([10 + i; 32]);
        rt.update_balance(&account, LKSM, dollar(1_000) as i128).unwrap();
        assert!(rt.request_redeem(&account, dollar(1_000), Permill::from_percent(fees[i as usize])).is_ok());
    }
    rt.set_total_staking_currency(dollar(100_300)).unwrap();
    rt
}

#[test]
fn matching_several_requests_at_an_exact_rate_keeps_it() {
    let mut rt = queued_at_a_tenth([0, 0, 0]);
    let rate = rt.get_exchange_rate();
    assert_eq!(rate.into_inner(), 100_000_000_000_000_000);
    assert!(rt.adjust_available_staking_balance(dollar(250) as i128, 10).is_ok());
    assert_eq!(rt.available_staking_balance(), 0);
    // Two requests are matched whole, the third in half.
    let left = rt.redeem_request_accounts();
    assert_eq!(left.len(), 1);
    assert_eq!(rt.redeem_requests(&left[0]), Some((dollar(500), Permill::zero())));
    assert_eq!(rt.total_staking_currency(), dollar(100_050));
    assert_eq!(rt.total_issuance(LKSM), dollar(1_000_500));
    assert_eq!(rt.get_exchange_rate(), rate);
}

#[test]
fn released_unbonds_matched_at_an_exact_rate_keep_it() {
    let mut rt = queued_at_a_tenth([0, 0, 0]);
    let rate = rt.get_exchange_rate();
    rt.schedule_unbond(dollar(300), 3);
    rt.on_idle(3);
    assert!(rt.redeem_request_accounts().is_empty());
    assert_eq!(rt.free_balance(KSM, &AccountId::new([11u8; 32])), dollar(100));
    assert_eq!(rt.total_issuance(LKSM), dollar(1_000_000));
    assert_eq!(rt.get_exchange_rate(), rate);
}

#[test]
fn matching_several_requests_with_fees_never_lowers_the_rate() {
    let mut rt = queued_at_a_tenth([10, 20, 30]);
    let mut rate = rt.get_exchange_rate();
    for _ in 0..4 {
        assert!(rt.adjust_available_staking_balance(dollar(70) as i128, 10).is_ok());
        let now = rt.get_exchange_rate();
        assert!(now.into_inner() >= rate.into_inner());
        rate = now;
    }
    // Every request was matched, each giving up its fee.
    assert!(rt.redeem_request_accounts().is_empty());
    assert!(rt.free_balance(KSM, &AccountId::new([10u8; 32])) >= dollar(90));
    assert!(rt.free_balance(KSM, &AccountId::new([10u8; 32])) < dollar(91));
    assert!(rate.into_inner() > 100_000_000_000_000_000);
}

#[test]
fn the_ledger_refuses_what_balances_cannot_cover() {
    let mut l = Ledger::new();
    let mut events: Vec<Event> = Vec::new();
    assert_eq!(l.deposit(KSM, &ALICE, 100, &mut events), Ok(()));
    assert_eq!(l.deposit(KSM, &BOB, u128::MAX, &mut events), Err(LedgerError::Overflow));
    assert_eq!(l.withdraw(KSM, &ALICE, 101), Err(LedgerError::BalanceTooLow));
    assert_eq!(l.transfer(KSM, &ALICE, &BOB, 101, &mut events), Err(LedgerError::BalanceTooLow));
    assert_eq!(l.reserve(KSM, &ALICE, 101, &mut events), Err(LedgerError::BalanceTooLow));
    assert_eq!(l.account(&ALICE, KSM).free, 100);
    assert_eq!(l.account(&BOB, KSM).free, 0);
    assert_eq!(l.issuance(KSM), 100);
    assert_eq!(l.transfer(KSM, &ALICE, &BOB, 40, &mut events), Ok(()));
    assert_eq!(l.reserve(KSM, &BOB, 40, &mut events), Ok(()));
    assert_eq!(l.account(&BOB, KSM).reserved, 40);
    assert_eq!(l.withdraw(KSM, &ALICE, 60), Ok(()));
    assert_eq!(l.account(&ALICE, KSM).free, 0);
    assert_eq!(l.issuance(KSM), 40);
}
