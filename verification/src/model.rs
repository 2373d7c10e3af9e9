//! The runtime as a mathematical model: its state, the exchange rate, and
//! what each operation does to the state, as spec functions. The executable
//! runtime is proved to follow them.

use crate::account::{redeem_request_key, AccountId};
use crate::arith::{mul_div_floor, permill_mul_spec, ExchangeRate, Permill, FIXED_ONE, PERMILL_ONE};
use crate::events::{CurrencyId, Event, HomaLiteEvent, TokensEvent};
use crate::ledger::LedgerView;
use crate::queue::{queue_put, queue_remove, request_of, walk_order, RequestView};
use vstd::prelude::*;

verus! {

/// The constants of a runtime.
#[derive(Clone, Copy, Debug)]
pub struct Config {
    /// The least staking amount that can be minted.
    pub minimum_mint_threshold: u128,
    /// The least liquid amount that a redeem request may ask for; a request
    /// left below it after a partial match is dropped.
    pub minimum_redeem_threshold: u128,
    /// The exchange rate while no liquid currency exists.
    pub default_exchange_rate: ExchangeRate,
    /// How many redeem requests the idle hook matches at most.
    pub max_matches_on_idle: u32,
}

/// Why an operation was refused. A refused operation changes nothing.
#[derive(Clone, Copy, Debug, PartialEq, Eq, Structural)]
pub enum HomaError {
    /// The amount is below the minimum for minting or redeeming.
    AmountBelowMinimumThreshold,
    /// The free balance is too low for the operation.
    InsufficientBalance,
    /// Minting would take the total staking currency above the cap.
    ExceedStakingCurrencyMintCap,
    /// A conversion or a total would not fit.
    ArithmeticOverflow,
    /// The total staking currency cannot be set to zero.
    InvalidTotalStakingCurrency,
}

/// The state of the runtime.
pub struct RuntimeView {
    pub ledger: LedgerView,
    pub queue: Seq<RequestView>,
    pub total_staking: u128,
    pub mint_cap: u128,
    pub available_staking: u128,
    pub last_key: Seq<u8>,
    pub unbonds: Seq<(u128, u32)>,
    pub events: Seq<Event>,
}

/// One match of a redeem request: `liquid` of the redeemer's reserved liquid
/// currency for `staking` of the staking currency.
#[derive(Clone, Copy, Debug, PartialEq, Eq)]
pub struct RedeemMatch {
    pub who: AccountId,
    pub liquid: u128,
    pub staking: u128,
}

/// The exchange rate (staking per liquid, as a `FixedU128` inner value) for a
/// total staking currency and a liquid issuance: their quotient, or the
/// default where there is no liquid currency or the quotient does not fit.
pub open spec fn rate_of(cfg: Config, staking: u128, issuance: u128) -> u128 {
    if issuance != 0 && mul_div_floor(staking as int, FIXED_ONE as int, issuance as int) <= u128::MAX {
        mul_div_floor(staking as int, FIXED_ONE as int, issuance as int) as u128
    } else {
        cfg.default_exchange_rate.spec_inner()
    }
}

/// The exchange rate of a state.
pub open spec fn exchange_rate(cfg: Config, s: RuntimeView) -> u128 {
    rate_of(cfg, s.total_staking, s.ledger.issuance(CurrencyId::LKSM))
}

/// The inverse of a rate, as the inner value of a `FixedU128`.
pub open spec fn reciprocal_of(q: u128) -> int {
    mul_div_floor(FIXED_ONE as int, FIXED_ONE as int, q as int)
}

/// The liquid amount that `amount` of staking currency is worth at rate `q`:
/// `amount * (1 / q)`, each step rounded down; `None` where `q` is zero or a
/// step does not fit.
pub open spec fn staking_to_liquid(q: u128, amount: u128) -> Option<u128> {
    if q == 0 || reciprocal_of(q) > u128::MAX {
        None
    } else if mul_div_floor(reciprocal_of(q), amount as int, FIXED_ONE as int) > u128::MAX {
        None
    } else {
        Some(mul_div_floor(reciprocal_of(q), amount as int, FIXED_ONE as int) as u128)
    }
}

/// The staking amount that `amount` of liquid currency is worth at rate `q`,
/// rounded down; `None` where it does not fit.
pub open spec fn liquid_to_staking(q: u128, amount: u128) -> Option<u128> {
    if mul_div_floor(q as int, amount as int, FIXED_ONE as int) > u128::MAX {
        None
    } else {
        Some(mul_div_floor(q as int, amount as int, FIXED_ONE as int) as u128)
    }
}

/// The liquid amount of request `r` that can be matched, at most `cap`: no
/// more than the request, nor than the redeemer holds in reserve.
pub open spec fn matched_liquid(l: LedgerView, r: RequestView, cap: u128) -> u128 {
    let reserved = l.balance(r.who@, CurrencyId::LKSM).reserved;
    let actual = if r.amount <= reserved {
        r.amount
    } else {
        reserved
    };
    if actual <= cap {
        actual
    } else {
        cap
    }
}

/// The parts of the whole that a fee leaves.
pub open spec fn fee_complement(fee: Permill) -> int {
    if fee.spec_parts() <= PERMILL_ONE {
        PERMILL_ONE - fee.spec_parts()
    } else {
        0
    }
}

/// What the redeemer receives for `liquid`: its worth at rate `q`, less the
/// extra fee it gave up.
pub open spec fn staking_for(q: u128, fee: Permill, liquid: u128) -> int {
    permill_mul_spec(
        fee_complement(fee),
        mul_div_floor(q as int, liquid as int, FIXED_ONE as int),
    )
}

/// The match of request `r` with a mint that still has `rem` of liquid
/// currency to hand out; `None` where nothing would change hands, or where
/// the request is the minter's own.
pub open spec fn mint_match(l: LedgerView, minter: AccountId, q: u128, r: RequestView, rem: u128) -> Option<
    RedeemMatch,
> {
    let liquid = matched_liquid(l, r, rem);
    let staking = staking_for(q, r.extra_fee, liquid);
    if r.who@ == minter@ || liquid == 0 || staking == 0 {
        None
    } else {
        Some(RedeemMatch { who: r.who, liquid, staking: staking as u128 })
    }
}

/// The matches of a mint of `rem` liquid currency with the requests in
/// `order`, each looked at once, until nothing is left; and what is left.
pub open spec fn mint_plan(
    l: LedgerView,
    minter: AccountId,
    q: u128,
    order: Seq<RequestView>,
    rem: u128,
) -> (Seq<RedeemMatch>, u128)
    decreases order.len(),
{
    if order.len() == 0 || rem == 0 {
        (seq![], rem)
    } else {
        match mint_match(l, minter, q, order[0], rem) {
            None => mint_plan(l, minter, q, order.drop_first(), rem),
            Some(m) => {
                let rest = mint_plan(l, minter, q, order.drop_first(), (rem - m.liquid) as u128);
                (seq![m] + rest.0, rest.1)
            },
        }
    }
}

/// The liquid amount that `avail` of staking currency can redeem at rate `q`
/// (none where the rate has no inverse that fits).
pub open spec fn liquid_cap(q: u128, avail: u128) -> u128 {
    if q == 0 || reciprocal_of(q) > u128::MAX {
        0
    } else if mul_div_floor(reciprocal_of(q), avail as int, FIXED_ONE as int) > u128::MAX {
        u128::MAX
    } else {
        mul_div_floor(reciprocal_of(q), avail as int, FIXED_ONE as int) as u128
    }
}

/// The match of request `r` with `avail` of available staking currency at rate `q`.
pub open spec fn available_match(l: LedgerView, q: u128, r: RequestView, avail: u128) -> Option<RedeemMatch> {
    let liquid = matched_liquid(l, r, liquid_cap(q, avail));
    let staking = staking_for(q, r.extra_fee, liquid);
    if liquid == 0 || staking == 0 {
        None
    } else {
        Some(RedeemMatch { who: r.who, liquid, staking: staking as u128 })
    }
}

/// `a - b`, or zero.
pub open spec fn sat_sub(a: u128, b: u128) -> u128 {
    if a >= b {
        (a - b) as u128
    } else {
        0
    }
}

/// The matches of `avail` available staking currency with the requests in
/// `order`, each looked at once, at most `count` of them, the rate taken
/// afresh from the total staking `st` and liquid issuance `iss` that each
/// match leaves; and what is left available.
pub open spec fn available_plan(
    cfg: Config,
    l: LedgerView,
    order: Seq<RequestView>,
    avail: u128,
    count: nat,
    st: u128,
    iss: u128,
) -> (Seq<RedeemMatch>, u128)
    decreases order.len(),
{
    if order.len() == 0 || avail == 0 || count == 0 {
        (seq![], avail)
    } else {
        match available_match(l, rate_of(cfg, st, iss), order[0], avail) {
            None => available_plan(cfg, l, order.drop_first(), avail, count, st, iss),
            Some(m) => {
                let rest = available_plan(
                    cfg,
                    l,
                    order.drop_first(),
                    (avail - m.staking) as u128,
                    (count - 1) as nat,
                    sat_sub(st, m.staking),
                    sat_sub(iss, m.liquid),
                );
                (seq![m] + rest.0, rest.1)
            },
        }
    }
}

/// The staking currency of the matches.
pub open spec fn sum_staking(ms: Seq<RedeemMatch>) -> int
    decreases ms.len(),
{
    if ms.len() == 0 {
        0
    } else {
        sum_staking(ms.drop_last()) + ms.last().staking
    }
}

/// The total staking currency after the matches, each taken from it (down to zero).
pub open spec fn staking_after(st: u128, ms: Seq<RedeemMatch>) -> u128
    decreases ms.len(),
{
    if ms.len() == 0 {
        st
    } else {
        sat_sub(staking_after(st, ms.drop_last()), ms.last().staking)
    }
}

/// The liquid currency of the matches.
pub open spec fn sum_liquid(ms: Seq<RedeemMatch>) -> int
    decreases ms.len(),
{
    if ms.len() == 0 {
        0
    } else {
        sum_liquid(ms.drop_last()) + ms.last().liquid
    }
}

/// The request of `who` after `liquid` of it was matched: lowered, or
/// dropped with what it still reserves where it falls below the minimum.
pub open spec fn settle_request(cfg: Config, s: RuntimeView, who: AccountId, liquid: u128) -> RuntimeView {
    match request_of(s.queue, who@) {
        None => s,
        Some(r) => {
            let left = sat_sub(r.amount, liquid);
            if left == 0 || left < cfg.minimum_redeem_threshold {
                RuntimeView {
                    ledger: s.ledger.unreserve(CurrencyId::LKSM, who@, left),
                    queue: queue_remove(s.queue, who@),
                    events: s.events + s.ledger.unreserve_events(CurrencyId::LKSM, who, left),
                    ..s
                }
            } else {
                RuntimeView { queue: queue_put(s.queue, RequestView { amount: left, ..r }), ..s }
            }
        },
    }
}

/// The state with one more event.
pub open spec fn emit(s: RuntimeView, e: HomaLiteEvent) -> RuntimeView {
    RuntimeView { events: s.events.push(Event::HomaLite(e)), ..s }
}

/// One match of a mint: the redeemer's reserved liquid currency goes to the
/// minter, the minter pays the redeemer, and the request is settled.
pub open spec fn apply_mint_match(cfg: Config, s: RuntimeView, minter: AccountId, m: RedeemMatch) -> RuntimeView {
    let l1 = s.ledger.repatriate_reserved(CurrencyId::LKSM, m.who@, minter@, m.liquid);
    let l2 = l1.transfer(CurrencyId::KSM, minter@, m.who@, m.staking);
    let s2 = RuntimeView {
        ledger: l2,
        events: s.events + s.ledger.repatriate_events(CurrencyId::LKSM, m.who, minter, m.liquid)
            + l1.transfer_events(CurrencyId::KSM, minter, m.who, m.staking),
        ..s
    };
    emit(settle_request(cfg, s2, m.who, m.liquid), HomaLiteEvent::Redeemed(m.who, m.staking, m.liquid))
}

pub open spec fn apply_mint_matches(cfg: Config, s: RuntimeView, minter: AccountId, ms: Seq<RedeemMatch>) -> RuntimeView
    decreases ms.len(),
{
    if ms.len() == 0 {
        s
    } else {
        apply_mint_match(cfg, apply_mint_matches(cfg, s, minter, ms.drop_last()), minter, ms.last())
    }
}

/// One match with available staking currency: it leaves the total staking
/// and the available balance, the redeemer is paid, its matched liquid
/// currency is burnt, and the request is settled.
pub open spec fn apply_available_match(cfg: Config, s: RuntimeView, m: RedeemMatch) -> RuntimeView {
    let ts = sat_sub(s.total_staking, m.staking);
    let l1 = s.ledger.deposit(CurrencyId::KSM, m.who@, m.staking);
    let l2 = l1.unreserve(CurrencyId::LKSM, m.who@, m.liquid);
    let burnt = l1.reserved_part(CurrencyId::LKSM, m.who@, m.liquid);
    let l3 = l2.withdraw(CurrencyId::LKSM, m.who@, burnt);
    let s2 = RuntimeView {
        ledger: l3,
        total_staking: ts,
        available_staking: sat_sub(s.available_staking, m.staking),
        events: s.events.push(Event::HomaLite(HomaLiteEvent::TotalStakingCurrencySet(ts)))
            + s.ledger.deposit_events(CurrencyId::KSM, m.who, m.staking) + l1.unreserve_events(
            CurrencyId::LKSM,
            m.who,
            m.liquid,
        ),
        ..s
    };
    emit(settle_request(cfg, s2, m.who, m.liquid), HomaLiteEvent::Redeemed(m.who, m.staking, m.liquid))
}

pub open spec fn apply_available_matches(cfg: Config, s: RuntimeView, ms: Seq<RedeemMatch>) -> RuntimeView
    decreases ms.len(),
{
    if ms.len() == 0 {
        s
    } else {
        apply_available_match(cfg, apply_available_matches(cfg, s, ms.drop_last()), ms.last())
    }
}

/// The key walked last after `ms`: the key of the last match, if any.
pub open spec fn last_key_after(s: RuntimeView, ms: Seq<RedeemMatch>) -> RuntimeView {
    if ms.len() > 0 {
        RuntimeView { last_key: redeem_request_key(ms.last().who@), ..s }
    } else {
        s
    }
}

/// The requests of `q` from index `p` on, then from the start: the order of
/// a walk that starts at `p`.
pub open spec fn rotation(q: Seq<RequestView>, p: int) -> Seq<RequestView> {
    q.subrange(p, q.len() as int) + q.subrange(0, p)
}

/// Matching with available staking currency: the plan over `order`, then
/// its matches applied, the walked key moved where `set_last`; `None` where
/// paying the redeemers would overflow the issuance of the staking currency.
pub open spec fn process_outcome(
    cfg: Config,
    s: RuntimeView,
    order: Seq<RequestView>,
    count: nat,
    set_last: bool,
) -> Option<RuntimeView> {
    let plan = available_plan(
        cfg,
        s.ledger,
        order,
        s.available_staking,
        count,
        s.total_staking,
        s.ledger.issuance(CurrencyId::LKSM),
    );
    if s.ledger.issuance(CurrencyId::KSM) + sum_staking(plan.0) > u128::MAX {
        None
    } else if set_last {
        Some(last_key_after(apply_available_matches(cfg, s, plan.0), plan.0))
    } else {
        Some(apply_available_matches(cfg, s, plan.0))
    }
}

/// The available balance after a signed adjustment, saturating at both ends.
pub open spec fn adjusted(avail: u128, by: i128) -> u128 {
    let m = LedgerView::magnitude(by);
    if by >= 0 {
        if avail + m <= u128::MAX {
            (avail + m) as u128
        } else {
            u128::MAX
        }
    } else {
        sat_sub(avail, m)
    }
}

/// An adjustment of the available staking balance, then matching it with the
/// requests walked from the last key, at most `max` of them; `None` where
/// that would overflow the issuance of the staking currency.
pub open spec fn adjust_outcome(cfg: Config, s: RuntimeView, by: i128, max: u32) -> Option<RuntimeView> {
    let s1 = adjusted_state(s, by);
    process_outcome(cfg, s1, walk_order(s1.queue, s1.last_key), max as nat, true)
}

/// The state with the available balance adjusted by `by`, before matching.
pub open spec fn adjusted_state(s: RuntimeView, by: i128) -> RuntimeView {
    let a = adjusted(s.available_staking, by);
    emit(RuntimeView { available_staking: a, ..s }, HomaLiteEvent::AvailableStakingBalanceSet(a))
}

/// `a + b`, or the largest value.
pub open spec fn sat_add(a: u128, b: u128) -> u128 {
    if a + b <= u128::MAX {
        (a + b) as u128
    } else {
        u128::MAX
    }
}

/// The scheduled unbonds due at relay-chain block `block` released: those
/// kept, the available balance with the released amounts, and the events.
pub open spec fn release_unbonds(us: Seq<(u128, u32)>, block: u32, avail: u128) -> (Seq<(u128, u32)>, u128, Seq<Event>)
    decreases us.len(),
{
    if us.len() == 0 {
        (seq![], avail, seq![])
    } else {
        let prev = release_unbonds(us.drop_last(), block, avail);
        let u = us.last();
        if u.1 <= block {
            (prev.0, sat_add(prev.1, u.0), prev.2.push(Event::HomaLite(HomaLiteEvent::ScheduledUnbondWithdrew(u.0))))
        } else {
            (prev.0.push(u), prev.1, prev.2)
        }
    }
}

/// The idle hook at relay-chain block `block`: due unbonds become available,
/// then the available balance is matched with the requests walked from the
/// last key, unless that would overflow the issuance of the staking currency.
pub open spec fn on_idle_outcome(cfg: Config, s: RuntimeView, block: u32) -> RuntimeView {
    let s1 = released_state(s, block);
    match process_outcome(cfg, s1, walk_order(s1.queue, s1.last_key), cfg.max_matches_on_idle as nat, true) {
        Some(v) => v,
        None => s1,
    }
}

/// The state with the unbonds due at relay-chain block `block` released, before matching.
pub open spec fn released_state(s: RuntimeView, block: u32) -> RuntimeView {
    let rel = release_unbonds(s.unbonds, block, s.available_staking);
    RuntimeView { unbonds: rel.0, available_staking: rel.1, events: s.events + rel.2, ..s }
}

/// The request amount of `who` now, zero where it has none.
pub open spec fn requested_amount(s: RuntimeView, who: Seq<u8>) -> u128 {
    match request_of(s.queue, who) {
        Some(r) => r.amount,
        None => 0,
    }
}

/// A request to redeem `amount` of liquid currency, giving up `fee` of its
/// worth to whoever matches it; it replaces the account's request. Zero
/// cancels the request and releases its reserve. Otherwise the difference
/// to the old request is reserved or released, and the request is matched
/// at once with available staking currency as far as that goes.
pub open spec fn request_redeem_outcome(cfg: Config, s: RuntimeView, who: AccountId, amount: u128, fee: Permill) -> Result<
    RuntimeView,
    HomaError,
> {
    let old_amount = requested_amount(s, who@);
    if amount == 0 {
        match request_of(s.queue, who@) {
            None => Ok(s),
            Some(r) => Ok(
                emit(
                    RuntimeView {
                        ledger: s.ledger.unreserve(CurrencyId::LKSM, who@, r.amount),
                        queue: queue_remove(s.queue, who@),
                        events: s.events + s.ledger.unreserve_events(CurrencyId::LKSM, who, r.amount),
                        ..s
                    },
                    HomaLiteEvent::RedeemRequestCancelled(who, r.amount),
                ),
            ),
        }
    } else if amount < cfg.minimum_redeem_threshold {
        Err(HomaError::AmountBelowMinimumThreshold)
    } else if amount > old_amount && amount - old_amount > s.ledger.balance(who@, CurrencyId::LKSM).free {
        Err(HomaError::InsufficientBalance)
    } else {
        match process_outcome(cfg, placed_request(s, who, amount, fee), seq![new_request(who, amount, fee)], 1, false) {
            Some(v) => Ok(v),
            None => Err(HomaError::ArithmeticOverflow),
        }
    }
}

/// The request of `who` to redeem `amount`, giving up `fee`.
pub open spec fn new_request(who: AccountId, amount: u128, fee: Permill) -> RequestView {
    RequestView { key: redeem_request_key(who@), who, amount, extra_fee: fee }
}

/// The state with the request of `who` set to `amount`, the difference to
/// its old request reserved or released, before matching.
pub open spec fn placed_request(s: RuntimeView, who: AccountId, amount: u128, fee: Permill) -> RuntimeView {
    let old_amount = requested_amount(s, who@);
    let l1 = if amount > old_amount {
        s.ledger.reserve(CurrencyId::LKSM, who@, (amount - old_amount) as u128)
    } else {
        s.ledger.unreserve(CurrencyId::LKSM, who@, (old_amount - amount) as u128)
    };
    let ev1 = if amount > old_amount {
        seq![Event::Tokens(TokensEvent::Reserved(CurrencyId::LKSM, who, (amount - old_amount) as u128))]
    } else {
        s.ledger.unreserve_events(CurrencyId::LKSM, who, (old_amount - amount) as u128)
    };
    emit(
        RuntimeView { ledger: l1, queue: queue_put(s.queue, new_request(who, amount, fee)), events: s.events + ev1, ..s },
        HomaLiteEvent::RedeemRequested(who, amount, fee, 0),
    )
}

/// The matches that matching available staking currency in state `s` makes
/// with the requests in `order`, at most `count` of them.
pub open spec fn process_plan(cfg: Config, s: RuntimeView, order: Seq<RequestView>, count: nat) -> Seq<RedeemMatch> {
    available_plan(
        cfg,
        s.ledger,
        order,
        s.available_staking,
        count,
        s.total_staking,
        s.ledger.issuance(CurrencyId::LKSM),
    ).0
}

/// The quotient `staking / issuance` in steps of the smallest rate, rounded
/// down: the exchange rate where it fits.
pub open spec fn quotient(staking: int, issuance: int) -> int {
    mul_div_floor(staking, FIXED_ONE as int, issuance)
}

/// The quotient of `staking` over `issuance` is exact and fits a rate.
pub open spec fn exact_quotient(staking: u128, issuance: u128) -> bool {
    &&& issuance > 0
    &&& (staking * FIXED_ONE) % (issuance as int) == 0
    &&& quotient(staking as int, issuance as int) <= u128::MAX
}

/// The quotient of the total staking currency over the liquid issuance.
pub open spec fn state_quotient(s: RuntimeView) -> int {
    quotient(s.total_staking as int, s.ledger.issuance(CurrencyId::LKSM) as int)
}

/// The exchange rate of `s` is an exact quotient that fits.
pub open spec fn exact_state(s: RuntimeView) -> bool {
    exact_quotient(s.total_staking, s.ledger.issuance(CurrencyId::LKSM))
}

/// No request in `order` gives up an extra fee.
pub open spec fn fee_free(order: Seq<RequestView>) -> bool {
    forall|k: int| 0 <= k < order.len() ==> (#[trigger] order[k]).extra_fee.spec_parts() == 0
}

/// The liquid amount of every match is worth a whole amount at rate `q`.
pub open spec fn exact_worth(q: int, ms: Seq<RedeemMatch>) -> bool {
    forall|k: int| 0 <= k < ms.len() ==> (q * (#[trigger] ms[k]).liquid) % (FIXED_ONE as int) == 0
}

/// The end of a mint: what no request matched is staked through the relay
/// chain, at most the cap, minting new liquid currency; then the `Minted`
/// event with all the minter paid and got.
pub open spec fn mint_finish(s: RuntimeView, minter: AccountId, paid: int, got: int, sr: u128, lm: u128) -> RuntimeView {
    if sr > 0 {
        let l1 = s.ledger.withdraw(CurrencyId::KSM, minter@, sr);
        let l2 = l1.deposit(CurrencyId::LKSM, minter@, lm);
        let ts = (s.total_staking + sr) as u128;
        emit(
            emit(
                RuntimeView {
                    ledger: l2,
                    total_staking: ts,
                    events: s.events + l1.deposit_events(CurrencyId::LKSM, minter, lm),
                    ..s
                },
                HomaLiteEvent::TotalStakingCurrencySet(ts),
            ),
            HomaLiteEvent::Minted(minter, (paid + sr) as u128, (got + lm) as u128),
        )
    } else {
        emit(s, HomaLiteEvent::Minted(minter, paid as u128, got as u128))
    }
}

/// A mint of `amount` of staking currency by `minter`: its liquid worth is
/// first matched with the redeem requests walked from the last key, each
/// redeemer paid in staking currency for its liquid currency; what is left
/// is staked, within the cap, for newly minted liquid currency.
pub open spec fn mint_outcome(cfg: Config, s: RuntimeView, minter: AccountId, amount: u128) -> Result<RuntimeView, HomaError> {
    if amount < cfg.minimum_mint_threshold {
        Err(HomaError::AmountBelowMinimumThreshold)
    } else if s.ledger.balance(minter@, CurrencyId::KSM).free < amount {
        Err(HomaError::InsufficientBalance)
    } else {
        let q = exchange_rate(cfg, s);
        match staking_to_liquid(q, amount) {
            None => Err(HomaError::ArithmeticOverflow),
            Some(liq0) => {
                let plan = mint_plan(s.ledger, minter, q, walk_order(s.queue, s.last_key), liq0);
                let sr = mul_div_floor(q as int, plan.1 as int, FIXED_ONE as int) as u128;
                let lm = if sr > 0 {
                    mul_div_floor(reciprocal_of(q), sr as int, FIXED_ONE as int) as u128
                } else {
                    0
                };
                if sr > 0 && s.total_staking + sr > s.mint_cap {
                    Err(HomaError::ExceedStakingCurrencyMintCap)
                } else if s.ledger.issuance(CurrencyId::LKSM) + lm > u128::MAX {
                    Err(HomaError::ArithmeticOverflow)
                } else {
                    Ok(
                        mint_finish(
                            last_key_after(apply_mint_matches(cfg, s, minter, plan.0), plan.0),
                            minter,
                            sum_staking(plan.0),
                            liq0 - plan.1,
                            sr,
                            lm,
                        ),
                    )
                }
            },
        }
    }
}

// Arithmetic facts.

/// A quotient rounded down, times the divisor, is at most the dividend.
pub proof fn lemma_div_mul_le(a: int, d: int)
    requires
        a >= 0,
        d > 0,
    ensures
        (a / d) * d <= a,
        a / d >= 0,
{
    vstd::arithmetic::div_mod::lemma_fundamental_div_mod(a, d);
    vstd::arithmetic::div_mod::lemma_mod_pos_bound(a, d);
    vstd::arithmetic::div_mod::lemma_div_pos_is_pos(a, d);
    vstd::arithmetic::mul::lemma_mul_is_commutative(d, a / d);
}

/// Rounding down is monotonic in the dividend.
pub proof fn lemma_div_monotonic(a: int, b: int, d: int)
    requires
        0 <= a <= b,
        d > 0,
    ensures
        a / d <= b / d,
{
    vstd::arithmetic::div_mod::lemma_div_is_ordered(a, b, d);
}

/// `x <= y * d` gives `x / d <= y`.
pub proof fn lemma_div_le_of_le_mul(x: int, y: int, d: int)
    requires
        0 <= x,
        0 <= y,
        d > 0,
        x <= y * d,
    ensures
        x / d <= y,
{
    lemma_div_monotonic(x, y * d, d);
    vstd::arithmetic::div_mod::lemma_div_by_multiple(y, d);
}

/// A per-million part of `n` is between `0` and `n`.
pub proof fn lemma_permill_le(p: int, n: int)
    requires
        0 <= p <= 1_000_000,
        0 <= n,
    ensures
        0 <= permill_mul_spec(p, n) <= n,
{
    assert(n * p <= n * 1_000_000) by (nonlinear_arith)
        requires
            0 <= p <= 1_000_000,
            0 <= n,
    ;
    assert(0 <= n * p) by (nonlinear_arith)
        requires
            0 <= p,
            0 <= n,
    ;
    lemma_div_mul_le(n * p, 1_000_000);
    vstd::arithmetic::div_mod::lemma_fundamental_div_mod(n * p, 1_000_000);
    if p < 1_000_000 {
        assert(n * p <= n * 1_000_000 - n) by (nonlinear_arith)
            requires
                0 <= p < 1_000_000,
                0 <= n,
        ;
        if n >= 1 {
            lemma_div_le_of_le_mul(n * p, n, 1_000_000);
            assert((n * p) / 1_000_000 < n) by {
                if (n * p) / 1_000_000 >= n {
                    assert(((n * p) / 1_000_000) * 1_000_000 >= n * 1_000_000) by (nonlinear_arith)
                        requires
                            (n * p) / 1_000_000 >= n,
                    ;
                }
            }
        }
    } else {
        assert(n * p == n * 1_000_000);
        vstd::arithmetic::div_mod::lemma_mod_multiples_basic(n, 1_000_000);
        vstd::arithmetic::div_mod::lemma_div_multiples_vanish(n, 1_000_000);
        vstd::arithmetic::mul::lemma_mul_is_commutative(n, 1_000_000);
    }
}

/// The reciprocal of a rate times the rate is at most one.
pub proof fn lemma_reciprocal_bound(q: u128)
    requires
        q > 0,
    ensures
        q * reciprocal_of(q) <= FIXED_ONE * FIXED_ONE,
        reciprocal_of(q) >= 0,
{
    let e: int = FIXED_ONE as int;
    lemma_div_mul_le(e * e, q as int);
    vstd::arithmetic::mul::lemma_mul_is_commutative(q as int, reciprocal_of(q));
}

/// What the staking currency `avail` can redeem at rate `q` is worth no more than `avail`.
pub proof fn lemma_cap_bound(q: u128, avail: u128, liquid: u128)
    requires
        liquid <= liquid_cap(q, avail),
    ensures
        mul_div_floor(q as int, liquid as int, FIXED_ONE as int) <= avail,
        mul_div_floor(q as int, liquid as int, FIXED_ONE as int) >= 0,
{
    let e: int = FIXED_ONE as int;
    assert(0 <= q * liquid) by (nonlinear_arith);
    lemma_div_mul_le(q * liquid, e);
    if q == 0 || reciprocal_of(q) > u128::MAX {
        assert(liquid == 0);
        assert(q * liquid == 0) by (nonlinear_arith)
            requires
                liquid == 0,
        ;
    } else {
        let r = reciprocal_of(q);
        lemma_reciprocal_bound(q);
        assert(0 <= r * avail) by (nonlinear_arith)
            requires
                0 <= r,
                0 <= avail,
        ;
        lemma_div_mul_le(r * avail, e);
        let c = (r * avail) / e;
        assert(liquid <= c);
        assert(q * liquid * e <= e * e * avail) by (nonlinear_arith)
            requires
                0 <= liquid <= c,
                c * e <= r * avail,
                q * r <= e * e,
                0 <= q,
                0 <= r,
                0 <= avail,
                e > 0,
        ;
        assert(q * liquid <= avail * e) by (nonlinear_arith)
            requires
                q * liquid * e <= e * e * avail,
                e > 0,
        ;
        lemma_div_le_of_le_mul(q * liquid, avail as int, e);
    }
}

/// What a mint hands out, `staking_to_liquid(q, amount)`, is worth no more than `amount`.
pub proof fn lemma_mint_bound(q: u128, amount: u128)
    requires
        staking_to_liquid(q, amount) is Some,
    ensures
        q * staking_to_liquid(q, amount)->Some_0 <= amount * FIXED_ONE,
{
    let e: int = FIXED_ONE as int;
    let r = reciprocal_of(q);
    let l = staking_to_liquid(q, amount)->Some_0;
    lemma_reciprocal_bound(q);
    assert(0 <= r * amount) by (nonlinear_arith)
        requires
            0 <= r,
            0 <= amount,
    ;
    lemma_div_mul_le(r * amount, e);
    assert(q * l * e <= e * e * amount) by (nonlinear_arith)
        requires
            l * e <= r * amount,
            q * r <= e * e,
            0 <= q,
            0 <= l,
            0 <= amount,
    ;
    assert(q * l <= amount * e) by (nonlinear_arith)
        requires
            q * l * e <= e * e * amount,
            e > 0,
    ;
}

// Sums of matches.

pub proof fn lemma_sum_take(ms: Seq<RedeemMatch>, k: int)
    requires
        0 <= k < ms.len(),
    ensures
        sum_staking(ms.take(k + 1)) == sum_staking(ms.take(k)) + ms[k].staking,
        sum_liquid(ms.take(k + 1)) == sum_liquid(ms.take(k)) + ms[k].liquid,
{
    assert(ms.take(k + 1).drop_last() =~= ms.take(k));
}

pub proof fn lemma_sum_nonneg(ms: Seq<RedeemMatch>)
    ensures
        sum_staking(ms) >= 0,
        sum_liquid(ms) >= 0,
    decreases ms.len(),
{
    if ms.len() > 0 {
        lemma_sum_nonneg(ms.drop_last());
    }
}

pub proof fn lemma_sum_prefix_le(ms: Seq<RedeemMatch>, k: int)
    requires
        0 <= k <= ms.len(),
    ensures
        sum_staking(ms.take(k)) <= sum_staking(ms),
        sum_liquid(ms.take(k)) <= sum_liquid(ms),
    decreases ms.len(),
{
    if k == ms.len() {
        assert(ms.take(k) =~= ms);
    } else {
        assert(ms.drop_last().take(k) =~= ms.take(k));
        lemma_sum_prefix_le(ms.drop_last(), k);
    }
}

pub proof fn lemma_sum_prepend(m: RedeemMatch, ms: Seq<RedeemMatch>)
    ensures
        sum_staking(seq![m] + ms) == m.staking + sum_staking(ms),
        sum_liquid(seq![m] + ms) == m.liquid + sum_liquid(ms),
    decreases ms.len(),
{
    let t = seq![m] + ms;
    if ms.len() > 0 {
        assert(t.drop_last() =~= seq![m] + ms.drop_last());
        assert(t.last() == ms.last());
        lemma_sum_prepend(m, ms.drop_last());
    } else {
        assert(t.drop_last() =~= Seq::<RedeemMatch>::empty());
        assert(t.last() == m);
        assert(sum_staking(t.drop_last()) == 0);
        assert(sum_liquid(t.drop_last()) == 0);
    }
}

/// What a plan of available matches spends and leaves adds up to what was available.
pub proof fn lemma_available_plan_sum(
    cfg: Config,
    l: LedgerView,
    order: Seq<RequestView>,
    avail: u128,
    count: nat,
    st: u128,
    iss: u128,
)
    ensures
        sum_staking(available_plan(cfg, l, order, avail, count, st, iss).0) + available_plan(
            cfg,
            l,
            order,
            avail,
            count,
            st,
            iss,
        ).1 == avail,
    decreases order.len(),
{
    if order.len() == 0 || avail == 0 || count == 0 {
    } else {
        match available_match(l, rate_of(cfg, st, iss), order[0], avail) {
            None => {
                lemma_available_plan_sum(cfg, l, order.drop_first(), avail, count, st, iss);
            },
            Some(m) => {
                let ms = available_plan(
                    cfg,
                    l,
                    order.drop_first(),
                    (avail - m.staking) as u128,
                    (count - 1) as nat,
                    sat_sub(st, m.staking),
                    sat_sub(iss, m.liquid),
                );
                let q = rate_of(cfg, st, iss);
                let r = order[0];
                lemma_cap_bound(q, avail, m.liquid);
                lemma_permill_le(
                    fee_complement(r.extra_fee),
                    mul_div_floor(q as int, m.liquid as int, FIXED_ONE as int),
                );
                lemma_available_plan_sum(
                    cfg,
                    l,
                    order.drop_first(),
                    (avail - m.staking) as u128,
                    (count - 1) as nat,
                    sat_sub(st, m.staking),
                    sat_sub(iss, m.liquid),
                );
                lemma_sum_prepend(m, ms.0);
            },
        }
    }
}

/// What a mint stakes for its unmatched rest is worth no more than the rest.
pub proof fn lemma_restake_bound(q: u128, rem: u128)
    requires
        q > 0,
        reciprocal_of(q) <= u128::MAX,
    ensures
        mul_div_floor(
            reciprocal_of(q),
            mul_div_floor(q as int, rem as int, FIXED_ONE as int),
            FIXED_ONE as int,
        ) <= rem,
        mul_div_floor(q as int, rem as int, FIXED_ONE as int) >= 0,
{
    let e: int = FIXED_ONE as int;
    let r = reciprocal_of(q);
    lemma_reciprocal_bound(q);
    assert(0 <= q * rem) by (nonlinear_arith)
        requires
            0 <= q,
            0 <= rem,
    ;
    lemma_div_mul_le(q * rem, e);
    let sr = (q * rem) / e;
    assert(0 <= r * sr) by (nonlinear_arith)
        requires
            0 <= r,
            0 <= sr,
    ;
    lemma_div_mul_le(r * sr, e);
    let lm = (r * sr) / e;
    assert(lm * e * e <= e * e * rem) by (nonlinear_arith)
        requires
            lm * e <= r * sr,
            sr * e <= q * rem,
            q * r <= e * e,
            0 <= r,
            0 <= q,
            0 <= sr,
            0 <= lm,
            e > 0,
    ;
    assert(lm <= rem) by (nonlinear_arith)
        requires
            lm * e * e <= e * e * rem,
            e > 0,
    ;
}

// Plans match each request at most once.

/// Distinct accounts in a walk order.
pub open spec fn distinct_accounts(order: Seq<RequestView>) -> bool {
    forall|i: int, j: int| 0 <= i < j < order.len() ==> (#[trigger] order[i]).who@ != (#[trigger] order[j]).who@
}

/// `w` is the account of some request in `order`.
pub open spec fn in_order(order: Seq<RequestView>, w: Seq<u8>) -> bool {
    exists|k: int| 0 <= k < order.len() && (#[trigger] order[k]).who@ == w
}

/// Matches with distinct accounts, each from `order`, each at most what the
/// account holds in reserve.
pub open spec fn sound_matches(ms: Seq<RedeemMatch>, order: Seq<RequestView>, l: LedgerView) -> bool {
    &&& forall|i: int, j: int| 0 <= i < j < ms.len() ==> (#[trigger] ms[i]).who@ != (#[trigger] ms[j]).who@
    &&& forall|i: int| 0 <= i < ms.len() ==> in_order(order, (#[trigger] ms[i]).who@)
    &&& forall|i: int|
        0 <= i < ms.len() ==> (#[trigger] ms[i]).liquid <= l.balance(ms[i].who@, CurrencyId::LKSM).reserved
}

proof fn lemma_sound_prepend(m: RedeemMatch, ms: Seq<RedeemMatch>, order: Seq<RequestView>, l: LedgerView)
    requires
        order.len() > 0,
        distinct_accounts(order),
        m.who@ == order[0].who@,
        m.liquid <= l.balance(m.who@, CurrencyId::LKSM).reserved,
        sound_matches(ms, order.drop_first(), l),
    ensures
        sound_matches(seq![m] + ms, order, l),
{
    let t = seq![m] + ms;
    assert forall|i: int| 0 <= i < t.len() implies in_order(order, (#[trigger] t[i]).who@) by {
        if i == 0 {
            assert(order[0].who@ == t[0].who@);
        } else {
            assert(t[i] == ms[i - 1]);
            assert(in_order(order.drop_first(), ms[i - 1].who@));
            let k = choose|k: int| 0 <= k < order.drop_first().len() && (#[trigger] order.drop_first()[k]).who@ == ms[i - 1].who@;
            assert(order[k + 1] == order.drop_first()[k]);
        }
    }
    assert forall|i: int, j: int| 0 <= i < j < t.len() implies (#[trigger] t[i]).who@ != (#[trigger] t[j]).who@ by {
        assert(t[j] == ms[j - 1]);
        if i == 0 {
            assert(in_order(order.drop_first(), ms[j - 1].who@));
            let k = choose|k: int| 0 <= k < order.drop_first().len() && (#[trigger] order.drop_first()[k]).who@ == ms[j - 1].who@;
            assert(order[k + 1] == order.drop_first()[k]);
            assert(order[0].who@ != order[k + 1].who@);
        } else {
            assert(t[i] == ms[i - 1]);
        }
    }
    assert forall|i: int| 0 <= i < t.len() implies (#[trigger] t[i]).liquid <= l.balance(t[i].who@, CurrencyId::LKSM).reserved by {
        if i > 0 {
            assert(t[i] == ms[i - 1]);
        }
    }
}

proof fn lemma_distinct_drop_first(order: Seq<RequestView>)
    requires
        order.len() > 0,
        distinct_accounts(order),
    ensures
        distinct_accounts(order.drop_first()),
{
    assert forall|i: int, j: int| 0 <= i < j < order.drop_first().len() implies (#[trigger] order.drop_first()[i]).who@
        != (#[trigger] order.drop_first()[j]).who@ by {
        assert(order.drop_first()[i] == order[i + 1]);
        assert(order.drop_first()[j] == order[j + 1]);
    }
}

/// A plan of available matches over distinct accounts is sound.
pub proof fn lemma_available_plan_sound(
    cfg: Config,
    l: LedgerView,
    order: Seq<RequestView>,
    avail: u128,
    count: nat,
    st: u128,
    iss: u128,
)
    requires
        distinct_accounts(order),
    ensures
        sound_matches(available_plan(cfg, l, order, avail, count, st, iss).0, order, l),
    decreases order.len(),
{
    if order.len() == 0 || avail == 0 || count == 0 {
    } else {
        lemma_distinct_drop_first(order);
        match available_match(l, rate_of(cfg, st, iss), order[0], avail) {
            None => {
                lemma_available_plan_sound(cfg, l, order.drop_first(), avail, count, st, iss);
                let ms = available_plan(cfg, l, order.drop_first(), avail, count, st, iss).0;
                assert forall|i: int| 0 <= i < ms.len() implies in_order(order, (#[trigger] ms[i]).who@) by {
                    let k = choose|k: int| 0 <= k < order.drop_first().len() && (#[trigger] order.drop_first()[k]).who@ == ms[i].who@;
                    assert(order[k + 1] == order.drop_first()[k]);
                }
            },
            Some(m) => {
                let st2 = sat_sub(st, m.staking);
                let iss2 = sat_sub(iss, m.liquid);
                lemma_available_plan_sound(
                    cfg,
                    l,
                    order.drop_first(),
                    (avail - m.staking) as u128,
                    (count - 1) as nat,
                    st2,
                    iss2,
                );
                lemma_sound_prepend(
                    m,
                    available_plan(cfg, l, order.drop_first(), (avail - m.staking) as u128, (count - 1) as nat, st2, iss2).0,
                    order,
                    l,
                );
            },
        }
    }
}

/// A plan of mint matches over distinct accounts is sound, and never matches the minter.
pub proof fn lemma_mint_plan_sound(l: LedgerView, minter: AccountId, q: u128, order: Seq<RequestView>, rem: u128)
    requires
        distinct_accounts(order),
    ensures
        sound_matches(mint_plan(l, minter, q, order, rem).0, order, l),
        forall|i: int|
            0 <= i < mint_plan(l, minter, q, order, rem).0.len() ==> (#[trigger] mint_plan(
                l,
                minter,
                q,
                order,
                rem,
            ).0[i]).who@ != minter@,
        sum_liquid(mint_plan(l, minter, q, order, rem).0) + mint_plan(l, minter, q, order, rem).1 == rem,
    decreases order.len(),
{
    if order.len() == 0 || rem == 0 {
    } else {
        lemma_distinct_drop_first(order);
        match mint_match(l, minter, q, order[0], rem) {
            None => {
                lemma_mint_plan_sound(l, minter, q, order.drop_first(), rem);
                let ms = mint_plan(l, minter, q, order.drop_first(), rem).0;
                assert forall|i: int| 0 <= i < ms.len() implies in_order(order, (#[trigger] ms[i]).who@) by {
                    let k = choose|k: int| 0 <= k < order.drop_first().len() && (#[trigger] order.drop_first()[k]).who@ == ms[i].who@;
                    assert(order[k + 1] == order.drop_first()[k]);
                }
            },
            Some(m) => {
                let rem2 = (rem - m.liquid) as u128;
                lemma_mint_plan_sound(l, minter, q, order.drop_first(), rem2);
                let ms = mint_plan(l, minter, q, order.drop_first(), rem2).0;
                lemma_sound_prepend(m, ms, order, l);
                lemma_sum_prepend(m, ms);
                let t = seq![m] + ms;
                assert forall|i: int| 0 <= i < t.len() implies (#[trigger] t[i]).who@ != minter@ by {
                    if i > 0 {
                        assert(t[i] == ms[i - 1]);
                    }
                }
            },
        }
    }
}

/// The walk order of a well-formed queue holds each account once.
pub proof fn lemma_walk_distinct(q: Seq<RequestView>, p: int)
    requires
        crate::queue::queue_wf(q),
        0 <= p <= q.len(),
    ensures
        distinct_accounts(rotation(q, p)),
        forall|k: int| 0 <= k < q.len() ==> in_order(rotation(q, p), (#[trigger] q[k]).who@),
        rotation(q, p).len() == q.len(),
{
    let r = rotation(q, p);
    let n = q.len() as int;
    assert forall|i: int, j: int| 0 <= i < j < r.len() implies (#[trigger] r[i]).who@ != (#[trigger] r[j]).who@ by {
        let i0 = if i < n - p { p + i } else { i - (n - p) };
        let j0 = if j < n - p { p + j } else { j - (n - p) };
        assert(r[i] == q[i0]);
        assert(r[j] == q[j0]);
        crate::queue::lemma_distinct_accounts(q, i0, j0);
    }
    assert forall|k: int| 0 <= k < q.len() implies in_order(r, (#[trigger] q[k]).who@) by {
        let i = if k >= p { k - p } else { k + (n - p) };
        assert(r[i] == q[k]);
    }
}

} // verus!
