//! Laws of single operations: what the outcome of a mint, a redeem request,
//! an adjustment of the available balance and the idle hook must satisfy,
//! stated over their inputs and results.

use crate::account::{redeem_request_key, AccountId};
use crate::arith::{Permill, FIXED_ONE};
use crate::events::CurrencyId;
use crate::model::{
    adjust_outcome, adjusted_state, apply_available_matches, apply_mint_matches, exchange_rate, mint_outcome,
    mint_plan, new_request, on_idle_outcome, process_outcome, process_plan, release_unbonds, released_state,
    request_redeem_outcome, requested_amount, staking_to_liquid, Config, HomaError, RedeemMatch, RuntimeView,
    lemma_div_le_of_le_mul, lemma_mint_bound, mint_match,
};
use crate::ledger::LedgerView;
use crate::queue::{lemma_put_wf, queue_wf, request_of, walk_order, RequestView};
use vstd::prelude::*;

verus! {

/// The staking amounts of a list of scheduled unbonds, added up.
pub open spec fn unbond_total(us: Seq<(u128, u32)>) -> int
    decreases us.len(),
{
    if us.len() == 0 {
        0
    } else {
        unbond_total(us.drop_last()) + us.last().0
    }
}

/// The unbonds of `us` that are due at relay-chain block `block`.
pub open spec fn due_unbonds(us: Seq<(u128, u32)>, block: u32) -> Seq<(u128, u32)> {
    us.filter(|u: (u128, u32)| u.1 <= block)
}

/// The unbonds of `us` that are still waiting at relay-chain block `block`.
pub open spec fn waiting_unbonds(us: Seq<(u128, u32)>, block: u32) -> Seq<(u128, u32)> {
    us.filter(|u: (u128, u32)| u.1 > block)
}

/// `x` held to the range of a balance.
pub open spec fn clamped(x: int) -> int {
    if x < 0 {
        0
    } else if x > u128::MAX {
        u128::MAX as int
    } else {
        x
    }
}

/// Matches with a mint keep the total staking currency.
proof fn lemma_mint_matches_keep_total(cfg: Config, s: RuntimeView, minter: AccountId, ms: Seq<RedeemMatch>)
    ensures
        apply_mint_matches(cfg, s, minter, ms).total_staking == s.total_staking,
    decreases ms.len(),
{
    if ms.len() > 0 {
        lemma_mint_matches_keep_total(cfg, s, minter, ms.drop_last());
    }
}

/// Matches with available staking currency keep the scheduled unbonds.
proof fn lemma_available_matches_keep_unbonds(cfg: Config, s: RuntimeView, ms: Seq<RedeemMatch>)
    ensures
        apply_available_matches(cfg, s, ms).unbonds == s.unbonds,
    decreases ms.len(),
{
    if ms.len() > 0 {
        lemma_available_matches_keep_unbonds(cfg, s, ms.drop_last());
    }
}

/// Releasing the due unbonds keeps exactly the waiting ones and adds up the
/// due ones (where that fits).
proof fn lemma_release_unbonds(us: Seq<(u128, u32)>, block: u32, avail: u128)
    ensures
        release_unbonds(us, block, avail).0 == waiting_unbonds(us, block),
        avail + unbond_total(due_unbonds(us, block)) <= u128::MAX ==> release_unbonds(us, block, avail).1
            == avail + unbond_total(due_unbonds(us, block)),
        unbond_total(due_unbonds(us, block)) >= 0,
    decreases us.len(),
{
    reveal(Seq::filter);
    if us.len() > 0 {
        lemma_release_unbonds(us.drop_last(), block, avail);
        let u = us.last();
        let d0 = due_unbonds(us.drop_last(), block);
        if u.1 <= block {
            assert(due_unbonds(us, block) == d0.push(u));
            assert(d0.push(u).drop_last() =~= d0);
            assert(waiting_unbonds(us, block) == waiting_unbonds(us.drop_last(), block));
        } else {
            assert(due_unbonds(us, block) == d0);
            assert(waiting_unbonds(us, block) == waiting_unbonds(us.drop_last(), block).push(u));
        }
    }
}

/// A mint whose whole liquid worth is matched with redeem requests stakes
/// nothing: it succeeds, whatever the staking mint cap, and the total
/// staking currency stays as it was.
pub proof fn law_fully_matched_mint_stakes_nothing(cfg: Config, s: RuntimeView, minter: AccountId, amount: u128)
    requires
        amount >= cfg.minimum_mint_threshold,
        s.ledger.balance(minter@, CurrencyId::KSM).free >= amount,
        staking_to_liquid(exchange_rate(cfg, s), amount) is Some,
        mint_plan(
            s.ledger,
            minter,
            exchange_rate(cfg, s),
            walk_order(s.queue, s.last_key),
            staking_to_liquid(exchange_rate(cfg, s), amount)->Some_0,
        ).1 == 0,
    ensures
        mint_outcome(cfg, s, minter, amount) is Ok,
        mint_outcome(cfg, s, minter, amount)->Ok_0.total_staking == s.total_staking,
{
    let q = exchange_rate(cfg, s);
    let liq0 = staking_to_liquid(q, amount)->Some_0;
    let plan = mint_plan(s.ledger, minter, q, walk_order(s.queue, s.last_key), liq0);
    assert((q as int * 0int) / (FIXED_ONE as int) == 0) by (nonlinear_arith);
    lemma_mint_matches_keep_total(cfg, s, minter, plan.0);
}

/// What a mint plan leaves unmatched is at most what it started with.
proof fn lemma_mint_plan_rest_le(l: LedgerView, minter: AccountId, q: u128, order: Seq<RequestView>, rem: u128)
    ensures
        mint_plan(l, minter, q, order, rem).1 <= rem,
    decreases order.len(),
{
    if order.len() > 0 && rem > 0 {
        match mint_match(l, minter, q, order[0], rem) {
            None => lemma_mint_plan_rest_le(l, minter, q, order.drop_first(), rem),
            Some(m) => lemma_mint_plan_rest_le(l, minter, q, order.drop_first(), (rem - m.liquid) as u128),
        }
    }
}

/// The staking worth at rate `q` of the liquid amount `rest`, rounded down.
pub open spec fn worth_of(q: u128, rest: u128) -> int {
    (q * rest) / (FIXED_ONE as int)
}

/// The staking mint cap limits only what a mint stakes: a mint that
/// succeeds stakes exactly the worth of the liquid amount that no redeem
/// request matched, leaving the total staking currency as it was or within
/// the cap; a mint is refused for the cap only where that worth would take
/// the total above it.
pub proof fn law_mint_cap_limits_only_what_is_staked(cfg: Config, s: RuntimeView, minter: AccountId, amount: u128)
    ensures
        mint_outcome(cfg, s, minter, amount) is Ok ==> mint_outcome(cfg, s, minter, amount)->Ok_0.total_staking
            == s.total_staking || mint_outcome(cfg, s, minter, amount)->Ok_0.total_staking <= s.mint_cap,
        mint_outcome(cfg, s, minter, amount) is Ok ==> mint_outcome(cfg, s, minter, amount)->Ok_0.total_staking
            == s.total_staking + worth_of(
            exchange_rate(cfg, s),
            mint_plan(
                s.ledger,
                minter,
                exchange_rate(cfg, s),
                walk_order(s.queue, s.last_key),
                staking_to_liquid(exchange_rate(cfg, s), amount)->Some_0,
            ).1,
        ),
        mint_outcome(cfg, s, minter, amount) == Err::<RuntimeView, HomaError>(HomaError::ExceedStakingCurrencyMintCap)
            ==> staking_to_liquid(exchange_rate(cfg, s), amount) is Some && s.total_staking + worth_of(
            exchange_rate(cfg, s),
            mint_plan(
                s.ledger,
                minter,
                exchange_rate(cfg, s),
                walk_order(s.queue, s.last_key),
                staking_to_liquid(exchange_rate(cfg, s), amount)->Some_0,
            ).1,
        ) > s.mint_cap && mint_plan(
            s.ledger,
            minter,
            exchange_rate(cfg, s),
            walk_order(s.queue, s.last_key),
            staking_to_liquid(exchange_rate(cfg, s), amount)->Some_0,
        ).1 > 0,
{
    let q = exchange_rate(cfg, s);
    let e: int = FIXED_ONE as int;
    if amount >= cfg.minimum_mint_threshold && s.ledger.balance(minter@, CurrencyId::KSM).free >= amount {
        if let Some(liq0) = staking_to_liquid(q, amount) {
            let order = walk_order(s.queue, s.last_key);
            let plan = mint_plan(s.ledger, minter, q, order, liq0);
            lemma_mint_matches_keep_total(cfg, s, minter, plan.0);
            lemma_mint_plan_rest_le(s.ledger, minter, q, order, liq0);
            lemma_mint_bound(q, amount);
            let rest = plan.1;
            assert(q * rest <= amount * e) by (nonlinear_arith)
                requires
                    rest <= liq0,
                    q * liq0 <= amount * e,
                    q >= 0,
            ;
            assert(0 <= q * rest) by (nonlinear_arith)
                requires
                    q >= 0,
                    rest >= 0,
            ;
            lemma_div_le_of_le_mul(q * rest, amount as int, e);
            if rest == 0 {
                assert((q as int * 0int) / (FIXED_ONE as int) == 0) by (nonlinear_arith);
            }
        }
    }
}

/// After a mint that matched redeem requests, the key iterated last is the
/// storage key of the last request it matched in walk order.
pub proof fn law_mint_remembers_last_matched_request(cfg: Config, s: RuntimeView, minter: AccountId, amount: u128)
    requires
        mint_outcome(cfg, s, minter, amount) is Ok,
        mint_plan(
            s.ledger,
            minter,
            exchange_rate(cfg, s),
            walk_order(s.queue, s.last_key),
            staking_to_liquid(exchange_rate(cfg, s), amount)->Some_0,
        ).0.len() > 0,
    ensures
        mint_outcome(cfg, s, minter, amount)->Ok_0.last_key == redeem_request_key(
            mint_plan(
                s.ledger,
                minter,
                exchange_rate(cfg, s),
                walk_order(s.queue, s.last_key),
                staking_to_liquid(exchange_rate(cfg, s), amount)->Some_0,
            ).0.last().who@,
        ),
{
}

/// Raising a redeem request (or placing a new one) is refused neither for
/// the minimum nor for the balance where the new amount is above the
/// minimum and the increase is within the free liquid balance; with no
/// staking currency available to match it, it succeeds, reserving exactly
/// the increase and holding the new request.
pub proof fn law_raising_a_request_reserves_the_increase(
    cfg: Config,
    s: RuntimeView,
    who: AccountId,
    amount: u128,
    fee: Permill,
)
    requires
        queue_wf(s.queue),
        redeem_request_key(who@).len() == 72,
        amount > 0,
        amount >= cfg.minimum_redeem_threshold,
        requested_amount(s, who@) <= amount,
        amount - requested_amount(s, who@) <= s.ledger.balance(who@, CurrencyId::LKSM).free,
        s.ledger.balance(who@, CurrencyId::LKSM).free + s.ledger.balance(who@, CurrencyId::LKSM).reserved
            <= u128::MAX,
    ensures
        request_redeem_outcome(cfg, s, who, amount, fee) is Ok || request_redeem_outcome(cfg, s, who, amount, fee)
            == Err::<RuntimeView, HomaError>(HomaError::ArithmeticOverflow),
        s.available_staking == 0 ==> ({
            let v = request_redeem_outcome(cfg, s, who, amount, fee)->Ok_0;
            &&& request_redeem_outcome(cfg, s, who, amount, fee) is Ok
            &&& v.ledger.balance(who@, CurrencyId::LKSM).free == s.ledger.balance(who@, CurrencyId::LKSM).free - (
            amount - requested_amount(s, who@))
            &&& v.ledger.balance(who@, CurrencyId::LKSM).reserved == s.ledger.balance(
                who@,
                CurrencyId::LKSM,
            ).reserved + (amount - requested_amount(s, who@))
            &&& request_of(v.queue, who@) == Some(new_request(who, amount, fee))
        }),
{
    let r = new_request(who, amount, fee);
    lemma_put_wf(s.queue, r);
}

/// A redeem request is refused for the minimum exactly where it asks for a
/// positive amount below it, and for the balance exactly where, above the
/// minimum, it raises the request by more than the free liquid balance.
pub proof fn law_request_refusals(cfg: Config, s: RuntimeView, who: AccountId, amount: u128, fee: Permill)
    ensures
        (request_redeem_outcome(cfg, s, who, amount, fee) == Err::<RuntimeView, HomaError>(
            HomaError::AmountBelowMinimumThreshold,
        )) <==> (0 < amount < cfg.minimum_redeem_threshold),
        (request_redeem_outcome(cfg, s, who, amount, fee) == Err::<RuntimeView, HomaError>(
            HomaError::InsufficientBalance,
        )) <==> (amount > 0 && amount >= cfg.minimum_redeem_threshold && amount > requested_amount(s, who@)
            && amount - requested_amount(s, who@) > s.ledger.balance(who@, CurrencyId::LKSM).free),
{
}

/// An adjustment moves the available staking balance by the signed amount,
/// held to the range of a balance; with no redeem requests to match, that is
/// the balance it leaves, and nothing else of the totals changes.
pub proof fn law_adjustment_moves_available_balance(cfg: Config, s: RuntimeView, by: i128, max: u32)
    ensures
        adjusted_state(s, by).available_staking == clamped(s.available_staking + by),
        s.queue.len() == 0 ==> ({
            let v = adjust_outcome(cfg, s, by, max)->Some_0;
            &&& adjust_outcome(cfg, s, by, max) is Some
            &&& v.available_staking == clamped(s.available_staking + by)
            &&& v.total_staking == s.total_staking
            &&& v.ledger == s.ledger
            &&& v.queue == s.queue
        }),
{
    if s.queue.len() == 0 {
        let s1 = adjusted_state(s, by);
        assert(walk_order(s1.queue, s1.last_key) =~= Seq::<RequestView>::empty());
    }
}

/// After an adjustment that matched redeem requests, the key iterated last
/// is the storage key of the last request it matched in walk order.
pub proof fn law_adjustment_remembers_last_matched_request(cfg: Config, s: RuntimeView, by: i128, max: u32)
    requires
        adjust_outcome(cfg, s, by, max) is Some,
        process_plan(cfg, adjusted_state(s, by), walk_order(s.queue, s.last_key), max as nat).len() > 0,
    ensures
        adjust_outcome(cfg, s, by, max)->Some_0.last_key == redeem_request_key(
            process_plan(cfg, adjusted_state(s, by), walk_order(s.queue, s.last_key), max as nat).last().who@,
        ),
{
}

/// The idle hook at relay-chain block `block` releases every scheduled
/// unbond that is due and keeps every other one; the released amounts join
/// the available staking balance (where the sum fits), and with no redeem
/// requests to match that is the balance it leaves.
pub proof fn law_idle_releases_every_due_unbond(cfg: Config, s: RuntimeView, block: u32)
    ensures
        on_idle_outcome(cfg, s, block).unbonds == waiting_unbonds(s.unbonds, block),
        s.available_staking + unbond_total(due_unbonds(s.unbonds, block)) <= u128::MAX ==> released_state(
            s,
            block,
        ).available_staking == s.available_staking + unbond_total(due_unbonds(s.unbonds, block)),
        s.queue.len() == 0 && s.available_staking + unbond_total(due_unbonds(s.unbonds, block)) <= u128::MAX
            ==> on_idle_outcome(cfg, s, block).available_staking == s.available_staking + unbond_total(
            due_unbonds(s.unbonds, block),
        ),
{
    lemma_release_unbonds(s.unbonds, block, s.available_staking);
    let s1 = released_state(s, block);
    let plan = process_plan(cfg, s1, walk_order(s1.queue, s1.last_key), cfg.max_matches_on_idle as nat);
    lemma_available_matches_keep_unbonds(cfg, s1, plan);
    if s.queue.len() == 0 {
        assert(walk_order(s1.queue, s1.last_key) =~= Seq::<RequestView>::empty());
    }
}

/// After the idle hook matched redeem requests, the key iterated last is
/// the storage key of the last request it matched in walk order.
pub proof fn law_idle_remembers_last_matched_request(cfg: Config, s: RuntimeView, block: u32)
    requires
        process_outcome(
            cfg,
            released_state(s, block),
            walk_order(s.queue, s.last_key),
            cfg.max_matches_on_idle as nat,
            true,
        ) is Some,
        process_plan(
            cfg,
            released_state(s, block),
            walk_order(s.queue, s.last_key),
            cfg.max_matches_on_idle as nat,
        ).len() > 0,
    ensures
        on_idle_outcome(cfg, s, block).last_key == redeem_request_key(
            process_plan(
                cfg,
                released_state(s, block),
                walk_order(s.queue, s.last_key),
                cfg.max_matches_on_idle as nat,
            ).last().who@,
        ),
{
}

} // verus!
