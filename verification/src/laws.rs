//! Laws of the liquid-staking model: what holds of every input, across
//! operations. Each is stated over the spec functions that the operations'
//! contracts use.

use crate::account::lex_lt;
use crate::arith::{mul_div_floor, Permill, FIXED_ONE};
use crate::account::{redeem_request_key, AccountId};
use crate::events::CurrencyId;
use crate::ledger::{total_of, LedgerView};
use crate::model::{
    available_match, exact_quotient, exact_worth, fee_free, lemma_sum_nonneg, lemma_sum_prepend, quotient,
    sat_sub, staking_after, sum_liquid, RedeemMatch,
    available_plan, distinct_accounts, in_order, lemma_available_plan_sound, lemma_mint_plan_sound,
    lemma_walk_distinct, mint_plan, rate_of, reciprocal_of, request_redeem_outcome, rotation,
    sound_matches, staking_for, staking_to_liquid, Config, RuntimeView,
};
use crate::queue::{
    has_request, lemma_put_wf, lemma_request_index, lemma_walk_split, queue_put, queue_remove, queue_wf,
    request_of, upper_from, walk_order, RequestView,
};
use vstd::arithmetic::div_mod::{lemma_div_multiples_vanish, lemma_fundamental_div_mod};
use vstd::prelude::*;

verus! {

/// The rate of `staking` over `issuance` is a whole number of the smallest
/// rate step, and one over a whole number: the quotient is exact, and its
/// inverse too.
pub open spec fn exact_rate_of(staking: u128, issuance: u128) -> bool {
    &&& issuance > 0
    &&& (staking * FIXED_ONE) % (issuance as int) == 0
    &&& 0 < (staking * FIXED_ONE) / (issuance as int) <= u128::MAX
    &&& (FIXED_ONE as int) % ((staking * FIXED_ONE) / (issuance as int)) == 0
}

proof fn lemma_quotient_of_multiple(q: int, n: int)
    requires
        n > 0,
    ensures
        (q * n) / n == q,
{
    vstd::arithmetic::mul::lemma_mul_is_commutative(q, n);
    lemma_div_multiples_vanish(q, n);
}

/// Staking `x` more for the liquid currency it is worth at an exact rate
/// leaves the exchange rate as it was (what a mint does with the part that
/// no redeem request takes).
pub proof fn law_restake_keeps_exchange_rate(cfg: Config, staking: u128, issuance: u128, x: u128)
    requires
        exact_rate_of(staking, issuance),
        staking + x <= u128::MAX,
        staking_to_liquid(rate_of(cfg, staking, issuance), x) is Some,
        issuance + staking_to_liquid(rate_of(cfg, staking, issuance), x)->Some_0 <= u128::MAX,
    ensures
        rate_of(
            cfg,
            (staking + x) as u128,
            (issuance + staking_to_liquid(rate_of(cfg, staking, issuance), x)->Some_0) as u128,
        ) == rate_of(cfg, staking, issuance),
{
    let e: int = FIXED_ONE as int;
    let s: int = staking as int;
    let i: int = issuance as int;
    let q: int = (s * e) / i;
    assert(rate_of(cfg, staking, issuance) == q);
    lemma_fundamental_div_mod(s * e, i);
    assert(s * e == i * q);
    let k: int = e / q;
    lemma_fundamental_div_mod(e, q);
    assert(e == q * k);
    assert(e * e == q * (k * e)) by (nonlinear_arith)
        requires
            e == q * k,
    ;
    lemma_quotient_of_multiple(k * e, q);
    assert((q * (k * e)) / q == k * e) by (nonlinear_arith)
        requires
            (k * e * q) / q == k * e,
    ;
    assert(reciprocal_of(q as u128) == k * e);
    let l: int = staking_to_liquid(q as u128, x)->Some_0 as int;
    assert((k * e) * x == (k * x) * e) by (nonlinear_arith);
    lemma_quotient_of_multiple(k * x, e);
    assert(l == k * x);
    assert((s + x) * e == q * (i + l)) by (nonlinear_arith)
        requires
            s * e == i * q,
            e == q * k,
            l == k * x,
    ;
    assert(i + l > 0) by (nonlinear_arith)
        requires
            i > 0,
            l == k * x,
            k >= 0,
            x >= 0,
    ;
    lemma_quotient_of_multiple(q, i + l);
    assert(((s + x) * e) / (i + l) == q) by (nonlinear_arith)
        requires
            (s + x) * e == q * (i + l),
            (q * (i + l)) / (i + l) == q,
    ;
}

/// Redeeming `liquid` of the liquid currency at the current rate, for what
/// it is worth less an extra fee, never lowers the exchange rate, and takes
/// at most the total staking currency.
pub proof fn law_redeem_never_lowers_exchange_rate(
    cfg: Config,
    staking: u128,
    issuance: u128,
    fee: Permill,
    liquid: u128,
)
    requires
        0 < liquid < issuance,
        mul_div_floor(staking as int, FIXED_ONE as int, issuance as int) <= u128::MAX,
        mul_div_floor(
            staking - staking_for(rate_of(cfg, staking, issuance), fee, liquid),
            FIXED_ONE as int,
            issuance - liquid,
        ) <= u128::MAX,
    ensures
        staking_for(rate_of(cfg, staking, issuance), fee, liquid) <= staking,
        rate_of(
            cfg,
            (staking - staking_for(rate_of(cfg, staking, issuance), fee, liquid)) as u128,
            (issuance - liquid) as u128,
        ) >= rate_of(cfg, staking, issuance),
{
    let e: int = FIXED_ONE as int;
    let s: int = staking as int;
    let i: int = issuance as int;
    let q: int = (s * e) / i;
    assert(rate_of(cfg, staking, issuance) == q);
    lemma_fundamental_div_mod(s * e, i);
    vstd::arithmetic::div_mod::lemma_mod_pos_bound(s * e, i);
    assert(q * i <= s * e) by (nonlinear_arith)
        requires
            s * e == i * q + (s * e) % i,
            (s * e) % i >= 0,
    ;
    assert(0 <= s * e) by (nonlinear_arith)
        requires
            0 <= s,
            0 < e,
    ;
    vstd::arithmetic::div_mod::lemma_div_pos_is_pos(s * e, i);
    assert(0 <= q * liquid) by (nonlinear_arith)
        requires
            0 <= q,
            0 <= liquid,
    ;
    let base: int = (q * liquid) / e;
    crate::model::lemma_div_mul_le(q * liquid, e);
    let fc = crate::model::fee_complement(fee);
    crate::model::lemma_permill_le(fc, base);
    let st: int = staking_for(q as u128, fee, liquid);
    assert(st * e <= q * liquid) by (nonlinear_arith)
        requires
            st <= base,
            base * e <= q * liquid,
            e > 0,
    ;
    // st * e * i <= q * liquid * i <= s * e * liquid, so st <= s * liquid / i < s.
    assert(st * e * i <= s * e * liquid) by (nonlinear_arith)
        requires
            st * e <= q * liquid,
            q * i <= s * e,
            i > 0,
            liquid >= 0,
            q >= 0,
    ;
    assert(st <= s) by (nonlinear_arith)
        requires
            st * e * i <= s * e * liquid,
            liquid < i,
            e > 0,
            s >= 0,
            st >= 0,
    ;
    // (s - st) * e * i >= s * e * i - s * e * liquid = s * e * (i - liquid) >= q * i * (i - liquid).
    assert((s - st) * e >= q * (i - liquid)) by (nonlinear_arith)
        requires
            st * e * i <= s * e * liquid,
            q * i <= s * e,
            i > 0,
            liquid < i,
            s >= 0,
            e > 0,
    ;
    assert(0 <= (s - st) * e) by (nonlinear_arith)
        requires
            st <= s,
            e > 0,
    ;
    crate::model::lemma_div_monotonic(q * (i - liquid), (s - st) * e, i - liquid);
    lemma_quotient_of_multiple(q, i - liquid);
    assert(((s - st) * e) / (i - liquid) >= q);
}

/// Redeeming `liquid` with no extra fee at an exact rate, where its worth is
/// exact too, leaves the exchange rate as it was.
pub proof fn law_redeem_at_exact_rate_keeps_exchange_rate(
    cfg: Config,
    staking: u128,
    issuance: u128,
    fee: Permill,
    liquid: u128,
)
    requires
        fee.spec_parts() == 0,
        0 < liquid < issuance,
        (staking * FIXED_ONE) % (issuance as int) == 0,
        (staking * FIXED_ONE) / (issuance as int) <= u128::MAX,
        (rate_of(cfg, staking, issuance) * liquid) % (FIXED_ONE as int) == 0,
    ensures
        staking_for(rate_of(cfg, staking, issuance), fee, liquid) <= staking,
        rate_of(
            cfg,
            (staking - staking_for(rate_of(cfg, staking, issuance), fee, liquid)) as u128,
            (issuance - liquid) as u128,
        ) == rate_of(cfg, staking, issuance),
{
    let e: int = FIXED_ONE as int;
    let s: int = staking as int;
    let i: int = issuance as int;
    let q: int = (s * e) / i;
    assert(rate_of(cfg, staking, issuance) == q);
    lemma_fundamental_div_mod(s * e, i);
    assert(s * e == i * q);
    vstd::arithmetic::div_mod::lemma_div_pos_is_pos(s * e, i);
    let base: int = (q * liquid) / e;
    lemma_fundamental_div_mod(q * liquid, e);
    assert(q * liquid == e * base);
    assert(0 <= base) by (nonlinear_arith)
        requires
            q * liquid == e * base,
            q >= 0,
            liquid >= 0,
            e > 0,
    ;
    assert(base * 1_000_000 == 1_000_000 * base) by (nonlinear_arith);
    lemma_quotient_of_multiple(base, 1_000_000);
    vstd::arithmetic::div_mod::lemma_mod_multiples_basic(base, 1_000_000);
    let st: int = staking_for(q as u128, fee, liquid);
    assert(st == base);
    assert(st * e == q * liquid) by (nonlinear_arith)
        requires
            q * liquid == e * base,
            st == base,
    ;
    assert(st <= s) by (nonlinear_arith)
        requires
            st * e == q * liquid,
            s * e == i * q,
            liquid < i,
            q >= 0,
            e > 0,
    ;
    assert((s - st) * e == q * (i - liquid)) by (nonlinear_arith)
        requires
            st * e == q * liquid,
            s * e == i * q,
    ;
    lemma_quotient_of_multiple(q, i - liquid);
}

/// One match at a rate `q` not above the quotient of `s` over `i`: it takes at
/// most `s`, and leaves a quotient no lower.
proof fn lemma_match_step(q: u128, fee: Permill, liquid: u128, s: int, i: int)
    requires
        0 < liquid < i,
        0 <= s,
        q <= quotient(s, i),
    ensures
        0 <= staking_for(q, fee, liquid) <= s,
        quotient(s - staking_for(q, fee, liquid), i - liquid) >= quotient(s, i),
{
    let e: int = FIXED_ONE as int;
    let qq: int = quotient(s, i);
    assert(0 <= s * e) by (nonlinear_arith)
        requires
            0 <= s,
            0 < e,
    ;
    lemma_fundamental_div_mod(s * e, i);
    vstd::arithmetic::div_mod::lemma_mod_pos_bound(s * e, i);
    vstd::arithmetic::div_mod::lemma_div_pos_is_pos(s * e, i);
    assert(qq * i <= s * e) by (nonlinear_arith)
        requires
            s * e == i * qq + (s * e) % i,
            (s * e) % i >= 0,
    ;
    assert(0 <= q * liquid <= qq * liquid) by (nonlinear_arith)
        requires
            0 <= q <= qq,
            0 <= liquid,
    ;
    let base: int = (q * liquid) / e;
    crate::model::lemma_div_mul_le(q * liquid, e);
    let fc = crate::model::fee_complement(fee);
    crate::model::lemma_permill_le(fc, base);
    let st: int = staking_for(q, fee, liquid);
    assert(st * e <= qq * liquid) by (nonlinear_arith)
        requires
            0 <= st <= base,
            base * e <= q * liquid,
            q * liquid <= qq * liquid,
            e > 0,
    ;
    assert(st * e * i <= s * e * liquid) by (nonlinear_arith)
        requires
            st * e <= qq * liquid,
            qq * i <= s * e,
            i > 0,
            liquid >= 0,
            qq >= 0,
    ;
    assert(st <= s) by (nonlinear_arith)
        requires
            st * e * i <= s * e * liquid,
            liquid < i,
            e > 0,
            s >= 0,
            st >= 0,
    ;
    assert((s - st) * e >= qq * (i - liquid)) by (nonlinear_arith)
        requires
            st * e * i <= s * e * liquid,
            qq * i <= s * e,
            i > 0,
            liquid < i,
            s >= 0,
            e > 0,
    ;
    assert(0 <= qq * (i - liquid)) by (nonlinear_arith)
        requires
            qq >= 0,
            liquid < i,
    ;
    crate::model::lemma_div_monotonic(qq * (i - liquid), (s - st) * e, i - liquid);
    lemma_quotient_of_multiple(qq, i - liquid);
}

/// One match with no extra fee at the exact quotient `q` of `s` over `i`,
/// for a liquid amount of whole worth: the quotient stays exact and equal.
proof fn lemma_exact_match_step(q: u128, fee: Permill, liquid: u128, s: int, i: int)
    requires
        fee.spec_parts() == 0,
        0 < liquid < i,
        0 <= s,
        (s * FIXED_ONE) % i == 0,
        q == quotient(s, i),
        (q * liquid) % (FIXED_ONE as int) == 0,
    ensures
        0 <= staking_for(q, fee, liquid) <= s,
        ((s - staking_for(q, fee, liquid)) * FIXED_ONE) % (i - liquid) == 0,
        quotient(s - staking_for(q, fee, liquid), i - liquid) == q,
{
    let e: int = FIXED_ONE as int;
    lemma_fundamental_div_mod(s * e, i);
    assert(s * e == i * q);
    let base: int = (q * liquid) / e;
    lemma_fundamental_div_mod(q * liquid, e);
    assert(q * liquid == e * base);
    assert(0 <= base) by (nonlinear_arith)
        requires
            q * liquid == e * base,
            q >= 0,
            liquid >= 0,
            e > 0,
    ;
    assert(base * 1_000_000 == 1_000_000 * base) by (nonlinear_arith);
    lemma_quotient_of_multiple(base, 1_000_000);
    vstd::arithmetic::div_mod::lemma_mod_multiples_basic(base, 1_000_000);
    let st: int = staking_for(q, fee, liquid);
    assert(st == base);
    assert(st * e == q * liquid) by (nonlinear_arith)
        requires
            q * liquid == e * base,
            st == base,
    ;
    assert(st <= s) by (nonlinear_arith)
        requires
            st * e == q * liquid,
            s * e == i * q,
            liquid < i,
            q >= 0,
            e > 0,
    ;
    assert((s - st) * e == q * (i - liquid)) by (nonlinear_arith)
        requires
            st * e == q * liquid,
            s * e == i * q,
    ;
    lemma_quotient_of_multiple(q as int, i - liquid);
    vstd::arithmetic::div_mod::lemma_mod_multiples_basic(q as int, i - liquid);
}

/// The total staking after a first match and the rest: the first taken from
/// it, then the rest.
proof fn lemma_staking_after_prepend(st: u128, m: RedeemMatch, ms: Seq<RedeemMatch>)
    ensures
        staking_after(st, seq![m] + ms) == staking_after(sat_sub(st, m.staking), ms),
    decreases ms.len(),
{
    let t = seq![m] + ms;
    if ms.len() > 0 {
        assert(t.drop_last() =~= seq![m] + ms.drop_last());
        assert(t.last() == ms.last());
        lemma_staking_after_prepend(st, m, ms.drop_last());
        assert(staking_after(st, t) == sat_sub(staking_after(st, t.drop_last()), ms.last().staking));
    } else {
        assert(t.drop_last() =~= Seq::<RedeemMatch>::empty());
        assert(t.last() == m);
        assert(staking_after(st, t.drop_last()) == st);
        assert(staking_after(st, t) == sat_sub(st, m.staking));
    }
}

/// The rate a plan matches at is never above the quotient of what is left.
proof fn lemma_plan_quotient_monotone(
    cfg: Config,
    l: LedgerView,
    order: Seq<RequestView>,
    avail: u128,
    count: nat,
    st: u128,
    iss: u128,
)
    requires
        sum_liquid(available_plan(cfg, l, order, avail, count, st, iss).0) < iss,
    ensures
        quotient(
            staking_after(st, available_plan(cfg, l, order, avail, count, st, iss).0) as int,
            iss - sum_liquid(available_plan(cfg, l, order, avail, count, st, iss).0),
        ) >= quotient(st as int, iss as int),
    decreases order.len(),
{
    if order.len() == 0 || avail == 0 || count == 0 {
    } else {
        let q = rate_of(cfg, st, iss);
        match available_match(l, q, order[0], avail) {
            None => {
                lemma_plan_quotient_monotone(cfg, l, order.drop_first(), avail, count, st, iss);
            },
            Some(m) => {
                let st1 = sat_sub(st, m.staking);
                let iss1 = sat_sub(iss, m.liquid);
                let rest = available_plan(cfg, l, order.drop_first(), (avail - m.staking) as u128, (count - 1) as nat, st1, iss1);
                lemma_sum_prepend(m, rest.0);
                lemma_sum_nonneg(rest.0);
                lemma_staking_after_prepend(st, m, rest.0);
                assert(q <= quotient(st as int, iss as int));
                lemma_match_step(q, order[0].extra_fee, m.liquid, st as int, iss as int);
                assert(m.staking == staking_for(q, order[0].extra_fee, m.liquid));
                lemma_plan_quotient_monotone(cfg, l, order.drop_first(), (avail - m.staking) as u128, (count - 1) as nat, st1, iss1);
            },
        }
    }
}

/// At an exact quotient, with no extra fees and liquid amounts of whole
/// worth, a plan leaves the quotient exact and equal.
proof fn lemma_plan_quotient_exact(
    cfg: Config,
    l: LedgerView,
    order: Seq<RequestView>,
    avail: u128,
    count: nat,
    st: u128,
    iss: u128,
)
    requires
        sum_liquid(available_plan(cfg, l, order, avail, count, st, iss).0) < iss,
        exact_quotient(st, iss),
        fee_free(order),
        exact_worth(quotient(st as int, iss as int), available_plan(cfg, l, order, avail, count, st, iss).0),
    ensures
        quotient(
            staking_after(st, available_plan(cfg, l, order, avail, count, st, iss).0) as int,
            iss - sum_liquid(available_plan(cfg, l, order, avail, count, st, iss).0),
        ) == quotient(st as int, iss as int),
    decreases order.len(),
{
    if order.len() == 0 || avail == 0 || count == 0 {
    } else {
        let q = rate_of(cfg, st, iss);
        assert(fee_free(order.drop_first())) by {
            assert forall|k: int| 0 <= k < order.drop_first().len() implies (#[trigger] order.drop_first()[k]).extra_fee.spec_parts() == 0 by {
                assert(order.drop_first()[k] == order[k + 1]);
            }
        }
        match available_match(l, q, order[0], avail) {
            None => {
                lemma_plan_quotient_exact(cfg, l, order.drop_first(), avail, count, st, iss);
            },
            Some(m) => {
                let st1 = sat_sub(st, m.staking);
                let iss1 = sat_sub(iss, m.liquid);
                let rest = available_plan(cfg, l, order.drop_first(), (avail - m.staking) as u128, (count - 1) as nat, st1, iss1);
                let plan = available_plan(cfg, l, order, avail, count, st, iss).0;
                assert(plan == seq![m] + rest.0);
                lemma_sum_prepend(m, rest.0);
                lemma_sum_nonneg(rest.0);
                lemma_staking_after_prepend(st, m, rest.0);
                assert(q == quotient(st as int, iss as int));
                assert(plan[0] == m);
                assert(order[0].extra_fee.spec_parts() == 0);
                lemma_exact_match_step(q, order[0].extra_fee, m.liquid, st as int, iss as int);
                assert(m.staking == staking_for(q, order[0].extra_fee, m.liquid));
                assert forall|k: int| 0 <= k < rest.0.len() implies (q * (#[trigger] rest.0[k]).liquid) % (FIXED_ONE as int) == 0 by {
                    assert(rest.0[k] == plan[k + 1]);
                }
                lemma_plan_quotient_exact(cfg, l, order.drop_first(), (avail - m.staking) as u128, (count - 1) as nat, st1, iss1);
            },
        }
    }
}

/// A walk over requests that give up no extra fee meets none that does.
pub proof fn lemma_fee_free_rotation(q: Seq<RequestView>, p: int, k: int)
    requires
        fee_free(q),
        0 <= p <= q.len(),
        0 <= k <= q.len(),
    ensures
        fee_free(rotation(q, p).take(k)),
{
    let r = rotation(q, p);
    let n = q.len() as int;
    assert forall|j: int| 0 <= j < r.take(k).len() implies (#[trigger] r.take(k)[j]).extra_fee.spec_parts() == 0 by {
        assert(r.take(k)[j] == r[j]);
        if j < n - p {
            assert(r[j] == q[p + j]);
        } else {
            assert(r[j] == q[j - (n - p)]);
        }
    }
}

/// Matching available staking currency with redeem requests never lowers
/// the exchange rate, wherever liquid currency is left and the new quotient
/// fits a rate.
pub proof fn law_matching_never_lowers_exchange_rate(
    cfg: Config,
    l: LedgerView,
    order: Seq<RequestView>,
    avail: u128,
    count: nat,
    st: u128,
    iss: u128,
)
    requires
        sum_liquid(available_plan(cfg, l, order, avail, count, st, iss).0) < iss,
        quotient(
            staking_after(st, available_plan(cfg, l, order, avail, count, st, iss).0) as int,
            iss - sum_liquid(available_plan(cfg, l, order, avail, count, st, iss).0),
        ) <= u128::MAX,
    ensures
        rate_of(
            cfg,
            staking_after(st, available_plan(cfg, l, order, avail, count, st, iss).0),
            (iss - sum_liquid(available_plan(cfg, l, order, avail, count, st, iss).0)) as u128,
        ) >= rate_of(cfg, st, iss),
{
    lemma_sum_nonneg(available_plan(cfg, l, order, avail, count, st, iss).0);
    lemma_plan_quotient_monotone(cfg, l, order, avail, count, st, iss);
}

/// At an exact rate, matching available staking currency with redeem
/// requests that give up no extra fee, each for a liquid amount of whole
/// worth, leaves the exchange rate as it was, wherever liquid currency is
/// left.
pub proof fn law_matching_at_exact_rate_keeps_exchange_rate(
    cfg: Config,
    l: LedgerView,
    order: Seq<RequestView>,
    avail: u128,
    count: nat,
    st: u128,
    iss: u128,
)
    requires
        sum_liquid(available_plan(cfg, l, order, avail, count, st, iss).0) < iss,
        exact_quotient(st, iss),
        fee_free(order),
        exact_worth(quotient(st as int, iss as int), available_plan(cfg, l, order, avail, count, st, iss).0),
    ensures
        rate_of(
            cfg,
            staking_after(st, available_plan(cfg, l, order, avail, count, st, iss).0),
            (iss - sum_liquid(available_plan(cfg, l, order, avail, count, st, iss).0)) as u128,
        ) == rate_of(cfg, st, iss),
{
    lemma_sum_nonneg(available_plan(cfg, l, order, avail, count, st, iss).0);
    lemma_plan_quotient_exact(cfg, l, order, avail, count, st, iss);
}

/// In a walk from the key `last`, request `a` comes before request `b`:
/// keys above `last` first, in key order, then the others in key order.
pub open spec fn walked_before(last: Seq<u8>, a: Seq<u8>, b: Seq<u8>) -> bool {
    if lex_lt(last, a) {
        !lex_lt(last, b) || lex_lt(a, b)
    } else {
        !lex_lt(last, b) && lex_lt(a, b)
    }
}

/// A walk from the key `last` holds every request once, ordered by key
/// comparison with `last` alone: it resumes after `last` whether or not a
/// request with that key is still there, and wraps around once.
pub proof fn law_walk_order(q: Seq<RequestView>, last: Seq<u8>)
    requires
        queue_wf(q),
    ensures
        walk_order(q, last).len() == q.len(),
        distinct_accounts(walk_order(q, last)),
        forall|k: int| 0 <= k < q.len() ==> in_order(walk_order(q, last), (#[trigger] q[k]).who@),
        forall|i: int, j: int|
            0 <= i < j < q.len() ==> walked_before(
                last,
                (#[trigger] walk_order(q, last)[i]).key,
                (#[trigger] walk_order(q, last)[j]).key,
            ),
{
    let p = upper_from(q, last, 0) as int;
    lemma_walk_split(q, last);
    lemma_walk_distinct(q, p);
    let w = walk_order(q, last);
    assert(w == rotation(q, p));
    let n = q.len() as int;
    assert forall|i: int, j: int| 0 <= i < j < q.len() implies walked_before(
        last,
        (#[trigger] w[i]).key,
        (#[trigger] w[j]).key,
    ) by {
        let i0 = if i < n - p { p + i } else { i - (n - p) };
        let j0 = if j < n - p { p + j } else { j - (n - p) };
        assert(w[i] == q[i0]);
        assert(w[j] == q[j0]);
        if i < n - p && j >= n - p {
            assert(lex_lt(last, q[i0].key));
            assert(!lex_lt(last, q[j0].key));
        } else {
            assert(i0 < j0);
            assert(lex_lt(q[i0].key, q[j0].key));
        }
    }
}

proof fn lemma_in_walk_has_request(q: Seq<RequestView>, last: Seq<u8>, w: Seq<u8>)
    requires
        queue_wf(q),
        in_order(walk_order(q, last), w),
    ensures
        has_request(q, w),
{
    let p = upper_from(q, last, 0) as int;
    lemma_walk_split(q, last);
    let r = walk_order(q, last);
    let n = q.len() as int;
    let k = choose|k: int| 0 <= k < r.len() && (#[trigger] r[k]).who@ == w;
    let k0 = if k < n - p { p + k } else { k - (n - p) };
    assert(r[k] == q[k0]);
}

/// A mint matches each redeem request at most once, never the minter's own,
/// and never more than the redeemer holds in reserve.
pub proof fn law_mint_matches_each_request_once(s: RuntimeView, minter: AccountId, q: u128, liquid: u128)
    requires
        queue_wf(s.queue),
    ensures
        sound_matches(mint_plan(s.ledger, minter, q, walk_order(s.queue, s.last_key), liquid).0, walk_order(s.queue, s.last_key), s.ledger),
        forall|i: int|
            0 <= i < mint_plan(s.ledger, minter, q, walk_order(s.queue, s.last_key), liquid).0.len() ==> {
                let m = #[trigger] mint_plan(s.ledger, minter, q, walk_order(s.queue, s.last_key), liquid).0[i];
                &&& has_request(s.queue, m.who@)
                &&& m.who@ != minter@
            },
{
    law_walk_order(s.queue, s.last_key);
    lemma_mint_plan_sound(s.ledger, minter, q, walk_order(s.queue, s.last_key), liquid);
    let ms = mint_plan(s.ledger, minter, q, walk_order(s.queue, s.last_key), liquid).0;
    assert forall|i: int| 0 <= i < ms.len() implies has_request(s.queue, (#[trigger] ms[i]).who@) by {
        lemma_in_walk_has_request(s.queue, s.last_key, ms[i].who@);
    }
}

/// Freed staking currency matches each redeem request at most once, and
/// never more than the redeemer holds in reserve.
pub proof fn law_available_matches_each_request_once(
    cfg: Config,
    s: RuntimeView,
    count: nat,
)
    requires
        queue_wf(s.queue),
    ensures
        sound_matches(
            available_plan(
                cfg,
                s.ledger,
                walk_order(s.queue, s.last_key),
                s.available_staking,
                count,
                s.total_staking,
                s.ledger.issuance(CurrencyId::LKSM),
            ).0,
            walk_order(s.queue, s.last_key),
            s.ledger,
        ),
        forall|i: int|
            0 <= i < available_plan(
                cfg,
                s.ledger,
                walk_order(s.queue, s.last_key),
                s.available_staking,
                count,
                s.total_staking,
                s.ledger.issuance(CurrencyId::LKSM),
            ).0.len() ==> has_request(
                s.queue,
                (#[trigger] available_plan(
                    cfg,
                    s.ledger,
                    walk_order(s.queue, s.last_key),
                    s.available_staking,
                    count,
                    s.total_staking,
                    s.ledger.issuance(CurrencyId::LKSM),
                ).0[i]).who@,
            ),
{
    law_walk_order(s.queue, s.last_key);
    let order = walk_order(s.queue, s.last_key);
    lemma_available_plan_sound(
        cfg,
        s.ledger,
        order,
        s.available_staking,
        count,
        s.total_staking,
        s.ledger.issuance(CurrencyId::LKSM),
    );
    let ms = available_plan(
        cfg,
        s.ledger,
        order,
        s.available_staking,
        count,
        s.total_staking,
        s.ledger.issuance(CurrencyId::LKSM),
    ).0;
    assert forall|i: int| 0 <= i < ms.len() implies has_request(s.queue, (#[trigger] ms[i]).who@) by {
        lemma_in_walk_has_request(s.queue, s.last_key, ms[i].who@);
    }
}

/// A redeem request that nothing matched, then cancelled, leaves the ledger,
/// the requests and the totals as they were before it.
pub proof fn law_cancel_restores(
    cfg: Config,
    s: RuntimeView,
    who: AccountId,
    amount: u128,
    fee: Permill,
    fee2: Permill,
)
    requires
        queue_wf(s.queue),
        redeem_request_key(who@).len() == 72,
        total_of(s.ledger.balance(who@, CurrencyId::LKSM)) <= s.ledger.issuance(CurrencyId::LKSM),
        s.ledger.balances.dom().contains((who@, CurrencyId::LKSM)),
        !has_request(s.queue, who@),
        s.available_staking == 0,
        request_redeem_outcome(cfg, s, who, amount, fee) is Ok,
    ensures
        ({
            let s1 = request_redeem_outcome(cfg, s, who, amount, fee)->Ok_0;
            let s2 = request_redeem_outcome(cfg, s1, who, 0, fee2)->Ok_0;
            &&& request_redeem_outcome(cfg, s1, who, 0, fee2) is Ok
            &&& s2.ledger == s.ledger
            &&& s2.queue == s.queue
            &&& s2.total_staking == s.total_staking
            &&& s2.available_staking == s.available_staking
            &&& s2.last_key == s.last_key
        }),
{
    let s1 = request_redeem_outcome(cfg, s, who, amount, fee)->Ok_0;
    assert(crate::model::requested_amount(s, who@) == 0);
    if amount == 0 {
        assert(s1 == s);
    } else {
        let r = RequestView { key: redeem_request_key(who@), who, amount, extra_fee: fee };
        lemma_put_wf(s.queue, r);
        let q1 = queue_put(s.queue, r);
        let l = s.ledger;
        let d = l.balance(who@, CurrencyId::LKSM);
        let l1 = l.reserve(CurrencyId::LKSM, who@, amount);
        assert(s1.ledger == l1);
        assert(s1.queue == q1);
        let s2 = request_redeem_outcome(cfg, s1, who, 0, fee2)->Ok_0;
        assert(request_of(q1, who@) == Some(r));
        assert(s2.ledger == l1.unreserve(CurrencyId::LKSM, who@, amount));
        assert(l1.balance(who@, CurrencyId::LKSM) == (crate::ledger::AccountData { free: (d.free - amount) as u128, reserved: (d.reserved + amount) as u128 }));
        assert(amount <= d.free);
        assert(l1.unreserve(CurrencyId::LKSM, who@, amount).balance(who@, CurrencyId::LKSM) == d);
        assert(s2.ledger.balances =~= l.balances);
        assert(s2.ledger == l);
        let p = crate::queue::lower_from(s.queue, r.key, 0) as int;
        crate::queue::lemma_lower_from(s.queue, r.key, 0);
        assert(q1 == s.queue.insert(p, r));
        assert(q1[p] == r);
        lemma_request_index(q1, p);
        assert(queue_remove(q1, who@) =~= s.queue);
    }
}

} // verus!
