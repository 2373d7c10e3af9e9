//! The executable runtime: the ledger, the redeem requests, the staking
//! totals and the event log, with the operations of the liquid-staking logic.

use crate::account::{hashed_key_for, lemma_account_eq, redeem_request_key, AccountId};
use crate::arith::{
    fixed_checked_from_rational, fixed_checked_mul_int, fixed_reciprocal, ExchangeRate, Permill,
};
use crate::events::{CurrencyId, Event, HomaLiteEvent};
use crate::ledger::{AccountData, Ledger, LedgerError, LedgerView};
use crate::model::{
    apply_available_match, apply_available_matches, available_plan, emit, exchange_rate, fee_complement,
    last_key_after, lemma_available_plan_sum, lemma_cap_bound, lemma_permill_le, lemma_sum_nonneg,
    lemma_sum_prefix_le, lemma_sum_take, liquid_cap, liquid_to_staking, mint_plan, process_outcome, rate_of,
    rotation, sat_sub, settle_request, staking_to_liquid, sum_staking, adjust_outcome, on_idle_outcome,
    release_unbonds, request_redeem_outcome, apply_mint_match, sound_matches, staking_after, sum_liquid, apply_mint_matches, mint_outcome,
    Config, HomaError, RedeemMatch, RuntimeView,
};
use crate::arith::{mul_div_floor, permill_mul, FIXED_ONE};
use crate::queue::{
    lemma_walk_split, queue_put, queue_remove, queue_wf, request_of, walk_order, RedeemQueue, RequestView,
};
use crate::laws::{
    exact_rate_of, law_matching_at_exact_rate_keeps_exchange_rate, law_matching_never_lowers_exchange_rate,
    law_restake_keeps_exchange_rate, lemma_fee_free_rotation,
};
use crate::model::{
    adjusted_state, exact_quotient, exact_state, exact_worth, fee_free, new_request, placed_request, process_plan,
    quotient, released_state, state_quotient,
};
use vstd::prelude::*;

verus! {

/// The runtime.
pub struct Runtime {
    config: Config,
    ledger: Ledger,
    queue: RedeemQueue,
    total_staking: u128,
    mint_cap: u128,
    available_staking: u128,
    last_key: Vec<u8>,
    unbonds: Vec<(u128, u32)>,
    events: Vec<Event>,
}

impl View for Runtime {
    type V = RuntimeView;

    closed spec fn view(&self) -> RuntimeView {
        RuntimeView {
            ledger: self.ledger@,
            queue: self.queue@,
            total_staking: self.total_staking,
            mint_cap: self.mint_cap,
            available_staking: self.available_staking,
            last_key: self.last_key@,
            unbonds: self.unbonds@,
            events: self.events@,
        }
    }
}

/// The rate for a total staking currency and a liquid issuance.
fn rate_from(cfg: &Config, staking: u128, issuance: u128) -> (r: u128)
    ensures
        r == rate_of(*cfg, staking, issuance),
{
    if issuance == 0 {
        return cfg.default_exchange_rate.into_inner();
    }
    match fixed_checked_from_rational(staking, issuance) {
        Some(v) => v,
        None => cfg.default_exchange_rate.into_inner(),
    }
}

/// `staking_to_liquid`, computed.
fn to_liquid(q: u128, amount: u128) -> (r: Option<u128>)
    ensures
        r == staking_to_liquid(q, amount),
{
    match fixed_reciprocal(q) {
        None => None,
        Some(rec) => fixed_checked_mul_int(rec, amount),
    }
}

/// `liquid_to_staking`, computed.
fn to_staking(q: u128, amount: u128) -> (r: Option<u128>)
    ensures
        r == liquid_to_staking(q, amount),
{
    fixed_checked_mul_int(q, amount)
}

/// `liquid_cap`, computed.
fn liquid_cap_of(q: u128, avail: u128) -> (r: u128)
    ensures
        r == liquid_cap(q, avail),
{
    match fixed_reciprocal(q) {
        None => 0,
        Some(rec) => match fixed_checked_mul_int(rec, avail) {
            None => u128::MAX,
            Some(c) => c,
        },
    }
}

/// `a - b`, or zero.
fn saturating_sub(a: u128, b: u128) -> (r: u128)
    ensures
        r == sat_sub(a, b),
{
    if a >= b {
        a - b
    } else {
        0
    }
}

impl Runtime {
    /// The ledger is consistent and the requests are in key order.
    pub closed spec fn wf(&self) -> bool {
        &&& self.ledger.wf()
        &&& queue_wf(self.queue@)
    }

    /// The constants of the runtime.
    pub closed spec fn cfg(&self) -> Config {
        self.config
    }

    /// An empty runtime: no balances, no requests, all totals zero.
    pub fn new(config: Config) -> (r: Runtime)
        ensures
            r.wf(),
            r.cfg() == config,
            forall|who: Seq<u8>, c: CurrencyId| #[trigger] r@.ledger.balance(who, c) == (AccountData {
                free: 0,
                reserved: 0,
            }),
            r@.ledger.ksm_issuance == 0,
            r@.ledger.lksm_issuance == 0,
            r@.queue == Seq::<RequestView>::empty(),
            r@.total_staking == 0,
            r@.mint_cap == 0,
            r@.available_staking == 0,
            r@.last_key == Seq::<u8>::empty(),
            r@.unbonds == Seq::<(u128, u32)>::empty(),
            r@.events == Seq::<Event>::empty(),
    {
        Runtime {
            config,
            ledger: Ledger::new(),
            queue: RedeemQueue::new(),
            total_staking: 0,
            mint_cap: 0,
            available_staking: 0,
            last_key: Vec::new(),
            unbonds: Vec::new(),
            events: Vec::new(),
        }
    }

    /// The events recorded so far.
    pub fn events(&self) -> (r: Vec<Event>)
        ensures
            r@ == self@.events,
    {
        self.events.clone()
    }

    /// Forgets the events recorded so far.
    pub fn reset_events(&mut self)
        requires
            old(self).wf(),
        ensures
            final(self).wf(),
            final(self).cfg() == old(self).cfg(),
            final(self)@ == (RuntimeView { events: Seq::empty(), ..old(self)@ }),
    {
        self.events = Vec::new();
    }

    /// The free balance of `who` in `c`.
    pub fn free_balance(&self, c: CurrencyId, who: &AccountId) -> (r: u128)
        requires
            self.wf(),
        ensures
            r == self@.ledger.balance(who@, c).free,
    {
        self.ledger.account(who, c).free
    }

    /// The reserved balance of `who` in `c`.
    pub fn reserved_balance(&self, c: CurrencyId, who: &AccountId) -> (r: u128)
        requires
            self.wf(),
        ensures
            r == self@.ledger.balance(who@, c).reserved,
    {
        self.ledger.account(who, c).reserved
    }

    /// The total issuance of `c`.
    pub fn total_issuance(&self, c: CurrencyId) -> (r: u128)
        ensures
            r == self@.ledger.issuance(c),
    {
        self.ledger.issuance(c)
    }

    /// The staking currency held for all liquid currency.
    pub fn total_staking_currency(&self) -> (r: u128)
        ensures
            r == self@.total_staking,
    {
        self.total_staking
    }

    /// The cap on the total staking currency that minting may reach.
    pub fn staking_currency_mint_cap(&self) -> (r: u128)
        ensures
            r == self@.mint_cap,
    {
        self.mint_cap
    }

    /// The staking currency available for redeeming.
    pub fn available_staking_balance(&self) -> (r: u128)
        ensures
            r == self@.available_staking,
    {
        self.available_staking
    }

    /// The storage key of the request walked last (empty before any).
    pub fn last_redeem_request_key_iterated(&self) -> (r: Vec<u8>)
        ensures
            r@ == self@.last_key,
    {
        self.last_key.clone()
    }

    /// The scheduled unbonds: amount and relay-chain block.
    pub fn scheduled_unbonds(&self) -> (r: Vec<(u128, u32)>)
        ensures
            r@ == self@.unbonds,
    {
        let mut r: Vec<(u128, u32)> = Vec::new();
        let mut i: usize = 0;
        while i < self.unbonds.len()
            invariant
                i <= self.unbonds@.len(),
                r@ == self.unbonds@.subrange(0, i as int),
            decreases self.unbonds@.len() - i,
        {
            let (a, b) = self.unbonds[i];
            r.push((a, b));
            i = i + 1;
            assert(r@ =~= self.unbonds@.subrange(0, i as int));
        }
        assert(self.unbonds@.subrange(0, i as int) =~= self.unbonds@);
        r
    }

    /// The redeem request of `who`: liquid amount and extra fee.
    pub fn redeem_requests(&self, who: &AccountId) -> (r: Option<(u128, Permill)>)
        requires
            self.wf(),
        ensures
            match request_of(self@.queue, who@) {
                Some(q) => r == Some((q.amount, q.extra_fee)),
                None => r is None,
            },
    {
        self.queue.get(who)
    }

    /// The accounts with a redeem request, in the order they are walked from the start.
    pub fn redeem_request_accounts(&self) -> (r: Vec<AccountId>)
        ensures
            r@.len() == self@.queue.len(),
            forall|i: int| 0 <= i < r@.len() ==> #[trigger] r@[i] == self@.queue[i].who,
    {
        let mut r: Vec<AccountId> = Vec::new();
        let mut i: usize = 0;
        while i < self.queue.len()
            invariant
                i <= self@.queue.len(),
                r@.len() == i,
                forall|j: int| 0 <= j < i ==> #[trigger] r@[j] == self@.queue[j].who,
            decreases self@.queue.len() - i,
        {
            r.push(self.queue.who_at(i));
            i = i + 1;
        }
        r
    }

    /// The exchange rate: staking currency per liquid currency.
    pub fn get_exchange_rate(&self) -> (r: ExchangeRate)
        ensures
            r.spec_inner() == exchange_rate(self.cfg(), self@),
    {
        ExchangeRate::from_inner(
            rate_from(&self.config, self.total_staking, self.ledger.issuance(CurrencyId::LKSM)),
        )
    }

    /// What `amount` of staking currency is worth in liquid currency now.
    pub fn convert_staking_to_liquid(&self, amount: u128) -> (r: Option<u128>)
        ensures
            r == staking_to_liquid(exchange_rate(self.cfg(), self@), amount),
    {
        to_liquid(self.get_exchange_rate().into_inner(), amount)
    }

    /// What `amount` of liquid currency is worth in staking currency now.
    pub fn convert_liquid_to_staking(&self, amount: u128) -> (r: Option<u128>)
        ensures
            r == liquid_to_staking(exchange_rate(self.cfg(), self@), amount),
    {
        to_staking(self.get_exchange_rate().into_inner(), amount)
    }

    /// Sets the total staking currency (an administrative operation); zero is refused.
    pub fn set_total_staking_currency(&mut self, amount: u128) -> (r: Result<(), HomaError>)
        requires
            old(self).wf(),
        ensures
            final(self).wf(),
            final(self).cfg() == old(self).cfg(),
            amount == 0 ==> r == Err::<(), HomaError>(HomaError::InvalidTotalStakingCurrency)
                && final(self)@ == old(self)@,
            amount != 0 ==> r is Ok && final(self)@ == emit(
                (RuntimeView { total_staking: amount, ..old(self)@ }),
                HomaLiteEvent::TotalStakingCurrencySet(amount),
            ),
    {
        if amount == 0 {
            return Err(HomaError::InvalidTotalStakingCurrency);
        }
        self.total_staking = amount;
        self.events.push(Event::HomaLite(HomaLiteEvent::TotalStakingCurrencySet(amount)));
        Ok(())
    }

    /// Sets the cap on the total staking currency (an administrative operation).
    pub fn set_minting_cap(&mut self, cap: u128)
        requires
            old(self).wf(),
        ensures
            final(self).wf(),
            final(self).cfg() == old(self).cfg(),
            final(self)@ == emit(
                (RuntimeView { mint_cap: cap, ..old(self)@ }),
                HomaLiteEvent::StakingCurrencyMintCapUpdated(cap),
            ),
    {
        self.mint_cap = cap;
        self.events.push(Event::HomaLite(HomaLiteEvent::StakingCurrencyMintCapUpdated(cap)));
    }

    /// Changes the free balance of `who` in `c` by `by`, minting or burning
    /// (an administrative operation).
    pub fn update_balance(&mut self, who: &AccountId, c: CurrencyId, by: i128) -> (r: Result<(), LedgerError>)
        requires
            old(self).wf(),
        ensures
            final(self).wf(),
            final(self).cfg() == old(self).cfg(),
            match old(self)@.ledger.update_balance(c, who@, by) {
                Some(v) => r is Ok && final(self)@ == (RuntimeView {
                    ledger: v,
                    events: old(self)@.events + old(self)@.ledger.update_balance_events(c, *who, by),
                    ..old(self)@
                }),
                None => r is Err && final(self)@ == old(self)@,
            },
    {
        self.ledger.update_balance(c, who, by, &mut self.events)
    }

    /// Schedules `amount` of staking currency to become available at relay-chain
    /// block `unlock_at` (an administrative operation).
    pub fn schedule_unbond(&mut self, amount: u128, unlock_at: u32)
        requires
            old(self).wf(),
        ensures
            final(self).wf(),
            final(self).cfg() == old(self).cfg(),
            final(self)@ == emit(
                (RuntimeView { unbonds: old(self)@.unbonds.push((amount, unlock_at)), ..old(self)@ }),
                HomaLiteEvent::ScheduledUnbondAdded(amount, unlock_at),
            ),
    {
        self.unbonds.push((amount, unlock_at));
        self.events.push(Event::HomaLite(HomaLiteEvent::ScheduledUnbondAdded(amount, unlock_at)));
    }

    /// Deletes the redeem request of `who` from storage, leaving its reserve
    /// as it is (a storage operation, not a cancellation).
    pub fn remove_redeem_request_entry(&mut self, who: &AccountId)
        requires
            old(self).wf(),
        ensures
            final(self).wf(),
            final(self).cfg() == old(self).cfg(),
            final(self)@ == (RuntimeView { queue: queue_remove(old(self)@.queue, who@), ..old(self)@ }),
    {
        self.queue.remove(who);
    }

    /// Settles the request of `who` after `liquid` of it was matched.
    fn settle(&mut self, who: &AccountId, liquid: u128)
        requires
            old(self).wf(),
        ensures
            final(self).wf(),
            final(self).cfg() == old(self).cfg(),
            final(self)@ == settle_request(old(self).cfg(), old(self)@, *who, liquid),
    {
        let ghost s0 = self@;
        match self.queue.get(who) {
            None => {},
            Some((amount, fee)) => {
                let ghost r = request_of(s0.queue, who@)->Some_0;
                proof {
                    let i = crate::queue::request_index(s0.queue, who@);
                    assert(s0.queue[i].who@ == who@);
                    lemma_account_eq(r.who, *who);
                }
                let left = if amount >= liquid {
                    amount - liquid
                } else {
                    0
                };
                if left == 0 || left < self.config.minimum_redeem_threshold {
                    self.ledger.unreserve(CurrencyId::LKSM, who, left, &mut self.events);
                    self.queue.remove(who);
                } else {
                    self.queue.put(who, left, fee);
                    assert((RequestView { amount: left, ..r }) == (RequestView {
                        key: redeem_request_key(who@),
                        who: *who,
                        amount: left,
                        extra_fee: fee,
                    }));
                }
            },
        }
    }

    /// The plan of matching available staking currency with the `k` requests
    /// walked from index `p` on.
    fn plan_available(&self, p: usize, k: usize, count: u32) -> (r: (Vec<RedeemMatch>, u128))
        requires
            self.wf(),
            p <= self@.queue.len(),
            k <= self@.queue.len(),
        ensures
            (r.0@, r.1) == available_plan(
                self.cfg(),
                self@.ledger,
                rotation(self@.queue, p as int).take(k as int),
                self@.available_staking,
                count as nat,
                self@.total_staking,
                self@.ledger.issuance(CurrencyId::LKSM),
            ),
    {
        let n = self.queue.len();
        let ghost order = rotation(self@.queue, p as int).take(k as int);
        let ghost cfg = self.cfg();
        let ghost l = self@.ledger;
        let ghost full = available_plan(
            cfg,
            l,
            order,
            self@.available_staking,
            count as nat,
            self@.total_staking,
            self@.ledger.issuance(CurrencyId::LKSM),
        );
        let mut ms: Vec<RedeemMatch> = Vec::new();
        let mut avail = self.available_staking;
        let mut left_count = count;
        let mut st = self.total_staking;
        let mut iss = self.ledger.issuance(CurrencyId::LKSM);
        let mut j: usize = 0;
        assert(order.subrange(0, k as int) =~= order);
        while j < k && avail > 0 && left_count > 0
            invariant
                self.wf(),
                n == self@.queue.len(),
                p <= n,
                k <= n,
                j <= k,
                order.len() == k,
                order == rotation(self@.queue, p as int).take(k as int),
                cfg == self.cfg(),
                l == self@.ledger,
                full.0 == ms@ + available_plan(cfg, l, order.subrange(j as int, k as int), avail, left_count as nat, st, iss).0,
                full.1 == available_plan(cfg, l, order.subrange(j as int, k as int), avail, left_count as nat, st, iss).1,
            decreases k - j,
        {
            let idx = if j < n - p {
                p + j
            } else {
                j - (n - p)
            };
            assert(order[j as int] == self@.queue[idx as int]);
            let who = self.queue.who_at(idx);
            let amount = self.queue.amount_at(idx);
            let fee = self.queue.fee_at(idx);
            let reserved = self.ledger.account(&who, CurrencyId::LKSM).reserved;
            let q = rate_from(&self.config, st, iss);
            let cap = liquid_cap_of(q, avail);
            let actual = if amount <= reserved {
                amount
            } else {
                reserved
            };
            let liquid = if actual <= cap {
                actual
            } else {
                cap
            };
            proof {
                lemma_cap_bound(q, avail, liquid);
            }
            let base = to_staking(q, liquid).unwrap();
            let parts = fee.complement_parts();
            let staking = permill_mul(parts, base);
            proof {
                lemma_permill_le(parts as int, base as int);
                assert(parts == fee_complement(fee));
                let rest = order.subrange(j as int, k as int);
                assert(rest[0] == order[j as int]);
                assert(rest.drop_first() =~= order.subrange(j + 1, k as int));
            }
            if liquid > 0 && staking > 0 {
                let m = RedeemMatch { who, liquid, staking };
                ms.push(m);
                proof {
                    let rest2 = available_plan(
                        cfg,
                        l,
                        order.subrange(j + 1, k as int),
                        (avail - staking) as u128,
                        (left_count - 1) as nat,
                        sat_sub(st, staking),
                        sat_sub(iss, liquid),
                    );
                    assert(full.0 =~= ms@ + rest2.0);
                }
                avail = avail - staking;
                left_count = left_count - 1;
                st = saturating_sub(st, staking);
                iss = saturating_sub(iss, liquid);
            }
            j = j + 1;
        }
        proof {
            let rest = available_plan(cfg, l, order.subrange(j as int, k as int), avail, left_count as nat, st, iss);
            assert(rest.0 =~= Seq::<RedeemMatch>::empty());
            assert(full.0 =~= ms@);
        }
        (ms, avail)
    }

    /// A copy of the runtime.
    fn duplicate(&self) -> (r: Runtime)
        ensures
            r@ == self@,
            r.wf() == self.wf(),
            r.cfg() == self.cfg(),
    {
        Runtime {
            config: self.config,
            ledger: self.ledger.duplicate(),
            queue: self.queue.duplicate(),
            total_staking: self.total_staking,
            mint_cap: self.mint_cap,
            available_staking: self.available_staking,
            last_key: self.last_key.clone(),
            unbonds: self.scheduled_unbonds(),
            events: self.events.clone(),
        }
    }

    /// Applies matches with available staking currency.
    fn apply_available(&mut self, ms: &Vec<RedeemMatch>, Ghost(order): Ghost<Seq<RequestView>>)
        requires
            old(self).wf(),
            old(self)@.ledger.issuance(CurrencyId::KSM) + sum_staking(ms@) <= u128::MAX,
            sound_matches(ms@, order, old(self)@.ledger),
        ensures
            final(self).wf(),
            final(self).cfg() == old(self).cfg(),
            final(self)@ == apply_available_matches(old(self).cfg(), old(self)@, ms@),
            final(self)@.ledger.issuance(CurrencyId::LKSM) == old(self)@.ledger.issuance(CurrencyId::LKSM)
                - sum_liquid(ms@),
            final(self)@.ledger.issuance(CurrencyId::KSM) == old(self)@.ledger.issuance(CurrencyId::KSM)
                + sum_staking(ms@),
            final(self)@.total_staking == staking_after(old(self)@.total_staking, ms@),
    {
        let ghost s0 = self@;
        let ghost cfg = self.cfg();
        let mut i: usize = 0;
        proof {
            assert(ms@.take(0) =~= Seq::<RedeemMatch>::empty());
        }
        while i < ms.len()
            invariant
                self.wf(),
                self.cfg() == cfg,
                i <= ms@.len(),
                self@ == apply_available_matches(cfg, s0, ms@.take(i as int)),
                self@.ledger.issuance(CurrencyId::KSM) == s0.ledger.issuance(CurrencyId::KSM) + sum_staking(ms@.take(i as int)),
                self@.ledger.issuance(CurrencyId::LKSM) == s0.ledger.issuance(CurrencyId::LKSM) - sum_liquid(ms@.take(i as int)),
                self@.total_staking == staking_after(s0.total_staking, ms@.take(i as int)),
                s0.ledger.issuance(CurrencyId::KSM) + sum_staking(ms@) <= u128::MAX,
                sound_matches(ms@, order, s0.ledger),
                forall|j: int| i <= j < ms@.len() ==> self@.ledger.balance((#[trigger] ms@[j]).who@, CurrencyId::LKSM)
                    == s0.ledger.balance(ms@[j].who@, CurrencyId::LKSM),
            decreases ms@.len() - i,
        {
            let m = ms[i];
            proof {
                lemma_sum_take(ms@, i as int);
                lemma_sum_prefix_le(ms@, i + 1);
                assert(ms@.take(i + 1).drop_last() =~= ms@.take(i as int));
                assert(ms@.take(i + 1).last() == m);
                assert(m.liquid <= s0.ledger.balance(m.who@, CurrencyId::LKSM).reserved);
            }
            let ghost prev = self@;
            let ts = saturating_sub(self.total_staking, m.staking);
            self.total_staking = ts;
            self.available_staking = saturating_sub(self.available_staking, m.staking);
            self.events.push(Event::HomaLite(HomaLiteEvent::TotalStakingCurrencySet(ts)));
            proof {
                self.ledger.lemma_balance_le_issuance(m.who@, CurrencyId::KSM);
            }
            let _ = self.ledger.deposit(CurrencyId::KSM, &m.who, m.staking, &mut self.events);
            assert(self@.ledger.issuance(CurrencyId::KSM) == prev.ledger.issuance(CurrencyId::KSM) + m.staking);
            proof {
                self.ledger.lemma_balance_le_issuance(m.who@, CurrencyId::LKSM);
            }
            let burnt = self.ledger.unreserve(CurrencyId::LKSM, &m.who, m.liquid, &mut self.events);
            let _ = self.ledger.withdraw(CurrencyId::LKSM, &m.who, burnt);
            let ghost mid = self@;
            assert(burnt == m.liquid);
            assert(mid.ledger.issuance(CurrencyId::KSM) == prev.ledger.issuance(CurrencyId::KSM) + m.staking);
            assert(mid.ledger.issuance(CurrencyId::LKSM) == prev.ledger.issuance(CurrencyId::LKSM) - m.liquid);
            self.settle(&m.who, m.liquid);
            assert(self@.ledger.issuance(CurrencyId::KSM) == mid.ledger.issuance(CurrencyId::KSM));
            assert(self@.ledger.issuance(CurrencyId::LKSM) == mid.ledger.issuance(CurrencyId::LKSM));
            assert forall|j: int| i + 1 <= j < ms@.len() implies self@.ledger.balance((#[trigger] ms@[j]).who@, CurrencyId::LKSM)
                == s0.ledger.balance(ms@[j].who@, CurrencyId::LKSM) by {
                assert(ms@[j].who@ != m.who@);
            }
            self.events.push(Event::HomaLite(HomaLiteEvent::Redeemed(m.who, m.staking, m.liquid)));
            proof {
                let l1 = prev.ledger.deposit(CurrencyId::KSM, m.who@, m.staking);
                assert(mid.events =~= prev.events.push(Event::HomaLite(HomaLiteEvent::TotalStakingCurrencySet(ts)))
                    + prev.ledger.deposit_events(CurrencyId::KSM, m.who, m.staking) + l1.unreserve_events(
                    CurrencyId::LKSM,
                    m.who,
                    m.liquid,
                ));
                assert(self@ == apply_available_match(cfg, prev, m));
            }
            i = i + 1;
        }
        proof {
            assert(ms@.take(ms@.len() as int) =~= ms@);
        }
    }

    /// Matches available staking currency with the `k` requests walked from
    /// index `p` on, at most `count` of them; refused, changing nothing, where
    /// paying the redeemers would overflow the issuance of the staking currency.
    fn process_available(&mut self, p: usize, k: usize, count: u32, set_last: bool) -> (r: Result<(), HomaError>)
        requires
            old(self).wf(),
            p <= old(self)@.queue.len(),
            k <= old(self)@.queue.len(),
        ensures
            final(self).wf(),
            final(self).cfg() == old(self).cfg(),
            match process_outcome(
                old(self).cfg(),
                old(self)@,
                rotation(old(self)@.queue, p as int).take(k as int),
                count as nat,
                set_last,
            ) {
                Some(v) => r is Ok && final(self)@ == v,
                None => r == Err::<(), HomaError>(HomaError::ArithmeticOverflow) && final(self)@ == old(self)@,
            },
            r is Ok ==> final(self)@.total_staking == staking_after(
                old(self)@.total_staking,
                available_plan(
                    old(self).cfg(),
                    old(self)@.ledger,
                    rotation(old(self)@.queue, p as int).take(k as int),
                    old(self)@.available_staking,
                    count as nat,
                    old(self)@.total_staking,
                    old(self)@.ledger.issuance(CurrencyId::LKSM),
                ).0,
            ),
            r is Ok ==> final(self)@.ledger.issuance(CurrencyId::LKSM) == old(self)@.ledger.issuance(
                CurrencyId::LKSM,
            ) - sum_liquid(
                available_plan(
                    old(self).cfg(),
                    old(self)@.ledger,
                    rotation(old(self)@.queue, p as int).take(k as int),
                    old(self)@.available_staking,
                    count as nat,
                    old(self)@.total_staking,
                    old(self)@.ledger.issuance(CurrencyId::LKSM),
                ).0,
            ),
            r is Ok && final(self)@.ledger.issuance(CurrencyId::LKSM) > 0 && quotient(
                final(self)@.total_staking as int,
                final(self)@.ledger.issuance(CurrencyId::LKSM) as int,
            ) <= u128::MAX ==> exchange_rate(final(self).cfg(), final(self)@) >= exchange_rate(
                old(self).cfg(),
                old(self)@,
            ),
            r is Ok && final(self)@.ledger.issuance(CurrencyId::LKSM) > 0 && exact_quotient(
                old(self)@.total_staking,
                old(self)@.ledger.issuance(CurrencyId::LKSM),
            ) && fee_free(rotation(old(self)@.queue, p as int).take(k as int)) && exact_worth(
                quotient(old(self)@.total_staking as int, old(self)@.ledger.issuance(CurrencyId::LKSM) as int),
                process_plan(old(self).cfg(), old(self)@, rotation(old(self)@.queue, p as int).take(k as int), count as nat),
            ) ==> exchange_rate(final(self).cfg(), final(self)@) == exchange_rate(old(self).cfg(), old(self)@),
    {
        let ghost s0 = self@;
        let (ms, left) = self.plan_available(p, k, count);
        proof {
            lemma_available_plan_sum(
                self.cfg(),
                s0.ledger,
                rotation(s0.queue, p as int).take(k as int),
                s0.available_staking,
                count as nat,
                s0.total_staking,
                s0.ledger.issuance(CurrencyId::LKSM),
            );
            lemma_sum_nonneg(ms@);
            crate::model::lemma_walk_distinct(s0.queue, p as int);
            let order = rotation(s0.queue, p as int).take(k as int);
            assert forall|a: int, b: int| 0 <= a < b < order.len() implies (#[trigger] order[a]).who@ != (#[trigger] order[b]).who@ by {
                assert(order[a] == rotation(s0.queue, p as int)[a]);
                assert(order[b] == rotation(s0.queue, p as int)[b]);
            }
            crate::model::lemma_available_plan_sound(
                self.cfg(),
                s0.ledger,
                order,
                s0.available_staking,
                count as nat,
                s0.total_staking,
                s0.ledger.issuance(CurrencyId::LKSM),
            );
        }
        let spent = self.available_staking - left;
        if spent > u128::MAX - self.ledger.issuance(CurrencyId::KSM) {
            return Err(HomaError::ArithmeticOverflow);
        }
        self.apply_available(&ms, Ghost(rotation(s0.queue, p as int).take(k as int)));
        if set_last && ms.len() > 0 {
            let last = ms.len() - 1;
            self.last_key = hashed_key_for(&ms[last].who);
        }
        proof {
            let order = rotation(s0.queue, p as int).take(k as int);
            let cfg = self.cfg();
            let iss0 = s0.ledger.issuance(CurrencyId::LKSM);
            let plan = available_plan(cfg, s0.ledger, order, s0.available_staking, count as nat, s0.total_staking, iss0).0;
            assert(self@.total_staking == staking_after(s0.total_staking, plan));
            assert(self@.ledger.issuance(CurrencyId::LKSM) == iss0 - sum_liquid(plan));
            if self@.ledger.issuance(CurrencyId::LKSM) > 0 {
                if quotient(self@.total_staking as int, self@.ledger.issuance(CurrencyId::LKSM) as int) <= u128::MAX {
                    law_matching_never_lowers_exchange_rate(cfg, s0.ledger, order, s0.available_staking, count as nat, s0.total_staking, iss0);
                }
                if exact_quotient(s0.total_staking, iss0) && fee_free(order) && exact_worth(quotient(s0.total_staking as int, iss0 as int), plan) {
                    law_matching_at_exact_rate_keeps_exchange_rate(cfg, s0.ledger, order, s0.available_staking, count as nat, s0.total_staking, iss0);
                }
            }
        }
        Ok(())
    }

    /// Adjusts the staking balance available for redeeming by `by`
    /// (saturating), then matches it with the requests walked from the last
    /// key, at most `max_num_matches` of them (an administrative operation).
    /// Refused, changing nothing, where paying the redeemers would overflow
    /// the issuance of the staking currency.
    pub fn adjust_available_staking_balance(&mut self, by: i128, max_num_matches: u32) -> (r: Result<(), HomaError>)
        requires
            old(self).wf(),
        ensures
            final(self).wf(),
            final(self).cfg() == old(self).cfg(),
            match adjust_outcome(old(self).cfg(), old(self)@, by, max_num_matches) {
                Some(v) => r is Ok && final(self)@ == v,
                None => r == Err::<(), HomaError>(HomaError::ArithmeticOverflow) && final(self)@ == old(self)@,
            },
            final(self)@.ledger.issuance(CurrencyId::LKSM) > 0 && state_quotient(final(self)@) <= u128::MAX
                ==> exchange_rate(final(self).cfg(), final(self)@) >= exchange_rate(old(self).cfg(), old(self)@),
            final(self)@.ledger.issuance(CurrencyId::LKSM) > 0 && exact_state(old(self)@) && fee_free(old(self)@.queue)
                && exact_worth(
                state_quotient(old(self)@),
                process_plan(
                    old(self).cfg(),
                    adjusted_state(old(self)@, by),
                    walk_order(old(self)@.queue, old(self)@.last_key),
                    max_num_matches as nat,
                ),
            ) ==> exchange_rate(final(self).cfg(), final(self)@) == exchange_rate(old(self).cfg(), old(self)@),
    {
        let snapshot = self.duplicate();
        let m: u128 = if by >= 0 {
            by as u128
        } else if by == i128::MIN {
            170141183460469231731687303715884105728u128
        } else {
            (-by) as u128
        };
        assert(m == LedgerView::magnitude(by));
        let a = if by >= 0 {
            if self.available_staking <= u128::MAX - m {
                self.available_staking + m
            } else {
                u128::MAX
            }
        } else {
            saturating_sub(self.available_staking, m)
        };
        self.available_staking = a;
        self.events.push(Event::HomaLite(HomaLiteEvent::AvailableStakingBalanceSet(a)));
        let p = self.queue.split_point(&self.last_key);
        let n = self.queue.len();
        proof {
            lemma_walk_split(self@.queue, self@.last_key);
            assert(rotation(self@.queue, p as int).take(n as int) =~= walk_order(self@.queue, self@.last_key));
            assert(self@ == adjusted_state(old(self)@, by));
            if fee_free(self@.queue) {
                lemma_fee_free_rotation(self@.queue, p as int, n as int);
            }
        }
        let r = self.process_available(p, n, max_num_matches, true);
        if r.is_err() {
            *self = snapshot;
        }
        r
    }

    /// The idle hook, at relay-chain block `relay_block`: unbonds due by then
    /// become available staking balance, which is then matched with the
    /// requests walked from the last key (unless paying them would overflow
    /// the issuance of the staking currency).
    pub fn on_idle(&mut self, relay_block: u32)
        requires
            old(self).wf(),
        ensures
            final(self).wf(),
            final(self).cfg() == old(self).cfg(),
            final(self)@ == on_idle_outcome(old(self).cfg(), old(self)@, relay_block),
            final(self)@.ledger.issuance(CurrencyId::LKSM) > 0 && state_quotient(final(self)@) <= u128::MAX
                ==> exchange_rate(final(self).cfg(), final(self)@) >= exchange_rate(old(self).cfg(), old(self)@),
            final(self)@.ledger.issuance(CurrencyId::LKSM) > 0 && exact_state(old(self)@) && fee_free(old(self)@.queue)
                && exact_worth(
                state_quotient(old(self)@),
                process_plan(
                    old(self).cfg(),
                    released_state(old(self)@, relay_block),
                    walk_order(old(self)@.queue, old(self)@.last_key),
                    old(self).cfg().max_matches_on_idle as nat,
                ),
            ) ==> exchange_rate(final(self).cfg(), final(self)@) == exchange_rate(old(self).cfg(), old(self)@),
    {
        let ghost s0 = self@;
        let ghost us = self@.unbonds;
        let mut kept: Vec<(u128, u32)> = Vec::new();
        let mut avail = self.available_staking;
        let ghost ev0 = self@.events;
        let mut i: usize = 0;
        proof {
            assert(us.take(0) =~= Seq::<(u128, u32)>::empty());
        }
        while i < self.unbonds.len()
            invariant
                self.wf(),
                self@ == (RuntimeView { events: self@.events, ..s0 }),
                self.cfg() == old(self).cfg(),
                i <= us.len(),
                us == self.unbonds@,
                kept@ == release_unbonds(us.take(i as int), relay_block, s0.available_staking).0,
                avail == release_unbonds(us.take(i as int), relay_block, s0.available_staking).1,
                self@.events == ev0 + release_unbonds(us.take(i as int), relay_block, s0.available_staking).2,
            decreases us.len() - i,
        {
            let (amount, at) = self.unbonds[i];
            proof {
                assert(us.take(i + 1).drop_last() =~= us.take(i as int));
                assert(us.take(i + 1).last() == (amount, at));
            }
            if at <= relay_block {
                avail = if avail <= u128::MAX - amount {
                    avail + amount
                } else {
                    u128::MAX
                };
                self.events.push(Event::HomaLite(HomaLiteEvent::ScheduledUnbondWithdrew(amount)));
                proof {
                    let prev = release_unbonds(us.take(i as int), relay_block, s0.available_staking);
                    assert(self@.events =~= ev0 + prev.2.push(Event::HomaLite(HomaLiteEvent::ScheduledUnbondWithdrew(amount))));
                }
            } else {
                kept.push((amount, at));
            }
            i = i + 1;
        }
        proof {
            assert(us.take(us.len() as int) =~= us);
        }
        self.unbonds = kept;
        self.available_staking = avail;
        let p = self.queue.split_point(&self.last_key);
        let n = self.queue.len();
        proof {
            lemma_walk_split(self@.queue, self@.last_key);
            assert(rotation(self@.queue, p as int).take(n as int) =~= walk_order(self@.queue, self@.last_key));
            assert(self@ == released_state(old(self)@, relay_block));
            if fee_free(self@.queue) {
                lemma_fee_free_rotation(self@.queue, p as int, n as int);
            }
        }
        let _ = self.process_available(p, n, self.config.max_matches_on_idle, true);
    }

    /// Requests that `amount` of the liquid currency of `who` be redeemed,
    /// giving up `extra_fee` of its worth to whoever matches it. The request
    /// replaces any earlier one; zero cancels it. It is matched at once with
    /// available staking currency as far as that goes.
    pub fn request_redeem(&mut self, who: &AccountId, amount: u128, extra_fee: Permill) -> (r: Result<(), HomaError>)
        requires
            old(self).wf(),
        ensures
            final(self).wf(),
            final(self).cfg() == old(self).cfg(),
            match request_redeem_outcome(old(self).cfg(), old(self)@, *who, amount, extra_fee) {
                Ok(v) => r is Ok && final(self)@ == v,
                Err(e) => r == Err::<(), HomaError>(e) && final(self)@ == old(self)@,
            },
            old(self)@.available_staking == 0 ==> final(self)@.total_staking == old(self)@.total_staking
                && final(self)@.ledger.issuance(CurrencyId::LKSM) == old(self)@.ledger.issuance(
                CurrencyId::LKSM,
            ) && exchange_rate(final(self).cfg(), final(self)@) == exchange_rate(
                old(self).cfg(),
                old(self)@,
            ),
            final(self)@.ledger.issuance(CurrencyId::LKSM) > 0 && state_quotient(final(self)@) <= u128::MAX
                ==> exchange_rate(final(self).cfg(), final(self)@) >= exchange_rate(old(self).cfg(), old(self)@),
            final(self)@.ledger.issuance(CurrencyId::LKSM) > 0 && exact_state(old(self)@) && extra_fee.spec_parts() == 0
                && exact_worth(
                state_quotient(old(self)@),
                process_plan(
                    old(self).cfg(),
                    placed_request(old(self)@, *who, amount, extra_fee),
                    seq![new_request(*who, amount, extra_fee)],
                    1,
                ),
            ) ==> exchange_rate(final(self).cfg(), final(self)@) == exchange_rate(old(self).cfg(), old(self)@),
    {
        let ghost s0 = self@;
        let existing = self.queue.get(who);
        let old_amount: u128 = match existing {
            Some((a, _)) => a,
            None => 0,
        };
        if amount == 0 {
            if let Some((a, _)) = existing {
                self.ledger.unreserve(CurrencyId::LKSM, who, a, &mut self.events);
                self.queue.remove(who);
                self.events.push(Event::HomaLite(HomaLiteEvent::RedeemRequestCancelled(*who, a)));
                proof {
                    let r = request_of(s0.queue, who@)->Some_0;
                    assert(self@.events =~= (s0.events + s0.ledger.unreserve_events(CurrencyId::LKSM, *who, r.amount)).push(
                        Event::HomaLite(HomaLiteEvent::RedeemRequestCancelled(*who, r.amount)),
                    ));
                }
            }
            return Ok(());
        }
        if amount < self.config.minimum_redeem_threshold {
            return Err(HomaError::AmountBelowMinimumThreshold);
        }
        let free = self.ledger.account(who, CurrencyId::LKSM).free;
        if amount > old_amount && amount - old_amount > free {
            return Err(HomaError::InsufficientBalance);
        }
        let snapshot = self.duplicate();
        if amount > old_amount {
            let _ = self.ledger.reserve(CurrencyId::LKSM, who, amount - old_amount, &mut self.events);
            assert(self@.events =~= s0.events + seq![
                Event::Tokens(crate::events::TokensEvent::Reserved(CurrencyId::LKSM, *who, (amount - old_amount) as u128)),
            ]);
        } else {
            self.ledger.unreserve(CurrencyId::LKSM, who, old_amount - amount, &mut self.events);
        }
        assert(old_amount == crate::model::requested_amount(s0, who@));
        self.queue.put(who, amount, extra_fee);
        let ghost ev_before = self@.events;
        self.events.push(Event::HomaLite(HomaLiteEvent::RedeemRequested(*who, amount, extra_fee, 0)));
        let key = hashed_key_for(who);
        let ghost rq = RequestView { key: key@, who: *who, amount, extra_fee };
        let i = match self.queue.position(who) {
            Some(i) => i,
            None => {
                proof {
                    crate::queue::lemma_put_wf(s0.queue, rq);
                }
                return Err(HomaError::ArithmeticOverflow);
            },
        };
        proof {
            crate::queue::lemma_put_wf(s0.queue, rq);
            assert(self@.queue[i as int] == rq);
            assert(rotation(self@.queue, i as int).take(1) =~= seq![rq]);
        }
        let ghost s1 = self@;
        assert(s1 == crate::model::emit(
            (RuntimeView {
                ledger: s1.ledger,
                queue: queue_put(s0.queue, rq),
                events: ev_before,
                ..s0
            }),
            HomaLiteEvent::RedeemRequested(*who, amount, extra_fee, 0),
        ));
        proof {
            assert(rq == new_request(*who, amount, extra_fee));
            assert(s1 == placed_request(s0, *who, amount, extra_fee));
            assert(s1.total_staking == s0.total_staking);
            assert(s1.ledger.issuance(CurrencyId::LKSM) == s0.ledger.issuance(CurrencyId::LKSM));
        }
        let r = self.process_available(i, 1, 1, false);
        if r.is_err() {
            *self = snapshot;
        }
        r
    }

    /// The plan of matching a mint of `liq0` liquid currency by `minter` at
    /// rate `q` with the requests walked from index `p` on; with what the
    /// matches pay in staking currency.
    fn plan_mint(&self, minter: &AccountId, q: u128, p: usize, liq0: u128, amount: u128) -> (r: (
        Vec<RedeemMatch>,
        u128,
        u128,
    ))
        requires
            self.wf(),
            p <= self@.queue.len(),
            q * liq0 <= amount * FIXED_ONE,
        ensures
            (r.0@, r.1) == mint_plan(
                self@.ledger,
                *minter,
                q,
                rotation(self@.queue, p as int),
                liq0,
            ),
            r.2 == sum_staking(r.0@),
            r.1 <= liq0,
            r.2 * FIXED_ONE <= q * (liq0 - r.1),
            forall|i: int| 0 <= i < r.0@.len() ==> (#[trigger] r.0@[i]).who@ != minter@,
    {
        let n = self.queue.len();
        let ghost order = rotation(self@.queue, p as int);
        let ghost l = self@.ledger;
        let ghost full = mint_plan(l, *minter, q, order, liq0);
        let mut ms: Vec<RedeemMatch> = Vec::new();
        let mut rem = liq0;
        let mut paid: u128 = 0;
        let mut j: usize = 0;
        assert(order.subrange(0, n as int) =~= order);
        while j < n && rem > 0
            invariant
                self.wf(),
                n == self@.queue.len(),
                p <= n,
                j <= n,
                order.len() == n,
                order == rotation(self@.queue, p as int),
                l == self@.ledger,
                q * liq0 <= amount * FIXED_ONE,
                rem <= liq0,
                paid == sum_staking(ms@),
                paid * FIXED_ONE <= q * (liq0 - rem),
                forall|i: int| 0 <= i < ms@.len() ==> (#[trigger] ms@[i]).who@ != minter@,
                full.0 == ms@ + mint_plan(l, *minter, q, order.subrange(j as int, n as int), rem).0,
                full.1 == mint_plan(l, *minter, q, order.subrange(j as int, n as int), rem).1,
            decreases n - j,
        {
            let idx = if j < n - p {
                p + j
            } else {
                j - (n - p)
            };
            assert(order[j as int] == self@.queue[idx as int]);
            let who = self.queue.who_at(idx);
            let amount_r = self.queue.amount_at(idx);
            let fee = self.queue.fee_at(idx);
            let reserved = self.ledger.account(&who, CurrencyId::LKSM).reserved;
            let actual = if amount_r <= reserved {
                amount_r
            } else {
                reserved
            };
            let liquid = if actual <= rem {
                actual
            } else {
                rem
            };
            proof {
                assert(q * liquid <= q * liq0) by (nonlinear_arith)
                    requires
                        liquid <= liq0,
                        0 <= q,
                ;
                assert(0 <= q * liquid) by (nonlinear_arith)
                    requires
                        0 <= liquid,
                        0 <= q,
                ;
                crate::model::lemma_div_le_of_le_mul(q * liquid, amount as int, FIXED_ONE as int);
            }
            let base = to_staking(q, liquid).unwrap();
            let parts = fee.complement_parts();
            let staking = permill_mul(parts, base);
            proof {
                lemma_permill_le(parts as int, base as int);
                assert(parts == fee_complement(fee));
                crate::model::lemma_div_mul_le(q * liquid, FIXED_ONE as int);
                let rest = order.subrange(j as int, n as int);
                assert(rest[0] == order[j as int]);
                assert(rest.drop_first() =~= order.subrange(j + 1, n as int));
            }
            let same = who.same(minter);
            if !same && liquid > 0 && staking > 0 {
                let m = RedeemMatch { who, liquid, staking };
                proof {
                    assert((paid + staking) * FIXED_ONE <= q * (liq0 - (rem - liquid))) by (nonlinear_arith)
                        requires
                            paid * FIXED_ONE <= q * (liq0 - rem),
                            staking <= base,
                            base * FIXED_ONE <= q * liquid,
                            liquid <= rem,
                    ;
                    assert(q * (liq0 - (rem - liquid)) <= q * liq0) by (nonlinear_arith)
                        requires
                            liquid <= rem,
                            rem <= liq0,
                            0 <= q,
                    ;
                    assert((paid + staking) * FIXED_ONE <= amount * FIXED_ONE);
                    assert(paid + staking <= amount) by (nonlinear_arith)
                        requires
                            (paid + staking) * FIXED_ONE <= amount * FIXED_ONE,
                    ;
                    crate::model::lemma_sum_take(ms@.push(m), ms@.len() as int);
                    assert(ms@.push(m).take(ms@.len() as int) =~= ms@);
                    assert(ms@.push(m).take(ms@.len() as int + 1) =~= ms@.push(m));
                }
                ms.push(m);
                proof {
                    let rest2 = mint_plan(l, *minter, q, order.subrange(j + 1, n as int), (rem - liquid) as u128);
                    assert(full.0 =~= ms@ + rest2.0);
                }
                paid = paid + staking;
                rem = rem - liquid;
            }
            j = j + 1;
        }
        proof {
            let rest = mint_plan(l, *minter, q, order.subrange(j as int, n as int), rem);
            assert(rest.0 =~= Seq::<RedeemMatch>::empty());
            assert(full.0 =~= ms@);
        }
        (ms, rem, paid)
    }

    /// Applies the matches of a mint by `minter`.
    fn apply_mint(&mut self, minter: &AccountId, ms: &Vec<RedeemMatch>)
        requires
            old(self).wf(),
            sum_staking(ms@) <= old(self)@.ledger.balance(minter@, CurrencyId::KSM).free,
            forall|i: int| 0 <= i < ms@.len() ==> (#[trigger] ms@[i]).who@ != minter@,
        ensures
            final(self).wf(),
            final(self).cfg() == old(self).cfg(),
            final(self)@ == apply_mint_matches(old(self).cfg(), old(self)@, *minter, ms@),
            final(self)@.ledger.balance(minter@, CurrencyId::KSM).free == old(self)@.ledger.balance(
                minter@,
                CurrencyId::KSM,
            ).free - sum_staking(ms@),
            final(self)@.ledger.issuance(CurrencyId::LKSM) == old(self)@.ledger.issuance(CurrencyId::LKSM),
            final(self)@.total_staking == old(self)@.total_staking,
            final(self)@.mint_cap == old(self)@.mint_cap,
    {
        let ghost s0 = self@;
        let ghost cfg = self.cfg();
        let ghost free0 = s0.ledger.balance(minter@, CurrencyId::KSM).free;
        let mut i: usize = 0;
        proof {
            assert(ms@.take(0) =~= Seq::<RedeemMatch>::empty());
        }
        while i < ms.len()
            invariant
                self.wf(),
                self.cfg() == cfg,
                i <= ms@.len(),
                self@ == apply_mint_matches(cfg, s0, *minter, ms@.take(i as int)),
                self@.ledger.balance(minter@, CurrencyId::KSM).free == free0 - sum_staking(ms@.take(i as int)),
                self@.ledger.issuance(CurrencyId::LKSM) == s0.ledger.issuance(CurrencyId::LKSM),
                self@.total_staking == s0.total_staking,
                self@.mint_cap == s0.mint_cap,
                sum_staking(ms@) <= free0,
                forall|j: int| 0 <= j < ms@.len() ==> (#[trigger] ms@[j]).who@ != minter@,
            decreases ms@.len() - i,
        {
            let m = ms[i];
            proof {
                lemma_sum_take(ms@, i as int);
                lemma_sum_prefix_le(ms@, i + 1);
                assert(ms@.take(i + 1).drop_last() =~= ms@.take(i as int));
                assert(ms@.take(i + 1).last() == m);
                assert(m.who@ != minter@);
            }
            let ghost prev = self@;
            proof {
                self.ledger.lemma_balance_le_issuance(m.who@, CurrencyId::LKSM);
                self.ledger.lemma_balance_le_issuance(minter@, CurrencyId::LKSM);
            }
            self.ledger.repatriate_reserved(CurrencyId::LKSM, &m.who, minter, m.liquid, &mut self.events);
            assert(self@.ledger.issuance(CurrencyId::LKSM) == prev.ledger.issuance(CurrencyId::LKSM));
            let ghost l1 = self@.ledger;
            let _ = self.ledger.transfer(CurrencyId::KSM, minter, &m.who, m.staking, &mut self.events);
            let ghost mid = self@;
            assert(mid.ledger.issuance(CurrencyId::LKSM) == prev.ledger.issuance(CurrencyId::LKSM));
            assert(mid.ledger.balance(minter@, CurrencyId::KSM).free == prev.ledger.balance(minter@, CurrencyId::KSM).free - m.staking);
            self.settle(&m.who, m.liquid);
            assert(self@.ledger.issuance(CurrencyId::LKSM) == mid.ledger.issuance(CurrencyId::LKSM));
            assert(self@.ledger.balance(minter@, CurrencyId::KSM) == mid.ledger.balance(minter@, CurrencyId::KSM));
            self.events.push(Event::HomaLite(HomaLiteEvent::Redeemed(m.who, m.staking, m.liquid)));
            proof {
                assert(mid.events =~= prev.events + prev.ledger.repatriate_events(CurrencyId::LKSM, m.who, *minter, m.liquid)
                    + l1.transfer_events(CurrencyId::KSM, *minter, m.who, m.staking));
                assert(self@ == apply_mint_match(cfg, prev, *minter, m));
            }
            i = i + 1;
        }
        proof {
            assert(ms@.take(ms@.len() as int) =~= ms@);
        }
    }

    /// Mints liquid currency for `amount` of the staking currency of `who`.
    /// The liquid worth of `amount` is first matched with the redeem requests
    /// walked from the last key: for each, `who` receives the redeemer's
    /// reserved liquid currency and pays its worth, less the redeemer's extra
    /// fee, in staking currency. What is left is staked through the relay
    /// chain, within the cap, for newly minted liquid currency.
    pub fn mint(&mut self, who: &AccountId, amount: u128) -> (r: Result<(), HomaError>)
        requires
            old(self).wf(),
        ensures
            final(self).wf(),
            final(self).cfg() == old(self).cfg(),
            match mint_outcome(old(self).cfg(), old(self)@, *who, amount) {
                Ok(v) => r is Ok && final(self)@ == v,
                Err(e) => r == Err::<(), HomaError>(e) && final(self)@ == old(self)@,
            },
            r is Ok ==> old(self)@.ledger.balance(who@, CurrencyId::KSM).free - amount <= final(self)@.ledger.balance(
                who@,
                CurrencyId::KSM,
            ).free <= old(self)@.ledger.balance(who@, CurrencyId::KSM).free,
            r is Ok && final(self)@.total_staking == old(self)@.total_staking ==> final(self)@.ledger.issuance(
                CurrencyId::LKSM,
            ) == old(self)@.ledger.issuance(CurrencyId::LKSM),
            r is Ok && exact_rate_of(old(self)@.total_staking, old(self)@.ledger.issuance(CurrencyId::LKSM))
                ==> exchange_rate(final(self).cfg(), final(self)@) == exchange_rate(old(self).cfg(), old(self)@),
    {
        let ghost s0 = self@;
        if amount < self.config.minimum_mint_threshold {
            return Err(HomaError::AmountBelowMinimumThreshold);
        }
        let free = self.ledger.account(who, CurrencyId::KSM).free;
        if free < amount {
            return Err(HomaError::InsufficientBalance);
        }
        let q = self.get_exchange_rate().into_inner();
        let liq0 = match to_liquid(q, amount) {
            None => {
                return Err(HomaError::ArithmeticOverflow);
            },
            Some(l) => l,
        };
        proof {
            crate::model::lemma_mint_bound(q, amount);
        }
        let p = self.queue.split_point(&self.last_key);
        proof {
            lemma_walk_split(self@.queue, self@.last_key);
            assert(rotation(self@.queue, p as int) =~= walk_order(self@.queue, self@.last_key));
        }
        let (ms, rem, paid) = self.plan_mint(who, q, p, liq0, amount);
        proof {
            assert(q * rem <= q * liq0) by (nonlinear_arith)
                requires
                    rem <= liq0,
                    0 <= q,
            ;
            assert(0 <= q * rem) by (nonlinear_arith)
                requires
                    0 <= rem,
                    0 <= q,
            ;
            crate::model::lemma_div_le_of_le_mul(q * rem, amount as int, FIXED_ONE as int);
            crate::model::lemma_div_mul_le(q * rem, FIXED_ONE as int);
        }
        let sr = to_staking(q, rem).unwrap();
        proof {
            assert((paid + sr) * FIXED_ONE <= amount * FIXED_ONE) by (nonlinear_arith)
                requires
                    paid * FIXED_ONE <= q * (liq0 - rem),
                    sr * FIXED_ONE <= q * rem,
                    q * liq0 <= amount * FIXED_ONE,
            ;
            assert(paid + sr <= amount) by (nonlinear_arith)
                requires
                    (paid + sr) * FIXED_ONE <= amount * FIXED_ONE,
            ;
            crate::model::lemma_restake_bound(q, rem);
        }
        let lm = if sr > 0 {
            to_liquid(q, sr).unwrap()
        } else {
            0
        };
        if sr > 0 && (self.total_staking > self.mint_cap || sr > self.mint_cap - self.total_staking) {
            return Err(HomaError::ExceedStakingCurrencyMintCap);
        }
        if lm > u128::MAX - self.ledger.issuance(CurrencyId::LKSM) {
            return Err(HomaError::ArithmeticOverflow);
        }
        self.apply_mint(who, &ms);
        if ms.len() > 0 {
            let last = ms.len() - 1;
            self.last_key = hashed_key_for(&ms[last].who);
        }
        let ghost s2 = self@;
        let ghost free2 = s2.ledger.balance(who@, CurrencyId::KSM).free;
        assert(free2 == s0.ledger.balance(who@, CurrencyId::KSM).free - paid);
        let got = (liq0 - rem) + lm;
        if sr > 0 {
            let _ = self.ledger.withdraw(CurrencyId::KSM, who, sr);
            let _ = self.ledger.deposit(CurrencyId::LKSM, who, lm, &mut self.events);
            self.total_staking = self.total_staking + sr;
            self.events.push(Event::HomaLite(HomaLiteEvent::TotalStakingCurrencySet(self.total_staking)));
            self.events.push(Event::HomaLite(HomaLiteEvent::Minted(*who, paid + sr, got)));
        } else {
            self.events.push(Event::HomaLite(HomaLiteEvent::Minted(*who, paid, got)));
        }
        proof {
            assert(s2 == last_key_after(apply_mint_matches(self.cfg(), s0, *who, ms@), ms@));
            if sr > 0 && exact_rate_of(s0.total_staking, s0.ledger.issuance(CurrencyId::LKSM)) {
                law_restake_keeps_exchange_rate(self.cfg(), s0.total_staking, s0.ledger.issuance(CurrencyId::LKSM), sr);
            }
        }
        Ok(())
    }
}

} // verus!
