//! A two-currency token ledger: free and reserved balances per account, and
//! the total issuance of each currency, which always equals the sum of all
//! balances in it.

use crate::account::AccountId;
use crate::events::{CurrenciesEvent, CurrencyId, Event, TokensEvent};
use vstd::prelude::*;

verus! {

/// Why a change of balance was refused.
#[derive(Clone, Copy, Debug, PartialEq, Eq, Structural)]
pub enum LedgerError {
    /// The issuance would overflow.
    Overflow,
    /// The free balance is too low.
    BalanceTooLow,
}

/// The balances of one account in one currency.
#[derive(Clone, Copy, Debug, PartialEq, Eq, Structural)]
pub struct AccountData {
    pub free: u128,
    pub reserved: u128,
}

/// Free plus reserved.
pub open spec fn total_of(d: AccountData) -> int {
    d.free + d.reserved
}

/// The empty account.
pub open spec fn empty_account() -> AccountData {
    AccountData { free: 0, reserved: 0 }
}

/// What the ledger holds: every account's balances in each currency (the
/// empty account for those it never saw) and the issuance of each currency.
pub struct LedgerView {
    pub balances: Map<(Seq<u8>, CurrencyId), AccountData>,
    pub ksm_issuance: u128,
    pub lksm_issuance: u128,
}

impl LedgerView {
    pub open spec fn balance(self, who: Seq<u8>, c: CurrencyId) -> AccountData {
        self.balances[(who, c)]
    }

    pub open spec fn issuance(self, c: CurrencyId) -> u128 {
        match c {
            CurrencyId::KSM => self.ksm_issuance,
            CurrencyId::LKSM => self.lksm_issuance,
        }
    }

    /// The ledger with the account `who` in `c` set to `d`, the issuance of
    /// `c` following.
    pub open spec fn with_balance(self, who: Seq<u8>, c: CurrencyId, d: AccountData) -> LedgerView {
        let iss = (self.issuance(c) - total_of(self.balance(who, c)) + total_of(d)) as u128;
        LedgerView {
            balances: self.balances.insert((who, c), d),
            ksm_issuance: if c == CurrencyId::KSM { iss } else { self.ksm_issuance },
            lksm_issuance: if c == CurrencyId::LKSM { iss } else { self.lksm_issuance },
        }
    }

    /// `amount` more in the free balance; new issuance.
    pub open spec fn deposit(self, c: CurrencyId, who: Seq<u8>, amount: u128) -> LedgerView {
        let d = self.balance(who, c);
        self.with_balance(who, c, AccountData { free: (d.free + amount) as u128, ..d })
    }

    /// `amount` less in the free balance; the issuance falls with it.
    pub open spec fn withdraw(self, c: CurrencyId, who: Seq<u8>, amount: u128) -> LedgerView {
        let d = self.balance(who, c);
        self.with_balance(who, c, AccountData { free: (d.free - amount) as u128, ..d })
    }

    /// `amount` of free balance moved from `from` to `to`.
    pub open spec fn transfer(self, c: CurrencyId, from: Seq<u8>, to: Seq<u8>, amount: u128) -> LedgerView {
        if from == to || amount == 0 {
            self
        } else {
            let v1 = self.withdraw(c, from, amount);
            v1.deposit(c, to, amount)
        }
    }

    /// `amount` moved from free to reserved.
    pub open spec fn reserve(self, c: CurrencyId, who: Seq<u8>, amount: u128) -> LedgerView {
        let d = self.balance(who, c);
        self.with_balance(
            who,
            c,
            AccountData { free: (d.free - amount) as u128, reserved: (d.reserved + amount) as u128 },
        )
    }

    /// How much of `amount` can be taken from the reserved balance.
    pub open spec fn reserved_part(self, c: CurrencyId, who: Seq<u8>, amount: u128) -> u128 {
        let r = self.balance(who, c).reserved;
        if amount <= r {
            amount
        } else {
            r
        }
    }

    /// Up to `amount` moved from reserved back to free.
    pub open spec fn unreserve(self, c: CurrencyId, who: Seq<u8>, amount: u128) -> LedgerView {
        let d = self.balance(who, c);
        let actual = self.reserved_part(c, who, amount);
        self.with_balance(
            who,
            c,
            AccountData { free: (d.free + actual) as u128, reserved: (d.reserved - actual) as u128 },
        )
    }

    /// Up to `amount` of the reserved balance of `from` moved to the free
    /// balance of `to`.
    pub open spec fn repatriate_reserved(self, c: CurrencyId, from: Seq<u8>, to: Seq<u8>, amount: u128) -> LedgerView {
        if from == to {
            self.unreserve(c, from, amount)
        } else {
            let actual = self.reserved_part(c, from, amount);
            let d = self.balance(from, c);
            let v1 = self.with_balance(
                from,
                c,
                AccountData { reserved: (d.reserved - actual) as u128, ..d },
            );
            let t = v1.balance(to, c);
            v1.with_balance(to, c, AccountData { free: (t.free + actual) as u128, ..t })
        }
    }

    /// The size of a signed change of balance.
    pub open spec fn magnitude(by: i128) -> u128 {
        if by >= 0 {
            by as u128
        } else {
            (-(by as int)) as u128
        }
    }

    /// A signed change of the free balance of `who`: `None` where a credit
    /// would overflow the issuance or a debit exceeds the free balance.
    pub open spec fn update_balance(self, c: CurrencyId, who: Seq<u8>, by: i128) -> Option<LedgerView> {
        let m = Self::magnitude(by);
        if by >= 0 {
            if self.issuance(c) + m <= u128::MAX {
                Some(self.deposit(c, who, m))
            } else {
                None
            }
        } else if m <= self.balance(who, c).free {
            Some(self.withdraw(c, who, m))
        } else {
            None
        }
    }

    pub open spec fn update_balance_events(self, c: CurrencyId, who: AccountId, by: i128) -> Seq<Event> {
        let m = Self::magnitude(by);
        (if by > 0 { self.endowed_events(c, who, m) } else { seq![] }) + seq![
            Event::Currencies(CurrenciesEvent::BalanceUpdated(c, who, by)),
        ]
    }

    /// The `Endowed` event, where `who` held nothing of `c` and gets `amount`.
    pub open spec fn endowed_events(self, c: CurrencyId, who: AccountId, amount: u128) -> Seq<Event> {
        if total_of(self.balance(who@, c)) == 0 && amount > 0 {
            seq![Event::Tokens(TokensEvent::Endowed(c, who, amount))]
        } else {
            seq![]
        }
    }

    pub open spec fn deposit_events(self, c: CurrencyId, who: AccountId, amount: u128) -> Seq<Event> {
        self.endowed_events(c, who, amount) + seq![Event::Currencies(CurrenciesEvent::Deposited(c, who, amount))]
    }

    pub open spec fn transfer_events(self, c: CurrencyId, from: AccountId, to: AccountId, amount: u128) -> Seq<Event> {
        if from@ == to@ || amount == 0 {
            seq![]
        } else {
            self.endowed_events(c, to, amount) + seq![Event::Tokens(TokensEvent::Transfer(c, from, to, amount))]
        }
    }

    pub open spec fn unreserve_events(self, c: CurrencyId, who: AccountId, amount: u128) -> Seq<Event> {
        let actual = self.reserved_part(c, who@, amount);
        if actual > 0 {
            seq![Event::Tokens(TokensEvent::Unreserved(c, who, actual))]
        } else {
            seq![]
        }
    }

    pub open spec fn repatriate_events(self, c: CurrencyId, from: AccountId, to: AccountId, amount: u128) -> Seq<Event> {
        if from@ == to@ {
            self.unreserve_events(c, from, amount)
        } else {
            let actual = self.reserved_part(c, from@, amount);
            self.endowed_events(c, to, actual) + seq![
                Event::Tokens(TokensEvent::ReserveRepatriated(c, from, to, actual)),
            ]
        }
    }
}

#[derive(Clone, Copy)]
struct LedgerEntry {
    who: AccountId,
    currency: CurrencyId,
    data: AccountData,
}

spec fn key_of(e: LedgerEntry) -> (Seq<u8>, CurrencyId) {
    (e.who@, e.currency)
}

spec fn has_key(s: Seq<LedgerEntry>, k: (Seq<u8>, CurrencyId)) -> bool {
    exists|i: int| 0 <= i < s.len() && #[trigger] key_of(s[i]) == k
}

spec fn data_of(s: Seq<LedgerEntry>, k: (Seq<u8>, CurrencyId)) -> AccountData {
    if has_key(s, k) {
        s[choose|i: int| 0 <= i < s.len() && #[trigger] key_of(s[i]) == k].data
    } else {
        empty_account()
    }
}

spec fn share_of(e: LedgerEntry, c: CurrencyId) -> int {
    if e.currency == c {
        total_of(e.data)
    } else {
        0
    }
}

spec fn total_in(s: Seq<LedgerEntry>, c: CurrencyId) -> int
    decreases s.len(),
{
    if s.len() == 0 {
        0
    } else {
        total_in(s.drop_last(), c) + share_of(s.last(), c)
    }
}

spec fn unique_keys(s: Seq<LedgerEntry>) -> bool {
    forall|i: int, j: int|
        0 <= i < s.len() && 0 <= j < s.len() && i != j ==> #[trigger] key_of(s[i]) != #[trigger] key_of(s[j])
}

proof fn lemma_data_at(s: Seq<LedgerEntry>, i: int)
    requires
        unique_keys(s),
        0 <= i < s.len(),
    ensures
        data_of(s, key_of(s[i])) == s[i].data,
{
    let k = key_of(s[i]);
    assert(has_key(s, k));
    let j = choose|j: int| 0 <= j < s.len() && #[trigger] key_of(s[j]) == k;
    assert(j == i);
}

proof fn lemma_total_update(s: Seq<LedgerEntry>, i: int, e: LedgerEntry, c: CurrencyId)
    requires
        0 <= i < s.len(),
    ensures
        total_in(s.update(i, e), c) == total_in(s, c) - share_of(s[i], c) + share_of(e, c),
    decreases s.len(),
{
    let t = s.update(i, e);
    if i == s.len() - 1 {
        assert(t.drop_last() =~= s.drop_last());
    } else {
        assert(t.drop_last() =~= s.drop_last().update(i, e));
        lemma_total_update(s.drop_last(), i, e, c);
    }
}

proof fn lemma_total_push(s: Seq<LedgerEntry>, e: LedgerEntry, c: CurrencyId)
    ensures
        total_in(s.push(e), c) == total_in(s, c) + share_of(e, c),
{
    assert(s.push(e).drop_last() =~= s);
}

proof fn lemma_share_of_le_total(s: Seq<LedgerEntry>, i: int, c: CurrencyId)
    requires
        0 <= i < s.len(),
    ensures
        0 <= share_of(s[i], c) <= total_in(s, c),
    decreases s.len(),
{
    lemma_total_nonneg(s.drop_last(), c);
    if i < s.len() - 1 {
        lemma_share_of_le_total(s.drop_last(), i, c);
    }
}

proof fn lemma_total_nonneg(s: Seq<LedgerEntry>, c: CurrencyId)
    ensures
        0 <= total_in(s, c),
    decreases s.len(),
{
    if s.len() > 0 {
        lemma_total_nonneg(s.drop_last(), c);
    }
}

/// The token ledger.
pub struct Ledger {
    entries: Vec<LedgerEntry>,
    ksm_issuance: u128,
    lksm_issuance: u128,
}

impl View for Ledger {
    type V = LedgerView;

    closed spec fn view(&self) -> LedgerView {
        LedgerView {
            balances: Map::new(
                |k: (Seq<u8>, CurrencyId)| true,
                |k: (Seq<u8>, CurrencyId)| data_of(self.entries@, k),
            ),
            ksm_issuance: self.ksm_issuance,
            lksm_issuance: self.lksm_issuance,
        }
    }
}

impl Ledger {
    /// No account holds the same currency twice, and the issuance of each
    /// currency is the sum of all balances in it.
    pub closed spec fn wf(&self) -> bool {
        &&& unique_keys(self.entries@)
        &&& self.ksm_issuance == total_in(self.entries@, CurrencyId::KSM)
        &&& self.lksm_issuance == total_in(self.entries@, CurrencyId::LKSM)
    }

    /// An account holds at most the issuance of a currency.
    pub proof fn lemma_balance_le_issuance(&self, who: Seq<u8>, c: CurrencyId)
        requires
            self.wf(),
        ensures
            total_of(self@.balance(who, c)) <= self@.issuance(c),
    {
        let s = self.entries@;
        lemma_total_nonneg(s, c);
        if has_key(s, (who, c)) {
            let i = choose|i: int| 0 <= i < s.len() && #[trigger] key_of(s[i]) == (who, c);
            lemma_data_at(s, i);
            lemma_share_of_le_total(s, i, c);
        }
    }

    /// The empty ledger.
    pub fn new() -> (r: Ledger)
        ensures
            r.wf(),
            forall|who: Seq<u8>, c: CurrencyId| #[trigger] r@.balance(who, c) == empty_account(),
            r@.ksm_issuance == 0,
            r@.lksm_issuance == 0,
    {
        let r = Ledger { entries: Vec::new(), ksm_issuance: 0, lksm_issuance: 0 };
        assert forall|who: Seq<u8>, c: CurrencyId| #[trigger] r@.balance(who, c) == empty_account() by {
            assert(!has_key(r.entries@, (who, c)));
        }
        r
    }

    fn position(&self, who: &AccountId, c: CurrencyId) -> (r: Option<usize>)
        ensures
            match r {
                Some(i) => i < self.entries@.len() && key_of(self.entries@[i as int]) == (who@, c),
                None => !has_key(self.entries@, (who@, c)),
            },
    {
        let mut i: usize = 0;
        while i < self.entries.len()
            invariant
                i <= self.entries@.len(),
                forall|j: int| 0 <= j < i ==> #[trigger] key_of(self.entries@[j]) != (who@, c),
            decreases self.entries@.len() - i,
        {
            if self.entries[i].who.same(who) && self.entries[i].currency == c {
                return Some(i);
            }
            i = i + 1;
        }
        None
    }

    /// A copy of the ledger.
    pub fn duplicate(&self) -> (r: Ledger)
        ensures
            r@ == self@,
            r.wf() == self.wf(),
    {
        let r = Ledger { entries: self.entries.clone(), ksm_issuance: self.ksm_issuance, lksm_issuance: self.lksm_issuance };
        assert(r.entries@ =~= self.entries@);
        r
    }

    /// The balances of `who` in `c`.
    pub fn account(&self, who: &AccountId, c: CurrencyId) -> (r: AccountData)
        requires
            self.wf(),
        ensures
            r == self@.balance(who@, c),
    {
        match self.position(who, c) {
            Some(i) => {
                proof {
                    lemma_data_at(self.entries@, i as int);
                }
                self.entries[i].data
            },
            None => AccountData { free: 0, reserved: 0 },
        }
    }

    /// The issuance of `c`.
    pub fn issuance(&self, c: CurrencyId) -> (r: u128)
        ensures
            r == self@.issuance(c),
    {
        match c {
            CurrencyId::KSM => self.ksm_issuance,
            CurrencyId::LKSM => self.lksm_issuance,
        }
    }

    /// Sets the balances of `who` in `c` to `d`.
    fn set_account(&mut self, who: &AccountId, c: CurrencyId, d: AccountData)
        requires
            old(self).wf(),
            old(self)@.issuance(c) - total_of(old(self)@.balance(who@, c)) + total_of(d) <= u128::MAX,
        ensures
            final(self).wf(),
            final(self)@ == old(self)@.with_balance(who@, c, d),
    {
        let ghost s0 = self.entries@;
        let ghost k = (who@, c);
        let old_data = self.account(who, c);
        proof {
            self.lemma_balance_le_issuance(who@, c);
        }
        let e = LedgerEntry { who: *who, currency: c, data: d };
        match self.position(who, c) {
            Some(i) => {
                proof {
                    lemma_data_at(s0, i as int);
                    lemma_total_update(s0, i as int, e, CurrencyId::KSM);
                    lemma_total_update(s0, i as int, e, CurrencyId::LKSM);
                }
                self.entries.set(i, e);
                proof {
                    let s1 = self.entries@;
                    assert(s1 == s0.update(i as int, e));
                    assert forall|a: int, b: int|
                        0 <= a < s1.len() && 0 <= b < s1.len() && a != b implies #[trigger] key_of(s1[a])
                        != #[trigger] key_of(s1[b]) by {
                        if a != i && b != i {
                            assert(key_of(s0[a]) != key_of(s0[b]));
                        } else if a == i {
                            assert(key_of(s0[i as int]) != key_of(s0[b]));
                        } else {
                            assert(key_of(s0[a]) != key_of(s0[i as int]));
                        }
                    }
                    assert forall|k2: (Seq<u8>, CurrencyId)| data_of(s1, k2) == (if k2 == k { d } else { data_of(s0, k2) }) by {
                        if k2 == k {
                            lemma_data_at(s1, i as int);
                        } else if has_key(s0, k2) {
                            let j = choose|j: int| 0 <= j < s0.len() && #[trigger] key_of(s0[j]) == k2;
                            lemma_data_at(s0, j);
                            lemma_data_at(s1, j);
                        } else {
                            assert(!has_key(s1, k2)) by {
                                if has_key(s1, k2) {
                                    let j = choose|j: int| 0 <= j < s1.len() && #[trigger] key_of(s1[j]) == k2;
                                    assert(key_of(s0[j]) == k2);
                                }
                            }
                        }
                    }
                }
            },
            None => {
                proof {
                    lemma_total_push(s0, e, CurrencyId::KSM);
                    lemma_total_push(s0, e, CurrencyId::LKSM);
                }
                self.entries.push(e);
                proof {
                    let s1 = self.entries@;
                    assert(s1 == s0.push(e));
                    assert forall|a: int, b: int|
                        0 <= a < s1.len() && 0 <= b < s1.len() && a != b implies #[trigger] key_of(s1[a])
                        != #[trigger] key_of(s1[b]) by {
                        if a < s0.len() && b < s0.len() {
                            assert(key_of(s0[a]) != key_of(s0[b]));
                        } else if a < s0.len() {
                            assert(key_of(s0[a]) != k);
                        } else {
                            assert(key_of(s0[b]) != k);
                        }
                    }
                    assert forall|k2: (Seq<u8>, CurrencyId)| data_of(s1, k2) == (if k2 == k { d } else { data_of(s0, k2) }) by {
                        if k2 == k {
                            lemma_data_at(s1, s0.len() as int);
                        } else if has_key(s0, k2) {
                            let j = choose|j: int| 0 <= j < s0.len() && #[trigger] key_of(s0[j]) == k2;
                            lemma_data_at(s0, j);
                            lemma_data_at(s1, j);
                        } else {
                            assert(!has_key(s1, k2)) by {
                                if has_key(s1, k2) {
                                    let j = choose|j: int| 0 <= j < s1.len() && #[trigger] key_of(s1[j]) == k2;
                                    assert(key_of(s0[j]) == k2);
                                }
                            }
                        }
                    }
                }
            },
        }
        let old_total: u128 = old_data.free + old_data.reserved;
        let new_total: u128 = d.free + d.reserved;
        match c {
            CurrencyId::KSM => {
                self.ksm_issuance = self.ksm_issuance - old_total + new_total;
            },
            CurrencyId::LKSM => {
                self.lksm_issuance = self.lksm_issuance - old_total + new_total;
            },
        }
        assert(self@.balances =~= old(self)@.balances.insert(k, d));
    }

    /// Credits `amount` to the free balance of `who`, minting it; fails,
    /// changing nothing, where the issuance would overflow.
    pub fn deposit(&mut self, c: CurrencyId, who: &AccountId, amount: u128, events: &mut Vec<Event>) -> (r: Result<
        (),
        LedgerError,
    >)
        requires
            old(self).wf(),
        ensures
            final(self).wf(),
            old(self)@.issuance(c) + amount <= u128::MAX ==> r is Ok && final(self)@ == old(self)@.deposit(
                c,
                who@,
                amount,
            ) && final(events)@ == old(events)@ + old(self)@.deposit_events(c, *who, amount),
            old(self)@.issuance(c) + amount > u128::MAX ==> r == Err::<(), LedgerError>(LedgerError::Overflow)
                && final(self)@ == old(self)@ && final(events)@ == old(events)@,
            r is Ok ==> final(self)@.issuance(c) == old(self)@.issuance(c) + amount,
            forall|c2: CurrencyId| c2 != c ==> #[trigger] final(self)@.issuance(c2) == old(self)@.issuance(c2),
    {
        if amount > u128::MAX - self.issuance(c) {
            return Err(LedgerError::Overflow);
        }
        let d = self.account(who, c);
        proof {
            self.lemma_balance_le_issuance(who@, c);
        }
        if d.free == 0 && d.reserved == 0 && amount > 0 {
            events.push(Event::Tokens(TokensEvent::Endowed(c, *who, amount)));
        }
        self.set_account(who, c, AccountData { free: d.free + amount, reserved: d.reserved });
        events.push(Event::Currencies(CurrenciesEvent::Deposited(c, *who, amount)));
        proof {
            let e = old(self)@.deposit_events(c, *who, amount);
            assert(final(events)@ =~= old(events)@ + e);
        }
        Ok(())
    }

    /// Takes `amount` from the free balance of `who`, burning it; fails,
    /// changing nothing, where the free balance is lower.
    pub fn withdraw(&mut self, c: CurrencyId, who: &AccountId, amount: u128) -> (r: Result<(), LedgerError>)
        requires
            old(self).wf(),
        ensures
            final(self).wf(),
            amount <= old(self)@.balance(who@, c).free ==> r is Ok && final(self)@ == old(self)@.withdraw(
                c,
                who@,
                amount,
            ),
            amount > old(self)@.balance(who@, c).free ==> r == Err::<(), LedgerError>(LedgerError::BalanceTooLow)
                && final(self)@ == old(self)@,
            r is Ok ==> final(self)@.issuance(c) == old(self)@.issuance(c) - amount,
            forall|c2: CurrencyId| c2 != c ==> #[trigger] final(self)@.issuance(c2) == old(self)@.issuance(c2),
    {
        let d = self.account(who, c);
        if amount > d.free {
            return Err(LedgerError::BalanceTooLow);
        }
        proof {
            self.lemma_balance_le_issuance(who@, c);
        }
        self.set_account(who, c, AccountData { free: d.free - amount, reserved: d.reserved });
        Ok(())
    }

    /// Changes the free balance of `who` by `by`, minting or burning; fails,
    /// changing nothing, where a credit would overflow the issuance or a debit
    /// exceeds the free balance.
    pub fn update_balance(&mut self, c: CurrencyId, who: &AccountId, by: i128, events: &mut Vec<Event>) -> (r: Result<(), LedgerError>)
        requires
            old(self).wf(),
        ensures
            final(self).wf(),
            match old(self)@.update_balance(c, who@, by) {
                Some(v) => r is Ok && final(self)@ == v && final(events)@ == old(events)@
                    + old(self)@.update_balance_events(c, *who, by),
                None => final(self)@ == old(self)@ && final(events)@ == old(events)@ && r == (if by >= 0 {
                    Err::<(), LedgerError>(LedgerError::Overflow)
                } else {
                    Err::<(), LedgerError>(LedgerError::BalanceTooLow)
                }),
            },
    {
        let amount: u128 = if by >= 0 {
            by as u128
        } else if by == i128::MIN {
            170141183460469231731687303715884105728u128
        } else {
            (-by) as u128
        };
        assert(amount == LedgerView::magnitude(by));
        let d = self.account(who, c);
        if by >= 0 {
            if amount > u128::MAX - self.issuance(c) {
                return Err(LedgerError::Overflow);
            }
            if by > 0 && d.free == 0 && d.reserved == 0 {
                events.push(Event::Tokens(TokensEvent::Endowed(c, *who, amount)));
            }
            let mut ignored: Vec<Event> = Vec::new();
            let _ = self.deposit(c, who, amount, &mut ignored);
        } else {
            if amount > d.free {
                return Err(LedgerError::BalanceTooLow);
            }
            let _ = self.withdraw(c, who, amount);
        }
        events.push(Event::Currencies(CurrenciesEvent::BalanceUpdated(c, *who, by)));
        assert(final(events)@ =~= old(events)@ + old(self)@.update_balance_events(c, *who, by));
        Ok(())
    }

    /// Moves `amount` of free balance from `from` to `to`; fails, changing
    /// nothing, where the free balance of `from` is lower.
    pub fn transfer(
        &mut self,
        c: CurrencyId,
        from: &AccountId,
        to: &AccountId,
        amount: u128,
        events: &mut Vec<Event>,
    ) -> (r: Result<(), LedgerError>)
        requires
            old(self).wf(),
        ensures
            final(self).wf(),
            amount <= old(self)@.balance(from@, c).free ==> r is Ok && final(self)@ == old(self)@.transfer(
                c,
                from@,
                to@,
                amount,
            ) && final(events)@ == old(events)@ + old(self)@.transfer_events(c, *from, *to, amount),
            amount > old(self)@.balance(from@, c).free ==> r == Err::<(), LedgerError>(LedgerError::BalanceTooLow)
                && final(self)@ == old(self)@ && final(events)@ == old(events)@,
            forall|c2: CurrencyId| #[trigger] final(self)@.issuance(c2) == old(self)@.issuance(c2),
    {
        if amount > self.account(from, c).free {
            return Err(LedgerError::BalanceTooLow);
        }
        if from.same(to) || amount == 0 {
            assert(final(events)@ =~= old(events)@ + old(self)@.transfer_events(c, *from, *to, amount));
            return Ok(());
        }
        let t = self.account(to, c);
        proof {
            self.lemma_balance_le_issuance(from@, c);
        }
        let _ = self.withdraw(c, from, amount);
        if t.free == 0 && t.reserved == 0 {
            events.push(Event::Tokens(TokensEvent::Endowed(c, *to, amount)));
        }
        let mut ignored: Vec<Event> = Vec::new();
        let _ = self.deposit(c, to, amount, &mut ignored);
        events.push(Event::Tokens(TokensEvent::Transfer(c, *from, *to, amount)));
        proof {
            let e = old(self)@.transfer_events(c, *from, *to, amount);
            assert(final(events)@ =~= old(events)@ + e);
        }
        Ok(())
    }

    /// Moves `amount` of the free balance of `who` to its reserved balance;
    /// fails, changing nothing, where the free balance is lower.
    pub fn reserve(&mut self, c: CurrencyId, who: &AccountId, amount: u128, events: &mut Vec<Event>) -> (r: Result<
        (),
        LedgerError,
    >)
        requires
            old(self).wf(),
        ensures
            final(self).wf(),
            amount <= old(self)@.balance(who@, c).free ==> r is Ok && final(self)@ == old(self)@.reserve(
                c,
                who@,
                amount,
            ) && final(events)@ == old(events)@.push(Event::Tokens(TokensEvent::Reserved(c, *who, amount))),
            amount > old(self)@.balance(who@, c).free ==> r == Err::<(), LedgerError>(LedgerError::BalanceTooLow)
                && final(self)@ == old(self)@ && final(events)@ == old(events)@,
            forall|c2: CurrencyId| #[trigger] final(self)@.issuance(c2) == old(self)@.issuance(c2),
    {
        let d = self.account(who, c);
        if amount > d.free {
            return Err(LedgerError::BalanceTooLow);
        }
        proof {
            self.lemma_balance_le_issuance(who@, c);
        }
        self.set_account(
            who,
            c,
            AccountData { free: d.free - amount, reserved: d.reserved + amount },
        );
        events.push(Event::Tokens(TokensEvent::Reserved(c, *who, amount)));
        Ok(())
    }

    /// Moves up to `amount` of the reserved balance of `who` back to its free
    /// balance; returns how much it moved.
    pub fn unreserve(&mut self, c: CurrencyId, who: &AccountId, amount: u128, events: &mut Vec<Event>) -> (r: u128)
        requires
            old(self).wf(),
        ensures
            final(self).wf(),
            final(self)@ == old(self)@.unreserve(c, who@, amount),
            final(events)@ == old(events)@ + old(self)@.unreserve_events(c, *who, amount),
            r == old(self)@.reserved_part(c, who@, amount),
            forall|c2: CurrencyId| #[trigger] final(self)@.issuance(c2) == old(self)@.issuance(c2),
    {
        let d = self.account(who, c);
        proof {
            self.lemma_balance_le_issuance(who@, c);
        }
        let actual = if amount <= d.reserved {
            amount
        } else {
            d.reserved
        };
        self.set_account(
            who,
            c,
            AccountData { free: d.free + actual, reserved: d.reserved - actual },
        );
        if actual > 0 {
            events.push(Event::Tokens(TokensEvent::Unreserved(c, *who, actual)));
        }
        assert(final(events)@ =~= old(events)@ + old(self)@.unreserve_events(c, *who, amount));
        actual
    }

    /// Moves up to `amount` of the reserved balance of `from` to the free
    /// balance of `to`; returns how much it moved.
    pub fn repatriate_reserved(
        &mut self,
        c: CurrencyId,
        from: &AccountId,
        to: &AccountId,
        amount: u128,
        events: &mut Vec<Event>,
    ) -> (r: u128)
        requires
            old(self).wf(),
        ensures
            final(self).wf(),
            final(self)@ == old(self)@.repatriate_reserved(c, from@, to@, amount),
            final(events)@ == old(events)@ + old(self)@.repatriate_events(c, *from, *to, amount),
            r == old(self)@.reserved_part(c, from@, amount),
            forall|c2: CurrencyId| #[trigger] final(self)@.issuance(c2) == old(self)@.issuance(c2),
    {
        if from.same(to) {
            return self.unreserve(c, from, amount, events);
        }
        let d = self.account(from, c);
        let t = self.account(to, c);
        proof {
            self.lemma_balance_le_issuance(from@, c);
        }
        let actual = if amount <= d.reserved {
            amount
        } else {
            d.reserved
        };
        self.set_account(from, c, AccountData { free: d.free, reserved: d.reserved - actual });
        proof {
            self.lemma_balance_le_issuance(to@, c);
        }
        self.set_account(to, c, AccountData { free: t.free + actual, reserved: t.reserved });
        if t.free == 0 && t.reserved == 0 && actual > 0 {
            events.push(Event::Tokens(TokensEvent::Endowed(c, *to, actual)));
        }
        events.push(Event::Tokens(TokensEvent::ReserveRepatriated(c, *from, *to, actual)));
        assert(final(events)@ =~= old(events)@ + old(self)@.repatriate_events(c, *from, *to, amount));
        actual
    }
}

} // verus!
