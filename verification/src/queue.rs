//! The redeem requests: at most one per account, kept in the order of their
//! storage keys, which is the order in which they are walked.

use crate::account::{
    hashed_key_for, lemma_key_injective, lemma_lex_irreflexive, lemma_lex_trichotomy, lemma_lex_transitive,
    lex_lt, redeem_request_key, AccountId, bytes_lt,
};
use crate::arith::Permill;
use vstd::prelude::*;

verus! {

/// A redeem request as the model sees it.
pub struct RequestView {
    pub key: Seq<u8>,
    pub who: AccountId,
    pub amount: u128,
    pub extra_fee: Permill,
}

/// A redeem request: `amount` of liquid currency that `who` asks to redeem,
/// giving up `extra_fee` of the staking currency it is owed to the minter.
struct RedeemRequest {
    key: Vec<u8>,
    who: AccountId,
    amount: u128,
    extra_fee: Permill,
}

impl View for RedeemRequest {
    type V = RequestView;

    closed spec fn view(&self) -> RequestView {
        RequestView { key: self.key@, who: self.who, amount: self.amount, extra_fee: self.extra_fee }
    }
}

/// Each key is the storage key of its account, and the keys are strictly increasing.
pub open spec fn queue_wf(q: Seq<RequestView>) -> bool {
    &&& forall|i: int|
        0 <= i < q.len() ==> #[trigger] q[i].key == redeem_request_key(q[i].who@) && q[i].key.len()
            == 72 && q[i].who@.len() == 32
    &&& forall|i: int, j: int| 0 <= i < j < q.len() ==> lex_lt(#[trigger] q[i].key, #[trigger] q[j].key)
}

/// Whether `who` has a request.
pub open spec fn has_request(q: Seq<RequestView>, who: Seq<u8>) -> bool {
    exists|i: int| 0 <= i < q.len() && #[trigger] q[i].who@ == who
}

/// The index of the request of `who`.
pub open spec fn request_index(q: Seq<RequestView>, who: Seq<u8>) -> int {
    choose|i: int| 0 <= i < q.len() && #[trigger] q[i].who@ == who
}

/// The request of `who`, if any.
pub open spec fn request_of(q: Seq<RequestView>, who: Seq<u8>) -> Option<RequestView> {
    if has_request(q, who) {
        Some(q[request_index(q, who)])
    } else {
        None
    }
}

/// The first index from `i` on whose key is not below `key`.
pub open spec fn lower_from(q: Seq<RequestView>, key: Seq<u8>, i: nat) -> nat
    decreases q.len() - i,
{
    if i >= q.len() {
        q.len()
    } else if lex_lt(q[i as int].key, key) {
        lower_from(q, key, i + 1)
    } else {
        i
    }
}

/// The first index from `i` on whose key is above `key`.
pub open spec fn upper_from(q: Seq<RequestView>, key: Seq<u8>, i: nat) -> nat
    decreases q.len() - i,
{
    if i >= q.len() {
        q.len()
    } else if lex_lt(key, q[i as int].key) {
        i
    } else {
        upper_from(q, key, i + 1)
    }
}

/// The queue with the request `r` set: in place of the request of the same
/// account, or else at its place in key order.
pub open spec fn queue_put(q: Seq<RequestView>, r: RequestView) -> Seq<RequestView> {
    if has_request(q, r.who@) {
        q.update(request_index(q, r.who@), r)
    } else {
        q.insert(lower_from(q, r.key, 0) as int, r)
    }
}

/// The queue without the request of `who`.
pub open spec fn queue_remove(q: Seq<RequestView>, who: Seq<u8>) -> Seq<RequestView> {
    if has_request(q, who) {
        q.remove(request_index(q, who))
    } else {
        q
    }
}

/// The order in which requests are walked from the key `last` on: those with
/// greater keys, in key order, then from the start again up to `last`.
pub open spec fn walk_order(q: Seq<RequestView>, last: Seq<u8>) -> Seq<RequestView> {
    let p = upper_from(q, last, 0) as int;
    q.subrange(p, q.len() as int) + q.subrange(0, p)
}

/// The keys of a well-formed queue are distinct, and so are its accounts.
pub proof fn lemma_distinct_accounts(q: Seq<RequestView>, i: int, j: int)
    requires
        queue_wf(q),
        0 <= i < q.len(),
        0 <= j < q.len(),
        i != j,
    ensures
        q[i].who@ != q[j].who@,
        q[i].key != q[j].key,
{
    if i < j {
        assert(lex_lt(q[i].key, q[j].key));
    } else {
        assert(lex_lt(q[j].key, q[i].key));
    }
    lemma_lex_irreflexive(q[i].key, 0);
    lemma_lex_irreflexive(q[j].key, 0);
}

/// The request found for `who` is at the only index that holds `who`.
pub proof fn lemma_request_index(q: Seq<RequestView>, i: int)
    requires
        queue_wf(q),
        0 <= i < q.len(),
    ensures
        has_request(q, q[i].who@),
        request_index(q, q[i].who@) == i,
{
    assert(has_request(q, q[i].who@));
    let j = request_index(q, q[i].who@);
    if j != i {
        lemma_distinct_accounts(q, i, j);
    }
}

pub proof fn lemma_lower_from(q: Seq<RequestView>, key: Seq<u8>, i: nat)
    requires
        queue_wf(q),
        i <= q.len(),
        forall|j: int| 0 <= j < i ==> lex_lt(#[trigger] q[j].key, key),
    ensures
        lower_from(q, key, i) <= q.len(),
        forall|j: int| 0 <= j < lower_from(q, key, i) ==> lex_lt(#[trigger] q[j].key, key),
        forall|j: int| lower_from(q, key, i) <= j < q.len() ==> !lex_lt(#[trigger] q[j].key, key),
    decreases q.len() - i,
{
    if i < q.len() {
        if lex_lt(q[i as int].key, key) {
            lemma_lower_from(q, key, i + 1);
        } else {
            assert forall|j: int| i <= j < q.len() implies !lex_lt(#[trigger] q[j].key, key) by {
                if j > i && lex_lt(q[j].key, key) {
                    lemma_lex_transitive(q[i as int].key, q[j].key, key, 0);
                }
            }
        }
    }
}

proof fn lemma_upper_from(q: Seq<RequestView>, key: Seq<u8>, i: nat)
    requires
        queue_wf(q),
        i <= q.len(),
        forall|j: int| 0 <= j < i ==> !lex_lt(key, #[trigger] q[j].key),
    ensures
        upper_from(q, key, i) <= q.len(),
        forall|j: int| 0 <= j < upper_from(q, key, i) ==> !lex_lt(key, #[trigger] q[j].key),
        forall|j: int| upper_from(q, key, i) <= j < q.len() ==> lex_lt(key, #[trigger] q[j].key),
    decreases q.len() - i,
{
    if i < q.len() {
        if !lex_lt(key, q[i as int].key) {
            lemma_upper_from(q, key, i + 1);
        } else {
            assert forall|j: int| i <= j < q.len() implies lex_lt(key, #[trigger] q[j].key) by {
                if j > i {
                    lemma_lex_transitive(key, q[i as int].key, q[j].key, 0);
                }
            }
        }
    }
}

/// Where `last` splits a well-formed queue: keys up to `last` before, keys above after.
pub proof fn lemma_walk_split(q: Seq<RequestView>, last: Seq<u8>)
    requires
        queue_wf(q),
    ensures
        upper_from(q, last, 0) <= q.len(),
        forall|j: int| 0 <= j < upper_from(q, last, 0) ==> !lex_lt(last, #[trigger] q[j].key),
        forall|j: int| upper_from(q, last, 0) <= j < q.len() ==> lex_lt(last, #[trigger] q[j].key),
{
    lemma_upper_from(q, last, 0);
}

/// Looking up the account at index `i` finds that index.
pub proof fn lemma_request_of_at(q: Seq<RequestView>, i: int)
    requires
        queue_wf(q),
        0 <= i < q.len(),
    ensures
        request_of(q, q[i].who@) == Some(q[i]),
{
    lemma_request_index(q, i);
}

/// Two well-formed queues whose entries for `w` correspond agree on `w`.
proof fn lemma_lookup_same(q: Seq<RequestView>, q2: Seq<RequestView>, w: Seq<u8>, f: spec_fn(int) -> int)
    requires
        queue_wf(q),
        queue_wf(q2),
        forall|j: int| 0 <= j < q.len() && #[trigger] q[j].who@ == w ==> 0 <= f(j) < q2.len() && q2[f(j)] == q[j],
        forall|j: int| 0 <= j < q2.len() && #[trigger] q2[j].who@ == w ==> has_request(q, w),
    ensures
        request_of(q2, w) == request_of(q, w),
{
    if has_request(q, w) {
        let j = request_index(q, w);
        lemma_request_of_at(q, j);
        lemma_request_of_at(q2, f(j));
    } else {
        assert forall|j: int| 0 <= j < q2.len() implies #[trigger] q2[j].who@ != w by {
            if q2[j].who@ == w {
                assert(has_request(q, w));
            }
        }
    }
}

proof fn lemma_insert_sorted(q: Seq<RequestView>, p: int, r: RequestView)
    requires
        queue_wf(q),
        0 <= p <= q.len(),
        r.key == redeem_request_key(r.who@),
        r.key.len() == 72,
        r.who@.len() == 32,
        forall|j: int| 0 <= j < p ==> lex_lt(#[trigger] q[j].key, r.key),
        forall|j: int| p <= j < q.len() ==> !lex_lt(#[trigger] q[j].key, r.key),
        forall|j: int| 0 <= j < q.len() ==> #[trigger] q[j].key != r.key,
    ensures
        queue_wf(q.insert(p, r)),
{
    let q2 = q.insert(p, r);
    assert forall|a: int, b: int| 0 <= a < b < q2.len() implies lex_lt(
        #[trigger] q2[a].key,
        #[trigger] q2[b].key,
    ) by {
        if b < p {
            assert(q2[a] == q[a] && q2[b] == q[b]);
        } else if a > p {
            assert(q2[a] == q[a - 1]);
            assert(q2[b] == q[b - 1]);
        } else if a == p {
            assert(q2[b] == q[b - 1]);
            assert(!lex_lt(q[b - 1].key, r.key));
            lemma_lex_trichotomy(q[b - 1].key, r.key);
        } else if b == p {
            assert(q2[a] == q[a]);
        } else {
            assert(q2[a] == q[a]);
            assert(q2[b] == q[b - 1]);
            assert(lex_lt(q[a].key, r.key));
            assert(!lex_lt(q[b - 1].key, r.key));
            lemma_lex_trichotomy(q[b - 1].key, r.key);
            lemma_lex_transitive(q[a].key, r.key, q[b - 1].key, 0);
        }
    }
    assert forall|i: int| 0 <= i < q2.len() implies #[trigger] q2[i].key == redeem_request_key(
        q2[i].who@,
    ) && q2[i].key.len() == 72 && q2[i].who@.len() == 32 by {
        if i < p {
            assert(q2[i] == q[i]);
        } else if i > p {
            assert(q2[i] == q[i - 1]);
        }
    }
}

proof fn lemma_put_new(q: Seq<RequestView>, r: RequestView)
    requires
        queue_wf(q),
        r.key == redeem_request_key(r.who@),
        r.key.len() == 72,
        r.who@.len() == 32,
        !has_request(q, r.who@),
    ensures
        queue_wf(queue_put(q, r)),
        request_of(queue_put(q, r), r.who@) == Some(r),
        forall|w: Seq<u8>| w != r.who@ ==> #[trigger] request_of(queue_put(q, r), w) == request_of(q, w),
{
    let p = lower_from(q, r.key, 0) as int;
    lemma_lower_from(q, r.key, 0);
    let q2 = q.insert(p, r);
    assert(queue_put(q, r) == q2);
    assert forall|j: int| 0 <= j < q.len() implies #[trigger] q[j].key != r.key by {
        if q[j].key == r.key {
            lemma_key_injective(q[j].who@, r.who@);
            assert(has_request(q, r.who@));
        }
    }
    lemma_insert_sorted(q, p, r);
    assert(q2[p] == r);
    lemma_request_of_at(q2, p);
    assert forall|w: Seq<u8>| w != r.who@ implies #[trigger] request_of(q2, w) == request_of(q, w) by {
        let f = |j: int| if j < p { j } else { j + 1 };
        assert forall|j: int| 0 <= j < q.len() && #[trigger] q[j].who@ == w implies 0 <= f(j) < q2.len()
            && q2[f(j)] == q[j] by {
        }
        assert forall|j: int| 0 <= j < q2.len() && #[trigger] q2[j].who@ == w implies has_request(q, w) by {
            let j0 = if j < p { j } else { j - 1 };
            assert(q[j0] == q2[j]);
        }
        lemma_lookup_same(q, q2, w, f);
    }
}

proof fn lemma_put_existing(q: Seq<RequestView>, r: RequestView)
    requires
        queue_wf(q),
        r.key == redeem_request_key(r.who@),
        r.key.len() == 72,
        r.who@.len() == 32,
        has_request(q, r.who@),
    ensures
        queue_wf(queue_put(q, r)),
        request_of(queue_put(q, r), r.who@) == Some(r),
        forall|w: Seq<u8>| w != r.who@ ==> #[trigger] request_of(queue_put(q, r), w) == request_of(q, w),
{
    let i = request_index(q, r.who@);
    let q2 = q.update(i, r);
    assert(queue_put(q, r) == q2);
    assert(q[i].who@ == r.who@);
    assert(r.key == q[i].key);
    assert forall|k: int| 0 <= k < q2.len() implies #[trigger] q2[k].key == q[k].key by {}
    assert(queue_wf(q2));
    lemma_request_of_at(q2, i);
    assert forall|w: Seq<u8>| w != r.who@ implies #[trigger] request_of(q2, w) == request_of(q, w) by {
        let f = |j: int| j;
        assert forall|j: int| 0 <= j < q2.len() && #[trigger] q2[j].who@ == w implies has_request(q, w) by {
            assert(j != i);
            assert(q[j] == q2[j]);
        }
        lemma_lookup_same(q, q2, w, f);
    }
}

/// Putting a request keeps the queue well formed.
pub proof fn lemma_put_wf(q: Seq<RequestView>, r: RequestView)
    requires
        queue_wf(q),
        r.key == redeem_request_key(r.who@),
        r.key.len() == 72,
        r.who@.len() == 32,
    ensures
        queue_wf(queue_put(q, r)),
        request_of(queue_put(q, r), r.who@) == Some(r),
        forall|w: Seq<u8>| w != r.who@ ==> #[trigger] request_of(queue_put(q, r), w) == request_of(q, w),
{
    if has_request(q, r.who@) {
        lemma_put_existing(q, r);
    } else {
        lemma_put_new(q, r);
    }
}

/// Removing a request keeps the queue well formed.
pub proof fn lemma_remove_wf(q: Seq<RequestView>, who: Seq<u8>)
    requires
        queue_wf(q),
    ensures
        queue_wf(queue_remove(q, who)),
        request_of(queue_remove(q, who), who) is None,
        forall|w: Seq<u8>| w != who ==> #[trigger] request_of(queue_remove(q, who), w) == request_of(q, w),
{
    if has_request(q, who) {
        let i = request_index(q, who);
        let q2 = q.remove(i);
        assert(queue_remove(q, who) == q2);
        assert forall|a: int, b: int| 0 <= a < b < q2.len() implies lex_lt(
            #[trigger] q2[a].key,
            #[trigger] q2[b].key,
        ) by {
            let a0 = if a < i { a } else { a + 1 };
            let b0 = if b < i { b } else { b + 1 };
            assert(q2[a] == q[a0]);
            assert(q2[b] == q[b0]);
        }
        assert forall|k: int| 0 <= k < q2.len() implies #[trigger] q2[k].key == redeem_request_key(
            q2[k].who@,
        ) && q2[k].key.len() == 72 && q2[k].who@.len() == 32 by {
            let k0 = if k < i { k } else { k + 1 };
            assert(q2[k] == q[k0]);
        }
        assert(queue_wf(q2));
        assert forall|j: int| 0 <= j < q2.len() implies #[trigger] q2[j].who@ != who by {
            let j0 = if j < i { j } else { j + 1 };
            assert(q2[j] == q[j0]);
            lemma_distinct_accounts(q, i, j0);
        }
        assert forall|w: Seq<u8>| w != who implies #[trigger] request_of(q2, w) == request_of(q, w) by {
            let f = |j: int| if j < i { j } else { j - 1 };
            assert forall|j: int| 0 <= j < q.len() && #[trigger] q[j].who@ == w implies 0 <= f(j) < q2.len()
                && q2[f(j)] == q[j] by {
                assert(j != i);
            }
            assert forall|j: int| 0 <= j < q2.len() && #[trigger] q2[j].who@ == w implies has_request(q, w) by {
                let j0 = if j < i { j } else { j + 1 };
                assert(q[j0] == q2[j]);
            }
            lemma_lookup_same(q, q2, w, f);
        }
    }
}

/// The redeem requests, in key order.
pub struct RedeemQueue {
    entries: Vec<RedeemRequest>,
}

impl View for RedeemQueue {
    type V = Seq<RequestView>;

    closed spec fn view(&self) -> Seq<RequestView> {
        self.entries@.map_values(|r: RedeemRequest| r@)
    }
}

impl RedeemQueue {
    /// The empty queue.
    pub fn new() -> (r: RedeemQueue)
        ensures
            r@ == Seq::<RequestView>::empty(),
    {
        let r = RedeemQueue { entries: Vec::new() };
        assert(r@ =~= Seq::<RequestView>::empty());
        r
    }

    /// A copy of the queue.
    pub fn duplicate(&self) -> (r: RedeemQueue)
        ensures
            r@ == self@,
    {
        let mut entries: Vec<RedeemRequest> = Vec::new();
        let mut i: usize = 0;
        while i < self.entries.len()
            invariant
                i <= self.entries@.len(),
                entries@.len() == i,
                forall|j: int| 0 <= j < i ==> #[trigger] entries@[j]@ == self.entries@[j]@,
            decreases self.entries@.len() - i,
        {
            let e = &self.entries[i];
            entries.push(RedeemRequest { key: e.key.clone(), who: e.who, amount: e.amount, extra_fee: e.extra_fee });
            i = i + 1;
        }
        let r = RedeemQueue { entries };
        assert(r@ =~= self@);
        r
    }

    /// The number of requests.
    pub fn len(&self) -> (r: usize)
        ensures
            r == self@.len(),
    {
        self.entries.len()
    }

    /// The account of the request at index `i`.
    pub fn who_at(&self, i: usize) -> (r: AccountId)
        requires
            i < self@.len(),
        ensures
            r == self@[i as int].who,
    {
        self.entries[i].who
    }

    /// The amount of the request at index `i`.
    pub fn amount_at(&self, i: usize) -> (r: u128)
        requires
            i < self@.len(),
        ensures
            r == self@[i as int].amount,
    {
        self.entries[i].amount
    }

    /// The extra fee of the request at index `i`.
    pub fn fee_at(&self, i: usize) -> (r: Permill)
        requires
            i < self@.len(),
        ensures
            r == self@[i as int].extra_fee,
    {
        self.entries[i].extra_fee
    }

    /// The index of the request of `who`, if any.
    pub fn position(&self, who: &AccountId) -> (r: Option<usize>)
        requires
            queue_wf(self@),
        ensures
            match r {
                Some(i) => has_request(self@, who@) && i == request_index(self@, who@) && i < self@.len(),
                None => !has_request(self@, who@),
            },
    {
        let mut i: usize = 0;
        while i < self.entries.len()
            invariant
                i <= self@.len(),
                self@.len() == self.entries@.len(),
                queue_wf(self@),
                forall|j: int| 0 <= j < i ==> #[trigger] self@[j].who@ != who@,
            decreases self@.len() - i,
        {
            if self.entries[i].who.same(who) {
                proof {
                    lemma_request_index(self@, i as int);
                }
                return Some(i);
            }
            i = i + 1;
        }
        None
    }

    /// The request of `who`: its amount and extra fee.
    pub fn get(&self, who: &AccountId) -> (r: Option<(u128, Permill)>)
        requires
            queue_wf(self@),
        ensures
            match request_of(self@, who@) {
                Some(q) => r == Some((q.amount, q.extra_fee)),
                None => r is None,
            },
    {
        match self.position(who) {
            Some(i) => Some((self.entries[i].amount, self.entries[i].extra_fee)),
            None => None,
        }
    }

    /// Sets the request of `who`.
    pub fn put(&mut self, who: &AccountId, amount: u128, extra_fee: Permill)
        requires
            queue_wf(old(self)@),
        ensures
            queue_wf(final(self)@),
            final(self)@ == queue_put(
                old(self)@,
                RequestView { key: redeem_request_key(who@), who: *who, amount, extra_fee },
            ),
    {
        let key = hashed_key_for(who);
        let ghost r = RequestView { key: key@, who: *who, amount, extra_fee };
        proof {
            lemma_put_wf(self@, r);
        }
        match self.position(who) {
            Some(i) => {
                self.entries.set(i, RedeemRequest { key, who: *who, amount, extra_fee });
                assert(self@ =~= old(self)@.update(i as int, r));
            },
            None => {
                let mut p: usize = 0;
                while p < self.entries.len() && bytes_lt(&self.entries[p].key, &key)
                    invariant
                        p <= self@.len(),
                        self@.len() == self.entries@.len(),
                        self@ == old(self)@,
                        lower_from(self@, key@, 0) == lower_from(self@, key@, p as nat),
                    decreases self@.len() - p,
                {
                    p = p + 1;
                }
                self.entries.insert(p, RedeemRequest { key, who: *who, amount, extra_fee });
                assert(self@ =~= old(self)@.insert(p as int, r));
            },
        }
    }

    /// Removes the request of `who`, if any.
    pub fn remove(&mut self, who: &AccountId)
        requires
            queue_wf(old(self)@),
        ensures
            queue_wf(final(self)@),
            final(self)@ == queue_remove(old(self)@, who@),
    {
        proof {
            lemma_remove_wf(self@, who@);
        }
        match self.position(who) {
            Some(i) => {
                self.entries.remove(i);
                assert(self@ =~= old(self)@.remove(i as int));
            },
            None => {},
        }
    }

    /// The first index whose key is above `last`.
    pub fn split_point(&self, last: &Vec<u8>) -> (r: usize)
        requires
            queue_wf(self@),
        ensures
            r == upper_from(self@, last@, 0),
    {
        let mut p: usize = 0;
        while p < self.entries.len() && !bytes_lt(last, &self.entries[p].key)
            invariant
                p <= self@.len(),
                self@.len() == self.entries@.len(),
                upper_from(self@, last@, 0) == upper_from(self@, last@, p as nat),
            decreases self@.len() - p,
        {
            p = p + 1;
        }
        p
    }
}

} // verus!
