//! Account identifiers and the storage keys under which redeem requests are
//! kept. Requests are walked in the order of their keys, which is the order
//! of the `Twox64Concat` hash of the account.

use vstd::prelude::*;

verus! {

/// A 32-byte account identifier.
#[derive(Clone, Copy, Debug, PartialEq, Eq)]
pub struct AccountId {
    pub bytes: [u8; 32],
}

impl View for AccountId {
    type V = Seq<u8>;

    open spec fn view(&self) -> Seq<u8> {
        self.bytes@
    }
}

impl AccountId {
    /// The account with these bytes.
    pub fn new(bytes: [u8; 32]) -> (r: AccountId)
        ensures
            r@ == bytes@,
    {
        AccountId { bytes }
    }

    /// The all-zero account.
    pub fn zero() -> (r: AccountId)
        ensures
            r@ == Seq::new(32, |i: int| 0u8),
    {
        let r = AccountId { bytes: [0u8; 32] };
        assert(r@ =~= Seq::new(32, |i: int| 0u8));
        r
    }

    /// The bytes, as a vector.
    pub fn to_bytes(&self) -> (r: Vec<u8>)
        ensures
            r@ == self@,
    {
        let mut r: Vec<u8> = Vec::new();
        let mut i: usize = 0;
        while i < 32
            invariant
                i <= 32,
                self@.len() == 32,
                r@ == self@.subrange(0, i as int),
            decreases 32 - i,
        {
            r.push(self.bytes[i]);
            i = i + 1;
            assert(r@ =~= self@.subrange(0, i as int));
        }
        assert(self@.subrange(0, 32) =~= self@);
        r
    }

    /// Whether two accounts are the same.
    pub fn same(&self, other: &AccountId) -> (r: bool)
        ensures
            r == (self@ == other@),
    {
        let mut i: usize = 0;
        while i < 32
            invariant
                i <= 32,
                self@.len() == 32,
                other@.len() == 32,
                forall|j: int| 0 <= j < i ==> self@[j] == other@[j],
            decreases 32 - i,
        {
            if self.bytes[i] != other.bytes[i] {
                return false;
            }
            i = i + 1;
        }
        assert(self@ =~= other@);
        true
    }
}

/// Accounts with the same bytes are equal.
pub proof fn lemma_account_eq(a: AccountId, b: AccountId)
    requires
        a@ == b@,
    ensures
        a == b,
{
    assert(a.bytes =~= b.bytes);
}

impl Default for AccountId {
    fn default() -> (r: AccountId)
        ensures
            r@ == Seq::new(32, |i: int| 0u8),
    {
        AccountId::zero()
    }
}

/// The 64-bit xxHash (seed 0) of `data`, little-endian, as the outside crate computes it.
pub uninterp spec fn twox_64_digest(data: Seq<u8>) -> Seq<u8>;

/// The 128-bit xxHash (seeds 0 and 1) of `data`, as the outside crate computes it.
pub uninterp spec fn twox_128_digest(data: Seq<u8>) -> Seq<u8>;

/// `sp_crypto_hashing::twox_64`: the result is `twox_64_digest` of the data,
/// 8 bytes long. What the hash is on given bytes is left unsaid.
#[verifier::external_body]
fn twox_64(data: &[u8]) -> (r: Vec<u8>)
    ensures
        r@ == twox_64_digest(data@),
        r@.len() == 8,
{
    sp_crypto_hashing::twox_64(data).to_vec()
}

/// `sp_crypto_hashing::twox_128`: the result is `twox_128_digest` of the
/// data, 16 bytes long. What the hash is on given bytes is left unsaid.
#[verifier::external_body]
fn twox_128(data: &[u8]) -> (r: Vec<u8>)
    ensures
        r@ == twox_128_digest(data@),
        r@.len() == 16,
{
    sp_crypto_hashing::twox_128(data).to_vec()
}

/// The bytes of the pallet's name, `HomaLite`.
pub open spec fn pallet_name() -> Seq<u8> {
    seq![72u8, 111u8, 109u8, 97u8, 76u8, 105u8, 116u8, 101u8]
}

/// The bytes of the storage item's name, `RedeemRequests`.
pub open spec fn storage_name() -> Seq<u8> {
    seq![82u8, 101u8, 100u8, 101u8, 101u8, 109u8, 82u8, 101u8, 113u8, 117u8, 101u8, 115u8, 116u8, 115u8]
}

/// The storage key of the redeem request of `who`: the hashed pallet and
/// storage names, then `Twox64Concat` of the account.
pub open spec fn redeem_request_key(who: Seq<u8>) -> Seq<u8> {
    twox_128_digest(pallet_name()) + twox_128_digest(storage_name()) + twox_64_digest(who) + who
}

/// Appends `src` to `dst`.
fn append_bytes(dst: &mut Vec<u8>, src: &Vec<u8>)
    ensures
        final(dst)@ == old(dst)@ + src@,
{
    let mut i: usize = 0;
    while i < src.len()
        invariant
            i <= src@.len(),
            dst@ == old(dst)@ + src@.subrange(0, i as int),
        decreases src@.len() - i,
    {
        dst.push(src[i]);
        i = i + 1;
        assert(dst@ =~= old(dst)@ + src@.subrange(0, i as int));
    }
    assert(src@.subrange(0, src@.len() as int) =~= src@);
}

/// The storage key of the redeem request of `who` (`hashed_key_for`).
pub fn hashed_key_for(who: &AccountId) -> (r: Vec<u8>)
    ensures
        r@ == redeem_request_key(who@),
        r@.len() == 72,
{
    let pallet: Vec<u8> = vec![72u8, 111u8, 109u8, 97u8, 76u8, 105u8, 116u8, 101u8];
    let storage: Vec<u8> = vec![82u8, 101u8, 100u8, 101u8, 101u8, 109u8, 82u8, 101u8, 113u8, 117u8, 101u8, 115u8, 116u8, 115u8];
    assert(pallet@ =~= pallet_name());
    assert(storage@ =~= storage_name());
    let mut key = twox_128(pallet.as_slice());
    let h2 = twox_128(storage.as_slice());
    append_bytes(&mut key, &h2);
    let account = who.to_bytes();
    let h3 = twox_64(account.as_slice());
    append_bytes(&mut key, &h3);
    append_bytes(&mut key, &account);
    key
}

/// Byte-wise lexicographic order, looked at from index `i` on.
pub open spec fn lex_lt_from(a: Seq<u8>, b: Seq<u8>, i: nat) -> bool
    decreases a.len() - i,
{
    if i >= a.len() {
        i < b.len()
    } else if i >= b.len() {
        false
    } else if a[i as int] < b[i as int] {
        true
    } else if a[i as int] > b[i as int] {
        false
    } else {
        lex_lt_from(a, b, i + 1)
    }
}

/// `a` comes strictly before `b` in byte-wise lexicographic order.
pub open spec fn lex_lt(a: Seq<u8>, b: Seq<u8>) -> bool {
    lex_lt_from(a, b, 0)
}

/// No sequence comes before itself.
pub proof fn lemma_lex_irreflexive(a: Seq<u8>, i: nat)
    ensures
        !lex_lt_from(a, a, i),
    decreases a.len() - i,
{
    if i < a.len() {
        lemma_lex_irreflexive(a, i + 1);
    }
}

/// The order is transitive.
pub proof fn lemma_lex_transitive(a: Seq<u8>, b: Seq<u8>, c: Seq<u8>, i: nat)
    requires
        lex_lt_from(a, b, i),
        lex_lt_from(b, c, i),
    ensures
        lex_lt_from(a, c, i),
    decreases a.len() - i,
{
    if i < a.len() && i < b.len() && i < c.len() && a[i as int] == b[i as int] && b[i as int]
        == c[i as int] {
        lemma_lex_transitive(a, b, c, i + 1);
    }
}

/// Two sequences that agree before index `i` and differ are ordered one way.
pub proof fn lemma_lex_total(a: Seq<u8>, b: Seq<u8>, i: nat)
    requires
        i <= a.len(),
        i <= b.len(),
        a.subrange(0, i as int) == b.subrange(0, i as int),
        a != b,
    ensures
        lex_lt_from(a, b, i) || lex_lt_from(b, a, i),
    decreases a.len() - i,
{
    if i < a.len() && i < b.len() && a[i as int] == b[i as int] {
        assert(a.subrange(0, (i + 1) as int) =~= a.subrange(0, i as int).push(a[i as int]));
        assert(b.subrange(0, (i + 1) as int) =~= b.subrange(0, i as int).push(b[i as int]));
        lemma_lex_total(a, b, i + 1);
    } else if i >= a.len() && i >= b.len() {
        assert(a =~= a.subrange(0, i as int));
        assert(b =~= b.subrange(0, i as int));
    }
}

/// Two different sequences are ordered one way or the other.
pub proof fn lemma_lex_trichotomy(a: Seq<u8>, b: Seq<u8>)
    requires
        a != b,
    ensures
        lex_lt(a, b) || lex_lt(b, a),
{
    assert(a.subrange(0, 0) =~= b.subrange(0, 0));
    lemma_lex_total(a, b, 0);
}

/// The order between `a` and `b` from index `i` is that from `0` when they agree before `i`.
pub proof fn lemma_lex_prefix(a: Seq<u8>, b: Seq<u8>, i: nat)
    requires
        i <= a.len(),
        i <= b.len(),
        forall|j: int| 0 <= j < i ==> a[j] == b[j],
    ensures
        lex_lt(a, b) == lex_lt_from(a, b, i),
    decreases i,
{
    if i > 0 {
        lemma_lex_prefix(a, b, (i - 1) as nat);
    }
}

/// Whether `a` comes strictly before `b`.
pub fn bytes_lt(a: &Vec<u8>, b: &Vec<u8>) -> (r: bool)
    ensures
        r == lex_lt(a@, b@),
{
    let mut i: usize = 0;
    while i < a.len() && i < b.len()
        invariant
            i <= a@.len(),
            i <= b@.len(),
            forall|j: int| 0 <= j < i ==> a@[j] == b@[j],
        decreases a@.len() - i,
    {
        if a[i] < b[i] {
            proof {
                lemma_lex_prefix(a@, b@, i as nat);
            }
            return true;
        } else if a[i] > b[i] {
            proof {
                lemma_lex_prefix(a@, b@, i as nat);
            }
            return false;
        }
        i = i + 1;
    }
    proof {
        lemma_lex_prefix(a@, b@, i as nat);
    }
    i < b.len()
}

/// A storage key is the account's bytes behind 40 bytes of hashes.
pub proof fn lemma_key_ends_with_account(who: Seq<u8>)
    requires
        redeem_request_key(who).len() == 72,
        who.len() == 32,
    ensures
        redeem_request_key(who).subrange(40, 72) == who,
{
    let p = twox_128_digest(pallet_name()) + twox_128_digest(storage_name()) + twox_64_digest(who);
    assert(redeem_request_key(who) == p + who);
    assert((p + who).subrange(40, 72) =~= who);
}

/// Accounts with the same storage key are the same account.
pub proof fn lemma_key_injective(a: Seq<u8>, b: Seq<u8>)
    requires
        redeem_request_key(a).len() == 72,
        redeem_request_key(b).len() == 72,
        a.len() == 32,
        b.len() == 32,
        redeem_request_key(a) == redeem_request_key(b),
    ensures
        a == b,
{
    lemma_key_ends_with_account(a);
    lemma_key_ends_with_account(b);
}

} // verus!
