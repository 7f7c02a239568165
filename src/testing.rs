use std::hash::Hasher;
use vstd::prelude::*;

use crate::encoding::Symbol;

verus! {

/// A fixed-width byte symbol.
pub type TestSymbol = [u8; 64];

/// A 64-bit integer symbol.
pub type TestU64 = u64;

/// The keyed SipHash-2-4 of the eight native-endian bytes of `x`, with keys (123, 456).
pub uninterp spec fn sip_u64_of(x: u64) -> u64;

/// The keyed SipHash-2-4 of `bytes` fed with `write`, with keys (567, 890).
pub uninterp spec fn sip_bytes_of(bytes: Seq<u8>) -> u64;

/// Relies on std's `SipHasher` (keys 567, 890) fed with `Hasher::write`:
/// the digest depends on the bytes alone.
#[verifier::external_body]
#[allow(deprecated)]
fn sip_hash_bytes(bytes: &[u8; 64]) -> (r: u64)
    ensures
        r == sip_bytes_of(bytes@),
{
    let mut hasher = std::hash::SipHasher::new_with_keys(567, 890);
    hasher.write(bytes);
    hasher.finish()
}

/// Relies on std's `SipHasher` (keys 123, 456) fed with `write_u64`: the
/// digest depends on the integer alone.
#[verifier::external_body]
#[allow(deprecated)]
fn sip_hash_u64(x: u64) -> (r: u64)
    ensures
        r == sip_u64_of(x),
{
    let mut hasher = std::hash::SipHasher::new_with_keys(123, 456);
    hasher.write_u64(x);
    hasher.finish()
}

/// Byte `i` of the little-endian encoding of `x`, zero past the eighth byte.
pub open spec fn le_byte(x: u64, i: int) -> u8 {
    if i < 8 {
        ((x >> (8 * i) as u64) & 0xff) as u8
    } else {
        0
    }
}

/// The symbol holding `x` in little-endian order in its first eight bytes,
/// the other bytes zero.
pub fn new_test_symbol(x: u64) -> (r: TestSymbol)
    ensures
        forall|i: int| 0 <= i < 64 ==> #[trigger] r@[i] == le_byte(x, i),
{
    let mut r: [u8; 64] = [0u8; 64];
    let mut i: usize = 0;
    while i < 8
        invariant
            i <= 8,
            forall|j: int| 0 <= j < i ==> #[trigger] r@[j] == le_byte(x, j),
            forall|j: int| i <= j < 64 ==> #[trigger] r@[j] == 0,
        decreases 8 - i,
    {
        let shift: u64 = 8 * (i as u64);
        r[i] = ((x >> shift) & 0xff) as u8;
        i = i + 1;
    }
    proof {
        assert forall|j: int| 0 <= j < 64 implies #[trigger] r@[j] == le_byte(x, j) by {
            if j >= 8 {
                assert(r@[j] == 0);
            }
        }
    }
    r
}

impl Symbol for u64 {
    open spec fn zero_spec() -> Self {
        0
    }

    open spec fn xor_spec(&self, other: &Self) -> Self {
        *self ^ *other
    }

    open spec fn hash_spec(&self) -> u64 {
        sip_u64_of(*self)
    }

    fn zero() -> (r: Self) {
        0
    }

    fn xor(&self, other: &Self) -> (r: Self) {
        *self ^ *other
    }

    fn hash(&self) -> (r: u64) {
        sip_hash_u64(*self)
    }

    proof fn lemma_xor_cancel(a: Self, b: Self) {
        assert((a ^ b) ^ b == a) by (bit_vector);
    }

    proof fn lemma_zero_xor(a: Self) {
        assert(0u64 ^ a == a) by (bit_vector);
    }

    proof fn lemma_xor_exchange(a: Self, b: Self, c: Self) {
        assert((a ^ b) ^ c == (a ^ c) ^ b) by (bit_vector);
    }
}

/// Byte-wise exclusive or.
pub open spec fn xor_bytes(a: Seq<u8>, b: Seq<u8>) -> Seq<u8> {
    Seq::new(64, |i: int| a[i] ^ b[i])
}

/// `base` with its first `k` bytes replaced by those of `s`.
pub open spec fn bytes_into(base: [u8; 64], s: Seq<u8>, k: nat) -> [u8; 64]
    decreases k,
{
    if k == 0 {
        base
    } else {
        vstd::array::spec_array_update(bytes_into(base, s, (k - 1) as nat), k - 1, s[k - 1])
    }
}

proof fn lemma_bytes_into(base: [u8; 64], s: Seq<u8>, k: nat)
    requires
        k <= 64,
    ensures
        bytes_into(base, s, k)@.len() == 64,
        forall|i: int| 0 <= i < k ==> #[trigger] bytes_into(base, s, k)@[i] == s[i],
        forall|i: int| k <= i < 64 ==> #[trigger] bytes_into(base, s, k)@[i] == base@[i],
    decreases k,
{
    broadcast use vstd::array::group_array_axioms;
    if k > 0 {
        lemma_bytes_into(base, s, (k - 1) as nat);
        let prev = bytes_into(base, s, (k - 1) as nat);
        assert(bytes_into(base, s, k)@ == prev@.update(k - 1, s[k - 1]));
    }
}

/// Two byte arrays with the same contents are equal.
proof fn lemma_bytes_ext(a: [u8; 64], b: [u8; 64])
    requires
        a@ =~= b@,
    ensures
        a == b,
{
    broadcast use vstd::array::group_array_axioms;
    assert(a =~= b);
}

/// The array holding `s`.
pub open spec fn bytes_of(s: Seq<u8>) -> [u8; 64] {
    bytes_into(vstd::pervasive::arbitrary(), s, 64)
}

proof fn lemma_bytes_of(s: Seq<u8>)
    requires
        s.len() == 64,
    ensures
        bytes_of(s)@ =~= s,
{
    broadcast use vstd::array::group_array_axioms;
    lemma_bytes_into(vstd::pervasive::arbitrary(), s, 64);
}

impl Symbol for [u8; 64] {
    open spec fn zero_spec() -> Self {
        bytes_of(Seq::new(64, |i: int| 0u8))
    }

    open spec fn xor_spec(&self, other: &Self) -> Self {
        bytes_of(xor_bytes(self@, other@))
    }

    open spec fn hash_spec(&self) -> u64 {
        sip_bytes_of(self@)
    }

    fn zero() -> (r: Self) {
        let r: [u8; 64] = [0u8; 64];
        proof {
            broadcast use vstd::array::group_array_axioms;
            lemma_bytes_of(Seq::new(64, |i: int| 0u8));
            lemma_bytes_ext(r, Self::zero_spec());
        }
        r
    }

    fn xor(&self, other: &Self) -> (r: Self) {
        let mut r: [u8; 64] = [0u8; 64];
        let mut i: usize = 0;
        while i < 64
            invariant
                i <= 64,
                r@.len() == 64,
                forall|j: int| 0 <= j < i ==> #[trigger] r@[j] == self@[j] ^ other@[j],
            decreases 64 - i,
        {
            r[i] = self[i] ^ other[i];
            i = i + 1;
        }
        proof {
            broadcast use vstd::array::group_array_axioms;
            lemma_bytes_of(xor_bytes(self@, other@));
            lemma_bytes_ext(r, self.xor_spec(other));
        }
        r
    }

    fn hash(&self) -> (r: u64) {
        sip_hash_bytes(self)
    }

    proof fn lemma_xor_cancel(a: Self, b: Self) {
        broadcast use vstd::array::group_array_axioms;
        lemma_bytes_of(xor_bytes(a@, b@));
        let c = a.xor_spec(&b);
        lemma_bytes_of(xor_bytes(c@, b@));
        assert forall|i: int| 0 <= i < 64 implies #[trigger] c.xor_spec(&b)@[i] == a@[i] by {
            let (x, y) = (a@[i], b@[i]);
            assert((x ^ y) ^ y == x) by (bit_vector);
        }
        lemma_bytes_ext(c.xor_spec(&b), a);
    }

    proof fn lemma_zero_xor(a: Self) {
        broadcast use vstd::array::group_array_axioms;
        let z = Self::zero_spec();
        lemma_bytes_of(Seq::new(64, |i: int| 0u8));
        lemma_bytes_of(xor_bytes(z@, a@));
        assert forall|i: int| 0 <= i < 64 implies #[trigger] z.xor_spec(&a)@[i] == a@[i] by {
            let x = a@[i];
            assert(0u8 ^ x == x) by (bit_vector);
        }
        lemma_bytes_ext(z.xor_spec(&a), a);
    }

    proof fn lemma_xor_exchange(a: Self, b: Self, c: Self) {
        broadcast use vstd::array::group_array_axioms;
        let ab = a.xor_spec(&b);
        let ac = a.xor_spec(&c);
        lemma_bytes_of(xor_bytes(a@, b@));
        lemma_bytes_of(xor_bytes(a@, c@));
        lemma_bytes_of(xor_bytes(ab@, c@));
        lemma_bytes_of(xor_bytes(ac@, b@));
        assert forall|i: int| 0 <= i < 64 implies #[trigger] ab.xor_spec(&c)@[i] == ac.xor_spec(&b)@[i] by {
            let (x, y, z) = (a@[i], b@[i], c@[i]);
            assert((x ^ y) ^ z == (x ^ z) ^ y) by (bit_vector);
        }
        lemma_bytes_ext(ab.xor_spec(&c), ac.xor_spec(&b));
    }
}

} // verus!
