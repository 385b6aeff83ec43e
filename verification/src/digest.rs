//! Item checksums: the leading 128 bits of the BLAKE3 hash of an item's bytes.

use vstd::prelude::*;

verus! {

/// The 32-byte BLAKE3 hash of `data` in its default mode.
pub uninterp spec fn blake3_hash(data: Seq<u8>) -> Seq<u8>;

/// The checksum of an item: the first 16 bytes of its BLAKE3 hash.
pub open spec fn checksum_of(data: Seq<u8>) -> Seq<u8> {
    Seq::new(16, |i: int| blake3_hash(data)[i])
}

/// Calls `blake3::hash` and hands back the 32 bytes of the `Hash` it returns.
/// Nothing is proved of them: the contract names them `blake3_hash` of the
/// input, which holds because the hash is a function of the input bytes alone.
#[verifier::external_body]
fn blake3_digest(data: &[u8]) -> (out: [u8; 32])
    ensures
        out@ == blake3_hash(data@),
{
    *blake3::hash(data).as_bytes()
}

/// Computes the checksum of `x`.
pub fn hash(x: &[u8]) -> (h: [u8; 16])
    ensures
        h@ == checksum_of(x@),
{
    let full = blake3_digest(x);
    let mut h = [0u8; 16];
    let mut i: usize = 0;
    while i < 16
        invariant
            0 <= i <= 16,
            full@ == blake3_hash(x@),
            forall|j: int| 0 <= j < i ==> h@[j] == full@[j],
        decreases 16 - i,
    {
        h[i] = full[i];
        i += 1;
    }
    assert(h@ =~= checksum_of(x@));
    h
}

/// XORs `b` into `a`, byte by byte.
pub fn xor_mut<const N: usize>(a: &mut [u8; N], b: &[u8; N])
    ensures
        final(a)@ == xor_bytes(old(a)@, b@),
{
    let mut i: usize = 0;
    while i < N
        invariant
            0 <= i <= N,
            forall|j: int| 0 <= j < i ==> a@[j] == old(a)@[j] ^ b@[j],
            forall|j: int| i <= j < N ==> a@[j] == old(a)@[j],
        decreases N - i,
    {
        a[i] = a[i] ^ b[i];
        i += 1;
    }
    assert(a@ =~= xor_bytes(old(a)@, b@));
}

/// Whether two byte arrays hold the same bytes.
pub fn bytes_eq<const N: usize>(a: &[u8; N], b: &[u8; N]) -> (same: bool)
    ensures
        same == (a@ == b@),
{
    let mut i: usize = 0;
    while i < N
        invariant
            0 <= i <= N,
            forall|j: int| 0 <= j < i ==> a@[j] == b@[j],
        decreases N - i,
    {
        if a[i] != b[i] {
            return false;
        }
        i += 1;
    }
    assert(a@ =~= b@);
    true
}

/// Whether every byte of `a` is zero.
pub fn bytes_zero<const N: usize>(a: &[u8; N]) -> (zero: bool)
    ensures
        zero == (a@ == zero_bytes(N as nat)),
{
    let mut i: usize = 0;
    while i < N
        invariant
            0 <= i <= N,
            forall|j: int| 0 <= j < i ==> a@[j] == 0,
        decreases N - i,
    {
        if a[i] != 0 {
            assert(zero_bytes(N as nat)[i as int] == 0);
            return false;
        }
        i += 1;
    }
    assert(a@ =~= zero_bytes(N as nat));
    true
}

/// Bytewise exclusive-or of two byte strings; the result is as long as `a`.
pub open spec fn xor_bytes(a: Seq<u8>, b: Seq<u8>) -> Seq<u8> {
    Seq::new(a.len(), |i: int| a[i] ^ b[i])
}

/// The byte string of `n` zero bytes.
pub open spec fn zero_bytes(n: nat) -> Seq<u8> {
    Seq::new(n, |i: int| 0u8)
}

/// XOR of byte strings of one length is commutative.
pub proof fn lemma_xor_commutative(a: Seq<u8>, b: Seq<u8>)
    requires
        a.len() == b.len(),
    ensures
        xor_bytes(a, b) == xor_bytes(b, a),
{
    assert forall|i: int| 0 <= i < a.len() implies a[i] ^ b[i] == b[i] ^ a[i] by {
        let x = a[i];
        let y = b[i];
        assert(x ^ y == y ^ x) by (bit_vector);
    }
    assert(xor_bytes(a, b) =~= xor_bytes(b, a));
}

/// XOR of byte strings of one length is associative.
pub proof fn lemma_xor_associative(a: Seq<u8>, b: Seq<u8>, c: Seq<u8>)
    requires
        a.len() == b.len(),
        b.len() == c.len(),
    ensures
        xor_bytes(xor_bytes(a, b), c) == xor_bytes(a, xor_bytes(b, c)),
{
    assert forall|i: int| 0 <= i < a.len() implies (a[i] ^ b[i]) ^ c[i] == a[i] ^ (b[i] ^ c[i]) by {
        let x = a[i];
        let y = b[i];
        let z = c[i];
        assert((x ^ y) ^ z == x ^ (y ^ z)) by (bit_vector);
    }
    assert(xor_bytes(xor_bytes(a, b), c) =~= xor_bytes(a, xor_bytes(b, c)));
}

/// In a XOR of three byte strings of one length, the last two may change
/// places.
pub proof fn lemma_xor_exchange(a: Seq<u8>, b: Seq<u8>, c: Seq<u8>)
    requires
        a.len() == b.len(),
        b.len() == c.len(),
    ensures
        xor_bytes(xor_bytes(a, b), c) == xor_bytes(xor_bytes(a, c), b),
{
    assert forall|i: int| 0 <= i < a.len() implies (a[i] ^ b[i]) ^ c[i] == (a[i] ^ c[i]) ^ b[i] by {
        let x = a[i];
        let y = b[i];
        let z = c[i];
        assert((x ^ y) ^ z == (x ^ z) ^ y) by (bit_vector);
    }
    assert(xor_bytes(xor_bytes(a, b), c) =~= xor_bytes(xor_bytes(a, c), b));
}

/// A byte string that occurs on both sides of a XOR of XORs cancels.
pub proof fn lemma_xor_cancel(c: Seq<u8>, a: Seq<u8>, b: Seq<u8>)
    requires
        a.len() == b.len(),
        b.len() == c.len(),
    ensures
        xor_bytes(xor_bytes(c, a), xor_bytes(c, b)) == xor_bytes(a, b),
{
    assert forall|i: int| 0 <= i < a.len() implies (c[i] ^ a[i]) ^ (c[i] ^ b[i]) == a[i] ^ b[i] by {
        let x = a[i];
        let y = b[i];
        let z = c[i];
        assert((z ^ x) ^ (z ^ y) == x ^ y) by (bit_vector);
    }
    assert(xor_bytes(xor_bytes(c, a), xor_bytes(c, b)) =~= xor_bytes(a, b));
}

/// Taking `r` out of `(r ^ u) ^ (l ^ v)` and then `l` leaves `u ^ v`.
pub proof fn lemma_xor_settle(r: Seq<u8>, u: Seq<u8>, l: Seq<u8>, v: Seq<u8>)
    requires
        r.len() == u.len(),
        u.len() == l.len(),
        l.len() == v.len(),
    ensures
        xor_bytes(xor_bytes(xor_bytes(xor_bytes(r, u), xor_bytes(l, v)), r), l) == xor_bytes(u, v),
{
    assert forall|i: int| 0 <= i < r.len() implies (((r[i] ^ u[i]) ^ (l[i] ^ v[i])) ^ r[i]) ^ l[i]
        == u[i] ^ v[i] by {
        let a = r[i];
        let b = u[i];
        let c = l[i];
        let d = v[i];
        assert((((a ^ b) ^ (c ^ d)) ^ a) ^ c == b ^ d) by (bit_vector);
    }
    assert(xor_bytes(xor_bytes(xor_bytes(xor_bytes(r, u), xor_bytes(l, v)), r), l) =~= xor_bytes(
        u,
        v,
    ));
}

/// The zero string is the identity of XOR.
pub proof fn lemma_xor_zero(a: Seq<u8>)
    ensures
        xor_bytes(a, zero_bytes(a.len())) == a,
        xor_bytes(zero_bytes(a.len()), a) == a,
{
    assert forall|i: int| 0 <= i < a.len() implies a[i] ^ 0u8 == a[i] && 0u8 ^ a[i] == a[i] by {
        let x = a[i];
        assert(x ^ 0u8 == x && 0u8 ^ x == x) by (bit_vector);
    }
    assert(xor_bytes(a, zero_bytes(a.len())) =~= a);
    assert(xor_bytes(zero_bytes(a.len()), a) =~= a);
}

/// Every byte string is its own inverse under XOR.
pub proof fn lemma_xor_self(a: Seq<u8>)
    ensures
        xor_bytes(a, a) == zero_bytes(a.len()),
{
    assert forall|i: int| 0 <= i < a.len() implies a[i] ^ a[i] == 0u8 by {
        let x = a[i];
        assert(x ^ x == 0u8) by (bit_vector);
    }
    assert(xor_bytes(a, a) =~= zero_bytes(a.len()));
}

} // verus!
