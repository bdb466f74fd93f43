//! The identifier space: 64-bit identifiers under the XOR metric.
//!
//! Record keys and peer identifiers live in one space. A key is derived from
//! an arbitrary byte string by the FNV-1a hash; the distance between two
//! identifiers is their bitwise XOR read as an unsigned integer, and a peer's
//! bucket in the routing table is the position of the highest set bit of its
//! distance from the local identifier.

use vstd::prelude::*;
use vstd::arithmetic::power2::pow2;

verus! {

/// An element of the identifier space: a record key or a peer's position.
pub type KeyId = u64;

/// A peer identifier; routed by the same XOR metric as keys.
pub type PeerId = u64;

/// Entries a bucket may hold (the Kademlia `k`).
pub const BUCKET_SIZE: usize = 20;

/// Requests a query keeps in flight at once (the Kademlia `alpha`).
pub const ALPHA: usize = 3;

/// Buckets in a routing table: one per possible highest bit of a distance.
pub const NUM_BUCKETS: usize = 64;

/// XOR distance between two identifiers.
pub open spec fn distance(a: KeyId, b: KeyId) -> u64 {
    a ^ b
}

/// Exec counterpart of `distance`.
pub fn xor_distance(a: KeyId, b: KeyId) -> (d: u64)
    ensures
        d == distance(a, b),
{
    a ^ b
}

/// Position of the highest set bit of `d`; 0 for `d <= 1`.
pub open spec fn high_bit(d: u64) -> int
    decreases d,
{
    if d < 2 {
        0
    } else {
        1 + high_bit((d / 2) as u64)
    }
}

/// The bucket an identifier at distance `d` falls into.
pub open spec fn bucket_of(self_id: KeyId, peer: PeerId) -> int {
    high_bit(distance(self_id, peer))
}

/// `high_bit` never goes below zero.
pub proof fn lemma_high_bit_nonneg(d: u64)
    ensures
        high_bit(d) >= 0,
    decreases d,
{
    if d < 2 {
    } else {
        lemma_high_bit_nonneg((d / 2) as u64);
    }
}

proof fn lemma_high_bit_below(d: u64, n: nat)
    requires
        1 <= n,
        d < pow2(n),
    ensures
        high_bit(d) < n,
    decreases n,
{
    if d < 2 {
    } else {
        vstd::arithmetic::power2::lemma2_to64();
        vstd::arithmetic::power2::lemma_pow2_unfold(n);
        lemma_high_bit_below((d / 2) as u64, (n - 1) as nat);
    }
}

/// The highest bit of a 64-bit value sits below position 64.
pub proof fn lemma_high_bit_range(d: u64)
    ensures
        0 <= high_bit(d) < 64,
{
    vstd::arithmetic::power2::lemma2_to64();
    lemma_high_bit_nonneg(d);
    lemma_high_bit_below(d, 64);
}

/// Bucket index of `d`: the position of its highest set bit.
pub fn bucket_index(d: u64) -> (i: usize)
    ensures
        i == high_bit(d),
        i < NUM_BUCKETS,
{
    proof {
        lemma_high_bit_range(d);
    }
    let mut x: u64 = d;
    let mut i: usize = 0;
    while x >= 2
        invariant
            high_bit(d) == i + high_bit(x),
            0 <= high_bit(x),
            i <= high_bit(d) < 64,
        decreases x,
    {
        x = x / 2;
        i = i + 1;
        proof {
            lemma_high_bit_nonneg(x);
        }
    }
    i
}

/// FNV-1a offset basis.
pub const FNV_OFFSET: u64 = 0xcbf29ce484222325;

/// FNV-1a prime.
pub const FNV_PRIME: u64 = 0x100000001b3;

/// FNV-1a over a byte string, folding left to right.
pub open spec fn fnv1a(bytes: Seq<u8>) -> u64
    decreases bytes.len(),
{
    if bytes.len() == 0 {
        FNV_OFFSET
    } else {
        vstd::wrapping::u64_specs::wrapping_mul(fnv1a(bytes.drop_last()) ^ (bytes.last() as u64), FNV_PRIME)
    }
}

/// Derive a key identifier from an arbitrary byte string.
pub fn key_id_of(bytes: &[u8]) -> (k: KeyId)
    ensures
        k == fnv1a(bytes@),
{
    let mut h: u64 = FNV_OFFSET;
    let n: usize = bytes.len();
    let mut i: usize = 0;
    while i < n
        invariant
            n == bytes@.len(),
            i <= n,
            h == fnv1a(bytes@.take(i as int)),
        decreases n - i,
    {
        let b: u8 = bytes[i];
        h = (h ^ (b as u64)).wrapping_mul(FNV_PRIME);
        proof {
            assert(bytes@.take(i + 1 as int).drop_last() =~= bytes@.take(i as int));
            assert(bytes@.take(i + 1 as int).last() == bytes@[i as int]);
        }
        i = i + 1;
    }
    proof {
        assert(bytes@.take(n as int) =~= bytes@);
    }
    h
}

/// Copy of a byte string.
pub fn copy_bytes(s: &[u8]) -> (v: Vec<u8>)
    ensures
        v@ == s@,
{
    let n: usize = s.len();
    let mut v: Vec<u8> = Vec::new();
    let mut i: usize = 0;
    while i < n
        invariant
            n == s@.len(),
            i <= n,
            v@ == s@.take(i as int),
        decreases n - i,
    {
        v.push(s[i]);
        proof {
            assert(s@.take(i + 1 as int) =~= s@.take(i as int).push(s@[i as int]));
        }
        i = i + 1;
    }
    proof {
        assert(s@.take(n as int) =~= s@);
    }
    v
}

/// Byte-string equality, element by element.
pub fn bytes_eq(a: &[u8], b: &[u8]) -> (r: bool)
    ensures
        r == (a@ == b@),
{
    if a.len() != b.len() {
        proof {
            assert(a@.len() != b@.len());
        }
        return false;
    }
    let n: usize = a.len();
    let mut i: usize = 0;
    while i < n
        invariant
            n == a@.len(),
            n == b@.len(),
            i <= n,
            forall|j: int| 0 <= j < i ==> a@[j] == b@[j],
        decreases n - i,
    {
        if a[i] != b[i] {
            proof {
                assert(a@[i as int] != b@[i as int]);
            }
            return false;
        }
        i = i + 1;
    }
    proof {
        assert(a@ =~= b@);
    }
    true
}

} // verus!
