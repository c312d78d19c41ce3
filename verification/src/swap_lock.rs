//! Hash-lock primitive for atomic swaps: a deterministic 64-byte digest over
//! arbitrary bytes, secret derivation, and commitment verification.
//!
//! The protocol only needs a capability-typed deterministic hash; which
//! concrete primitive backs it is a configuration choice. The digest here is
//! a lane-sliced multiplicative mix: eight 64-bit lanes absorb the input
//! bytes round-robin, and the digest is the lanes' little-endian bytes.
//! It is fully specified, so `verify_swap_secret` is exact: it accepts a
//! secret if and only if its digest equals the stored lock.

use vstd::prelude::*;

verus! {

/// Width of a hash-lock digest in bytes.
pub const DIGEST_LEN: usize = 64;

/// Width of a swap secret in bytes.
pub const SECRET_LEN: usize = 32;

/// One absorption step of a lane: xor the byte in, then a multiplicative
/// diffusion modulo 2^64.
pub open spec fn spec_mix(lane: u64, byte: u8) -> u64 {
    ((((lane ^ (byte as u64)) as int) * 0x100000001b3) % 0x10000000000000000) as u64
}

/// Initial lane values: a shared odd constant, distinguished per lane.
pub open spec fn spec_seed_lane(i: int) -> u64 {
    0xcbf29ce484222325u64 ^ (i as u64)
}

/// Lane state after absorbing all of `s`, bytes assigned to lanes
/// round-robin by position.
pub open spec fn spec_absorb(s: Seq<u8>) -> Seq<u64>
    decreases s.len(),
{
    if s.len() == 0 {
        Seq::new(8, |i: int| spec_seed_lane(i))
    } else {
        let prev = spec_absorb(s.drop_last());
        let idx = ((s.len() - 1) as int) % 8;
        prev.update(idx, spec_mix(prev[idx], s.last()))
    }
}

/// Byte `k` (little-endian) of a lane.
pub open spec fn spec_lane_byte(lane: u64, k: int) -> u8 {
    ((lane >> ((8 * k) as u64)) & 0xffu64) as u8
}

/// The 64-byte digest of `s`: the absorbed lanes serialized little-endian.
pub open spec fn spec_digest(s: Seq<u8>) -> Seq<u8> {
    let lanes = spec_absorb(s);
    Seq::new(64, |j: int| spec_lane_byte(lanes[j / 8], j % 8))
}

/// Deterministic 64-byte digest used as the hash-lock commitment.
pub fn quantum_resistant_hash(data: &Vec<u8>) -> (r: Vec<u8>)
    ensures
        r@ == spec_digest(data@),
        r@.len() == 64,
{
    let mut lanes: Vec<u64> = Vec::new();
    let mut i: usize = 0;
    while i < 8
        invariant
            i <= 8,
            lanes@.len() == i,
            forall|k: int| 0 <= k < i ==> lanes@[k] == spec_seed_lane(k),
        decreases 8 - i,
    {
        lanes.push(0xcbf29ce484222325u64 ^ (i as u64));
        proof {
            assert(spec_seed_lane(i as int) == 0xcbf29ce484222325u64 ^ (i as u64));
        }
        i = i + 1;
    }
    proof {
        assert(lanes@ =~= spec_absorb(data@.take(0)));
    }
    let mut p: usize = 0;
    while p < data.len()
        invariant
            p <= data@.len(),
            lanes@.len() == 8,
            lanes@ == spec_absorb(data@.take(p as int)),
        decreases data@.len() - p,
    {
        let b = data[p];
        let idx = p % 8;
        let lane = lanes[idx];
        let x: u64 = lane ^ (b as u64);
        proof {
            assert((x as u128) * 0x100000001b3u128 <= 0xffffffffffffffffu128 * 0x100000001b3u128)
                by (nonlinear_arith)
                requires x as u128 <= 0xffffffffffffffffu128;
        }
        let prod: u128 = (x as u128) * 0x100000001b3u128;
        let mixed: u64 = (prod % 0x10000000000000000u128) as u64;
        proof {
            assert(mixed == spec_mix(lane, b));
        }
        lanes.set(idx, mixed);
        proof {
            let t = data@.take((p + 1) as int);
            assert(t.drop_last() =~= data@.take(p as int));
            assert(t.last() == data@[p as int]);
            assert((t.len() - 1) as int % 8 == (p as int) % 8);
            assert(lanes@ =~= spec_absorb(t));
        }
        p = p + 1;
    }
    proof {
        assert(data@.take(data@.len() as int) =~= data@);
    }
    let mut out: Vec<u8> = Vec::new();
    let mut j: usize = 0;
    while j < 64
        invariant
            j <= 64,
            lanes@.len() == 8,
            lanes@ == spec_absorb(data@),
            out@.len() == j,
            forall|t: int| 0 <= t < j ==> out@[t] == spec_lane_byte(lanes@[t / 8], t % 8),
        decreases 64 - j,
    {
        let lane = lanes[j / 8];
        let shift: u64 = (8 * (j % 8)) as u64;
        let byte: u8 = ((lane >> shift) & 0xffu64) as u8;
        out.push(byte);
        j = j + 1;
    }
    proof {
        assert(out@ =~= spec_digest(data@));
    }
    out
}

/// Byte-for-byte equality of two byte vectors.
pub fn bytes_eq(a: &Vec<u8>, b: &Vec<u8>) -> (r: bool)
    ensures
        r <==> a@ == b@,
{
    if a.len() != b.len() {
        proof {
            assert(a@.len() != b@.len());
        }
        return false;
    }
    let mut i: usize = 0;
    while i < a.len()
        invariant
            i <= a@.len(),
            a@.len() == b@.len(),
            forall|k: int| 0 <= k < i ==> a@[k] == b@[k],
        decreases a@.len() - i,
    {
        if a[i] != b[i] {
            return false;
        }
        i = i + 1;
    }
    proof {
        assert(a@ =~= b@);
    }
    true
}

/// Derive a swap secret and its hash-lock commitment from caller-supplied
/// entropy: the secret is the first 32 bytes of the entropy's digest, and
/// the lock is the digest of that secret.
pub fn generate_swap_secret(entropy: &Vec<u8>) -> (r: (Vec<u8>, Vec<u8>))
    ensures
        r.0@ == spec_digest(entropy@).take(32),
        r.1@ == spec_digest(r.0@),
        r.0@.len() == 32,
        r.1@.len() == 64,
{
    let digest = quantum_resistant_hash(entropy);
    let mut secret: Vec<u8> = Vec::new();
    let mut i: usize = 0;
    while i < 32
        invariant
            i <= 32,
            digest@ == spec_digest(entropy@),
            digest@.len() == 64,
            secret@.len() == i,
            forall|k: int| 0 <= k < i ==> secret@[k] == digest@[k],
        decreases 32 - i,
    {
        secret.push(digest[i]);
        i = i + 1;
    }
    proof {
        assert(secret@ =~= spec_digest(entropy@).take(32));
    }
    let lock = quantum_resistant_hash(&secret);
    (secret, lock)
}

/// A secret opens a lock exactly when its digest equals the lock.
pub fn verify_swap_secret(secret: &Vec<u8>, hash_lock: &Vec<u8>) -> (r: bool)
    ensures
        r <==> spec_digest(secret@) == hash_lock@,
{
    let digest = quantum_resistant_hash(secret);
    bytes_eq(&digest, hash_lock)
}

} // verus!
