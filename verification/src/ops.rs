//! The cross-ledger operation vocabulary: the structured liquidity
//! operations a payload carries, and their byte encoding.
//!
//! Every operation serializes to one canonical frame — a variant tag, the
//! fixed-width fields little-endian, then the variable-length tail behind
//! its length — and the decoder accepts exactly the canonical frames,
//! returning an operation that re-encodes to the input byte for byte.

use vstd::prelude::*;
use crate::{AccountId, AssetId, Balance, Error, LedgerId};
use crate::atomic_swap::{push_le64, push_le128, spec_le64, spec_le128};

verus! {

/// One asset with an amount, as carried in a wire operation.
#[derive(Clone, Copy, PartialEq, Eq, Structural, Debug)]
pub struct AssetAmount {
    pub asset_id: AssetId,
    pub amount: Balance,
}

/// A liquidity operation addressed to another ledger.
#[derive(PartialEq, Eq, Debug)]
pub enum LiquidityOperation {
    /// Add liquidity to a remote pool.
    AddLiquidity {
        provider: AccountId,
        pool_id: u64,
        target_ledger_id: LedgerId,
        min_shares: Balance,
        operation_id: u64,
        expiration: u64,
        assets: Vec<AssetAmount>,
    },
    /// Remove liquidity from a remote pool.
    RemoveLiquidity {
        provider: AccountId,
        pool_id: u64,
        target_ledger_id: LedgerId,
        shares: Balance,
        operation_id: u64,
        expiration: u64,
        min_assets: Vec<AssetAmount>,
    },
    /// Execute a swap along a caller-supplied path on a remote ledger.
    ExecuteSwap {
        initiator: AccountId,
        source_asset: AssetId,
        target_asset: AssetId,
        amount: Balance,
        min_receive: Balance,
        operation_id: u64,
        expiration: u64,
        path: Vec<AssetId>,
    },
}

/// Serialized asset/amount pairs, in order.
pub open spec fn spec_pairs(s: Seq<AssetAmount>) -> Seq<u8>
    decreases s.len(),
{
    if s.len() == 0 {
        Seq::empty()
    } else {
        spec_pairs(s.drop_last()) + spec_le64(s.last().asset_id) + spec_le128(s.last().amount)
    }
}

/// Serialized asset ids, in order.
pub open spec fn spec_ids(s: Seq<u64>) -> Seq<u8>
    decreases s.len(),
{
    if s.len() == 0 {
        Seq::empty()
    } else {
        spec_ids(s.drop_last()) + spec_le64(s.last())
    }
}

/// The canonical frame of an operation.
pub open spec fn spec_encode_op(op: LiquidityOperation) -> Seq<u8> {
    match op {
        LiquidityOperation::AddLiquidity {
            provider, pool_id, target_ledger_id, min_shares, operation_id, expiration, assets,
        } => seq![1u8] + spec_le64(provider) + spec_le64(pool_id)
            + spec_le64(target_ledger_id as u64) + spec_le128(min_shares)
            + spec_le64(operation_id) + spec_le64(expiration)
            + spec_le64(assets@.len() as u64) + spec_pairs(assets@),
        LiquidityOperation::RemoveLiquidity {
            provider, pool_id, target_ledger_id, shares, operation_id, expiration, min_assets,
        } => seq![2u8] + spec_le64(provider) + spec_le64(pool_id)
            + spec_le64(target_ledger_id as u64) + spec_le128(shares)
            + spec_le64(operation_id) + spec_le64(expiration)
            + spec_le64(min_assets@.len() as u64) + spec_pairs(min_assets@),
        LiquidityOperation::ExecuteSwap {
            initiator, source_asset, target_asset, amount, min_receive, operation_id,
            expiration, path,
        } => seq![3u8] + spec_le64(initiator) + spec_le64(source_asset)
            + spec_le64(target_asset) + spec_le128(amount) + spec_le128(min_receive)
            + spec_le64(operation_id) + spec_le64(expiration)
            + spec_le64(path@.len() as u64) + spec_ids(path@),
    }
}

/// Append the serialized pairs.
fn push_pairs(out: &mut Vec<u8>, pairs: &Vec<AssetAmount>)
    ensures
        final(out)@ == old(out)@ + spec_pairs(pairs@),
{
    let mut i: usize = 0;
    while i < pairs.len()
        invariant
            i <= pairs@.len(),
            out@ == old(out)@ + spec_pairs(pairs@.take(i as int)),
        decreases pairs@.len() - i,
    {
        let p = pairs[i];
        push_le64(out, p.asset_id);
        push_le128(out, p.amount);
        proof {
            let t = pairs@.take(i + 1 as int);
            assert(t.drop_last() =~= pairs@.take(i as int));
            assert(t.last() == pairs@[i as int]);
            assert(out@ =~= old(out)@ + spec_pairs(t));
        }
        i = i + 1;
    }
    proof {
        assert(pairs@.take(pairs@.len() as int) =~= pairs@);
    }
}

/// Append the serialized ids.
fn push_ids(out: &mut Vec<u8>, ids: &Vec<u64>)
    ensures
        final(out)@ == old(out)@ + spec_ids(ids@),
{
    let mut i: usize = 0;
    while i < ids.len()
        invariant
            i <= ids@.len(),
            out@ == old(out)@ + spec_ids(ids@.take(i as int)),
        decreases ids@.len() - i,
    {
        push_le64(out, ids[i]);
        proof {
            let t = ids@.take(i + 1 as int);
            assert(t.drop_last() =~= ids@.take(i as int));
            assert(t.last() == ids@[i as int]);
            assert(out@ =~= old(out)@ + spec_ids(t));
        }
        i = i + 1;
    }
    proof {
        assert(ids@.take(ids@.len() as int) =~= ids@);
    }
}

/// Serialize an operation into its canonical frame.
pub fn encode_liquidity_operation(op: &LiquidityOperation) -> (r: Vec<u8>)
    ensures
        r@ == spec_encode_op(*op),
{
    let mut out: Vec<u8> = Vec::new();
    match op {
        LiquidityOperation::AddLiquidity {
            provider, pool_id, target_ledger_id, min_shares, operation_id, expiration, assets,
        } => {
            out.push(1);
            push_le64(&mut out, *provider);
            push_le64(&mut out, *pool_id);
            push_le64(&mut out, *target_ledger_id as u64);
            push_le128(&mut out, *min_shares);
            push_le64(&mut out, *operation_id);
            push_le64(&mut out, *expiration);
            push_le64(&mut out, assets.len() as u64);
            push_pairs(&mut out, assets);
            proof {
                assert(out@ =~= spec_encode_op(*op));
            }
        }
        LiquidityOperation::RemoveLiquidity {
            provider, pool_id, target_ledger_id, shares, operation_id, expiration, min_assets,
        } => {
            out.push(2);
            push_le64(&mut out, *provider);
            push_le64(&mut out, *pool_id);
            push_le64(&mut out, *target_ledger_id as u64);
            push_le128(&mut out, *shares);
            push_le64(&mut out, *operation_id);
            push_le64(&mut out, *expiration);
            push_le64(&mut out, min_assets.len() as u64);
            push_pairs(&mut out, min_assets);
            proof {
                assert(out@ =~= spec_encode_op(*op));
            }
        }
        LiquidityOperation::ExecuteSwap {
            initiator, source_asset, target_asset, amount, min_receive, operation_id,
            expiration, path,
        } => {
            out.push(3);
            push_le64(&mut out, *initiator);
            push_le64(&mut out, *source_asset);
            push_le64(&mut out, *target_asset);
            push_le128(&mut out, *amount);
            push_le128(&mut out, *min_receive);
            push_le64(&mut out, *operation_id);
            push_le64(&mut out, *expiration);
            push_le64(&mut out, path.len() as u64);
            push_ids(&mut out, path);
            proof {
                assert(out@ =~= spec_encode_op(*op));
            }
        }
    }
    out
}

/// The 64-bit value whose little-endian bytes sit at `off`.
pub open spec fn spec_read64(b: Seq<u8>, off: int) -> u64 {
    (b[off] + 0x100 * (b[off + 1] as int) + 0x10000 * (b[off + 2] as int)
        + 0x1000000 * (b[off + 3] as int) + 0x100000000 * (b[off + 4] as int)
        + 0x10000000000 * (b[off + 5] as int) + 0x1000000000000 * (b[off + 6] as int)
        + 0x100000000000000 * (b[off + 7] as int)) as u64
}

/// The 128-bit value whose little-endian bytes sit at `off`.
pub open spec fn spec_read128(b: Seq<u8>, off: int) -> u128 {
    (b[off] + 0x100 * (b[off + 1] as int) + 0x10000 * (b[off + 2] as int)
        + 0x1000000 * (b[off + 3] as int) + 0x100000000 * (b[off + 4] as int)
        + 0x10000000000 * (b[off + 5] as int) + 0x1000000000000 * (b[off + 6] as int)
        + 0x100000000000000 * (b[off + 7] as int)
        + 0x10000000000000000 * (b[off + 8] as int)
        + 0x1000000000000000000 * (b[off + 9] as int)
        + 0x100000000000000000000 * (b[off + 10] as int)
        + 0x10000000000000000000000 * (b[off + 11] as int)
        + 0x1000000000000000000000000 * (b[off + 12] as int)
        + 0x100000000000000000000000000 * (b[off + 13] as int)
        + 0x10000000000000000000000000000 * (b[off + 14] as int)
        + 0x1000000000000000000000000000000 * (b[off + 15] as int)) as u128
}

/// A byte sequence is a canonical operation frame: a known tag, the exact
/// length its own count field demands, and (for pool operations) a target
/// ledger id within 32 bits.
pub open spec fn spec_valid_frame(b: Seq<u8>) -> bool {
    &&& b.len() >= 1
    &&& (if b[0] == 1 || b[0] == 2 {
        &&& b.len() >= 65
        &&& b.len() == 65 + 24 * (spec_read64(b, 57) as int)
        &&& spec_read64(b, 17) <= 0xffffffff
    } else if b[0] == 3 {
        &&& b.len() >= 81
        &&& b.len() == 81 + 8 * (spec_read64(b, 73) as int)
    } else {
        false
    })
}

/// Reading back the little-endian bytes of a 64-bit value recovers it, and
/// serializing the read-back value recovers the bytes.
proof fn lemma_le64_inverse(b: Seq<u8>, off: int)
    requires
        0 <= off,
        off + 8 <= b.len(),
    ensures
        spec_le64(spec_read64(b, off)) =~= b.subrange(off, off + 8),
{
    let x0 = b[off] as u64;
    let x1 = b[off + 1] as u64;
    let x2 = b[off + 2] as u64;
    let x3 = b[off + 3] as u64;
    let x4 = b[off + 4] as u64;
    let x5 = b[off + 5] as u64;
    let x6 = b[off + 6] as u64;
    let x7 = b[off + 7] as u64;
    let v = spec_read64(b, off);
    assert(v == (x0 + 0x100 * x1 + 0x10000 * x2 + 0x1000000 * x3 + 0x100000000 * x4
        + 0x10000000000 * x5 + 0x1000000000000 * x6 + 0x100000000000000 * x7) as u64);
    assert({
        &&& (v >> 0) & 0xff == x0
        &&& (v >> 8) & 0xff == x1
        &&& (v >> 16) & 0xff == x2
        &&& (v >> 24) & 0xff == x3
        &&& (v >> 32) & 0xff == x4
        &&& (v >> 40) & 0xff == x5
        &&& (v >> 48) & 0xff == x6
        &&& (v >> 56) & 0xff == x7
    }) by (bit_vector)
        requires
            v == (x0 + 0x100 * x1 + 0x10000 * x2 + 0x1000000 * x3 + 0x100000000 * x4
                + 0x10000000000 * x5 + 0x1000000000000 * x6 + 0x100000000000000 * x7) as u64,
            x0 <= 0xff && x1 <= 0xff && x2 <= 0xff && x3 <= 0xff && x4 <= 0xff && x5 <= 0xff
                && x6 <= 0xff && x7 <= 0xff,
    ;
}

/// Reading back the little-endian bytes of a 128-bit value recovers it,
/// and serializing the read-back value recovers the bytes.
proof fn lemma_le128_inverse(b: Seq<u8>, off: int)
    requires
        0 <= off,
        off + 16 <= b.len(),
    ensures
        spec_le128(spec_read128(b, off)) =~= b.subrange(off, off + 16),
{
    let x0 = b[off] as u128;
    let x1 = b[off + 1] as u128;
    let x2 = b[off + 2] as u128;
    let x3 = b[off + 3] as u128;
    let x4 = b[off + 4] as u128;
    let x5 = b[off + 5] as u128;
    let x6 = b[off + 6] as u128;
    let x7 = b[off + 7] as u128;
    let x8 = b[off + 8] as u128;
    let x9 = b[off + 9] as u128;
    let x10 = b[off + 10] as u128;
    let x11 = b[off + 11] as u128;
    let x12 = b[off + 12] as u128;
    let x13 = b[off + 13] as u128;
    let x14 = b[off + 14] as u128;
    let x15 = b[off + 15] as u128;
    let v = spec_read128(b, off);
    assert(v == (x0 + 0x100 * x1 + 0x10000 * x2 + 0x1000000 * x3 + 0x100000000 * x4
        + 0x10000000000 * x5 + 0x1000000000000 * x6 + 0x100000000000000 * x7
        + 0x10000000000000000 * x8 + 0x1000000000000000000 * x9
        + 0x100000000000000000000 * x10 + 0x10000000000000000000000 * x11
        + 0x1000000000000000000000000 * x12 + 0x100000000000000000000000000 * x13
        + 0x10000000000000000000000000000 * x14
        + 0x1000000000000000000000000000000 * x15) as u128);
    assert({
        &&& (v >> 0) & 0xff == x0
        &&& (v >> 8) & 0xff == x1
        &&& (v >> 16) & 0xff == x2
        &&& (v >> 24) & 0xff == x3
        &&& (v >> 32) & 0xff == x4
        &&& (v >> 40) & 0xff == x5
        &&& (v >> 48) & 0xff == x6
        &&& (v >> 56) & 0xff == x7
        &&& (v >> 64) & 0xff == x8
        &&& (v >> 72) & 0xff == x9
        &&& (v >> 80) & 0xff == x10
        &&& (v >> 88) & 0xff == x11
        &&& (v >> 96) & 0xff == x12
        &&& (v >> 104) & 0xff == x13
        &&& (v >> 112) & 0xff == x14
        &&& (v >> 120) & 0xff == x15
    }) by (bit_vector)
        requires
            v == (x0 + 0x100 * x1 + 0x10000 * x2 + 0x1000000 * x3 + 0x100000000 * x4
                + 0x10000000000 * x5 + 0x1000000000000 * x6 + 0x100000000000000 * x7
                + 0x10000000000000000 * x8 + 0x1000000000000000000 * x9
                + 0x100000000000000000000 * x10 + 0x10000000000000000000000 * x11
                + 0x1000000000000000000000000 * x12 + 0x100000000000000000000000000 * x13
                + 0x10000000000000000000000000000 * x14
                + 0x1000000000000000000000000000000 * x15) as u128,
            x0 <= 0xff && x1 <= 0xff && x2 <= 0xff && x3 <= 0xff && x4 <= 0xff && x5 <= 0xff
                && x6 <= 0xff && x7 <= 0xff && x8 <= 0xff && x9 <= 0xff && x10 <= 0xff
                && x11 <= 0xff && x12 <= 0xff && x13 <= 0xff && x14 <= 0xff && x15 <= 0xff,
    ;
}

/// Pairs read back from a frame serialize to exactly the bytes they were
/// read from.
proof fn lemma_pairs_inverse(b: Seq<u8>, base: int, s: Seq<AssetAmount>)
    requires
        0 <= base,
        base + 24 * s.len() <= b.len(),
        forall|k: int| 0 <= k < s.len() ==> (#[trigger] s[k]).asset_id
            == spec_read64(b, base + 24 * k)
            && s[k].amount == spec_read128(b, base + 24 * k + 8),
    ensures
        spec_pairs(s) =~= b.subrange(base, base + 24 * s.len()),
    decreases s.len(),
{
    if s.len() == 0 {
    } else {
        let n = s.len() as int;
        lemma_pairs_inverse(b, base, s.drop_last());
        lemma_le64_inverse(b, base + 24 * (n - 1));
        lemma_le128_inverse(b, base + 24 * (n - 1) + 8);
        assert(spec_pairs(s) =~= b.subrange(base, base + 24 * n));
    }
}

/// Ids read back from a frame serialize to exactly the bytes they were
/// read from.
proof fn lemma_ids_inverse(b: Seq<u8>, base: int, s: Seq<u64>)
    requires
        0 <= base,
        base + 8 * s.len() <= b.len(),
        forall|k: int| 0 <= k < s.len() ==> #[trigger] s[k] == spec_read64(b, base + 8 * k),
    ensures
        spec_ids(s) =~= b.subrange(base, base + 8 * s.len()),
    decreases s.len(),
{
    if s.len() == 0 {
    } else {
        let n = s.len() as int;
        lemma_ids_inverse(b, base, s.drop_last());
        lemma_le64_inverse(b, base + 8 * (n - 1));
        assert(spec_ids(s) =~= b.subrange(base, base + 8 * n));
    }
}

/// Reading back freshly serialized 64-bit bytes recovers the value.
proof fn lemma_read_of_le64(b: Seq<u8>, off: int, n: u64)
    requires
        0 <= off,
        off + 8 <= b.len(),
        b.subrange(off, off + 8) =~= spec_le64(n),
    ensures
        spec_read64(b, off) == n,
{
    assert(n == (n & 0xff) + 0x100 * ((n >> 8) & 0xff) + 0x10000 * ((n >> 16) & 0xff)
        + 0x1000000 * ((n >> 24) & 0xff) + 0x100000000 * ((n >> 32) & 0xff)
        + 0x10000000000 * ((n >> 40) & 0xff) + 0x1000000000000 * ((n >> 48) & 0xff)
        + 0x100000000000000 * ((n >> 56) & 0xff)) by (bit_vector);
    assert((n & 0xff) <= 0xff && ((n >> 8) & 0xff) <= 0xff && ((n >> 16) & 0xff) <= 0xff
        && ((n >> 24) & 0xff) <= 0xff && ((n >> 32) & 0xff) <= 0xff
        && ((n >> 40) & 0xff) <= 0xff && ((n >> 48) & 0xff) <= 0xff
        && ((n >> 56) & 0xff) <= 0xff) by (bit_vector);
    assert(b[off] == spec_le64(n)[0]);
    assert(b[off + 1] == spec_le64(n)[1]);
    assert(b[off + 2] == spec_le64(n)[2]);
    assert(b[off + 3] == spec_le64(n)[3]);
    assert(b[off + 4] == spec_le64(n)[4]);
    assert(b[off + 5] == spec_le64(n)[5]);
    assert(b[off + 6] == spec_le64(n)[6]);
    assert(b[off + 7] == spec_le64(n)[7]);
    assert(n >> 0 == n) by (bit_vector);
    assert(b[off] as int == (n & 0xff) as int);
    assert(b[off + 1] as int == ((n >> 8) & 0xff) as int);
    assert(b[off + 2] as int == ((n >> 16) & 0xff) as int);
    assert(b[off + 3] as int == ((n >> 24) & 0xff) as int);
    assert(b[off + 4] as int == ((n >> 32) & 0xff) as int);
    assert(b[off + 5] as int == ((n >> 40) & 0xff) as int);
    assert(b[off + 6] as int == ((n >> 48) & 0xff) as int);
    assert(b[off + 7] as int == ((n >> 56) & 0xff) as int);
    let s = b[off] + 0x100 * (b[off + 1] as int) + 0x10000 * (b[off + 2] as int)
        + 0x1000000 * (b[off + 3] as int) + 0x100000000 * (b[off + 4] as int)
        + 0x10000000000 * (b[off + 5] as int) + 0x1000000000000 * (b[off + 6] as int)
        + 0x100000000000000 * (b[off + 7] as int);
    assert(s == n);
    assert(spec_read64(b, off) == s as u64);
}

/// Serialized pairs take 24 bytes each.
proof fn lemma_pairs_len(s: Seq<AssetAmount>)
    ensures
        spec_pairs(s).len() == 24 * s.len(),
    decreases s.len(),
{
    if s.len() > 0 {
        lemma_pairs_len(s.drop_last());
    }
}

/// Serialized ids take 8 bytes each.
proof fn lemma_ids_len(s: Seq<u64>)
    ensures
        spec_ids(s).len() == 8 * s.len(),
    decreases s.len(),
{
    if s.len() > 0 {
        lemma_ids_len(s.drop_last());
    }
}

/// The encoder and decoder are inverse: every operation's canonical frame
/// is accepted by the decoder, and whatever the decoder accepts re-encodes
/// to the very bytes it read. Together with `decode_liquidity_operation`'s
/// contract this is the wire-format round-trip law.
pub proof fn lemma_op_frame_valid(op: LiquidityOperation)
    ensures
        spec_valid_frame(spec_encode_op(op)),
{
    broadcast use vstd::std_specs::vec::axiom_spec_len;

    let e = spec_encode_op(op);
    match op {
        LiquidityOperation::AddLiquidity { target_ledger_id, assets, .. } => {
            lemma_pairs_len(assets@);
            assert(vstd::std_specs::vec::spec_vec_len(&assets) == assets@.len());
            assert(assets@.len() <= u64::MAX);
            assert(e[0] == 1);
            assert(e.len() == 65 + 24 * assets@.len());
            let cnt = assets@.len() as u64;
            assert(e.subrange(57, 65) =~= spec_le64(cnt));
            lemma_read_of_le64(e, 57, cnt);
            let t = target_ledger_id as u64;
            assert(e.subrange(17, 25) =~= spec_le64(t));
            lemma_read_of_le64(e, 17, t);
        }
        LiquidityOperation::RemoveLiquidity { target_ledger_id, min_assets, .. } => {
            lemma_pairs_len(min_assets@);
            assert(vstd::std_specs::vec::spec_vec_len(&min_assets) == min_assets@.len());
            assert(min_assets@.len() <= u64::MAX);
            assert(e[0] == 2);
            assert(e.len() == 65 + 24 * min_assets@.len());
            let cnt = min_assets@.len() as u64;
            assert(e.subrange(57, 65) =~= spec_le64(cnt));
            lemma_read_of_le64(e, 57, cnt);
            let t = target_ledger_id as u64;
            assert(e.subrange(17, 25) =~= spec_le64(t));
            lemma_read_of_le64(e, 17, t);
        }
        LiquidityOperation::ExecuteSwap { path, .. } => {
            lemma_ids_len(path@);
            assert(vstd::std_specs::vec::spec_vec_len(&path) == path@.len());
            assert(path@.len() <= u64::MAX);
            assert(e[0] == 3);
            assert(e.len() == 81 + 8 * path@.len());
            let cnt = path@.len() as u64;
            assert(e.subrange(73, 81) =~= spec_le64(cnt));
            lemma_read_of_le64(e, 73, cnt);
        }
    }
}

/// Read the 64-bit value at `off`.
fn read_u64_at(b: &Vec<u8>, off: usize) -> (r: u64)
    requires
        off + 8 <= b@.len(),
    ensures
        r == spec_read64(b@, off as int),
{
    let total = b.len();
    b[off] as u64 + 0x100 * (b[off + 1] as u64) + 0x10000 * (b[off + 2] as u64)
        + 0x1000000 * (b[off + 3] as u64) + 0x100000000 * (b[off + 4] as u64)
        + 0x10000000000 * (b[off + 5] as u64) + 0x1000000000000 * (b[off + 6] as u64)
        + 0x100000000000000 * (b[off + 7] as u64)
}

/// Read the 128-bit value at `off`.
fn read_u128_at(b: &Vec<u8>, off: usize) -> (r: u128)
    requires
        off + 16 <= b@.len(),
    ensures
        r == spec_read128(b@, off as int),
{
    let total = b.len();
    b[off] as u128 + 0x100 * (b[off + 1] as u128) + 0x10000 * (b[off + 2] as u128)
        + 0x1000000 * (b[off + 3] as u128) + 0x100000000 * (b[off + 4] as u128)
        + 0x10000000000 * (b[off + 5] as u128) + 0x1000000000000 * (b[off + 6] as u128)
        + 0x100000000000000 * (b[off + 7] as u128)
        + 0x10000000000000000 * (b[off + 8] as u128)
        + 0x1000000000000000000 * (b[off + 9] as u128)
        + 0x100000000000000000000 * (b[off + 10] as u128)
        + 0x10000000000000000000000 * (b[off + 11] as u128)
        + 0x1000000000000000000000000 * (b[off + 12] as u128)
        + 0x100000000000000000000000000 * (b[off + 13] as u128)
        + 0x10000000000000000000000000000 * (b[off + 14] as u128)
        + 0x1000000000000000000000000000000 * (b[off + 15] as u128)
}

/// Parse a canonical operation frame. Succeeds exactly on the canonical
/// frames, and the returned operation re-encodes to the input byte for
/// byte; anything else is rejected as uncorrectable transport damage.
#[verifier::loop_isolation(false)]
#[verifier::rlimit(50)]
pub fn decode_liquidity_operation(bytes: &Vec<u8>) -> (r: Result<LiquidityOperation, Error>)
    ensures
        r is Ok <==> spec_valid_frame(bytes@),
        r matches Ok(op) ==> bytes@ == spec_encode_op(op),
        r is Err ==> r->Err_0 == Error::UncorrectableError,
{
    let total = bytes.len();
    if total < 1 {
        return Err(Error::UncorrectableError);
    }
    let tag = bytes[0];
    if tag == 1 || tag == 2 {
        if total < 65 {
            return Err(Error::UncorrectableError);
        }
        let count = read_u64_at(bytes, 57);
        let body = total - 65;
        proof {
            if spec_valid_frame(bytes@) {
                assert(body as int == 24 * (spec_read64(bytes@, 57) as int));
                assert((24 * (spec_read64(bytes@, 57) as int)) % 24 == 0
                    && (24 * (spec_read64(bytes@, 57) as int)) / 24
                        == spec_read64(bytes@, 57) as int) by (nonlinear_arith);
            }
        }
        if body % 24 != 0 {
            return Err(Error::UncorrectableError);
        }
        let n_pairs = body / 24;
        if n_pairs as u64 != count {
            proof {
                assert(body as int == 24 * (n_pairs as int) + body as int % 24);
            }
            return Err(Error::UncorrectableError);
        }
        proof {
            vstd::arithmetic::div_mod::lemma_fundamental_div_mod(body as int, 24);
            assert(body as int == 24 * (n_pairs as int));
        }
        let target64 = read_u64_at(bytes, 17);
        if target64 > 0xffffffff {
            return Err(Error::UncorrectableError);
        }
        let provider = read_u64_at(bytes, 1);
        let pool_id = read_u64_at(bytes, 9);
        let target = target64 as u32;
        let amount128 = read_u128_at(bytes, 25);
        let op_id = read_u64_at(bytes, 41);
        let exp = read_u64_at(bytes, 49);
        let mut assets: Vec<AssetAmount> = Vec::new();
        let mut i: usize = 0;
        while i < n_pairs
            invariant
                i <= n_pairs,
                assets@.len() == i,
                forall|k: int| 0 <= k < i ==> (#[trigger] assets@[k]).asset_id
                    == spec_read64(bytes@, 65 + 24 * k)
                    && assets@[k].amount == spec_read128(bytes@, 65 + 24 * k + 8),
            decreases n_pairs - i,
        {
            proof {
                assert(24 * (i as int) + 24 <= 24 * (n_pairs as int)) by (nonlinear_arith)
                    requires i < n_pairs;
            }
            let off = 65 + 24 * i;
            let aid = read_u64_at(bytes, off);
            let amt = read_u128_at(bytes, off + 8);
            assets.push(AssetAmount { asset_id: aid, amount: amt });
            i = i + 1;
        }
        let ghost aseq = assets@;
        let op = if tag == 1 {
            LiquidityOperation::AddLiquidity {
                provider,
                pool_id,
                target_ledger_id: target,
                min_shares: amount128,
                operation_id: op_id,
                expiration: exp,
                assets,
            }
        } else {
            LiquidityOperation::RemoveLiquidity {
                provider,
                pool_id,
                target_ledger_id: target,
                shares: amount128,
                operation_id: op_id,
                expiration: exp,
                min_assets: assets,
            }
        };
        proof {
            lemma_le64_inverse(bytes@, 1);
            lemma_le64_inverse(bytes@, 9);
            lemma_le64_inverse(bytes@, 17);
            lemma_le128_inverse(bytes@, 25);
            lemma_le64_inverse(bytes@, 41);
            lemma_le64_inverse(bytes@, 49);
            lemma_le64_inverse(bytes@, 57);
            lemma_pairs_inverse(bytes@, 65, aseq);
            assert(target64 as u32 as u64 == target64);
            assert(spec_encode_op(op) =~= bytes@);
        }
        Ok(op)
    } else if tag == 3 {
        if total < 81 {
            return Err(Error::UncorrectableError);
        }
        let count = read_u64_at(bytes, 73);
        let body = total - 81;
        proof {
            if spec_valid_frame(bytes@) {
                assert((8 * (spec_read64(bytes@, 73) as int)) % 8 == 0
                    && (8 * (spec_read64(bytes@, 73) as int)) / 8
                        == spec_read64(bytes@, 73) as int) by (nonlinear_arith);
            }
        }
        if body % 8 != 0 {
            return Err(Error::UncorrectableError);
        }
        let n_ids = body / 8;
        if n_ids as u64 != count {
            proof {
                assert(body as int == 8 * (n_ids as int) + body as int % 8);
            }
            return Err(Error::UncorrectableError);
        }
        proof {
            vstd::arithmetic::div_mod::lemma_fundamental_div_mod(body as int, 8);
            assert(body as int == 8 * (n_ids as int));
        }
        let initiator = read_u64_at(bytes, 1);
        let source_asset = read_u64_at(bytes, 9);
        let target_asset = read_u64_at(bytes, 17);
        let amount = read_u128_at(bytes, 25);
        let min_receive = read_u128_at(bytes, 41);
        let op_id = read_u64_at(bytes, 57);
        let exp = read_u64_at(bytes, 65);
        let mut path: Vec<u64> = Vec::new();
        let mut i: usize = 0;
        while i < n_ids
            invariant
                i <= n_ids,
                path@.len() == i,
                forall|k: int| 0 <= k < i ==> #[trigger] path@[k]
                    == spec_read64(bytes@, 81 + 8 * k),
            decreases n_ids - i,
        {
            proof {
                assert(8 * (i as int) + 8 <= 8 * (n_ids as int)) by (nonlinear_arith)
                    requires i < n_ids;
            }
            let off = 81 + 8 * i;
            path.push(read_u64_at(bytes, off));
            i = i + 1;
        }
        let ghost pseq = path@;
        let op = LiquidityOperation::ExecuteSwap {
            initiator,
            source_asset,
            target_asset,
            amount,
            min_receive,
            operation_id: op_id,
            expiration: exp,
            path,
        };
        proof {
            lemma_le64_inverse(bytes@, 1);
            lemma_le64_inverse(bytes@, 9);
            lemma_le64_inverse(bytes@, 17);
            lemma_le128_inverse(bytes@, 25);
            lemma_le128_inverse(bytes@, 41);
            lemma_le64_inverse(bytes@, 57);
            lemma_le64_inverse(bytes@, 65);
            lemma_le64_inverse(bytes@, 73);
            lemma_ids_inverse(bytes@, 81, pseq);
            assert(spec_encode_op(op) =~= bytes@);
        }
        Ok(op)
    } else {
        Err(Error::UncorrectableError)
    }
}

} // verus!
