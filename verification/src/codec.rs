//! Pluggable error-correction codec for cross-ledger message payloads.
//!
//! Every variant frames a payload the same way: one tag byte naming the
//! variant, four little-endian length bytes, then the payload repeated a
//! variant-specific number of times. Decoding takes a per-position majority
//! vote across the copies, so a frame survives corruption of up to
//! `(copies - 1) / 2` copies at each payload position; a position with no
//! strict majority makes the whole frame uncorrectable. Variants differ only
//! in their repetition budget, never in the interface, so new variants can
//! be added without touching callers.

use vstd::prelude::*;
use crate::Error;

verus! {

/// The selectable redundancy schemes.
#[derive(Clone, Copy, PartialEq, Eq, Structural, Debug)]
pub enum CodecKind {
    /// Triple redundancy: corrects one corrupted copy per position.
    Classical,
    /// Framing only, no redundancy: detects structural damage.
    Bridge,
    /// Five-fold redundancy: corrects two corrupted copies per position.
    Quantum,
}

/// Tag byte that names a variant on the wire.
pub open spec fn spec_tag(k: CodecKind) -> u8 {
    match k {
        CodecKind::Classical => 1,
        CodecKind::Bridge => 2,
        CodecKind::Quantum => 3,
    }
}

/// The variant a tag byte names, if any.
pub open spec fn spec_kind_of_tag(t: u8) -> Option<CodecKind> {
    if t == 1 {
        Some(CodecKind::Classical)
    } else if t == 2 {
        Some(CodecKind::Bridge)
    } else if t == 3 {
        Some(CodecKind::Quantum)
    } else {
        None
    }
}

/// How many copies of the payload a variant carries.
pub open spec fn spec_rep(k: CodecKind) -> int {
    match k {
        CodecKind::Classical => 3,
        CodecKind::Bridge => 1,
        CodecKind::Quantum => 5,
    }
}

/// The four little-endian length bytes of a frame header.
pub open spec fn spec_le32(n: u64) -> Seq<u8> {
    seq![
        (n & 0xff) as u8,
        ((n >> 8) & 0xff) as u8,
        ((n >> 16) & 0xff) as u8,
        ((n >> 24) & 0xff) as u8,
    ]
}

/// The length a frame header declares.
pub open spec fn spec_le32_val(b0: u8, b1: u8, b2: u8, b3: u8) -> int {
    b0 + 0x100 * (b1 as int) + 0x10000 * (b2 as int) + 0x1000000 * (b3 as int)
}

/// `s` concatenated with itself `n` times.
pub open spec fn spec_repeat(s: Seq<u8>, n: int) -> Seq<u8>
    decreases n,
{
    if n <= 0 {
        Seq::empty()
    } else {
        spec_repeat(s, n - 1) + s
    }
}

/// The encoded frame: tag, length, copies.
pub open spec fn spec_encode(k: CodecKind, s: Seq<u8>) -> Seq<u8> {
    seq![spec_tag(k)] + spec_le32(s.len() as u64) + spec_repeat(s, spec_rep(k))
}

/// Byte `i` of copy `j` inside a frame whose payload length is `len`.
pub open spec fn spec_copy_byte(b: Seq<u8>, len: int, j: int, i: int) -> u8 {
    b[5 + j * len + i]
}

/// How many of the first `upto` copies carry `v` at position `i`.
pub open spec fn spec_count(b: Seq<u8>, len: int, i: int, v: u8, upto: int) -> int
    decreases upto,
{
    if upto <= 0 {
        0
    } else {
        spec_count(b, len, i, v, upto - 1)
            + if spec_copy_byte(b, len, upto - 1, i) == v { 1int } else { 0int }
    }
}

/// The majority vote at position `i`, scanning candidate copies from `j`
/// upward: the first candidate value held by a strict majority of all `r`
/// copies. Strict majorities are unique, so the scan order does not change
/// which value can win, only that the vote is well defined.
pub open spec fn spec_vote(b: Seq<u8>, len: int, r: int, i: int, j: int) -> Option<u8>
    decreases r - j,
{
    if j < 0 || j >= r {
        None
    } else if 2 * spec_count(b, len, i, spec_copy_byte(b, len, j, i), r) > r {
        Some(spec_copy_byte(b, len, j, i))
    } else {
        spec_vote(b, len, r, i, j + 1)
    }
}

/// What decoding yields: `None` if the frame is structurally damaged (short,
/// unknown tag, wrong body length) or some position lacks a strict majority;
/// otherwise the voted payload.
pub open spec fn spec_decode(b: Seq<u8>) -> Option<Seq<u8>> {
    if b.len() < 5 {
        None
    } else {
        match spec_kind_of_tag(b[0]) {
            None => None,
            Some(k) => {
                let len = spec_le32_val(b[1], b[2], b[3], b[4]);
                let r = spec_rep(k);
                if b.len() != 5 + r * len {
                    None
                } else if forall|i: int| 0 <= i < len ==> (#[trigger] spec_vote(b, len, r, i, 0)) is Some {
                    Some(Seq::new(len as nat, |i: int| spec_vote(b, len, r, i, 0)->Some_0))
                } else {
                    None
                }
            }
        }
    }
}

/// Tag byte of a variant.
pub fn codec_tag(k: CodecKind) -> (r: u8)
    ensures
        r == spec_tag(k),
{
    match k {
        CodecKind::Classical => 1,
        CodecKind::Bridge => 2,
        CodecKind::Quantum => 3,
    }
}

/// Repetition budget of a variant.
pub fn repetition(k: CodecKind) -> (r: usize)
    ensures
        r == spec_rep(k),
        1 <= r <= 5,
{
    match k {
        CodecKind::Classical => 3,
        CodecKind::Bridge => 1,
        CodecKind::Quantum => 5,
    }
}

/// Encode an outbound payload under the given variant. Fails `MathOverflow`
/// exactly when the payload is too long for the 32-bit length field.
pub fn apply_error_correction(kind: CodecKind, payload: &Vec<u8>) -> (r: Result<Vec<u8>, Error>)
    ensures
        payload@.len() <= 0xffffffff ==> (r is Ok && r->Ok_0@ == spec_encode(kind, payload@)),
        payload@.len() > 0xffffffff ==> r == Err::<Vec<u8>, Error>(Error::MathOverflow),
{
    if payload.len() > 0xffffffff {
        return Err(Error::MathOverflow);
    }
    let n: u64 = payload.len() as u64;
    let mut out: Vec<u8> = Vec::new();
    out.push(codec_tag(kind));
    out.push((n & 0xff) as u8);
    out.push(((n >> 8) & 0xff) as u8);
    out.push(((n >> 16) & 0xff) as u8);
    out.push(((n >> 24) & 0xff) as u8);
    proof {
        assert(out@ =~= seq![spec_tag(kind)] + spec_le32(n) + spec_repeat(payload@, 0));
    }
    let r_factor = repetition(kind);
    let mut j: usize = 0;
    while j < r_factor
        invariant
            j <= r_factor,
            r_factor == spec_rep(kind),
            n == payload@.len(),
            out@ == seq![spec_tag(kind)] + spec_le32(n) + spec_repeat(payload@, j as int),
        decreases r_factor - j,
    {
        let mut t: usize = 0;
        while t < payload.len()
            invariant
                t <= payload@.len(),
                n == payload@.len(),
                out@ == seq![spec_tag(kind)] + spec_le32(n) + spec_repeat(payload@, j as int)
                    + payload@.take(t as int),
            decreases payload@.len() - t,
        {
            out.push(payload[t]);
            proof {
                assert(payload@.take(t as int).push(payload@[t as int])
                    =~= payload@.take(t + 1 as int));
            }
            t = t + 1;
        }
        proof {
            assert(payload@.take(payload@.len() as int) =~= payload@);
            assert(spec_repeat(payload@, j + 1 as int)
                == spec_repeat(payload@, j as int) + payload@);
        }
        j = j + 1;
    }
    Ok(out)
}

/// Every copy index stays inside the frame body.
proof fn lemma_copy_index_bound(len: int, r: int, j: int, i: int)
    requires
        0 <= i < len,
        0 <= j < r,
    ensures
        0 <= j * len + i < r * len,
{
    assert(j * len >= 0) by (nonlinear_arith)
        requires j >= 0 && len >= 0;
    assert(j * len + len <= r * len) by (nonlinear_arith)
        requires j < r && len >= 0;
}

/// How many of the first `upto` copies carry `v` at position `i`, by scan.
fn count_at(bytes: &Vec<u8>, len: usize, r: usize, i: usize, v: u8) -> (c: usize)
    requires
        5 + r * len <= bytes@.len(),
        i < len,
        1 <= r <= 5,
    ensures
        c as int == spec_count(bytes@, len as int, i as int, v, r as int),
        c <= r,
{
    let total: usize = bytes.len();
    let mut c: usize = 0;
    let mut t: usize = 0;
    while t < r
        invariant
            t <= r,
            c <= t,
            5 + r * len <= total,
            total == bytes@.len(),
            i < len,
            1 <= r <= 5,
            c as int == spec_count(bytes@, len as int, i as int, v, t as int),
        decreases r - t,
    {
        proof {
            lemma_copy_index_bound(len as int, r as int, t as int, i as int);
        }
        if bytes[5 + t * len + i] == v {
            c = c + 1;
        }
        t = t + 1;
    }
    c
}

/// The majority vote at position `i`: the first copy's byte that a strict
/// majority of all copies carries, if any.
fn vote_at(bytes: &Vec<u8>, len: usize, r: usize, i: usize) -> (res: Option<u8>)
    requires
        5 + r * len <= bytes@.len(),
        i < len,
        1 <= r <= 5,
    ensures
        res == spec_vote(bytes@, len as int, r as int, i as int, 0),
{
    let total: usize = bytes.len();
    let mut j: usize = 0;
    while j < r
        invariant
            j <= r,
            5 + r * len <= total,
            total == bytes@.len(),
            i < len,
            1 <= r <= 5,
            spec_vote(bytes@, len as int, r as int, i as int, 0)
                == spec_vote(bytes@, len as int, r as int, i as int, j as int),
        decreases r - j,
    {
        proof {
            lemma_copy_index_bound(len as int, r as int, j as int, i as int);
        }
        let v = bytes[5 + j * len + i];
        let c = count_at(bytes, len, r, i, v);
        if 2 * c > r {
            return Some(v);
        }
        j = j + 1;
    }
    None
}

/// Decode and repair an inbound frame. Succeeds exactly when the frame is
/// well formed and every payload position has a strict-majority byte.
pub fn verify_and_correct(bytes: &Vec<u8>) -> (r: Result<Vec<u8>, Error>)
    ensures
        (match r {
            Ok(p) => spec_decode(bytes@) == Some(p@),
            Err(e) => e == Error::UncorrectableError && spec_decode(bytes@) is None,
        }),
{
    if bytes.len() < 5 {
        return Err(Error::UncorrectableError);
    }
    let tag = bytes[0];
    let kind = if tag == 1 {
        CodecKind::Classical
    } else if tag == 2 {
        CodecKind::Bridge
    } else if tag == 3 {
        CodecKind::Quantum
    } else {
        return Err(Error::UncorrectableError);
    };
    let r_factor: usize = repetition(kind);
    let len_u64: u64 = bytes[1] as u64 + 0x100 * (bytes[2] as u64) + 0x10000 * (bytes[3] as u64)
        + 0x1000000 * (bytes[4] as u64);
    let body: u64 = (bytes.len() - 5) as u64;
    proof {
        assert((r_factor as u64) * len_u64 <= 5 * 0x100000000u64) by (nonlinear_arith)
            requires r_factor as u64 <= 5 && len_u64 <= 0x100000000u64;
    }
    if body != (r_factor as u64) * len_u64 {
        return Err(Error::UncorrectableError);
    }
    let len: usize = len_u64 as usize;
    proof {
        assert(bytes@.len() == 5 + (r_factor as int) * (len as int));
    }
    let ghost glen = len as int;
    let ghost gr = r_factor as int;
    let mut out: Vec<u8> = Vec::new();
    let mut i: usize = 0;
    while i < len
        invariant
            i <= len,
            glen == len as int,
            gr == r_factor as int,
            1 <= r_factor <= 5,
            bytes@.len() == 5 + gr * glen,
            bytes@.len() >= 5,
            spec_kind_of_tag(bytes@[0]) == Some(kind),
            glen == spec_le32_val(bytes@[1], bytes@[2], bytes@[3], bytes@[4]),
            gr == spec_rep(kind),
            out@.len() == i,
            forall|t: int| 0 <= t < i ==> (#[trigger] spec_vote(bytes@, glen, gr, t, 0)) is Some
                && out@[t] == spec_vote(bytes@, glen, gr, t, 0)->Some_0,
        decreases len - i,
    {
        let vote = vote_at(bytes, len, r_factor, i);
        match vote {
            Some(v) => {
                out.push(v);
            }
            None => {
                return Err(Error::UncorrectableError);
            }
        }
        i = i + 1;
    }
    proof {
        assert(out@ =~= Seq::new(glen as nat, |t: int| spec_vote(bytes@, glen, gr, t, 0)->Some_0));
    }
    Ok(out)
}

/// Decode a frame that must carry the given variant's tag.
fn correct_with(kind: CodecKind, bytes: &Vec<u8>) -> (r: Result<Vec<u8>, Error>)
    ensures
        (match r {
            Ok(p) => spec_decode(bytes@) == Some(p@) && bytes@.len() >= 1
                && bytes@[0] == spec_tag(kind),
            Err(e) => e == Error::UncorrectableError && (spec_decode(bytes@) is None
                || bytes@.len() == 0 || bytes@[0] != spec_tag(kind)),
        }),
{
    if bytes.len() < 1 || bytes[0] != codec_tag(kind) {
        return Err(Error::UncorrectableError);
    }
    verify_and_correct(bytes)
}

/// Repair a classically encoded frame: majority vote over its three
/// copies, rejecting frames of any other variant.
pub fn correct_errors(bytes: &Vec<u8>) -> (r: Result<Vec<u8>, Error>)
    ensures
        (match r {
            Ok(p) => spec_decode(bytes@) == Some(p@) && bytes@.len() >= 1
                && bytes@[0] == spec_tag(CodecKind::Classical),
            Err(e) => e == Error::UncorrectableError && (spec_decode(bytes@) is None
                || bytes@.len() == 0 || bytes@[0] != spec_tag(CodecKind::Classical)),
        }),
{
    correct_with(CodecKind::Classical, bytes)
}

/// Repair a bridge-encoded frame: framing checks only, no redundancy.
pub fn correct_interface_errors(bytes: &Vec<u8>) -> (r: Result<Vec<u8>, Error>)
    ensures
        (match r {
            Ok(p) => spec_decode(bytes@) == Some(p@) && bytes@.len() >= 1
                && bytes@[0] == spec_tag(CodecKind::Bridge),
            Err(e) => e == Error::UncorrectableError && (spec_decode(bytes@) is None
                || bytes@.len() == 0 || bytes@[0] != spec_tag(CodecKind::Bridge)),
        }),
{
    correct_with(CodecKind::Bridge, bytes)
}

/// Repair a quantum-encoded frame: majority vote over its five copies,
/// rejecting frames of any other variant.
pub fn correct_quantum_errors(bytes: &Vec<u8>) -> (r: Result<Vec<u8>, Error>)
    ensures
        (match r {
            Ok(p) => spec_decode(bytes@) == Some(p@) && bytes@.len() >= 1
                && bytes@[0] == spec_tag(CodecKind::Quantum),
            Err(e) => e == Error::UncorrectableError && (spec_decode(bytes@) is None
                || bytes@.len() == 0 || bytes@[0] != spec_tag(CodecKind::Quantum)),
        }),
{
    correct_with(CodecKind::Quantum, bytes)
}

/// Concatenating `n` copies multiplies the length by `n`.
pub proof fn lemma_repeat_len(s: Seq<u8>, n: int)
    requires
        n >= 0,
    ensures
        spec_repeat(s, n).len() == n * s.len(),
    decreases n,
{
    if n == 0 {
        assert(0 * s.len() == 0) by (nonlinear_arith);
    } else {
        lemma_repeat_len(s, n - 1);
        assert((n - 1) * s.len() + s.len() == n * s.len()) by (nonlinear_arith);
    }
}

/// Inside `n` concatenated copies, byte `i` of copy `j` is `s[i]`.
pub proof fn lemma_repeat_index(s: Seq<u8>, n: int, j: int, i: int)
    requires
        0 <= j < n,
        0 <= i < s.len(),
    ensures
        spec_repeat(s, n)[j * s.len() + i] == s[i],
    decreases n,
{
    lemma_repeat_len(s, n - 1);
    if j == n - 1 {
        assert(spec_repeat(s, n)[(n - 1) * s.len() + i] == s[i]);
    } else {
        lemma_repeat_index(s, n - 1, j, i);
        lemma_copy_index_bound(s.len() as int, (n - 1) as int, j, i);
    }
}

/// If every one of the first `upto` copies carries `v` at position `i`,
/// the count is `upto`.
proof fn lemma_count_all_equal(b: Seq<u8>, len: int, i: int, v: u8, upto: int)
    requires
        upto >= 0,
        forall|j: int| 0 <= j < upto ==> #[trigger] spec_copy_byte(b, len, j, i) == v,
    ensures
        spec_count(b, len, i, v, upto) == upto,
    decreases upto,
{
    if upto > 0 {
        lemma_count_all_equal(b, len, i, v, upto - 1);
    }
}

/// Decoding inverts encoding: an undamaged frame yields exactly the payload
/// that was encoded, under every codec variant.
pub proof fn lemma_decode_inverts_encode(k: CodecKind, s: Seq<u8>)
    requires
        s.len() <= 0xffffffff,
    ensures
        spec_decode(spec_encode(k, s)) == Some(s),
{
    let e = spec_encode(k, s);
    let r = spec_rep(k);
    let len = s.len() as int;
    let n = s.len() as u64;
    lemma_repeat_len(s, r);
    assert(e.len() == 5 + r * len);
    assert(spec_kind_of_tag(e[0]) == Some(k));
    assert(n == (n & 0xff) + 0x100 * ((n >> 8) & 0xff) + 0x10000 * ((n >> 16) & 0xff)
        + 0x1000000 * ((n >> 24) & 0xff)) by (bit_vector)
        requires n <= 0xffffffff;
    assert((n & 0xff) <= 0xff && ((n >> 8) & 0xff) <= 0xff && ((n >> 16) & 0xff) <= 0xff
        && ((n >> 24) & 0xff) <= 0xff) by (bit_vector);
    assert(e[1] == (n & 0xff) as u8);
    assert(e[2] == ((n >> 8) & 0xff) as u8);
    assert(e[3] == ((n >> 16) & 0xff) as u8);
    assert(e[4] == ((n >> 24) & 0xff) as u8);
    assert(spec_le32_val(e[1], e[2], e[3], e[4]) == len);
    assert forall|i: int| 0 <= i < len implies #[trigger] spec_vote(e, len, r, i, 0)
        == Some(s[i]) by {
        assert forall|j: int| 0 <= j < r implies #[trigger] spec_copy_byte(e, len, j, i)
            == s[i] by {
            lemma_repeat_index(s, r, j, i);
            lemma_copy_index_bound(len, r, j, i);
            assert(e[5 + j * len + i] == spec_repeat(s, r)[j * len + i]);
        };
        lemma_count_all_equal(e, len, i, s[i], r);
        assert(spec_copy_byte(e, len, 0, i) == s[i]);
        assert(2 * spec_count(e, len, i, s[i], r) > r);
    };
    assert(Seq::new(len as nat, |i: int| spec_vote(e, len, r, i, 0)->Some_0) =~= s);
}

} // verus!
