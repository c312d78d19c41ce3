//! The cross-ledger messenger: per-destination sequencing on the way out,
//! an idempotent replay guard on the way in, and the error-correction
//! codec applied to every payload.
//!
//! Sequence numbers are strictly increasing per directed ledger pair and
//! are the only cross-ledger ordering guarantee. A sequence number already
//! processed for a source is rejected idempotently — no error, no effect —
//! so replaying a delivery cannot apply its operation twice. Uncorrectable
//! payloads are rejected without recording the sequence number, so the
//! transport can redeliver them.

use vstd::prelude::*;
use crate::{Error, LedgerId};
use crate::codec;
use crate::codec::CodecKind;
use crate::ops;
use crate::ops::LiquidityOperation;

verus! {

/// Kinds of cross-ledger messages; the payload's meaning is the
/// dispatcher's business, the messenger treats it as bytes.
#[derive(Clone, Copy, PartialEq, Eq, Structural, Debug)]
pub enum XcmMessageType {
    AssetTransfer,
    LiquidityOperation,
    PriceUpdate,
    Custom(u8),
}

/// A wire message bound for another ledger.
#[derive(Debug)]
pub struct CrossChainMessage {
    pub source_ledger_id: LedgerId,
    pub destination_ledger_id: LedgerId,
    pub sequence: u64,
    pub kind: XcmMessageType,
    pub codec_kind: CodecKind,
    /// The payload, already encoded by the codec.
    pub encoded_payload: Vec<u8>,
}

/// Outbound sequencing state for one destination ledger.
#[derive(Clone, Copy, Debug)]
pub struct Channel {
    pub destination: LedgerId,
    pub next_seq: u64,
}

/// Replay-guard key: one delivered sequence number from one source ledger.
#[derive(Clone, Copy, PartialEq, Eq, Structural, Debug)]
pub struct ProcessedKey {
    pub source: LedgerId,
    pub sequence: u64,
}

/// One ledger's messenger state: its own id, outbound sequence counters
/// per destination, and the set of already-processed inbound deliveries.
#[derive(Debug)]
pub struct CrossChainMessenger {
    pub ledger_id: LedgerId,
    pub channels: Vec<Channel>,
    pub processed: Vec<ProcessedKey>,
}

/// The messenger invariant: one channel per destination.
pub open spec fn spec_messenger_wf(m: CrossChainMessenger) -> bool {
    forall|i: int, j: int| 0 <= i < j < m.channels@.len()
        ==> m.channels@[i].destination != m.channels@[j].destination
}

/// Index of the channel for the given destination, if one exists.
pub open spec fn spec_channel_index(channels: Seq<Channel>, destination: LedgerId)
    -> Option<int> {
    if exists|i: int| 0 <= i < channels.len()
        && (#[trigger] channels[i]).destination == destination {
        Some(choose|i: int| 0 <= i < channels.len()
            && (#[trigger] channels[i]).destination == destination)
    } else {
        None
    }
}

/// The next outbound sequence number for a destination (0 before the first
/// send).
pub open spec fn spec_next_seq(m: CrossChainMessenger, destination: LedgerId) -> u64 {
    match spec_channel_index(m.channels@, destination) {
        Some(i) => m.channels@[i].next_seq,
        None => 0,
    }
}

/// Whether an inbound `(source, sequence)` pair was already processed.
pub open spec fn spec_processed_contains(
    processed: Seq<ProcessedKey>,
    source: LedgerId,
    sequence: u64,
) -> bool {
    exists|i: int| 0 <= i < processed.len()
        && (#[trigger] processed[i]) == (ProcessedKey { source, sequence })
}

impl CrossChainMessenger {
    /// A fresh messenger for one ledger: no channels, nothing processed.
    pub fn new(ledger_id: LedgerId) -> (r: CrossChainMessenger)
        ensures
            spec_messenger_wf(r),
            r.ledger_id == ledger_id,
            r.channels@.len() == 0,
            r.processed@.len() == 0,
    {
        CrossChainMessenger { ledger_id, channels: Vec::new(), processed: Vec::new() }
    }

    /// Position of the channel for the given destination.
    fn find_channel(&self, destination: LedgerId) -> (r: Option<usize>)
        requires
            spec_messenger_wf(*self),
        ensures
            (r is Some <==> spec_channel_index(self.channels@, destination) is Some),
            r is Some ==> r->0 as int == spec_channel_index(self.channels@, destination)->0
                && r->0 < self.channels@.len()
                && self.channels@[r->0 as int].destination == destination,
    {
        let n = self.channels.len();
        let mut i: usize = 0;
        while i < n
            invariant
                i <= n,
                n == self.channels@.len(),
                spec_messenger_wf(*self),
                forall|k: int| 0 <= k < i
                    ==> (#[trigger] self.channels@[k]).destination != destination,
            decreases n - i,
        {
            if self.channels[i].destination == destination {
                proof {
                    let c = choose|k: int| 0 <= k < self.channels@.len()
                        && (#[trigger] self.channels@[k]).destination == destination;
                    if c != i as int {
                        assert(self.channels@[c].destination
                            == self.channels@[i as int].destination);
                    }
                }
                return Some(i);
            }
            i = i + 1;
        }
        None
    }

    /// Build the next outbound message for a destination: assign the next
    /// sequence number for the `(self, destination)` pair, encode the
    /// payload through the chosen codec variant, and advance the counter.
    /// The transport collaborator delivers the returned message.
    #[verifier::loop_isolation(false)]
    pub fn send_xcm_message(
        &mut self,
        destination: LedgerId,
        kind: XcmMessageType,
        payload: &Vec<u8>,
        codec_kind: CodecKind,
    ) -> (r: Result<CrossChainMessage, Error>)
        requires
            spec_messenger_wf(*old(self)),
        ensures
            spec_messenger_wf(*final(self)),
            final(self).ledger_id == old(self).ledger_id,
            spec_next_seq(*old(self), destination) == u64::MAX
                ==> r is Err && r->Err_0 == Error::MathOverflow && *final(self) == *old(self),
            spec_next_seq(*old(self), destination) < u64::MAX && payload@.len() > 0xffffffff
                ==> r is Err && r->Err_0 == Error::MathOverflow && *final(self) == *old(self),
            spec_next_seq(*old(self), destination) < u64::MAX && payload@.len() <= 0xffffffff
                ==> {
                &&& r is Ok
                &&& ({
                    let msg = r->Ok_0;
                    &&& msg.source_ledger_id == old(self).ledger_id
                    &&& msg.destination_ledger_id == destination
                    &&& msg.sequence == spec_next_seq(*old(self), destination)
                    &&& msg.kind == kind
                    &&& msg.codec_kind == codec_kind
                    &&& msg.encoded_payload@ == codec::spec_encode(codec_kind, payload@)
                })
                &&& spec_next_seq(*final(self), destination)
                    == spec_next_seq(*old(self), destination) + 1
                &&& (forall|d: LedgerId| d != destination
                    ==> spec_next_seq(*final(self), d) == spec_next_seq(*old(self), d))
                &&& final(self).processed@ == old(self).processed@
            },
    {
        let idx = self.find_channel(destination);
        let seq: u64 = match idx {
            Some(i) => self.channels[i].next_seq,
            None => 0,
        };
        if seq == u64::MAX {
            return Err(Error::MathOverflow);
        }
        let encoded = match codec::apply_error_correction(codec_kind, payload) {
            Ok(v) => v,
            Err(e) => {
                return Err(e);
            }
        };
        match idx {
            Some(i) => {
                let ch = self.channels[i];
                self.channels.set(i, Channel { destination, next_seq: seq + 1 });
                proof {
                    assert forall|d: LedgerId| d != destination
                        implies spec_next_seq(*self, d) == spec_next_seq(*old(self), d) by {
                        lemma_next_seq_other(old(self).channels@, self.channels@, i as int, d);
                    };
                    lemma_next_seq_at(self.channels@, i as int);
                }
            }
            None => {
                self.channels.push(Channel { destination, next_seq: seq + 1 });
                proof {
                    assert forall|d: LedgerId| d != destination
                        implies spec_next_seq(*self, d) == spec_next_seq(*old(self), d) by {
                        lemma_next_seq_push(old(self).channels@, self.channels@, d);
                    };
                    lemma_next_seq_at(self.channels@, self.channels@.len() - 1);
                }
            }
        }
        Ok(CrossChainMessage {
            source_ledger_id: self.ledger_id,
            destination_ledger_id: destination,
            sequence: seq,
            kind,
            codec_kind,
            encoded_payload: encoded,
        })
    }

    /// Serialize a liquidity operation into its canonical frame and send
    /// it as the next message for the destination.
    pub fn send_liquidity_operation(
        &mut self,
        destination: LedgerId,
        operation: &LiquidityOperation,
        codec_kind: CodecKind,
    ) -> (r: Result<CrossChainMessage, Error>)
        requires
            spec_messenger_wf(*old(self)),
        ensures
            spec_messenger_wf(*final(self)),
            r is Err ==> *final(self) == *old(self)
                && r->Err_0 == Error::MathOverflow,
            spec_next_seq(*old(self), destination) < u64::MAX
                    && ops::spec_encode_op(*operation).len() <= 0xffffffff
                <==> r is Ok,
            r matches Ok(msg) ==> {
                &&& msg.source_ledger_id == old(self).ledger_id
                &&& msg.destination_ledger_id == destination
                &&& msg.sequence == spec_next_seq(*old(self), destination)
                &&& msg.kind is LiquidityOperation
                &&& msg.codec_kind == codec_kind
                &&& msg.encoded_payload@ == codec::spec_encode(codec_kind,
                        ops::spec_encode_op(*operation))
                &&& spec_next_seq(*final(self), destination)
                    == spec_next_seq(*old(self), destination) + 1
                &&& final(self).processed@ == old(self).processed@
            },
    {
        let payload = ops::encode_liquidity_operation(operation);
        self.send_xcm_message(destination, XcmMessageType::LiquidityOperation, &payload,
            codec_kind)
    }

    /// Process an inbound delivery: decode and repair the payload through
    /// the codec; fail `UncorrectableError` (recording nothing, so the
    /// transport may redeliver) when the redundancy cannot reconstruct it;
    /// idempotently ignore a sequence number already processed for the
    /// source; otherwise record the sequence number and hand back the
    /// payload for dispatch.
    #[verifier::loop_isolation(false)]
    pub fn process_xcm_message(
        &mut self,
        source: LedgerId,
        kind: XcmMessageType,
        encoded_payload: &Vec<u8>,
        sequence: u64,
    ) -> (r: Result<Option<(XcmMessageType, Vec<u8>)>, Error>)
        requires
            spec_messenger_wf(*old(self)),
        ensures
            spec_messenger_wf(*final(self)),
            codec::spec_decode(encoded_payload@) is None
                ==> r is Err && r->Err_0 == Error::UncorrectableError
                    && *final(self) == *old(self),
            codec::spec_decode(encoded_payload@) is Some
                    && spec_processed_contains(old(self).processed@, source, sequence)
                ==> r == Ok::<Option<(XcmMessageType, Vec<u8>)>, Error>(None)
                    && *final(self) == *old(self),
            codec::spec_decode(encoded_payload@) is Some
                    && !spec_processed_contains(old(self).processed@, source, sequence)
                ==> {
                &&& r is Ok && r->Ok_0 is Some
                &&& ({
                    let pr = r->Ok_0->0;
                    pr.0 == kind && pr.1@ == codec::spec_decode(encoded_payload@)->Some_0
                })
                &&& final(self).processed@ == old(self).processed@.push(
                        ProcessedKey { source, sequence })
                &&& final(self).channels@ == old(self).channels@
                &&& final(self).ledger_id == old(self).ledger_id
            },
    {
        let payload = match codec::verify_and_correct(encoded_payload) {
            Ok(v) => v,
            Err(e) => {
                return Err(e);
            }
        };
        let n = self.processed.len();
        let mut i: usize = 0;
        while i < n
            invariant
                i <= n,
                n == self.processed@.len(),
                forall|k: int| 0 <= k < i ==> (#[trigger] self.processed@[k])
                    != (ProcessedKey { source, sequence }),
            decreases n - i,
        {
            let k = self.processed[i];
            if k.source == source && k.sequence == sequence {
                return Ok(None);
            }
            i = i + 1;
        }
        self.processed.push(ProcessedKey { source, sequence });
        Ok(Some((kind, payload)))
    }
}

/// Updating one channel leaves every other destination's counter alone.
proof fn lemma_next_seq_other(
    before: Seq<Channel>,
    after: Seq<Channel>,
    i: int,
    d: LedgerId,
)
    requires
        0 <= i < before.len(),
        after.len() == before.len(),
        forall|a: int, b: int| 0 <= a < b < before.len()
            ==> before[a].destination != before[b].destination,
        forall|k: int| 0 <= k < before.len() && k != i ==> after[k] == before[k],
        after[i].destination == before[i].destination,
        d != before[i].destination,
    ensures
        ({
            let bi = spec_channel_index(before, d);
            let ai = spec_channel_index(after, d);
            &&& (ai is Some <==> bi is Some)
            &&& ai is Some ==> after[ai->0].next_seq == before[bi->0].next_seq
        }),
{
    let bi = spec_channel_index(before, d);
    let ai = spec_channel_index(after, d);
    if bi is Some {
        let k = bi->0;
        assert(before[k].destination == d);
        assert(k != i);
        assert(after[k].destination == d);
        assert(ai is Some);
    }
    if ai is Some {
        let k = ai->0;
        assert(after[k].destination == d);
        assert(k != i);
        assert(before[k].destination == d);
        assert(bi is Some);
        let k2 = bi->0;
        assert(before[k2].destination == d);
        assert(k2 == k);
        assert(after[k].next_seq == before[k2].next_seq);
    }
}

/// Appending a channel for a new destination leaves every other
/// destination's counter alone.
proof fn lemma_next_seq_push(before: Seq<Channel>, after: Seq<Channel>, d: LedgerId)
    requires
        after.len() == before.len() + 1,
        forall|a: int, b: int| 0 <= a < b < before.len()
            ==> before[a].destination != before[b].destination,
        forall|k: int| 0 <= k < before.len() ==> after[k] == before[k],
        d != after[before.len() as int].destination,
    ensures
        ({
            let bi = spec_channel_index(before, d);
            let ai = spec_channel_index(after, d);
            &&& (ai is Some <==> bi is Some)
            &&& ai is Some ==> after[ai->0].next_seq == before[bi->0].next_seq
        }),
{
    let bi = spec_channel_index(before, d);
    let ai = spec_channel_index(after, d);
    if bi is Some {
        let k = bi->0;
        assert(after[k].destination == d);
        assert(ai is Some);
    }
    if ai is Some {
        let k = ai->0;
        assert(after[k].destination == d);
        assert(k != before.len());
        assert(before[k].destination == d);
        assert(bi is Some);
        let k2 = bi->0;
        assert(before[k2].destination == d);
        assert(k2 == k);
        assert(after[k].next_seq == before[k2].next_seq);
    }
}

/// In a well-formed channel list, the index found for a destination is the
/// unique one, so its counter is that channel's counter.
proof fn lemma_next_seq_at(channels: Seq<Channel>, i: int)
    requires
        0 <= i < channels.len(),
        forall|a: int, b: int| 0 <= a < b < channels.len()
            ==> channels[a].destination != channels[b].destination,
    ensures
        spec_channel_index(channels, channels[i].destination) == Some(i),
{
    let d = channels[i].destination;
    assert(channels[i].destination == d);
    let c = spec_channel_index(channels, d)->0;
    if c != i {
        assert(channels[c].destination == channels[i].destination);
    }
}

/// Replay is idempotent: after one successful processing of
/// `(source, sequence)` the key is recorded, so — by the contract of
/// `process_xcm_message` — a second delivery of the same pair returns no
/// action and leaves the messenger exactly as it was: two deliveries have
/// the observable effect of one.
pub proof fn lemma_receive_idempotent(
    m1: CrossChainMessenger,
    m2: CrossChainMessenger,
    source: LedgerId,
    sequence: u64,
)
    requires
        m2.processed@ == m1.processed@.push(ProcessedKey { source, sequence }),
    ensures
        spec_processed_contains(m2.processed@, source, sequence),
{
    assert(m2.processed@[m1.processed@.len() as int] == (ProcessedKey { source, sequence }));
}

} // verus!
