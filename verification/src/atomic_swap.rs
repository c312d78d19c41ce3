//! The atomic-swap coordinator: a hash-locked state machine that lets two
//! parties on different ledgers exchange assets with all-or-nothing
//! settlement.
//!
//! A swap moves `Pending -> InProgress -> {Completed | Failed | Expired |
//! Canceled}`; terminal states accept no further transition. Escrowed funds
//! are owned by the coordinator for the swap's lifetime: exactly the source
//! amount while `Pending`, both legs while `InProgress`, nothing once
//! resolved. Exactly one of claim, refund or cancel resolves a swap.
//! Timeouts are ledger heights, never wall clocks.

use vstd::prelude::*;
use crate::{AccountId, AssetId, Balance, BlockNumber, Error, ExecContext, LedgerId};
use crate::swap_lock;

verus! {

/// Lifecycle state of an atomic swap.
#[derive(Clone, Copy, PartialEq, Eq, Structural, Debug)]
pub enum SwapStatus {
    /// Initiated; only the source leg is escrowed.
    Pending,
    /// Counterparty joined; both legs are escrowed.
    InProgress,
    /// Claimed with the correct secret.
    Completed,
    /// Abandoned by the runtime; kept for state-machine completeness.
    Failed,
    /// Refunded after its expiry height.
    Expired,
    /// Canceled by the initiator before the counterparty joined.
    Canceled,
}

/// A status from which no further transition is accepted.
pub open spec fn spec_terminal(st: SwapStatus) -> bool {
    st is Completed || st is Failed || st is Expired || st is Canceled
}

/// Everything that identifies a swap before it gets its content-derived id.
#[derive(Clone, Copy, Debug)]
pub struct SwapParams {
    pub counterparty: AccountId,
    pub source_asset: AssetId,
    pub target_asset: AssetId,
    pub source_amount: Balance,
    pub target_amount: Balance,
    pub source_ledger_id: LedgerId,
    pub target_ledger_id: LedgerId,
    /// Caller-chosen uniqueness salt for the content-derived id.
    pub nonce: u64,
}

/// One cross-ledger atomic swap held by this ledger's coordinator.
#[derive(Debug)]
pub struct AtomicSwap {
    pub id: u64,
    pub initiator: AccountId,
    pub counterparty: AccountId,
    pub source_asset: AssetId,
    pub target_asset: AssetId,
    pub source_amount: Balance,
    pub target_amount: Balance,
    pub source_ledger_id: LedgerId,
    pub target_ledger_id: LedgerId,
    /// The digest a claimant's secret must hash to.
    pub hash_lock: Vec<u8>,
    pub created_at: BlockNumber,
    pub expires_at: BlockNumber,
    pub status: SwapStatus,
    /// Funds this coordinator currently holds for the swap.
    pub escrowed: Balance,
}

/// Observability log entries the coordinator appends; never read back.
#[derive(Clone, Copy, PartialEq, Eq, Structural, Debug)]
pub enum SwapEvent {
    CrossChainSwapInitiated { swap_id: u64, initiator: AccountId, amount: Balance },
    CrossChainSwapCompleted { swap_id: u64, claimer: AccountId, amount_received: Balance },
}

/// The coordinator's whole state: every swap it tracks and its event log.
#[derive(Debug)]
pub struct SwapCoordinator {
    pub swaps: Vec<AtomicSwap>,
    pub events: Vec<SwapEvent>,
}

/// The swap invariant: a 64-byte lock, and escrow exactly matching the
/// status — the source leg while `Pending`, both legs while `InProgress`,
/// nothing once terminal.
pub open spec fn spec_swap_wf(sw: AtomicSwap) -> bool {
    &&& sw.hash_lock@.len() == 64
    &&& (sw.status is Pending ==> sw.escrowed == sw.source_amount)
    &&& (sw.status is InProgress ==> sw.escrowed == sw.source_amount + sw.target_amount)
    &&& (spec_terminal(sw.status) ==> sw.escrowed == 0)
}

/// The coordinator invariant: distinct ids, every swap well formed.
pub open spec fn spec_coordinator_wf(c: SwapCoordinator) -> bool {
    &&& forall|i: int| 0 <= i < c.swaps@.len() ==> spec_swap_wf(#[trigger] c.swaps@[i])
    &&& forall|i: int, j: int| 0 <= i < j < c.swaps@.len()
        ==> c.swaps@[i].id != c.swaps@[j].id
}

/// Index of the swap with the given id, if one exists.
pub open spec fn spec_swap_index(c: SwapCoordinator, swap_id: u64) -> Option<int> {
    if exists|i: int| 0 <= i < c.swaps@.len() && (#[trigger] c.swaps@[i]).id == swap_id {
        Some(choose|i: int| 0 <= i < c.swaps@.len() && (#[trigger] c.swaps@[i]).id == swap_id)
    } else {
        None
    }
}

/// Little-endian bytes of a 64-bit value.
pub open spec fn spec_le64(n: u64) -> Seq<u8> {
    Seq::new(8, |k: int| ((n >> ((8 * k) as u64)) & 0xffu64) as u8)
}

/// Little-endian bytes of a 128-bit value.
pub open spec fn spec_le128(n: u128) -> Seq<u8> {
    Seq::new(16, |k: int| ((n >> ((8 * k) as u128)) & 0xffu128) as u8)
}

/// The byte preimage a swap's id is derived from: every identifying field,
/// serialized little-endian in a fixed order.
pub open spec fn spec_swap_preimage(initiator: AccountId, p: SwapParams) -> Seq<u8> {
    spec_le64(initiator) + spec_le64(p.counterparty) + spec_le64(p.source_asset)
        + spec_le64(p.target_asset) + spec_le128(p.source_amount) + spec_le128(p.target_amount)
        + spec_le64(p.source_ledger_id as u64) + spec_le64(p.target_ledger_id as u64)
        + spec_le64(p.nonce)
}

/// The content-derived swap id: the first eight digest bytes of the
/// preimage, read little-endian.
pub open spec fn spec_swap_id(initiator: AccountId, p: SwapParams) -> u64 {
    let d = swap_lock::spec_digest(spec_swap_preimage(initiator, p));
    (d[0] + 0x100 * (d[1] as int) + 0x10000 * (d[2] as int) + 0x1000000 * (d[3] as int)
        + 0x100000000 * (d[4] as int) + 0x10000000000 * (d[5] as int)
        + 0x1000000000000 * (d[6] as int) + 0x100000000000000 * (d[7] as int)) as u64
}

/// A claim with this secret at this height is permitted: the swap exists,
/// is not yet resolved, has not expired, and the secret opens the lock.
pub open spec fn spec_claim_allowed(
    c: SwapCoordinator,
    swap_id: u64,
    secret: Seq<u8>,
    height: BlockNumber,
) -> bool {
    match spec_swap_index(c, swap_id) {
        None => false,
        Some(i) => {
            let sw = c.swaps@[i];
            &&& !spec_terminal(sw.status)
            &&& height <= sw.expires_at
            &&& swap_lock::spec_digest(secret) == sw.hash_lock@
        }
    }
}

/// A refund at this height is permitted: the swap exists, is not yet
/// resolved, and its expiry height has passed.
pub open spec fn spec_refund_allowed(c: SwapCoordinator, swap_id: u64, height: BlockNumber)
    -> bool {
    match spec_swap_index(c, swap_id) {
        None => false,
        Some(i) => {
            let sw = c.swaps@[i];
            &&& !spec_terminal(sw.status)
            &&& height > sw.expires_at
        }
    }
}

/// How a resolving transition reshapes a swap: status moves to the terminal
/// state, escrow drops to zero, everything else is untouched.
pub open spec fn spec_swap_resolved(sw: AtomicSwap, sq: AtomicSwap, st: SwapStatus) -> bool {
    &&& sq.id == sw.id
    &&& sq.initiator == sw.initiator
    &&& sq.counterparty == sw.counterparty
    &&& sq.source_asset == sw.source_asset
    &&& sq.target_asset == sw.target_asset
    &&& sq.source_amount == sw.source_amount
    &&& sq.target_amount == sw.target_amount
    &&& sq.source_ledger_id == sw.source_ledger_id
    &&& sq.target_ledger_id == sw.target_ledger_id
    &&& sq.hash_lock@ == sw.hash_lock@
    &&& sq.created_at == sw.created_at
    &&& sq.expires_at == sw.expires_at
    &&& sq.status == st
    &&& sq.escrowed == 0
}

/// Push the little-endian bytes of a 64-bit value.
pub(crate) fn push_le64(out: &mut Vec<u8>, n: u64)
    ensures
        final(out)@ == old(out)@ + spec_le64(n),
{
    let mut k: usize = 0;
    while k < 8
        invariant
            k <= 8,
            out@ == old(out)@ + spec_le64(n).take(k as int),
        decreases 8 - k,
    {
        let shift: u64 = (8 * k) as u64;
        let b: u8 = ((n >> shift) & 0xffu64) as u8;
        proof {
            assert(b == spec_le64(n)[k as int]);
            assert((old(out)@ + spec_le64(n).take(k as int)).push(b)
                =~= old(out)@ + spec_le64(n).take(k + 1 as int));
        }
        out.push(b);
        k = k + 1;
    }
    proof {
        assert(spec_le64(n).take(8) =~= spec_le64(n));
    }
}

/// Push the little-endian bytes of a 128-bit value.
pub(crate) fn push_le128(out: &mut Vec<u8>, n: u128)
    ensures
        final(out)@ == old(out)@ + spec_le128(n),
{
    let mut k: usize = 0;
    while k < 16
        invariant
            k <= 16,
            out@ == old(out)@ + spec_le128(n).take(k as int),
        decreases 16 - k,
    {
        let shift: u128 = (8 * k) as u128;
        let b: u8 = ((n >> shift) & 0xffu128) as u8;
        proof {
            assert(b == spec_le128(n)[k as int]);
            assert((old(out)@ + spec_le128(n).take(k as int)).push(b)
                =~= old(out)@ + spec_le128(n).take(k + 1 as int));
        }
        out.push(b);
        k = k + 1;
    }
    proof {
        assert(spec_le128(n).take(16) =~= spec_le128(n));
    }
}

/// Compute the content-derived id of a swap.
pub fn derive_swap_id(initiator: AccountId, p: SwapParams) -> (r: u64)
    ensures
        r == spec_swap_id(initiator, p),
{
    let mut pre: Vec<u8> = Vec::new();
    push_le64(&mut pre, initiator);
    push_le64(&mut pre, p.counterparty);
    push_le64(&mut pre, p.source_asset);
    push_le64(&mut pre, p.target_asset);
    push_le128(&mut pre, p.source_amount);
    push_le128(&mut pre, p.target_amount);
    push_le64(&mut pre, p.source_ledger_id as u64);
    push_le64(&mut pre, p.target_ledger_id as u64);
    push_le64(&mut pre, p.nonce);
    proof {
        assert(pre@ =~= spec_swap_preimage(initiator, p));
    }
    let d = swap_lock::quantum_resistant_hash(&pre);
    let id: u64 = d[0] as u64 + 0x100 * (d[1] as u64) + 0x10000 * (d[2] as u64)
        + 0x1000000 * (d[3] as u64) + 0x100000000 * (d[4] as u64)
        + 0x10000000000 * (d[5] as u64) + 0x1000000000000 * (d[6] as u64)
        + 0x100000000000000 * (d[7] as u64);
    id
}

impl SwapCoordinator {
    /// An empty coordinator: no swaps, no events.
    pub fn new() -> (r: SwapCoordinator)
        ensures
            spec_coordinator_wf(r),
            r.swaps@.len() == 0,
            r.events@.len() == 0,
    {
        SwapCoordinator { swaps: Vec::new(), events: Vec::new() }
    }

    /// Position of the swap with the given id.
    fn find_swap(&self, swap_id: u64) -> (r: Option<usize>)
        requires
            spec_coordinator_wf(*self),
        ensures
            (r is Some <==> spec_swap_index(*self, swap_id) is Some),
            r is Some ==> r->0 as int == spec_swap_index(*self, swap_id)->0
                && r->0 < self.swaps@.len() && self.swaps@[r->0 as int].id == swap_id,
    {
        let n = self.swaps.len();
        let mut i: usize = 0;
        while i < n
            invariant
                i <= n,
                n == self.swaps@.len(),
                spec_coordinator_wf(*self),
                forall|k: int| 0 <= k < i ==> (#[trigger] self.swaps@[k]).id != swap_id,
            decreases n - i,
        {
            if self.swaps[i].id == swap_id {
                proof {
                    let c = choose|k: int| 0 <= k < self.swaps@.len()
                        && (#[trigger] self.swaps@[k]).id == swap_id;
                    if c != i as int {
                        assert(self.swaps@[c].id == self.swaps@[i as int].id);
                    }
                }
                return Some(i);
            }
            i = i + 1;
        }
        None
    }

    /// Initiate a swap: the caller escrows the source amount under the
    /// given hash lock. Requires a future expiry; the id is a content hash
    /// of the identifying fields, and a colliding id fails `DuplicateSwap`.
    #[verifier::loop_isolation(false)]
    pub fn initiate_swap(
        &mut self,
        params: SwapParams,
        hash_lock: &Vec<u8>,
        expires_at: BlockNumber,
        ctx: ExecContext,
    ) -> (r: Result<u64, Error>)
        requires
            spec_coordinator_wf(*old(self)),
            hash_lock@.len() == 64,
        ensures
            spec_coordinator_wf(*final(self)),
            expires_at <= ctx.height
                ==> r == Err::<u64, Error>(Error::SwapExpired) && *final(self) == *old(self),
            expires_at > ctx.height
                    && spec_swap_index(*old(self), spec_swap_id(ctx.caller, params)) is Some
                ==> r == Err::<u64, Error>(Error::DuplicateSwap) && *final(self) == *old(self),
            expires_at > ctx.height
                    && spec_swap_index(*old(self), spec_swap_id(ctx.caller, params)) is None
                ==> {
                let id = spec_swap_id(ctx.caller, params);
                &&& r == Ok::<u64, Error>(id)
                &&& final(self).swaps@.len() == old(self).swaps@.len() + 1
                &&& (forall|k: int| 0 <= k < old(self).swaps@.len()
                    ==> final(self).swaps@[k] == old(self).swaps@[k])
                &&& ({
                    let sw = final(self).swaps@.last();
                    &&& sw.id == id
                    &&& sw.initiator == ctx.caller
                    &&& sw.counterparty == params.counterparty
                    &&& sw.source_asset == params.source_asset
                    &&& sw.target_asset == params.target_asset
                    &&& sw.source_amount == params.source_amount
                    &&& sw.target_amount == params.target_amount
                    &&& sw.source_ledger_id == params.source_ledger_id
                    &&& sw.target_ledger_id == params.target_ledger_id
                    &&& sw.hash_lock@ == hash_lock@
                    &&& sw.created_at == ctx.height
                    &&& sw.expires_at == expires_at
                    &&& sw.status is Pending
                    &&& sw.escrowed == params.source_amount
                })
                &&& final(self).events@ == old(self).events@.push(
                        SwapEvent::CrossChainSwapInitiated {
                            swap_id: id, initiator: ctx.caller,
                            amount: params.source_amount })
            },
    {
        if expires_at <= ctx.height {
            return Err(Error::SwapExpired);
        }
        let id = derive_swap_id(ctx.caller, params);
        if let Some(_) = self.find_swap(id) {
            return Err(Error::DuplicateSwap);
        }
        let mut lock_copy: Vec<u8> = Vec::new();
        let mut i: usize = 0;
        while i < hash_lock.len()
            invariant
                i <= hash_lock@.len(),
                lock_copy@ == hash_lock@.take(i as int),
            decreases hash_lock@.len() - i,
        {
            lock_copy.push(hash_lock[i]);
            proof {
                assert(hash_lock@.take(i as int).push(hash_lock@[i as int])
                    =~= hash_lock@.take(i + 1 as int));
            }
            i = i + 1;
        }
        proof {
            assert(hash_lock@.take(hash_lock@.len() as int) =~= hash_lock@);
        }
        let sw = AtomicSwap {
            id,
            initiator: ctx.caller,
            counterparty: params.counterparty,
            source_asset: params.source_asset,
            target_asset: params.target_asset,
            source_amount: params.source_amount,
            target_amount: params.target_amount,
            source_ledger_id: params.source_ledger_id,
            target_ledger_id: params.target_ledger_id,
            hash_lock: lock_copy,
            created_at: ctx.height,
            expires_at,
            status: SwapStatus::Pending,
            escrowed: params.source_amount,
        };
        self.swaps.push(sw);
        self.events.push(SwapEvent::CrossChainSwapInitiated {
            swap_id: id,
            initiator: ctx.caller,
            amount: params.source_amount,
        });
        Ok(id)
    }

    /// The counterparty joins a pending swap, escrowing the target amount
    /// under the same hash lock; the swap moves to `InProgress`.
    pub fn participate_swap(&mut self, swap_id: u64, ctx: ExecContext) -> (r: Result<(), Error>)
        requires
            spec_coordinator_wf(*old(self)),
        ensures
            spec_coordinator_wf(*final(self)),
            r is Err ==> *final(self) == *old(self),
            spec_swap_index(*old(self), swap_id) is None
                ==> r == Err::<(), Error>(Error::SwapNotFound),
            spec_swap_index(*old(self), swap_id) matches Some(i) ==> {
                let sw = old(self).swaps@[i];
                &&& !(sw.status is Pending) ==> r == Err::<(), Error>(Error::SwapAlreadyResolved)
                &&& sw.status is Pending && ctx.height > sw.expires_at
                    ==> r == Err::<(), Error>(Error::SwapExpired)
                &&& sw.status is Pending && ctx.height <= sw.expires_at
                        && ctx.caller != sw.counterparty
                    ==> r == Err::<(), Error>(Error::Unauthorized)
                &&& sw.status is Pending && ctx.height <= sw.expires_at
                        && ctx.caller == sw.counterparty
                        && sw.source_amount + sw.target_amount > u128::MAX
                    ==> r == Err::<(), Error>(Error::MathOverflow)
                &&& sw.status is Pending && ctx.height <= sw.expires_at
                        && ctx.caller == sw.counterparty
                        && sw.source_amount + sw.target_amount <= u128::MAX ==> {
                    &&& r is Ok
                    &&& final(self).swaps@.len() == old(self).swaps@.len()
                    &&& (forall|k: int| 0 <= k < old(self).swaps@.len() && k != i
                        ==> final(self).swaps@[k] == old(self).swaps@[k])
                    &&& ({
                        let sq = final(self).swaps@[i];
                        &&& sq.status is InProgress
                        &&& sq.escrowed == sw.source_amount + sw.target_amount
                        &&& sq.id == sw.id
                        &&& sq.initiator == sw.initiator
                        &&& sq.counterparty == sw.counterparty
                        &&& sq.source_amount == sw.source_amount
                        &&& sq.target_amount == sw.target_amount
                        &&& sq.hash_lock@ == sw.hash_lock@
                        &&& sq.expires_at == sw.expires_at
                    })
                    &&& final(self).events@ == old(self).events@
                }
            },
    {
        let i = match self.find_swap(swap_id) {
            Some(i) => i,
            None => {
                return Err(Error::SwapNotFound);
            }
        };
        if !matches!(self.swaps[i].status, SwapStatus::Pending) {
            return Err(Error::SwapAlreadyResolved);
        }
        if ctx.height > self.swaps[i].expires_at {
            return Err(Error::SwapExpired);
        }
        if ctx.caller != self.swaps[i].counterparty {
            return Err(Error::Unauthorized);
        }
        if self.swaps[i].escrowed > u128::MAX - self.swaps[i].target_amount {
            return Err(Error::MathOverflow);
        }
        let mut sw = self.swaps.remove(i);
        sw.escrowed = sw.escrowed + sw.target_amount;
        sw.status = SwapStatus::InProgress;
        self.swaps.insert(i, sw);
        proof {
            assert(self.swaps@ =~= old(self).swaps@.update(i as int, self.swaps@[i as int]));
        }
        Ok(())
    }

    /// Release the escrow to the claimer if and only if the secret hashes
    /// to the swap's hash lock; the swap completes, and can never be
    /// claimed, refunded or canceled again. A wrong secret changes nothing.
    pub fn claim_swap(&mut self, swap_id: u64, secret: &Vec<u8>, ctx: ExecContext)
        -> (r: Result<Balance, Error>)
        requires
            spec_coordinator_wf(*old(self)),
        ensures
            spec_coordinator_wf(*final(self)),
            r is Err ==> *final(self) == *old(self),
            r is Ok <==> spec_claim_allowed(*old(self), swap_id, secret@, ctx.height),
            spec_swap_index(*old(self), swap_id) is None
                ==> r == Err::<Balance, Error>(Error::SwapNotFound),
            spec_swap_index(*old(self), swap_id) matches Some(i) ==> {
                let sw = old(self).swaps@[i];
                &&& spec_terminal(sw.status) ==> r == Err::<Balance, Error>(
                        Error::SwapAlreadyResolved)
                &&& !spec_terminal(sw.status) && ctx.height > sw.expires_at
                    ==> r == Err::<Balance, Error>(Error::SwapExpired)
                &&& !spec_terminal(sw.status) && ctx.height <= sw.expires_at
                        && swap_lock::spec_digest(secret@) != sw.hash_lock@
                    ==> r == Err::<Balance, Error>(Error::InvalidSecret)
                &&& !spec_terminal(sw.status) && ctx.height <= sw.expires_at
                        && swap_lock::spec_digest(secret@) == sw.hash_lock@ ==> {
                    &&& r == Ok::<Balance, Error>(sw.escrowed)
                    &&& final(self).swaps@.len() == old(self).swaps@.len()
                    &&& (forall|k: int| 0 <= k < old(self).swaps@.len() && k != i
                        ==> final(self).swaps@[k] == old(self).swaps@[k])
                    &&& spec_swap_resolved(sw, final(self).swaps@[i], SwapStatus::Completed)
                    &&& final(self).events@ == old(self).events@.push(
                            SwapEvent::CrossChainSwapCompleted {
                                swap_id, claimer: ctx.caller, amount_received: sw.escrowed })
                }
            },
    {
        let i = match self.find_swap(swap_id) {
            Some(i) => i,
            None => {
                return Err(Error::SwapNotFound);
            }
        };
        let terminal = matches!(self.swaps[i].status,
            SwapStatus::Completed | SwapStatus::Failed | SwapStatus::Expired
                | SwapStatus::Canceled);
        if terminal {
            return Err(Error::SwapAlreadyResolved);
        }
        if ctx.height > self.swaps[i].expires_at {
            return Err(Error::SwapExpired);
        }
        if !swap_lock::verify_swap_secret(secret, &self.swaps[i].hash_lock) {
            return Err(Error::InvalidSecret);
        }
        let mut sw = self.swaps.remove(i);
        let released = sw.escrowed;
        sw.escrowed = 0;
        sw.status = SwapStatus::Completed;
        self.swaps.insert(i, sw);
        proof {
            assert(self.swaps@ =~= old(self).swaps@.update(i as int, self.swaps@[i as int]));
        }
        self.events.push(SwapEvent::CrossChainSwapCompleted {
            swap_id,
            claimer: ctx.caller,
            amount_received: released,
        });
        Ok(released)
    }

    /// Return the escrow once the expiry height has passed; never earlier,
    /// and never again once the swap is resolved.
    pub fn refund_swap(&mut self, swap_id: u64, ctx: ExecContext) -> (r: Result<Balance, Error>)
        requires
            spec_coordinator_wf(*old(self)),
        ensures
            spec_coordinator_wf(*final(self)),
            r is Err ==> *final(self) == *old(self),
            r is Ok <==> spec_refund_allowed(*old(self), swap_id, ctx.height),
            spec_swap_index(*old(self), swap_id) is None
                ==> r == Err::<Balance, Error>(Error::SwapNotFound),
            spec_swap_index(*old(self), swap_id) matches Some(i) ==> {
                let sw = old(self).swaps@[i];
                &&& spec_terminal(sw.status) ==> r == Err::<Balance, Error>(
                        Error::SwapAlreadyResolved)
                &&& !spec_terminal(sw.status) && ctx.height <= sw.expires_at
                    ==> r == Err::<Balance, Error>(Error::SwapNotExpired)
                &&& !spec_terminal(sw.status) && ctx.height > sw.expires_at ==> {
                    &&& r == Ok::<Balance, Error>(sw.escrowed)
                    &&& final(self).swaps@.len() == old(self).swaps@.len()
                    &&& (forall|k: int| 0 <= k < old(self).swaps@.len() && k != i
                        ==> final(self).swaps@[k] == old(self).swaps@[k])
                    &&& spec_swap_resolved(sw, final(self).swaps@[i], SwapStatus::Expired)
                    &&& final(self).events@ == old(self).events@
                }
            },
    {
        let i = match self.find_swap(swap_id) {
            Some(i) => i,
            None => {
                return Err(Error::SwapNotFound);
            }
        };
        let terminal = matches!(self.swaps[i].status,
            SwapStatus::Completed | SwapStatus::Failed | SwapStatus::Expired
                | SwapStatus::Canceled);
        if terminal {
            return Err(Error::SwapAlreadyResolved);
        }
        if ctx.height <= self.swaps[i].expires_at {
            return Err(Error::SwapNotExpired);
        }
        let mut sw = self.swaps.remove(i);
        let refunded = sw.escrowed;
        sw.escrowed = 0;
        sw.status = SwapStatus::Expired;
        self.swaps.insert(i, sw);
        proof {
            assert(self.swaps@ =~= old(self).swaps@.update(i as int, self.swaps@[i as int]));
        }
        Ok(refunded)
    }

    /// The initiator withdraws a swap no counterparty has joined yet; the
    /// escrow returns to the initiator.
    pub fn cancel_swap(&mut self, swap_id: u64, ctx: ExecContext) -> (r: Result<Balance, Error>)
        requires
            spec_coordinator_wf(*old(self)),
        ensures
            spec_coordinator_wf(*final(self)),
            r is Err ==> *final(self) == *old(self),
            spec_swap_index(*old(self), swap_id) is None
                ==> r == Err::<Balance, Error>(Error::SwapNotFound),
            spec_swap_index(*old(self), swap_id) matches Some(i) ==> {
                let sw = old(self).swaps@[i];
                &&& !(sw.status is Pending) ==> r == Err::<Balance, Error>(
                        Error::SwapAlreadyResolved)
                &&& sw.status is Pending && ctx.caller != sw.initiator
                    ==> r == Err::<Balance, Error>(Error::Unauthorized)
                &&& sw.status is Pending && ctx.caller == sw.initiator ==> {
                    &&& r == Ok::<Balance, Error>(sw.escrowed)
                    &&& final(self).swaps@.len() == old(self).swaps@.len()
                    &&& (forall|k: int| 0 <= k < old(self).swaps@.len() && k != i
                        ==> final(self).swaps@[k] == old(self).swaps@[k])
                    &&& spec_swap_resolved(sw, final(self).swaps@[i], SwapStatus::Canceled)
                    &&& final(self).events@ == old(self).events@
                }
            },
    {
        let i = match self.find_swap(swap_id) {
            Some(i) => i,
            None => {
                return Err(Error::SwapNotFound);
            }
        };
        if !matches!(self.swaps[i].status, SwapStatus::Pending) {
            return Err(Error::SwapAlreadyResolved);
        }
        if ctx.caller != self.swaps[i].initiator {
            return Err(Error::Unauthorized);
        }
        let mut sw = self.swaps.remove(i);
        let refunded = sw.escrowed;
        sw.escrowed = 0;
        sw.status = SwapStatus::Canceled;
        self.swaps.insert(i, sw);
        proof {
            assert(self.swaps@ =~= old(self).swaps@.update(i as int, self.swaps@[i as int]));
        }
        Ok(refunded)
    }
}

/// A claim can never succeed twice: once a swap is resolved — in
/// particular, right after a successful claim — no secret at any height is
/// accepted for it again.
pub proof fn lemma_claim_never_twice(c: SwapCoordinator, swap_id: u64)
    requires
        spec_coordinator_wf(c),
        spec_swap_index(c, swap_id) matches Some(i)
            ==> spec_terminal(c.swaps@[i].status),
    ensures
        forall|secret: Seq<u8>, height: BlockNumber|
            !spec_claim_allowed(c, swap_id, secret, height),
{
}

/// A refund succeeds exactly once: after a successful refund the swap is
/// terminal, so no later refund at any height is permitted; and a refund is
/// never permitted at or before the expiry height.
pub proof fn lemma_refund_exactly_once(c: SwapCoordinator, swap_id: u64)
    requires
        spec_coordinator_wf(c),
        spec_swap_index(c, swap_id) matches Some(i)
            ==> spec_terminal(c.swaps@[i].status),
    ensures
        forall|height: BlockNumber| !spec_refund_allowed(c, swap_id, height),
{
}

/// A refund is never permitted at or before the swap's expiry height.
pub proof fn lemma_refund_not_early(c: SwapCoordinator, swap_id: u64, height: BlockNumber)
    requires
        spec_swap_index(c, swap_id) matches Some(i)
            ==> height <= c.swaps@[i].expires_at,
    ensures
        !spec_refund_allowed(c, swap_id, height),
{
}

} // verus!
