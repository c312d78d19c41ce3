//! Core logic for a shared multi-asset liquidity venue spanning several
//! independent ledgers: an automated-market-maker pool ledger, a hash-locked
//! atomic-swap coordinator, and a sequenced cross-ledger messenger wrapped in
//! an error-correction codec.
//!
//! Execution is single-threaded and deterministic per ledger: every operation
//! takes an explicit [`ExecContext`] (caller and current block height) instead
//! of ambient state, runs to completion, and either fully applies or fully
//! fails.

use vstd::prelude::*;

pub mod math;
pub mod swap_lock;
pub mod codec;
pub mod pool;
pub mod atomic_swap;
pub mod messenger;
pub mod ops;

verus! {

/// Account identifier on a ledger.
pub type AccountId = u64;

/// Asset identifier, shared across ledgers.
pub type AssetId = u64;

/// Identifier of one ledger in the ecosystem.
pub type LedgerId = u32;

/// Balance / amount type; all value arithmetic is checked on this width.
pub type Balance = u128;

/// Block height of a ledger; the only clock the system has.
pub type BlockNumber = u64;

/// Explicit execution context handed to every operation: who is calling and
/// at which block height the call runs. Never ambient, never global.
#[derive(Clone, Copy, PartialEq, Eq, Structural, Debug)]
pub struct ExecContext {
    pub caller: AccountId,
    pub height: BlockNumber,
}

/// Every way a core operation can fail. Each call site surfaces the most
/// specific kind it detects, and an error is never converted into a
/// different kind on propagation.
#[derive(Clone, Copy, PartialEq, Eq, Structural, Debug)]
pub enum Error {
    /// Pool creation was given fewer than two assets, a duplicate asset id,
    /// or mismatched deposit/output vectors.
    InvalidAssets,
    /// A weighted pool's weights are missing, zero, or do not sum to the
    /// normalization constant.
    InvalidWeights,
    /// Pool creation was given more assets than the configured bound.
    TooManyAssets,
    /// A swap named an asset the pool does not hold.
    AssetNotFound,
    /// No pool with the given id exists.
    PoolNotFound,
    /// The pool exists but is paused or closed.
    PoolNotActive,
    /// The caller holds fewer shares than requested, or the pool has no
    /// reserves to trade against.
    InsufficientLiquidity,
    /// An output fell below the caller-supplied minimum.
    SlippageTooHigh,
    /// Checked arithmetic overflowed; the call applies no state change.
    MathOverflow,
    /// A swap with the same content-derived id already exists.
    DuplicateSwap,
    /// No atomic swap with the given id exists.
    SwapNotFound,
    /// The swap's expiry height has passed.
    SwapExpired,
    /// A refund was requested before the swap's expiry height.
    SwapNotExpired,
    /// The swap already reached a terminal state.
    SwapAlreadyResolved,
    /// The supplied secret does not hash to the swap's hash lock.
    InvalidSecret,
    /// The caller is not the party this transition is reserved for.
    Unauthorized,
    /// An inbound message's redundancy was insufficient to reconstruct the
    /// payload.
    UncorrectableError,
}

/// The three native tokens of the ecosystem, kept as a convenience for
/// callers that address pools by token rather than raw asset id.
#[derive(Clone, Copy, PartialEq, Eq, Structural, Debug)]
pub enum TokenType {
    NRSH,
    ELXR,
    IMRT,
}

impl TokenType {
    /// The asset id under which this token is tracked in pools.
    pub fn asset_id(self) -> (r: AssetId)
        ensures
            r == self.spec_asset_id(),
    {
        match self {
            TokenType::NRSH => 1,
            TokenType::ELXR => 2,
            TokenType::IMRT => 3,
        }
    }

    pub open spec fn spec_asset_id(self) -> AssetId {
        match self {
            TokenType::NRSH => 1,
            TokenType::ELXR => 2,
            TokenType::IMRT => 3,
        }
    }
}

} // verus!
