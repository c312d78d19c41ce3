//! The pool ledger: ownership of pool and asset-reserve state, share
//! accounting, fee application, and the AMM pricing operations.
//!
//! Well-formedness of every pool is an invariant that each operation
//! preserves: at least two distinct assets, fee below 10000 basis points,
//! the providers' share holdings summing exactly to the outstanding total,
//! and reserves zero exactly when no shares are outstanding (all positive
//! otherwise). Every operation either fully applies or fully fails.

use vstd::prelude::*;
use crate::{AccountId, AssetId, Balance, BlockNumber, Error, ExecContext, LedgerId};
use crate::math;

verus! {

/// Configured bound on the number of assets in one pool.
pub const MAX_POOL_ASSETS: usize = 8;

/// Weighted-pool weights must sum to this normalization constant.
pub const WEIGHT_NORM: u64 = 10000;

/// Amplification constant of the stable-pool invariant: the larger it is,
/// the closer the curve hugs a 1:1 price.
pub const STABLE_AMP: u128 = 100;

/// One asset held by a pool: its id, current reserve, optional weight
/// (meaningful for weighted pools) and the ledger it originated on.
#[derive(Clone, Copy, Debug)]
pub struct PoolAsset {
    pub asset_id: AssetId,
    pub balance: Balance,
    pub weight: Option<u32>,
    pub origin_ledger_id: LedgerId,
}

/// Asset descriptor handed to pool creation; the reserve always starts at
/// zero, so only identity, weight and origin are supplied.
#[derive(Clone, Copy, Debug)]
pub struct AssetInit {
    pub asset_id: AssetId,
    pub weight: Option<u32>,
    pub origin_ledger_id: LedgerId,
}

/// Pricing curve of a pool.
#[derive(Clone, Copy, PartialEq, Eq, Structural, Debug)]
pub enum PoolType {
    /// Two-sided product curve `x * y = k`.
    ConstantProduct,
    /// Weight-scaled product curve.
    Weighted,
    /// Low-slippage amplified curve.
    Stable,
}

/// Lifecycle state of a pool.
#[derive(Clone, Copy, PartialEq, Eq, Structural, Debug)]
pub enum PoolState {
    Active,
    Paused,
    Closed,
}

/// One provider's outstanding share balance in a pool.
#[derive(Clone, Copy, Debug)]
pub struct ShareHolding {
    pub provider: AccountId,
    pub shares: Balance,
}

/// A liquidity pool: identity, assets with reserves, curve kind, fee,
/// share accounting and lifecycle state.
#[derive(Debug)]
pub struct Pool {
    pub id: u64,
    pub creator: AccountId,
    pub assets: Vec<PoolAsset>,
    pub pool_type: PoolType,
    pub fee_basis_points: u16,
    pub total_shares: Balance,
    pub holders: Vec<ShareHolding>,
    pub state: PoolState,
    pub created_at: BlockNumber,
}

/// Observability log entries the ledger appends on success; the core never
/// reads them back.
#[derive(Clone, Copy, PartialEq, Eq, Structural, Debug)]
pub enum PoolEvent {
    PoolCreated { pool_id: u64, creator: AccountId },
    LiquidityAdded { pool_id: u64, provider: AccountId, shares: Balance },
    LiquidityRemoved { pool_id: u64, provider: AccountId, shares: Balance },
    SwapExecuted {
        pool_id: u64,
        caller: AccountId,
        asset_in: AssetId,
        asset_out: AssetId,
        amount_in: Balance,
        amount_out: Balance,
    },
}

/// The ledger's global pool state: every pool, the next fresh pool id, and
/// the append-only event log.
#[derive(Debug)]
pub struct PoolLedger {
    pub pools: Vec<Pool>,
    pub next_pool_id: u64,
    pub events: Vec<PoolEvent>,
}

/// No asset id appears twice.
pub open spec fn spec_distinct_assets(assets: Seq<PoolAsset>) -> bool {
    forall|i: int, j: int| 0 <= i < j < assets.len()
        ==> assets[i].asset_id != assets[j].asset_id
}

/// Sum of the weights of a weighted pool's assets (0 for a missing weight).
pub open spec fn spec_sum_weights(assets: Seq<PoolAsset>) -> int
    decreases assets.len(),
{
    if assets.len() == 0 {
        0
    } else {
        spec_sum_weights(assets.drop_last()) + (match assets.last().weight {
            Some(w) => w as int,
            None => 0,
        })
    }
}

/// A weighted pool's weights are all present, positive, and sum to the
/// normalization constant.
pub open spec fn spec_weights_valid(assets: Seq<PoolAsset>) -> bool {
    &&& forall|i: int| 0 <= i < assets.len()
        ==> (#[trigger] assets[i].weight) is Some && assets[i].weight->0 >= 1
    &&& spec_sum_weights(assets) == WEIGHT_NORM
}

/// Sum of all providers' share balances.
pub open spec fn spec_sum_shares(holders: Seq<ShareHolding>) -> int
    decreases holders.len(),
{
    if holders.len() == 0 {
        0
    } else {
        spec_sum_shares(holders.drop_last()) + holders.last().shares
    }
}

/// No provider appears twice in the holdings.
pub open spec fn spec_distinct_holders(holders: Seq<ShareHolding>) -> bool {
    forall|i: int, j: int| 0 <= i < j < holders.len()
        ==> holders[i].provider != holders[j].provider
}

/// The pool invariant every operation preserves.
pub open spec fn spec_pool_wf(p: Pool) -> bool {
    &&& 2 <= p.assets@.len() <= MAX_POOL_ASSETS
    &&& spec_distinct_assets(p.assets@)
    &&& p.fee_basis_points < 10000
    &&& (p.pool_type is Weighted ==> spec_weights_valid(p.assets@))
    &&& spec_distinct_holders(p.holders@)
    &&& spec_sum_shares(p.holders@) == p.total_shares
    &&& (p.total_shares == 0 ==> forall|i: int| 0 <= i < p.assets@.len()
        ==> (#[trigger] p.assets@[i]).balance == 0)
    &&& (p.total_shares > 0 ==> forall|i: int| 0 <= i < p.assets@.len()
        ==> (#[trigger] p.assets@[i]).balance >= 1)
}

/// The ledger invariant: every pool well formed, ids distinct and below the
/// next fresh id.
pub open spec fn spec_ledger_wf(l: PoolLedger) -> bool {
    &&& forall|i: int| 0 <= i < l.pools@.len() ==> spec_pool_wf(#[trigger] l.pools@[i])
    &&& forall|i: int| 0 <= i < l.pools@.len() ==> (#[trigger] l.pools@[i]).id < l.next_pool_id
    &&& forall|i: int, j: int| 0 <= i < j < l.pools@.len()
        ==> l.pools@[i].id != l.pools@[j].id
}

/// Index of the pool with the given id, if one exists.
pub open spec fn spec_pool_index(l: PoolLedger, pool_id: u64) -> Option<int> {
    if exists|i: int| 0 <= i < l.pools@.len() && (#[trigger] l.pools@[i]).id == pool_id {
        Some(choose|i: int| 0 <= i < l.pools@.len() && (#[trigger] l.pools@[i]).id == pool_id)
    } else {
        None
    }
}

/// Index of the holding of the given provider, if one exists.
pub open spec fn spec_holder_index(holders: Seq<ShareHolding>, provider: AccountId) -> Option<int> {
    if exists|i: int| 0 <= i < holders.len() && (#[trigger] holders[i]).provider == provider {
        Some(choose|i: int| 0 <= i < holders.len() && (#[trigger] holders[i]).provider == provider)
    } else {
        None
    }
}

/// Index of the asset with the given id inside a pool, if present.
pub open spec fn spec_asset_index(assets: Seq<PoolAsset>, asset_id: AssetId) -> Option<int> {
    if exists|i: int| 0 <= i < assets.len() && (#[trigger] assets[i]).asset_id == asset_id {
        Some(choose|i: int| 0 <= i < assets.len() && (#[trigger] assets[i]).asset_id == asset_id)
    } else {
        None
    }
}

/// Share sums are non-negative.
pub proof fn lemma_sum_shares_nonneg(holders: Seq<ShareHolding>)
    ensures
        spec_sum_shares(holders) >= 0,
    decreases holders.len(),
{
    if holders.len() > 0 {
        lemma_sum_shares_nonneg(holders.drop_last());
    }
}

/// Replacing one holding changes the sum by the difference of that holding.
pub proof fn lemma_sum_shares_update(holders: Seq<ShareHolding>, k: int, v: ShareHolding)
    requires
        0 <= k < holders.len(),
    ensures
        spec_sum_shares(holders.update(k, v))
            == spec_sum_shares(holders) - holders[k].shares + v.shares,
    decreases holders.len(),
{
    let upd = holders.update(k, v);
    if k == holders.len() - 1 {
        assert(upd.drop_last() =~= holders.drop_last());
        assert(upd.last() == v);
    } else {
        assert(upd.drop_last() =~= holders.drop_last().update(k, v));
        lemma_sum_shares_update(holders.drop_last(), k, v);
        assert(upd.last() == holders.last());
    }
}

/// Every single holding is bounded by the sum.
pub proof fn lemma_holding_le_sum(holders: Seq<ShareHolding>, k: int)
    requires
        0 <= k < holders.len(),
    ensures
        holders[k].shares <= spec_sum_shares(holders),
    decreases holders.len(),
{
    if k == holders.len() - 1 {
        lemma_sum_shares_nonneg(holders.drop_last());
    } else {
        lemma_holding_le_sum(holders.drop_last(), k);
    }
}

impl PoolLedger {
    /// An empty ledger: no pools, no events, fresh ids from zero.
    pub fn new() -> (r: PoolLedger)
        ensures
            spec_ledger_wf(r),
            r.pools@.len() == 0,
            r.events@.len() == 0,
            r.next_pool_id == 0,
    {
        PoolLedger { pools: Vec::new(), next_pool_id: 0, events: Vec::new() }
    }

    /// Position of the pool with the given id.
    fn find_pool(&self, pool_id: u64) -> (r: Option<usize>)
        requires
            spec_ledger_wf(*self),
        ensures
            (r is Some <==> spec_pool_index(*self, pool_id) is Some),
            r is Some ==> r->0 as int == spec_pool_index(*self, pool_id)->0
                && r->0 < self.pools@.len() && self.pools@[r->0 as int].id == pool_id,
    {
        let n = self.pools.len();
        let mut i: usize = 0;
        while i < n
            invariant
                i <= n,
                n == self.pools@.len(),
                spec_ledger_wf(*self),
                forall|k: int| 0 <= k < i ==> (#[trigger] self.pools@[k]).id != pool_id,
            decreases n - i,
        {
            if self.pools[i].id == pool_id {
                proof {
                    let c = choose|k: int| 0 <= k < self.pools@.len()
                        && (#[trigger] self.pools@[k]).id == pool_id;
                    if c != i as int {
                        assert(self.pools@[c].id == self.pools@[i as int].id);
                    }
                }
                return Some(i);
            }
            i = i + 1;
        }
        None
    }

    /// Create a new pool: at least two distinct assets, no more than the
    /// configured bound, valid weights for a weighted pool. The pool starts
    /// `Active` with zero reserves and zero shares.
    #[verifier::loop_isolation(false)]
    pub fn create_pool(
        &mut self,
        kind: PoolType,
        assets: &Vec<AssetInit>,
        fee_bp: u16,
        ctx: ExecContext,
    ) -> (r: Result<u64, Error>)
        requires
            spec_ledger_wf(*old(self)),
            fee_bp < 10000,
        ensures
            spec_ledger_wf(*final(self)),
            assets@.len() < 2 || !spec_distinct_inits(assets@)
                ==> r == Err::<u64, Error>(Error::InvalidAssets) && *final(self) == *old(self),
            assets@.len() >= 2 && spec_distinct_inits(assets@) && assets@.len() > MAX_POOL_ASSETS
                ==> r == Err::<u64, Error>(Error::TooManyAssets) && *final(self) == *old(self),
            assets@.len() >= 2 && spec_distinct_inits(assets@) && assets@.len() <= MAX_POOL_ASSETS
                && kind is Weighted && !spec_init_weights_valid(assets@)
                ==> r == Err::<u64, Error>(Error::InvalidWeights) && *final(self) == *old(self),
            spec_create_ok(kind, assets@) && old(self).next_pool_id == u64::MAX
                ==> r == Err::<u64, Error>(Error::MathOverflow) && *final(self) == *old(self),
            spec_create_ok(kind, assets@) && old(self).next_pool_id < u64::MAX ==> {
                &&& r == Ok::<u64, Error>(old(self).next_pool_id)
                &&& final(self).next_pool_id == old(self).next_pool_id + 1
                &&& final(self).pools@.len() == old(self).pools@.len() + 1
                &&& (forall|k: int| 0 <= k < old(self).pools@.len()
                    ==> final(self).pools@[k] == old(self).pools@[k])
                &&& spec_new_pool_shape(final(self).pools@.last(), old(self).next_pool_id,
                        kind, assets@, fee_bp, ctx)
                &&& final(self).events@ == old(self).events@.push(PoolEvent::PoolCreated {
                        pool_id: old(self).next_pool_id, creator: ctx.caller })
            },
    {
        let n = assets.len();
        if n < 2 {
            return Err(Error::InvalidAssets);
        }
        // reject duplicate asset ids
        let mut i: usize = 0;
        while i < n
            invariant
                i <= n,
                n == assets@.len(),
                forall|a: int, b: int| 0 <= a < b < assets@.len() && a < i
                    ==> assets@[a].asset_id != assets@[b].asset_id,
            decreases n - i,
        {
            let mut j: usize = i + 1;
            while j < n
                invariant
                    i < j <= n,
                    n == assets@.len(),
                    forall|b: int| i < b < j ==> assets@[i as int].asset_id != assets@[b].asset_id,
                decreases n - j,
            {
                if assets[i].asset_id == assets[j].asset_id {
                    return Err(Error::InvalidAssets);
                }
                j = j + 1;
            }
            i = i + 1;
        }
        if n > MAX_POOL_ASSETS {
            return Err(Error::TooManyAssets);
        }
        if matches!(kind, PoolType::Weighted) {
            let mut sum: u64 = 0;
            let mut i: usize = 0;
            while i < n
                invariant
                    i <= n,
                    n == assets@.len() <= 8,
                    sum as int == spec_sum_init_weights(assets@.take(i as int)),
                    sum <= i * 0x100000000,
                    forall|k: int| 0 <= k < i ==> (#[trigger] assets@[k].weight) is Some
                        && assets@[k].weight->0 >= 1,
                decreases n - i,
            {
                match assets[i].weight {
                    Some(w) => {
                        if w == 0 {
                            return Err(Error::InvalidWeights);
                        }
                        sum = sum + w as u64;
                    }
                    None => {
                        return Err(Error::InvalidWeights);
                    }
                }
                proof {
                    assert(assets@.take(i + 1 as int).drop_last() =~= assets@.take(i as int));
                }
                i = i + 1;
            }
            proof {
                assert(assets@.take(n as int) =~= assets@);
            }
            if sum != WEIGHT_NORM {
                return Err(Error::InvalidWeights);
            }
        }
        if self.next_pool_id == u64::MAX {
            return Err(Error::MathOverflow);
        }
        let pool_id = self.next_pool_id;
        let mut pool_assets: Vec<PoolAsset> = Vec::new();
        let mut i: usize = 0;
        while i < n
            invariant
                i <= n,
                n == assets@.len(),
                pool_assets@.len() == i,
                forall|k: int| 0 <= k < i ==> #[trigger] pool_assets@[k] == (PoolAsset {
                    asset_id: assets@[k].asset_id,
                    balance: 0u128,
                    weight: assets@[k].weight,
                    origin_ledger_id: assets@[k].origin_ledger_id,
                }),
            decreases n - i,
        {
            let a = assets[i];
            pool_assets.push(PoolAsset {
                asset_id: a.asset_id,
                balance: 0,
                weight: a.weight,
                origin_ledger_id: a.origin_ledger_id,
            });
            i = i + 1;
        }
        let pool = Pool {
            id: pool_id,
            creator: ctx.caller,
            assets: pool_assets,
            pool_type: kind,
            fee_basis_points: fee_bp,
            total_shares: 0,
            holders: Vec::new(),
            state: PoolState::Active,
            created_at: ctx.height,
        };
        proof {
            if matches!(kind, PoolType::Weighted) {
                lemma_init_weights_carry(assets@, pool.assets@);
            }
            assert(spec_pool_wf(pool));
        }
        self.pools.push(pool);
        self.next_pool_id = pool_id + 1;
        self.events.push(PoolEvent::PoolCreated { pool_id, creator: ctx.caller });
        Ok(pool_id)
    }

    /// Deposit `deposits` (aligned with the pool's asset order) and mint
    /// shares: for the first deposit a normalized function of the amounts,
    /// afterwards the minimum deposited-to-reserve ratio. Fails
    /// `SlippageTooHigh` when fewer than `min_shares` would be minted; no
    /// failure changes any state.
    #[verifier::loop_isolation(false)]
    #[verifier::rlimit(50)]
    pub fn add_liquidity(
        &mut self,
        pool_id: u64,
        deposits: &Vec<u128>,
        min_shares: u128,
        ctx: ExecContext,
    ) -> (r: Result<u128, Error>)
        requires
            spec_ledger_wf(*old(self)),
        ensures
            spec_ledger_wf(*final(self)),
            spec_pool_index(*old(self), pool_id) is None
                ==> r == Err::<u128, Error>(Error::PoolNotFound) && *final(self) == *old(self),
            spec_pool_index(*old(self), pool_id) matches Some(idx) ==> {
                let p = old(self).pools@[idx];
                &&& !(p.state is Active) ==> r == Err::<u128, Error>(Error::PoolNotActive)
                    && *final(self) == *old(self)
                &&& p.state is Active ==> match spec_add_outcome(p, deposits@, min_shares) {
                    Err(e) => r == Err::<u128, Error>(e) && *final(self) == *old(self),
                    Ok(m) => {
                        &&& r == Ok::<u128, Error>(m)
                        &&& final(self).pools@.len() == old(self).pools@.len()
                        &&& (forall|k: int| 0 <= k < old(self).pools@.len() && k != idx
                            ==> final(self).pools@[k] == old(self).pools@[k])
                        &&& spec_pool_after_add(p, final(self).pools@[idx], ctx.caller,
                                deposits@, m)
                        &&& final(self).next_pool_id == old(self).next_pool_id
                        &&& final(self).events@ == old(self).events@.push(
                                PoolEvent::LiquidityAdded {
                                    pool_id, provider: ctx.caller, shares: m })
                    }
                }
            },
    {
        let idx = match self.find_pool(pool_id) {
            Some(i) => i,
            None => {
                return Err(Error::PoolNotFound);
            }
        };
        if !matches!(self.pools[idx].state, PoolState::Active) {
            return Err(Error::PoolNotActive);
        }
        let ghost p = self.pools@[idx as int];
        proof {
            assert(spec_pool_wf(p));
        }
        let n = self.pools[idx].assets.len();
        if deposits.len() != n {
            return Err(Error::InvalidAssets);
        }
        let s = self.pools[idx].total_shares;
        let minted: u128;
        if s == 0 {
            let mut i: usize = 0;
            while i < n
                invariant
                    i <= n,
                    forall|k: int| 0 <= k < i ==> deposits@[k] != 0,
                decreases n - i,
            {
                if deposits[i] == 0 {
                    return Err(Error::InsufficientLiquidity);
                }
                i = i + 1;
            }
            if n == 2 {
                let prod = match math::mul_checked(deposits[0], deposits[1]) {
                    Ok(v) => v,
                    Err(e) => {
                        return Err(e);
                    }
                };
                proof {
                    assert(deposits@[0] * deposits@[1] >= 1) by (nonlinear_arith)
                        requires deposits@[0] >= 1 && deposits@[1] >= 1;
                }
                minted = math::isqrt(prod);
            } else {
                let mut mn = deposits[0];
                let mut i: usize = 1;
                while i < n
                    invariant
                        1 <= i <= n,
                        mn == spec_min_deposit(deposits@.take(i as int)),
                    decreases n - i,
                {
                    proof {
                        assert(deposits@.take(i + 1 as int).drop_last()
                            =~= deposits@.take(i as int));
                    }
                    if deposits[i] < mn {
                        mn = deposits[i];
                    }
                    i = i + 1;
                }
                proof {
                    assert(deposits@.take(n as int) =~= deposits@);
                    lemma_min_deposit_props(deposits@);
                }
                minted = mn;
            }
        } else {
            let b0 = self.pools[idx].assets[0].balance;
            let p0 = match math::mul_checked(deposits[0], s) {
                Ok(v) => v,
                Err(e) => {
                    return Err(e);
                }
            };
            let mut mn = p0 / b0;
            let mut i: usize = 1;
            while i < n
                invariant
                    1 <= i <= n,
                    s == p.total_shares,
                    forall|k: int| 0 <= k < i ==> deposits@[k] * s <= u128::MAX,
                    mn as int == spec_min_ratio(p.assets@, deposits@, s as int, i as int),
                decreases n - i,
            {
                let bi = self.pools[idx].assets[i].balance;
                let pi = match math::mul_checked(deposits[i], s) {
                    Ok(v) => v,
                    Err(e) => {
                        return Err(e);
                    }
                };
                let cur = pi / bi;
                if cur < mn {
                    mn = cur;
                }
                i = i + 1;
            }
            minted = mn;
            proof {
                assert(spec_ratio_shares(p.assets@, deposits@, s as int)
                    == Ok::<u128, Error>(minted));
            }
        }
        if minted < min_shares {
            return Err(Error::SlippageTooHigh);
        }
        let mut i: usize = 0;
        while i < n
            invariant
                i <= n,
                forall|k: int| 0 <= k < i
                    ==> (#[trigger] p.assets@[k]).balance + deposits@[k] <= u128::MAX,
            decreases n - i,
        {
            let b = self.pools[idx].assets[i].balance;
            if b > u128::MAX - deposits[i] {
                return Err(Error::MathOverflow);
            }
            i = i + 1;
        }
        if s > u128::MAX - minted {
            return Err(Error::MathOverflow);
        }
        proof {
            assert(spec_add_outcome(p, deposits@, min_shares) == Ok::<u128, Error>(minted));
        }
        // all checks passed: apply the state change
        let mut pool = self.pools.remove(idx);
        let mut i: usize = 0;
        while i < n
            invariant
                i <= n,
                n == pool.assets@.len(),
                pool.holders == p.holders,
                pool.total_shares == p.total_shares,
                pool.id == p.id,
                pool.creator == p.creator,
                pool.pool_type == p.pool_type,
                pool.fee_basis_points == p.fee_basis_points,
                pool.state == p.state,
                pool.created_at == p.created_at,
                forall|k: int| 0 <= k < i ==> #[trigger] pool.assets@[k]
                    == spec_assets_after_add(p.assets@, deposits@)[k],
                forall|k: int| i <= k < n ==> #[trigger] pool.assets@[k] == p.assets@[k],
            decreases n - i,
        {
            let a = pool.assets[i];
            let updated = PoolAsset { balance: a.balance + deposits[i], ..a };
            pool.assets.set(i, updated);
            i = i + 1;
        }
        proof {
            assert(pool.assets@ =~= spec_assets_after_add(p.assets@, deposits@));
        }
        pool.total_shares = s + minted;
        let hidx = find_holder(&pool.holders, ctx.caller);
        match hidx {
            Some(k) => {
                let h = pool.holders[k];
                proof {
                    lemma_holding_le_sum(p.holders@, k as int);
                    lemma_sum_shares_update(p.holders@, k as int, ShareHolding {
                        provider: ctx.caller,
                        shares: (h.shares + minted) as u128,
                    });
                }
                pool.holders.set(k, ShareHolding { provider: ctx.caller, shares: h.shares + minted });
            }
            None => {
                proof {
                    assert(p.holders@.push(ShareHolding { provider: ctx.caller, shares: minted })
                        .drop_last() =~= p.holders@);
                }
                pool.holders.push(ShareHolding { provider: ctx.caller, shares: minted });
            }
        }
        proof {
            if p.pool_type is Weighted {
                lemma_sum_weights_pointwise(p.assets@, pool.assets@);
            }
            if s == 0 {
                assert(minted >= 1);
                assert forall|k: int| 0 <= k < pool.assets@.len()
                    implies (#[trigger] pool.assets@[k]).balance >= 1 by {
                    assert(p.assets@[k].balance == 0);
                    assert(deposits@[k] != 0);
                };
            }
            assert(spec_pool_wf(pool));
        }
        self.pools.insert(idx, pool);
        proof {
            assert(self.pools@ =~= old(self).pools@.update(idx as int, self.pools@[idx as int]));
        }
        self.events.push(PoolEvent::LiquidityAdded { pool_id, provider: ctx.caller, shares: minted });
        Ok(minted)
    }

    /// Burn `shares` of the caller's position and withdraw the pro-rata
    /// amount of every reserve. Fails `InsufficientLiquidity` when the
    /// caller holds fewer shares than requested, `SlippageTooHigh` when any
    /// output falls below its minimum; no failure changes any state.
    #[verifier::loop_isolation(false)]
    pub fn remove_liquidity(
        &mut self,
        pool_id: u64,
        shares: u128,
        min_outputs: &Vec<u128>,
        ctx: ExecContext,
    ) -> (r: Result<Vec<u128>, Error>)
        requires
            spec_ledger_wf(*old(self)),
        ensures
            spec_ledger_wf(*final(self)),
            spec_pool_index(*old(self), pool_id) is None
                ==> r == Err::<Vec<u128>, Error>(Error::PoolNotFound) && *final(self) == *old(self),
            spec_pool_index(*old(self), pool_id) matches Some(idx) ==> {
                let p = old(self).pools@[idx];
                &&& !(p.state is Active) ==> r == Err::<Vec<u128>, Error>(Error::PoolNotActive)
                    && *final(self) == *old(self)
                &&& p.state is Active ==> match spec_remove_outcome(p, ctx.caller, shares,
                        min_outputs@) {
                    Err(e) => r == Err::<Vec<u128>, Error>(e) && *final(self) == *old(self),
                    Ok(outs) => {
                        &&& r is Ok && r->Ok_0@ == outs
                        &&& final(self).pools@.len() == old(self).pools@.len()
                        &&& (forall|k: int| 0 <= k < old(self).pools@.len() && k != idx
                            ==> final(self).pools@[k] == old(self).pools@[k])
                        &&& spec_pool_after_remove(p, final(self).pools@[idx], ctx.caller,
                                shares, outs)
                        &&& final(self).next_pool_id == old(self).next_pool_id
                        &&& final(self).events@ == old(self).events@.push(
                                PoolEvent::LiquidityRemoved {
                                    pool_id, provider: ctx.caller, shares })
                    }
                }
            },
    {
        let idx = match self.find_pool(pool_id) {
            Some(i) => i,
            None => {
                return Err(Error::PoolNotFound);
            }
        };
        if !matches!(self.pools[idx].state, PoolState::Active) {
            return Err(Error::PoolNotActive);
        }
        let ghost p = self.pools@[idx as int];
        proof {
            assert(spec_pool_wf(p));
        }
        let n = self.pools[idx].assets.len();
        if min_outputs.len() != n {
            return Err(Error::InvalidAssets);
        }
        let held = match find_holder(&self.pools[idx].holders, ctx.caller) {
            Some(k) => self.pools[idx].holders[k].shares,
            None => 0,
        };
        if held < shares {
            return Err(Error::InsufficientLiquidity);
        }
        let s = self.pools[idx].total_shares;
        proof {
            if shares > 0 {
                let k = spec_holder_index(p.holders@, ctx.caller)->Some_0;
                lemma_holding_le_sum(p.holders@, k);
            }
        }
        // compute the withdrawal amounts
        let mut outs: Vec<u128> = Vec::new();
        let mut i: usize = 0;
        while i < n
            invariant
                i <= n,
                outs@.len() == i,
                shares > 0 ==> 1 <= shares <= s,
                forall|k: int| 0 <= k < i
                    ==> (#[trigger] p.assets@[k]).balance * shares <= u128::MAX,
                forall|k: int| 0 <= k < i ==> #[trigger] outs@[k]
                    == spec_withdraw_amounts(p.assets@, shares as int, s as int)[k],
            decreases n - i,
        {
            if shares == 0 {
                outs.push(0);
            } else {
                let b = self.pools[idx].assets[i].balance;
                let prod = match math::mul_checked(b, shares) {
                    Ok(v) => v,
                    Err(e) => {
                        return Err(e);
                    }
                };
                outs.push(prod / s);
            }
            i = i + 1;
        }
        let ghost souts = spec_withdraw_amounts(p.assets@, shares as int, s as int);
        proof {
            assert(outs@ =~= souts);
        }
        // slippage check
        let mut i: usize = 0;
        while i < n
            invariant
                i <= n,
                outs@.len() == n,
                forall|k: int| 0 <= k < i ==> #[trigger] outs@[k] >= min_outputs@[k],
            decreases n - i,
        {
            if outs[i] < min_outputs[i] {
                return Err(Error::SlippageTooHigh);
            }
            i = i + 1;
        }
        proof {
            assert(spec_remove_outcome(p, ctx.caller, shares, min_outputs@)
                == Ok::<Seq<u128>, Error>(souts));
        }
        // all checks passed: apply the state change
        let mut pool = self.pools.remove(idx);
        let mut i: usize = 0;
        while i < n
            invariant
                i <= n,
                n == pool.assets@.len(),
                outs@.len() == n,
                pool.holders == p.holders,
                pool.total_shares == p.total_shares,
                pool.id == p.id,
                pool.creator == p.creator,
                pool.pool_type == p.pool_type,
                pool.fee_basis_points == p.fee_basis_points,
                pool.state == p.state,
                pool.created_at == p.created_at,
                shares > 0 ==> 1 <= shares <= s,
                forall|k: int| 0 <= k < i ==> #[trigger] pool.assets@[k] == (PoolAsset {
                    balance: (p.assets@[k].balance - souts[k]) as u128,
                    ..p.assets@[k]
                }),
                forall|k: int| i <= k < n ==> #[trigger] pool.assets@[k] == p.assets@[k],
            decreases n - i,
        {
            let a = pool.assets[i];
            proof {
                if shares > 0 {
                    lemma_withdraw_bounds(a.balance as int, shares as int, s as int);
                }
            }
            let updated = PoolAsset { balance: a.balance - outs[i], ..a };
            pool.assets.set(i, updated);
            i = i + 1;
        }
        pool.total_shares = s - shares;
        match find_holder(&pool.holders, ctx.caller) {
            Some(k) => {
                let h = pool.holders[k];
                proof {
                    lemma_sum_shares_update(p.holders@, k as int, ShareHolding {
                        provider: ctx.caller,
                        shares: (h.shares - shares) as u128,
                    });
                }
                pool.holders.set(k, ShareHolding { provider: ctx.caller, shares: h.shares - shares });
            }
            None => {
            }
        }
        proof {
            if pool.total_shares == 0 {
                assert forall|k: int| 0 <= k < pool.assets@.len()
                    implies (#[trigger] pool.assets@[k]).balance == 0 by {
                    if shares > 0 {
                        lemma_withdraw_bounds(p.assets@[k].balance as int, shares as int, s as int);
                    }
                };
            }
            if pool.total_shares > 0 {
                assert forall|k: int| 0 <= k < pool.assets@.len()
                    implies (#[trigger] pool.assets@[k]).balance >= 1 by {
                    if shares > 0 {
                        lemma_withdraw_bounds(p.assets@[k].balance as int, shares as int, s as int);
                    }
                };
            }
            if p.pool_type is Weighted {
                lemma_sum_weights_pointwise(p.assets@, pool.assets@);
            }
            assert(spec_pool_wf(pool));
        }
        self.pools.insert(idx, pool);
        proof {
            assert(self.pools@ =~= old(self).pools@.update(idx as int, self.pools@[idx as int]));
        }
        self.events.push(PoolEvent::LiquidityRemoved { pool_id, provider: ctx.caller, shares });
        Ok(outs)
    }

    /// Swap `amount_in` of `asset_in` for `asset_out`. The fee is taken from
    /// the input first and stays in the pool; the output follows the pool
    /// kind's pricing curve. For a constant-product pool the product of the
    /// two reserves never decreases, and strictly grows for a positive fee
    /// on a positive input; for a stable pool the amplified invariant value
    /// never decreases. Fails `SlippageTooHigh` when the output falls below
    /// `min_amount_out`; no failure changes any state.
    #[verifier::loop_isolation(false)]
    pub fn swap(
        &mut self,
        pool_id: u64,
        asset_in: AssetId,
        amount_in: u128,
        asset_out: AssetId,
        min_amount_out: u128,
        ctx: ExecContext,
    ) -> (r: Result<u128, Error>)
        requires
            spec_ledger_wf(*old(self)),
        ensures
            spec_ledger_wf(*final(self)),
            spec_pool_index(*old(self), pool_id) is None
                ==> r == Err::<u128, Error>(Error::PoolNotFound) && *final(self) == *old(self),
            spec_pool_index(*old(self), pool_id) matches Some(idx) ==> {
                let p = old(self).pools@[idx];
                &&& !(p.state is Active) ==> r == Err::<u128, Error>(Error::PoolNotActive)
                    && *final(self) == *old(self)
                &&& p.state is Active ==> match spec_swap_outcome(p, asset_in, amount_in,
                        asset_out, min_amount_out) {
                    Err(e) => r == Err::<u128, Error>(e) && *final(self) == *old(self),
                    Ok(out) => {
                        let ii = spec_asset_index(p.assets@, asset_in)->Some_0;
                        let oi = spec_asset_index(p.assets@, asset_out)->Some_0;
                        let r_in = p.assets@[ii].balance as int;
                        let r_out = p.assets@[oi].balance as int;
                        &&& r == Ok::<u128, Error>(out)
                        &&& final(self).pools@.len() == old(self).pools@.len()
                        &&& (forall|k: int| 0 <= k < old(self).pools@.len() && k != idx
                            ==> final(self).pools@[k] == old(self).pools@[k])
                        &&& spec_pool_after_swap(p, final(self).pools@[idx], ii, oi,
                                amount_in, out)
                        &&& final(self).next_pool_id == old(self).next_pool_id
                        &&& final(self).events@ == old(self).events@.push(
                                PoolEvent::SwapExecuted { pool_id, caller: ctx.caller,
                                    asset_in, asset_out, amount_in, amount_out: out })
                        &&& p.pool_type is ConstantProduct
                            ==> (r_in + amount_in) * (r_out - out) >= r_in * r_out
                        &&& p.pool_type is ConstantProduct && p.fee_basis_points > 0
                                && amount_in > 0
                            ==> (r_in + amount_in) * (r_out - out) > r_in * r_out
                        &&& p.pool_type is Stable
                            ==> spec_stable_value(r_in + amount_in, r_out - out)
                                >= spec_stable_value(r_in, r_out)
                    }
                }
            },
    {
        let idx = match self.find_pool(pool_id) {
            Some(i) => i,
            None => {
                return Err(Error::PoolNotFound);
            }
        };
        if !matches!(self.pools[idx].state, PoolState::Active) {
            return Err(Error::PoolNotActive);
        }
        let ghost p = self.pools@[idx as int];
        proof {
            assert(spec_pool_wf(p));
        }
        if asset_in == asset_out {
            return Err(Error::InvalidAssets);
        }
        let ii = match find_asset(&self.pools[idx].assets, asset_in) {
            Some(i) => i,
            None => {
                return Err(Error::AssetNotFound);
            }
        };
        let oi = match find_asset(&self.pools[idx].assets, asset_out) {
            Some(i) => i,
            None => {
                return Err(Error::AssetNotFound);
            }
        };
        let r_in = self.pools[idx].assets[ii].balance;
        let r_out = self.pools[idx].assets[oi].balance;
        if r_in == 0 || r_out == 0 {
            return Err(Error::InsufficientLiquidity);
        }
        let fee = self.pools[idx].fee_basis_points;
        let a_net = match math::apply_fee(amount_in, fee) {
            Ok(v) => v,
            Err(e) => {
                return Err(e);
            }
        };
        if r_in > u128::MAX - amount_in {
            return Err(Error::MathOverflow);
        }
        let new_r_in = r_in + amount_in;
        let out: u128;
        match self.pools[idx].pool_type {
            PoolType::ConstantProduct => {
                let k = match math::mul_checked(r_in, r_out) {
                    Ok(v) => v,
                    Err(e) => {
                        return Err(e);
                    }
                };
                let s = r_in + a_net;
                let q = math::div_ceil(k, s);
                proof {
                    lemma_cp_product(r_in as int, r_out as int, amount_in as int, a_net as int);
                }
                out = r_out - q;
            }
            PoolType::Weighted => {
                let w_in = self.pools[idx].assets[ii].weight.unwrap();
                let w_out = self.pools[idx].assets[oi].weight.unwrap();
                let n1 = match math::mul_checked(a_net, w_in as u128) {
                    Ok(v) => v,
                    Err(e) => {
                        return Err(e);
                    }
                };
                let n = match math::mul_checked(n1, r_out) {
                    Ok(v) => v,
                    Err(e) => {
                        return Err(e);
                    }
                };
                let d1 = match math::mul_checked(r_in, w_out as u128) {
                    Ok(v) => v,
                    Err(e) => {
                        return Err(e);
                    }
                };
                let d = match math::add_checked(d1, n1) {
                    Ok(v) => v,
                    Err(e) => {
                        return Err(e);
                    }
                };
                proof {
                    lemma_weighted_out_bounds(r_in as int, r_out as int, w_in as int,
                        w_out as int, a_net as int);
                    assert(r_in as int * (w_out as int) >= 1) by (nonlinear_arith)
                        requires r_in >= 1 && w_out >= 1;
                    assert(d >= 1);
                }
                out = n / d;
            }
            PoolType::Stable => {
                let x2 = r_in + a_net;
                let sum_xy = match math::add_checked(x2, r_out) {
                    Ok(v) => v,
                    Err(_) => {
                        proof {
                            lemma_stable_overflow(x2 as int, r_out as int);
                        }
                        return Err(Error::MathOverflow);
                    }
                };
                let t1 = match math::mul_checked(STABLE_AMP, sum_xy) {
                    Ok(v) => v,
                    Err(_) => {
                        proof {
                            lemma_stable_overflow(x2 as int, r_out as int);
                        }
                        return Err(Error::MathOverflow);
                    }
                };
                let t2 = match math::mul_checked(x2, r_out) {
                    Ok(v) => v,
                    Err(_) => {
                        proof {
                            lemma_stable_overflow(x2 as int, r_out as int);
                        }
                        return Err(Error::MathOverflow);
                    }
                };
                if t1 > u128::MAX - t2 {
                    proof {
                        lemma_stable_overflow(x2 as int, r_out as int);
                    }
                    return Err(Error::MathOverflow);
                }
                proof {
                    lemma_stable_mono(r_in as int, x2 as int, r_out as int, r_out as int);
                    assert(spec_stable_keeps(r_in as int, r_out as int, a_net as int, 0));
                }
                let v0 = stable_value(r_in, r_out);
                let mut lo: u128 = 0;
                let mut hi: u128 = r_out - 1;
                while lo < hi
                    invariant
                        0 <= lo <= hi <= r_out - 1,
                        spec_stable_keeps(r_in as int, r_out as int, a_net as int, lo as int),
                        forall|o: int| hi < o <= r_out - 1
                            ==> !(#[trigger] spec_stable_keeps(r_in as int, r_out as int,
                                a_net as int, o)),
                    decreases hi - lo,
                {
                    let mid = lo + (hi - lo + 1) / 2;
                    proof {
                        lemma_stable_mono(x2 as int, x2 as int, (r_out - mid) as int,
                            r_out as int);
                    }
                    let v = stable_value(x2, r_out - mid);
                    if v >= v0 {
                        lo = mid;
                    } else {
                        proof {
                            assert forall|o: int| mid - 1 < o <= r_out - 1
                                implies !(#[trigger] spec_stable_keeps(r_in as int,
                                    r_out as int, a_net as int, o)) by {
                                lemma_stable_mono(x2 as int, x2 as int, r_out - o,
                                    (r_out - mid) as int);
                            };
                        }
                        hi = mid - 1;
                    }
                }
                proof {
                    lemma_stable_out_unique(r_in as int, r_out as int, a_net as int, lo as int);
                }
                out = lo;
            }
        }
        if out < min_amount_out {
            return Err(Error::SlippageTooHigh);
        }
        proof {
            assert(spec_swap_outcome(p, asset_in, amount_in, asset_out, min_amount_out)
                == Ok::<u128, Error>(out));
        }
        // all checks passed: apply the state change
        let mut pool = self.pools.remove(idx);
        let a_ii = pool.assets[ii];
        pool.assets.set(ii, PoolAsset { balance: new_r_in, ..a_ii });
        let a_oi = pool.assets[oi];
        pool.assets.set(oi, PoolAsset { balance: a_oi.balance - out, ..a_oi });
        proof {
            if p.pool_type is Weighted {
                lemma_sum_weights_pointwise(p.assets@, pool.assets@);
            }
            assert(spec_pool_wf(pool));
        }
        self.pools.insert(idx, pool);
        proof {
            assert(self.pools@ =~= old(self).pools@.update(idx as int, self.pools@[idx as int]));
        }
        self.events.push(PoolEvent::SwapExecuted { pool_id, caller: ctx.caller, asset_in,
            asset_out, amount_in, amount_out: out });
        proof {
            if p.pool_type is ConstantProduct {
                lemma_cp_product(r_in as int, r_out as int, amount_in as int, a_net as int);
                if fee > 0 && amount_in > 0 {
                    math::lemma_fee_strictly_reduces(amount_in as int, fee as int);
                }
            }
            if p.pool_type is Stable {
                lemma_stable_mono((r_in + a_net) as int, (r_in + amount_in) as int,
                    (r_out - out) as int, (r_out - out) as int);
            }
        }
        Ok(out)
    }
}

/// Position of the holding of the given provider.
fn find_holder(holders: &Vec<ShareHolding>, provider: AccountId) -> (r: Option<usize>)
    requires
        spec_distinct_holders(holders@),
    ensures
        (r is Some <==> spec_holder_index(holders@, provider) is Some),
        r is Some ==> r->0 as int == spec_holder_index(holders@, provider)->0
            && r->0 < holders@.len() && holders@[r->0 as int].provider == provider,
{
    let n = holders.len();
    let mut i: usize = 0;
    while i < n
        invariant
            i <= n,
            n == holders@.len(),
            spec_distinct_holders(holders@),
            forall|k: int| 0 <= k < i ==> (#[trigger] holders@[k]).provider != provider,
        decreases n - i,
    {
        if holders[i].provider == provider {
            proof {
                let c = choose|k: int| 0 <= k < holders@.len()
                    && (#[trigger] holders@[k]).provider == provider;
                if c != i as int {
                    assert(holders@[c].provider == holders@[i as int].provider);
                }
            }
            return Some(i);
        }
        i = i + 1;
    }
    None
}

/// Assets after a deposit: each reserve grows by its aligned deposit.
pub open spec fn spec_assets_after_add(assets: Seq<PoolAsset>, deposits: Seq<u128>) -> Seq<PoolAsset> {
    Seq::new(assets.len(), |i: int| PoolAsset {
        balance: (assets[i].balance + deposits[i]) as u128,
        ..assets[i]
    })
}

/// Holdings after crediting `m` shares to `provider`: its entry grows, or a
/// fresh entry is appended.
pub open spec fn spec_holders_after_add(
    holders: Seq<ShareHolding>,
    provider: AccountId,
    m: u128,
) -> Seq<ShareHolding> {
    match spec_holder_index(holders, provider) {
        Some(k) => holders.update(k, ShareHolding {
            provider,
            shares: (holders[k].shares + m) as u128,
        }),
        None => holders.push(ShareHolding { provider, shares: m }),
    }
}

/// The smallest deposit in a non-empty deposit vector.
pub open spec fn spec_min_deposit(deposits: Seq<u128>) -> u128
    decreases deposits.len(),
{
    if deposits.len() <= 1 {
        deposits[0]
    } else {
        let rest = spec_min_deposit(deposits.drop_last());
        if deposits.last() < rest { deposits.last() } else { rest }
    }
}

/// Shares minted by the first deposit into an empty pool: the geometric
/// mean for a two-asset pool, the smallest deposit otherwise; every deposit
/// must be positive so that the shares-zero-iff-reserves-zero invariant
/// holds afterwards.
pub open spec fn spec_first_shares(deposits: Seq<u128>) -> Result<u128, Error> {
    if exists|i: int| 0 <= i < deposits.len() && deposits[i] == 0 {
        Err(Error::InsufficientLiquidity)
    } else if deposits.len() == 2 {
        if deposits[0] * deposits[1] > u128::MAX {
            Err(Error::MathOverflow)
        } else {
            Ok(math::spec_isqrt(deposits[0] * deposits[1]) as u128)
        }
    } else {
        Ok(spec_min_deposit(deposits))
    }
}

/// The minimum over the first `upto` assets of `deposit * total / reserve`:
/// unbalanced deposits mint by their worst ratio, so an unbalanced deposit
/// cannot manipulate the price.
pub open spec fn spec_min_ratio(
    assets: Seq<PoolAsset>,
    deposits: Seq<u128>,
    s: int,
    upto: int,
) -> int
    decreases upto,
{
    if upto <= 1 {
        deposits[0] * s / (assets[0].balance as int)
    } else {
        let rest = spec_min_ratio(assets, deposits, s, upto - 1);
        let cur = deposits[upto - 1] * s / (assets[upto - 1].balance as int);
        if cur < rest { cur } else { rest }
    }
}

/// Shares minted by a deposit into a funded pool.
pub open spec fn spec_ratio_shares(
    assets: Seq<PoolAsset>,
    deposits: Seq<u128>,
    s: int,
) -> Result<u128, Error> {
    if exists|i: int| 0 <= i < deposits.len() && deposits[i] * s > u128::MAX {
        Err(Error::MathOverflow)
    } else {
        Ok(spec_min_ratio(assets, deposits, s, deposits.len() as int) as u128)
    }
}

/// Shares minted for a deposit, by pool fullness.
pub open spec fn spec_minted_shares(p: Pool, deposits: Seq<u128>) -> Result<u128, Error> {
    if p.total_shares == 0 {
        spec_first_shares(deposits)
    } else {
        spec_ratio_shares(p.assets@, deposits, p.total_shares as int)
    }
}

/// Complete outcome of `add_liquidity` on a located, active pool: the
/// minted shares, or the specific error, in check order.
pub open spec fn spec_add_outcome(p: Pool, deposits: Seq<u128>, min_shares: u128) -> Result<
    u128,
    Error,
> {
    if deposits.len() != p.assets@.len() {
        Err(Error::InvalidAssets)
    } else {
        match spec_minted_shares(p, deposits) {
            Err(e) => Err(e),
            Ok(m) => {
                if m < min_shares {
                    Err(Error::SlippageTooHigh)
                } else if exists|i: int| 0 <= i < deposits.len()
                    && (#[trigger] p.assets@[i]).balance + deposits[i] > u128::MAX {
                    Err(Error::MathOverflow)
                } else if p.total_shares + m > u128::MAX {
                    Err(Error::MathOverflow)
                } else {
                    Ok(m)
                }
            }
        }
    }
}

/// How a successful deposit reshapes the pool: reserves grow by the
/// deposits, total shares and the caller's holding grow by the minted
/// shares, everything else is untouched.
pub open spec fn spec_pool_after_add(
    p: Pool,
    q: Pool,
    provider: AccountId,
    deposits: Seq<u128>,
    m: u128,
) -> bool {
    &&& q.id == p.id
    &&& q.creator == p.creator
    &&& q.pool_type == p.pool_type
    &&& q.fee_basis_points == p.fee_basis_points
    &&& q.state == p.state
    &&& q.created_at == p.created_at
    &&& q.assets@ == spec_assets_after_add(p.assets@, deposits)
    &&& q.total_shares == p.total_shares + m
    &&& q.holders@ == spec_holders_after_add(p.holders@, provider, m)
}

/// The shares a provider currently holds in a pool (0 if no entry).
pub open spec fn spec_shares_of(holders: Seq<ShareHolding>, provider: AccountId) -> u128 {
    match spec_holder_index(holders, provider) {
        Some(k) => holders[k].shares,
        None => 0,
    }
}

/// Pro-rata withdrawal amounts: `shares / total * reserve` per asset,
/// rounded down; zero shares withdraw nothing.
pub open spec fn spec_withdraw_amounts(assets: Seq<PoolAsset>, shares: int, s: int) -> Seq<u128> {
    Seq::new(assets.len(), |i: int|
        if shares == 0 { 0u128 } else { ((assets[i].balance * shares) / s) as u128 })
}

/// Complete outcome of `remove_liquidity` on a located, active pool.
pub open spec fn spec_remove_outcome(
    p: Pool,
    provider: AccountId,
    shares: u128,
    min_outputs: Seq<u128>,
) -> Result<Seq<u128>, Error> {
    if min_outputs.len() != p.assets@.len() {
        Err(Error::InvalidAssets)
    } else if spec_shares_of(p.holders@, provider) < shares {
        Err(Error::InsufficientLiquidity)
    } else if exists|i: int| 0 <= i < p.assets@.len()
        && (#[trigger] p.assets@[i]).balance * shares > u128::MAX {
        Err(Error::MathOverflow)
    } else {
        let outs = spec_withdraw_amounts(p.assets@, shares as int, p.total_shares as int);
        if exists|i: int| 0 <= i < outs.len() && (#[trigger] outs[i]) < min_outputs[i] {
            Err(Error::SlippageTooHigh)
        } else {
            Ok(outs)
        }
    }
}

/// Holdings after debiting `shares` from `provider`'s entry (untouched when
/// there is no entry, which only a zero-share withdrawal allows).
pub open spec fn spec_holders_after_remove(
    holders: Seq<ShareHolding>,
    provider: AccountId,
    shares: u128,
) -> Seq<ShareHolding> {
    match spec_holder_index(holders, provider) {
        Some(k) => holders.update(k, ShareHolding {
            provider,
            shares: (holders[k].shares - shares) as u128,
        }),
        None => holders,
    }
}

/// How a successful withdrawal reshapes the pool.
pub open spec fn spec_pool_after_remove(
    p: Pool,
    q: Pool,
    provider: AccountId,
    shares: u128,
    outs: Seq<u128>,
) -> bool {
    &&& q.id == p.id
    &&& q.creator == p.creator
    &&& q.pool_type == p.pool_type
    &&& q.fee_basis_points == p.fee_basis_points
    &&& q.state == p.state
    &&& q.created_at == p.created_at
    &&& q.assets@.len() == p.assets@.len()
    &&& (forall|i: int| 0 <= i < p.assets@.len() ==> #[trigger] q.assets@[i] == (PoolAsset {
            balance: (p.assets@[i].balance - outs[i]) as u128,
            ..p.assets@[i]
        }))
    &&& q.total_shares == p.total_shares - shares
    &&& q.holders@ == spec_holders_after_remove(p.holders@, provider, shares)
}

/// Constant-product output: the incoming reserve's quotient is rounded up,
/// so the product of reserves never decreases.
pub open spec fn spec_cp_out(r_in: int, r_out: int, a_net: int) -> int {
    r_out - math::spec_div_ceil(r_in * r_out, r_in + a_net)
}

/// Weighted output: the weight-scaled product curve
/// `a_net * w_in * r_out / (r_in * w_out + a_net * w_in)`, rounded down.
pub open spec fn spec_weighted_out(r_in: int, r_out: int, w_in: int, w_out: int, a_net: int) -> int {
    (a_net * w_in * r_out) / (r_in * w_out + a_net * w_in)
}

/// The stable curve's invariant value: an amplified sum plus the product,
/// so large reserves trade near 1:1 while the product term resists
/// draining either side.
pub open spec fn spec_stable_value(x: int, y: int) -> int {
    STABLE_AMP * (x + y) + x * y
}

/// Withdrawing `out` against a net inflow of `a_net` keeps the stable
/// invariant value from decreasing.
pub open spec fn spec_stable_keeps(r_in: int, r_out: int, a_net: int, out: int) -> bool {
    spec_stable_value(r_in + a_net, r_out - out) >= spec_stable_value(r_in, r_out)
}

/// Stable output: the largest withdrawal that keeps the invariant value
/// and leaves at least one unit of the outgoing reserve.
pub open spec fn spec_stable_out(r_in: int, r_out: int, a_net: int) -> int {
    choose|o: int| 0 <= o <= r_out - 1 && #[trigger] spec_stable_keeps(r_in, r_out, a_net, o)
        && (o == r_out - 1 || !spec_stable_keeps(r_in, r_out, a_net, o + 1))
}

/// The stable invariant value grows with either reserve.
proof fn lemma_stable_mono(x1: int, x2: int, y1: int, y2: int)
    requires
        0 <= x1 <= x2,
        0 <= y1 <= y2,
    ensures
        spec_stable_value(x1, y1) <= spec_stable_value(x2, y2),
{
    assert(x1 * y1 <= x2 * y2) by (nonlinear_arith)
        requires 0 <= x1 <= x2 && 0 <= y1 <= y2;
    assert(STABLE_AMP * (x1 + y1) <= STABLE_AMP * (x2 + y2)) by (nonlinear_arith)
        requires x1 + y1 <= x2 + y2 && STABLE_AMP >= 1;
}

/// If any building block of the stable value overflows, the whole value
/// does.
proof fn lemma_stable_overflow(x: int, y: int)
    requires
        0 <= x,
        0 <= y,
    ensures
        x + y > u128::MAX ==> spec_stable_value(x, y) > u128::MAX,
        STABLE_AMP * (x + y) > u128::MAX ==> spec_stable_value(x, y) > u128::MAX,
        x * y > u128::MAX ==> spec_stable_value(x, y) > u128::MAX,
        spec_stable_value(x, y) >= STABLE_AMP * (x + y),
        spec_stable_value(x, y) >= x * y,
        spec_stable_value(x, y) >= x + y,
{
    assert(x * y >= 0) by (nonlinear_arith)
        requires 0 <= x && 0 <= y;
    assert(STABLE_AMP * (x + y) >= x + y) by (nonlinear_arith)
        requires x + y >= 0 && STABLE_AMP >= 1;
}

/// Any witness of the stable-output characterization is `spec_stable_out`.
proof fn lemma_stable_out_unique(r_in: int, r_out: int, a_net: int, o: int)
    requires
        0 <= r_in,
        1 <= r_out,
        0 <= a_net,
        0 <= o <= r_out - 1,
        spec_stable_keeps(r_in, r_out, a_net, o),
        o == r_out - 1 || !spec_stable_keeps(r_in, r_out, a_net, o + 1),
    ensures
        spec_stable_out(r_in, r_out, a_net) == o,
{
    let c = spec_stable_out(r_in, r_out, a_net);
    assert(0 <= c <= r_out - 1 && spec_stable_keeps(r_in, r_out, a_net, c)
        && (c == r_out - 1 || !spec_stable_keeps(r_in, r_out, a_net, c + 1)));
    if c < o {
        lemma_stable_mono(r_in + a_net, r_in + a_net, r_out - o, r_out - (c + 1));
        assert(spec_stable_keeps(r_in, r_out, a_net, c + 1));
        assert(false);
    }
    if o < c {
        lemma_stable_mono(r_in + a_net, r_in + a_net, r_out - c, r_out - (o + 1));
        assert(spec_stable_keeps(r_in, r_out, a_net, o + 1));
        assert(false);
    }
}

/// If `a <= d * b` with `d >= 1` then the ceiling of `a / d` is at most `b`.
proof fn lemma_div_ceil_le(a: int, b: int, d: int)
    requires
        0 <= a,
        0 <= b,
        1 <= d,
        a <= d * b,
    ensures
        math::spec_div_ceil(a, d) <= b,
{
    vstd::arithmetic::div_mod::lemma_div_is_ordered(a, d * b, d);
    vstd::arithmetic::div_mod::lemma_div_multiples_vanish(b, d);
    if a % d != 0 {
        if a / d == b {
            vstd::arithmetic::div_mod::lemma_fundamental_div_mod(a, d);
            assert(a == d * b + a % d);
            assert(a % d < d);
            assert(a > d * b);
            assert(false);
        }
    }
}

/// The constant-product law: with the outgoing reserve set to the rounded-up
/// quotient, the product of reserves never decreases, and strictly grows
/// whenever the fee retains part of a positive inflow.
proof fn lemma_cp_product(r_in: int, r_out: int, a_in: int, a_net: int)
    requires
        1 <= r_in,
        1 <= r_out,
        0 <= a_net <= a_in,
    ensures
        ({
            let q = math::spec_div_ceil(r_in * r_out, r_in + a_net);
            &&& 1 <= q <= r_out
            &&& (r_in + a_in) * q >= r_in * r_out
            &&& a_net < a_in ==> (r_in + a_in) * q > r_in * r_out
        }),
{
    let k = r_in * r_out;
    let s = r_in + a_net;
    let q = math::spec_div_ceil(k, s);
    assert(r_in * r_out >= 1) by (nonlinear_arith)
        requires r_in >= 1 && r_out >= 1;
    math::lemma_div_ceil_bounds(k, s);
    assert(q >= 1);
    assert(k <= s * r_out) by (nonlinear_arith)
        requires r_in <= s && r_out >= 0 && k == r_in * r_out;
    lemma_div_ceil_le(k, r_out, s);
    assert(q * s >= k);
    assert((r_in + a_in) * q >= s * q) by (nonlinear_arith)
        requires q >= 0 && r_in + a_in >= s;
    assert(s * q == q * s) by (nonlinear_arith);
    if a_net < a_in {
        assert((r_in + a_in) * q >= (s + 1) * q) by (nonlinear_arith)
            requires q >= 0 && r_in + a_in >= s + 1;
        assert((s + 1) * q == s * q + q) by (nonlinear_arith);
    }
}

/// The weighted output is strictly smaller than the outgoing reserve.
proof fn lemma_weighted_out_bounds(r_in: int, r_out: int, w_in: int, w_out: int, a_net: int)
    requires
        1 <= r_in,
        1 <= r_out,
        1 <= w_in,
        1 <= w_out,
        0 <= a_net,
    ensures
        0 <= spec_weighted_out(r_in, r_out, w_in, w_out, a_net) < r_out,
{
    let n = a_net * w_in * r_out;
    let d = r_in * w_out + a_net * w_in;
    assert(r_in * w_out >= 1) by (nonlinear_arith)
        requires r_in >= 1 && w_out >= 1;
    assert(a_net * w_in >= 0) by (nonlinear_arith)
        requires a_net >= 0 && w_in >= 1;
    assert(n < d * r_out) by (nonlinear_arith)
        requires
            n == a_net * w_in * r_out,
            d == r_in * w_out + a_net * w_in,
            r_in * w_out >= 1,
            a_net * w_in >= 0,
            r_out >= 1,
    ;
    assert(a_net * w_in * r_out >= 0) by (nonlinear_arith)
        requires a_net >= 0 && w_in >= 0 && r_out >= 0;
    lemma_div_lt(n, r_out, d);
    vstd::arithmetic::div_mod::lemma_div_pos_is_pos(n, d);
}

/// Asset sequences with pointwise-equal weights have equal weight sums.
pub proof fn lemma_sum_weights_pointwise(a: Seq<PoolAsset>, b: Seq<PoolAsset>)
    requires
        a.len() == b.len(),
        forall|i: int| 0 <= i < a.len() ==> (#[trigger] a[i]).weight == b[i].weight,
    ensures
        spec_sum_weights(a) == spec_sum_weights(b),
    decreases a.len(),
{
    if a.len() > 0 {
        lemma_sum_weights_pointwise(a.drop_last(), b.drop_last());
    }
}

/// The minimum deposit is one of the deposits and bounds all of them.
pub proof fn lemma_min_deposit_props(deposits: Seq<u128>)
    requires
        deposits.len() >= 1,
    ensures
        forall|k: int| 0 <= k < deposits.len()
            ==> spec_min_deposit(deposits) <= #[trigger] deposits[k],
        exists|k: int| 0 <= k < deposits.len()
            && spec_min_deposit(deposits) == #[trigger] deposits[k],
    decreases deposits.len(),
{
    if deposits.len() > 1 {
        let prefix = deposits.drop_last();
        lemma_min_deposit_props(prefix);
        let m = spec_min_deposit(deposits);
        let rest = spec_min_deposit(prefix);
        if deposits.last() < rest {
            assert(m == deposits[deposits.len() - 1]);
        } else {
            let k = choose|k: int| 0 <= k < prefix.len() && rest == #[trigger] prefix[k];
            assert(m == deposits[k]);
        }
        assert forall|k: int| 0 <= k < deposits.len() implies m <= #[trigger] deposits[k] by {
            if k < deposits.len() - 1 {
                assert(prefix[k] == deposits[k]);
            }
        };
    } else {
        assert(spec_min_deposit(deposits) == deposits[0]);
    }
}

/// The minimum ratio is bounded by every per-asset ratio.
pub proof fn lemma_min_ratio_props(assets: Seq<PoolAsset>, deposits: Seq<u128>, s: int, upto: int)
    requires
        1 <= upto <= assets.len(),
        deposits.len() == assets.len(),
        s >= 0,
        forall|k: int| 0 <= k < assets.len() ==> (#[trigger] assets[k]).balance >= 1,
    ensures
        forall|k: int| 0 <= k < upto ==> spec_min_ratio(assets, deposits, s, upto)
            <= #[trigger] (deposits[k] * s) / (assets[k].balance as int),
        0 <= spec_min_ratio(assets, deposits, s, upto),
    decreases upto,
{
    if upto > 1 {
        lemma_min_ratio_props(assets, deposits, s, upto - 1);
        assert(deposits[upto - 1] * s >= 0) by (nonlinear_arith)
            requires deposits[upto - 1] >= 0 && s >= 0;
        vstd::arithmetic::div_mod::lemma_div_pos_is_pos(deposits[upto - 1] * s,
            assets[upto - 1].balance as int);
    } else {
        assert(deposits[0] * s >= 0) by (nonlinear_arith)
            requires deposits[0] >= 0 && s >= 0;
        vstd::arithmetic::div_mod::lemma_div_pos_is_pos(deposits[0] * s,
            assets[0].balance as int);
    }
}

/// The round-trip law: depositing and then withdrawing the freshly minted
/// shares restores the outstanding share total exactly, and returns each
/// reserve to within the deposit of its prior value — the pool never pays
/// out more than was deposited, and the per-asset rounding loss is bounded
/// by the deposit itself. For a first deposit into an empty pool the
/// round trip is exact.
pub proof fn lemma_liquidity_round_trip(
    p: Pool,
    q: Pool,
    provider: AccountId,
    deposits: Seq<u128>,
    m: u128,
)
    requires
        spec_pool_wf(p),
        spec_pool_wf(q),
        deposits.len() == p.assets@.len(),
        spec_add_outcome(p, deposits, 0) == Ok::<u128, Error>(m),
        spec_pool_after_add(p, q, provider, deposits, m),
        forall|i: int| 0 <= i < q.assets@.len()
            ==> (#[trigger] q.assets@[i]).balance * m <= u128::MAX,
    ensures
        q.total_shares - m == p.total_shares,
        spec_shares_of(q.holders@, provider) >= m,
        ({
            let outs = spec_withdraw_amounts(q.assets@, m as int, q.total_shares as int);
            &&& spec_remove_outcome(q, provider, m, Seq::new(q.assets@.len(), |i: int| 0u128))
                == Ok::<Seq<u128>, Error>(outs)
            &&& forall|i: int| 0 <= i < p.assets@.len()
                ==> #[trigger] outs[i] <= deposits[i]
            &&& forall|i: int| 0 <= i < p.assets@.len()
                ==> p.assets@[i].balance <= (#[trigger] q.assets@[i]).balance - outs[i]
                    <= p.assets@[i].balance + deposits[i]
            &&& p.total_shares == 0 ==> forall|i: int| 0 <= i < p.assets@.len()
                ==> #[trigger] outs[i] == deposits[i]
        }),
{
    let s = p.total_shares as int;
    let outs = spec_withdraw_amounts(q.assets@, m as int, q.total_shares as int);
    let n = p.assets@.len() as int;
    // the minted shares are positive whenever the pool was empty
    assert(spec_minted_shares(p, deposits) == Ok::<u128, Error>(m));
    if p.total_shares == 0 {
        assert(!(exists|i: int| 0 <= i < deposits.len() && deposits[i] == 0));
        if deposits.len() == 2 {
            assert(deposits[0] != 0 && deposits[1] != 0);
            assert(deposits[0] * deposits[1] >= 1) by (nonlinear_arith)
                requires deposits[0] >= 1 && deposits[1] >= 1;
            math::lemma_isqrt_char(deposits[0] * deposits[1]);
            let rt = math::spec_isqrt(deposits[0] * deposits[1]);
            if rt == 0 {
                assert((rt + 1) * (rt + 1) == 1) by (nonlinear_arith)
                    requires rt == 0;
            }
            assert(rt >= 1);
            assert(rt <= rt * rt) by (nonlinear_arith)
                requires rt >= 1;
            assert(rt <= u128::MAX);
            assert(m >= 1);
        } else {
            lemma_min_deposit_props(deposits);
            let k = choose|k: int| 0 <= k < deposits.len()
                && spec_min_deposit(deposits) == #[trigger] deposits[k];
            assert(deposits[k] != 0);
            assert(m >= 1);
        }
    }
    // the provider can withdraw the minted shares
    match spec_holder_index(p.holders@, provider) {
        Some(k) => {
            lemma_holding_le_sum(p.holders@, k);
            assert(p.holders@[k].shares + m <= u128::MAX);
            assert(q.holders@[k].provider == provider);
            let c = spec_holder_index(q.holders@, provider)->Some_0;
            if c != k {
                assert(q.holders@[c].provider == q.holders@[k].provider);
            }
            assert(spec_shares_of(q.holders@, provider) == p.holders@[k].shares + m);
        }
        None => {
            let k = p.holders@.len() as int;
            assert(q.holders@[k].provider == provider);
            let c = spec_holder_index(q.holders@, provider)->Some_0;
            if c != k {
                assert(q.holders@[c].provider == q.holders@[k].provider);
            }
            assert(spec_shares_of(q.holders@, provider) == m);
        }
    }
    // per-asset bounds on the withdrawal
    assert forall|i: int| 0 <= i < n implies 0 <= #[trigger] outs[i] <= deposits[i]
        && (p.total_shares == 0 ==> outs[i] == deposits[i]) by {
        let r_i = p.assets@[i].balance as int;
        let d_i = deposits[i] as int;
        let b_i = q.assets@[i].balance as int;
        assert(q.assets@[i] == spec_assets_after_add(p.assets@, deposits)[i]);
        assert(r_i + d_i <= u128::MAX);
        assert(b_i == r_i + d_i);
        if m == 0 {
            assert(outs[i] == 0);
        } else {
            let st = q.total_shares as int;
            assert(st == s + m);
            if p.total_shares == 0 {
                assert(r_i == 0);
                assert(b_i == d_i);
                vstd::arithmetic::div_mod::lemma_div_multiples_vanish(d_i, m as int);
                assert(d_i * (m as int) == (m as int) * d_i) by (nonlinear_arith);
                assert(outs[i] == d_i * (m as int) / (m as int));
                assert(outs[i] == d_i);
            } else {
                lemma_min_ratio_props(p.assets@, deposits, s, n);
                assert(m <= (d_i * s) / r_i);
                // m * r_i <= d_i * s
                vstd::arithmetic::div_mod::lemma_fundamental_div_mod(d_i * s, r_i);
                assert((m as int) * r_i <= ((d_i * s) / r_i) * r_i) by (nonlinear_arith)
                    requires r_i >= 1 && m <= (d_i * s) / r_i;
                assert(((d_i * s) / r_i) * r_i <= d_i * s) by (nonlinear_arith)
                    requires r_i >= 1 && d_i * s >= 0;
                // hence (r_i + d_i) * m <= d_i * (s + m)
                assert(b_i * (m as int) <= d_i * st) by (nonlinear_arith)
                    requires
                        b_i == r_i + d_i,
                        st == s + m,
                        (m as int) * r_i <= d_i * s,
                        m >= 0,
                        d_i >= 0,
                ;
                assert(d_i * st == st * d_i) by (nonlinear_arith);
                vstd::arithmetic::div_mod::lemma_div_is_ordered(b_i * (m as int), d_i * st, st);
                vstd::arithmetic::div_mod::lemma_div_multiples_vanish(d_i, st);
                assert(b_i * (m as int) / st <= d_i);
                vstd::arithmetic::div_mod::lemma_div_pos_is_pos(b_i * (m as int), st);
                assert(b_i * (m as int) >= 0) by (nonlinear_arith)
                    requires b_i >= 0 && m >= 0;
                assert(outs[i] == b_i * (m as int) / st);
            }
        }
    };
    // the withdrawal itself is accepted
    let zeros = Seq::new(q.assets@.len(), |i: int| 0u128);
    assert(spec_shares_of(q.holders@, provider) >= m);
    assert forall|i: int| 0 <= i < n implies !((#[trigger] outs[i]) < zeros[i]) by {};
    assert(spec_remove_outcome(q, provider, m, zeros) == Ok::<Seq<u128>, Error>(outs));
}

/// If `a < b * s` with `s >= 1` then `a / s < b`.
proof fn lemma_div_lt(a: int, b: int, s: int)
    requires
        0 <= a,
        a < b * s,
        s >= 1,
    ensures
        a / s < b,
{
    vstd::arithmetic::div_mod::lemma_fundamental_div_mod(a, s);
    if a / s >= b {
        assert(s * (a / s) >= s * b) by (nonlinear_arith)
            requires s >= 1 && a / s >= b;
        assert(s * b == b * s) by (nonlinear_arith);
        assert(a % s >= 0);
        assert(false);
    }
}

/// Floor of `r * sh / s` is at most `r` when `sh <= s`, and exactly `r`
/// when `sh == s`.
proof fn lemma_withdraw_bounds(r: int, sh: int, s: int)
    requires
        0 <= r,
        1 <= s,
        0 <= sh <= s,
    ensures
        r * sh / s <= r,
        sh == s ==> r * sh / s == r,
        sh < s && r >= 1 ==> r * sh / s < r,
        r * sh / s >= 0,
{
    assert(r * sh <= r * s) by (nonlinear_arith)
        requires 0 <= r && sh <= s;
    assert(r * sh >= 0) by (nonlinear_arith)
        requires 0 <= r && 0 <= sh;
    vstd::arithmetic::div_mod::lemma_div_is_ordered(r * sh, r * s, s);
    vstd::arithmetic::div_mod::lemma_div_multiples_vanish(r, s);
    assert(r * s == s * r) by (nonlinear_arith);
    assert(r * s / s == r);
    if sh < s && r >= 1 {
        assert(r * sh < r * s) by (nonlinear_arith)
            requires 1 <= r && sh < s;
        lemma_div_lt(r * sh, r, s);
    }
    vstd::arithmetic::div_mod::lemma_div_pos_is_pos(r * sh, s);
}

/// Complete outcome of `swap` on a located, active pool: the output
/// amount, or the specific error, in check order.
pub open spec fn spec_swap_outcome(
    p: Pool,
    asset_in: AssetId,
    amount_in: u128,
    asset_out: AssetId,
    min_out: u128,
) -> Result<u128, Error> {
    if asset_in == asset_out {
        Err(Error::InvalidAssets)
    } else {
        match spec_asset_index(p.assets@, asset_in) {
            None => Err(Error::AssetNotFound),
            Some(ii) => match spec_asset_index(p.assets@, asset_out) {
                None => Err(Error::AssetNotFound),
                Some(oi) => {
                    let r_in = p.assets@[ii].balance as int;
                    let r_out = p.assets@[oi].balance as int;
                    if r_in == 0 || r_out == 0 {
                        Err(Error::InsufficientLiquidity)
                    } else {
                        match math::spec_apply_fee(amount_in as int, p.fee_basis_points as int) {
                            Err(e) => Err(e),
                            Ok(a_net_v) => {
                                let a_net = a_net_v as int;
                                if r_in + amount_in > u128::MAX {
                                    Err(Error::MathOverflow)
                                } else {
                                    spec_swap_price(p, ii, oi, r_in, r_out, a_net, min_out)
                                }
                            }
                        }
                    }
                }
            },
        }
    }
}

/// Pricing step of `spec_swap_outcome`, by pool kind.
pub open spec fn spec_swap_price(
    p: Pool,
    ii: int,
    oi: int,
    r_in: int,
    r_out: int,
    a_net: int,
    min_out: u128,
) -> Result<u128, Error> {
    match p.pool_type {
        PoolType::ConstantProduct => {
            if r_in * r_out > u128::MAX {
                Err(Error::MathOverflow)
            } else {
                let out = spec_cp_out(r_in, r_out, a_net);
                if out < min_out { Err(Error::SlippageTooHigh) } else { Ok(out as u128) }
            }
        }
        PoolType::Weighted => {
            let w_in = p.assets@[ii].weight->0 as int;
            let w_out = p.assets@[oi].weight->0 as int;
            if a_net * w_in > u128::MAX {
                Err(Error::MathOverflow)
            } else if a_net * w_in * r_out > u128::MAX {
                Err(Error::MathOverflow)
            } else if r_in * w_out > u128::MAX {
                Err(Error::MathOverflow)
            } else if r_in * w_out + a_net * w_in > u128::MAX {
                Err(Error::MathOverflow)
            } else {
                let out = spec_weighted_out(r_in, r_out, w_in, w_out, a_net);
                if out < min_out { Err(Error::SlippageTooHigh) } else { Ok(out as u128) }
            }
        }
        PoolType::Stable => {
            if spec_stable_value(r_in + a_net, r_out) > u128::MAX {
                Err(Error::MathOverflow)
            } else {
                let out = spec_stable_out(r_in, r_out, a_net);
                if out < min_out { Err(Error::SlippageTooHigh) } else { Ok(out as u128) }
            }
        }
    }
}

/// How a successful swap reshapes the pool: the incoming reserve grows by
/// the full input (the fee stays in the pool), the outgoing reserve shrinks
/// by the output; shares and holdings are untouched.
pub open spec fn spec_pool_after_swap(
    p: Pool,
    q: Pool,
    ii: int,
    oi: int,
    amount_in: u128,
    out: u128,
) -> bool {
    &&& q.id == p.id
    &&& q.creator == p.creator
    &&& q.pool_type == p.pool_type
    &&& q.fee_basis_points == p.fee_basis_points
    &&& q.state == p.state
    &&& q.created_at == p.created_at
    &&& q.total_shares == p.total_shares
    &&& q.holders@ == p.holders@
    &&& q.assets@ == p.assets@.update(ii, PoolAsset {
            balance: (p.assets@[ii].balance + amount_in) as u128,
            ..p.assets@[ii]
        }).update(oi, PoolAsset {
            balance: (p.assets@[oi].balance - out) as u128,
            ..p.assets@[oi]
        })
}

/// The stable invariant value, computed exactly.
fn stable_value(x: u128, y: u128) -> (v: u128)
    requires
        spec_stable_value(x as int, y as int) <= u128::MAX,
    ensures
        v as int == spec_stable_value(x as int, y as int),
{
    proof {
        assert(x * y >= 0) by (nonlinear_arith);
        assert(STABLE_AMP * (x + y) >= x + y) by (nonlinear_arith)
            requires STABLE_AMP >= 1 && x + y >= 0;
    }
    STABLE_AMP * (x + y) + x * y
}

/// Position of the asset with the given id.
fn find_asset(assets: &Vec<PoolAsset>, asset_id: AssetId) -> (r: Option<usize>)
    requires
        spec_distinct_assets(assets@),
    ensures
        (r is Some <==> spec_asset_index(assets@, asset_id) is Some),
        r is Some ==> r->0 as int == spec_asset_index(assets@, asset_id)->0
            && r->0 < assets@.len() && assets@[r->0 as int].asset_id == asset_id,
{
    let n = assets.len();
    let mut i: usize = 0;
    while i < n
        invariant
            i <= n,
            n == assets@.len(),
            spec_distinct_assets(assets@),
            forall|k: int| 0 <= k < i ==> (#[trigger] assets@[k]).asset_id != asset_id,
        decreases n - i,
    {
        if assets[i].asset_id == asset_id {
            proof {
                let c = choose|k: int| 0 <= k < assets@.len()
                    && (#[trigger] assets@[k]).asset_id == asset_id;
                if c != i as int {
                    assert(assets@[c].asset_id == assets@[i as int].asset_id);
                }
            }
            return Some(i);
        }
        i = i + 1;
    }
    None
}

/// No asset id appears twice among creation descriptors.
pub open spec fn spec_distinct_inits(assets: Seq<AssetInit>) -> bool {
    forall|i: int, j: int| 0 <= i < j < assets.len()
        ==> assets[i].asset_id != assets[j].asset_id
}

/// Sum of creation-descriptor weights.
pub open spec fn spec_sum_init_weights(assets: Seq<AssetInit>) -> int
    decreases assets.len(),
{
    if assets.len() == 0 {
        0
    } else {
        spec_sum_init_weights(assets.drop_last()) + (match assets.last().weight {
            Some(w) => w as int,
            None => 0,
        })
    }
}

/// Creation-descriptor weights all present, positive, summing to the norm.
pub open spec fn spec_init_weights_valid(assets: Seq<AssetInit>) -> bool {
    &&& forall|i: int| 0 <= i < assets.len()
        ==> (#[trigger] assets[i].weight) is Some && assets[i].weight->0 >= 1
    &&& spec_sum_init_weights(assets) == WEIGHT_NORM
}

/// All validations of pool creation pass.
pub open spec fn spec_create_ok(kind: PoolType, assets: Seq<AssetInit>) -> bool {
    &&& 2 <= assets.len() <= MAX_POOL_ASSETS
    &&& spec_distinct_inits(assets)
    &&& (kind is Weighted ==> spec_init_weights_valid(assets))
}

/// Shape of a freshly created pool: the supplied descriptors with zero
/// reserves, active, no shares, stamped with caller and height.
pub open spec fn spec_new_pool_shape(
    p: Pool,
    id: u64,
    kind: PoolType,
    inits: Seq<AssetInit>,
    fee_bp: u16,
    ctx: ExecContext,
) -> bool {
    &&& p.id == id
    &&& p.creator == ctx.caller
    &&& p.pool_type == kind
    &&& p.fee_basis_points == fee_bp
    &&& p.total_shares == 0
    &&& p.holders@.len() == 0
    &&& p.state is Active
    &&& p.created_at == ctx.height
    &&& p.assets@.len() == inits.len()
    &&& forall|i: int| 0 <= i < inits.len() ==> #[trigger] p.assets@[i] == (PoolAsset {
            asset_id: inits[i].asset_id,
            balance: 0u128,
            weight: inits[i].weight,
            origin_ledger_id: inits[i].origin_ledger_id,
        })
}

/// Weight validity carries from creation descriptors to the pool assets
/// built from them.
proof fn lemma_init_weights_carry(inits: Seq<AssetInit>, assets: Seq<PoolAsset>)
    requires
        assets.len() == inits.len(),
        forall|i: int| 0 <= i < inits.len() ==> (#[trigger] assets[i]).weight == inits[i].weight,
        spec_init_weights_valid(inits),
    ensures
        spec_weights_valid(assets),
    decreases inits.len(),
{
    lemma_weights_sum_carry(inits, assets);
}

/// The two weight sums agree elementwise, hence in total.
proof fn lemma_weights_sum_carry(inits: Seq<AssetInit>, assets: Seq<PoolAsset>)
    requires
        assets.len() == inits.len(),
        forall|i: int| 0 <= i < inits.len() ==> (#[trigger] assets[i]).weight == inits[i].weight,
    ensures
        spec_sum_weights(assets) == spec_sum_init_weights(inits),
    decreases inits.len(),
{
    if inits.len() > 0 {
        lemma_weights_sum_carry(inits.drop_last(), assets.drop_last());
    }
}

} // verus!
