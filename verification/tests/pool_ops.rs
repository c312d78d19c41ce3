use liquidity_core::pool::{AssetInit, Pool, PoolEvent, PoolLedger, PoolState, PoolType};
use liquidity_core::{Error, ExecContext, TokenType};

fn ctx(caller: u64, height: u64) -> ExecContext {
    ExecContext { caller, height }
}

fn asset(id: u64) -> AssetInit {
    AssetInit { asset_id: id, weight: None, origin_ledger_id: 0 }
}

fn weighted_asset(id: u64, w: u32) -> AssetInit {
    AssetInit { asset_id: id, weight: Some(w), origin_ledger_id: 0 }
}

fn two_asset_pool(ledger: &mut PoolLedger, kind: PoolType, fee_bp: u16) -> u64 {
    let assets = match kind {
        PoolType::Weighted => vec![weighted_asset(1, 5000), weighted_asset(2, 5000)],
        _ => vec![asset(1), asset(2)],
    };
    ledger.create_pool(kind, &assets, fee_bp, ctx(7, 1)).unwrap()
}

#[test]
fn create_pool_assigns_fresh_ids() {
    let mut l = PoolLedger::new();
    let a = two_asset_pool(&mut l, PoolType::ConstantProduct, 30);
    let b = two_asset_pool(&mut l, PoolType::ConstantProduct, 30);
    assert_eq!(a, 0);
    assert_eq!(b, 1);
    assert_eq!(l.pools.len(), 2);
    assert!(matches!(l.pools[0].state, PoolState::Active));
    assert_eq!(l.pools[0].total_shares, 0);
    assert_eq!(l.events[0], PoolEvent::PoolCreated { pool_id: 0, creator: 7 });
}

#[test]
fn create_pool_rejects_single_asset() {
    let mut l = PoolLedger::new();
    let r = l.create_pool(PoolType::ConstantProduct, &vec![asset(1)], 30, ctx(7, 1));
    assert_eq!(r, Err(Error::InvalidAssets));
}

#[test]
fn create_pool_rejects_duplicate_assets() {
    let mut l = PoolLedger::new();
    let r = l.create_pool(PoolType::ConstantProduct, &vec![asset(1), asset(1)], 30, ctx(7, 1));
    assert_eq!(r, Err(Error::InvalidAssets));
}

#[test]
fn create_pool_rejects_too_many_assets() {
    let mut l = PoolLedger::new();
    let many: Vec<AssetInit> = (0..9).map(asset).collect();
    let r = l.create_pool(PoolType::ConstantProduct, &many, 30, ctx(7, 1));
    assert_eq!(r, Err(Error::TooManyAssets));
}

#[test]
fn create_pool_rejects_bad_weights() {
    let mut l = PoolLedger::new();
    let r = l.create_pool(
        PoolType::Weighted,
        &vec![weighted_asset(1, 5000), weighted_asset(2, 4000)],
        30,
        ctx(7, 1),
    );
    assert_eq!(r, Err(Error::InvalidWeights));
    let r = l.create_pool(PoolType::Weighted, &vec![weighted_asset(1, 10000), asset(2)], 30,
        ctx(7, 1));
    assert_eq!(r, Err(Error::InvalidWeights));
}

#[test]
fn first_deposit_mints_geometric_mean() {
    let mut l = PoolLedger::new();
    let id = two_asset_pool(&mut l, PoolType::ConstantProduct, 30);
    let minted = l.add_liquidity(id, &vec![1000, 1000], 0, ctx(7, 2)).unwrap();
    assert_eq!(minted, 1000);
    assert_eq!(l.pools[0].assets[0].balance, 1000);
    assert_eq!(l.pools[0].assets[1].balance, 1000);
    assert_eq!(l.pools[0].total_shares, 1000);
    // an uneven first deposit still mints the geometric mean
    let id2 = two_asset_pool(&mut l, PoolType::ConstantProduct, 30);
    let minted2 = l.add_liquidity(id2, &vec![1000, 2000], 0, ctx(7, 2)).unwrap();
    assert_eq!(minted2, 1414);
}

#[test]
fn second_depositor_mints_proportionally() {
    // two deposits with identical ratios: the second (half the size) mints
    // exactly half the first's shares
    let mut l = PoolLedger::new();
    let id = two_asset_pool(&mut l, PoolType::ConstantProduct, 30);
    let first = l.add_liquidity(id, &vec![100, 100], 0, ctx(7, 2)).unwrap();
    let second = l.add_liquidity(id, &vec![50, 50], 0, ctx(8, 3)).unwrap();
    assert_eq!(first, 100);
    assert_eq!(second, 50);
    assert_eq!(second * 2, first);
    assert_eq!(l.pools[0].total_shares, 150);
}

#[test]
fn unbalanced_deposit_mints_worst_ratio() {
    let mut l = PoolLedger::new();
    let id = two_asset_pool(&mut l, PoolType::ConstantProduct, 30);
    l.add_liquidity(id, &vec![1000, 1000], 0, ctx(7, 2)).unwrap();
    // 100 of one asset but only 10 of the other: minted by the 1% ratio
    let minted = l.add_liquidity(id, &vec![100, 10], 0, ctx(8, 3)).unwrap();
    assert_eq!(minted, 10);
}

#[test]
fn add_liquidity_errors() {
    let mut l = PoolLedger::new();
    let id = two_asset_pool(&mut l, PoolType::ConstantProduct, 30);
    assert_eq!(l.add_liquidity(99, &vec![1, 1], 0, ctx(7, 2)), Err(Error::PoolNotFound));
    assert_eq!(l.add_liquidity(id, &vec![1], 0, ctx(7, 2)), Err(Error::InvalidAssets));
    assert_eq!(
        l.add_liquidity(id, &vec![0, 5], 0, ctx(7, 2)),
        Err(Error::InsufficientLiquidity)
    );
    assert_eq!(l.add_liquidity(id, &vec![100, 100], 101, ctx(7, 2)),
        Err(Error::SlippageTooHigh));
    assert_eq!(
        l.add_liquidity(id, &vec![u128::MAX, u128::MAX], 0, ctx(7, 2)),
        Err(Error::MathOverflow)
    );
    // nothing applied on any failure
    assert_eq!(l.pools[0].total_shares, 0);
    assert_eq!(l.pools[0].assets[0].balance, 0);
}

#[test]
fn paused_pool_refuses_operations() {
    let mut l = PoolLedger::new();
    let id = two_asset_pool(&mut l, PoolType::ConstantProduct, 30);
    l.pools[0].state = PoolState::Paused;
    assert_eq!(l.add_liquidity(id, &vec![1, 1], 0, ctx(7, 2)), Err(Error::PoolNotActive));
    assert_eq!(l.remove_liquidity(id, 0, &vec![0, 0], ctx(7, 2)), Err(Error::PoolNotActive));
    assert_eq!(l.swap(id, 1, 10, 2, 0, ctx(7, 2)), Err(Error::PoolNotActive));
}

#[test]
fn remove_liquidity_round_trip() {
    let mut l = PoolLedger::new();
    let id = two_asset_pool(&mut l, PoolType::ConstantProduct, 30);
    l.add_liquidity(id, &vec![1000, 2000], 0, ctx(7, 2)).unwrap();
    let minted = l.add_liquidity(id, &vec![100, 200], 0, ctx(8, 3)).unwrap();
    assert_eq!(minted, 141);
    let outs = l.remove_liquidity(id, minted, &vec![0, 0], ctx(8, 4)).unwrap();
    // rounding loss is bounded by the deposit, and the pool never pays more
    assert_eq!(outs, vec![99, 199]);
    assert!(outs[0] <= 100 && outs[1] <= 200);
    // the share total returns exactly to its prior value
    assert_eq!(l.pools[0].total_shares, 1414);
    assert!(l.pools[0].assets[0].balance >= 1000);
    assert!(l.pools[0].assets[1].balance >= 2000);
}

#[test]
fn full_withdrawal_empties_pool() {
    let mut l = PoolLedger::new();
    let id = two_asset_pool(&mut l, PoolType::ConstantProduct, 30);
    let minted = l.add_liquidity(id, &vec![1000, 2000], 0, ctx(7, 2)).unwrap();
    let outs = l.remove_liquidity(id, minted, &vec![0, 0], ctx(7, 3)).unwrap();
    assert_eq!(outs, vec![1000, 2000]);
    assert_eq!(l.pools[0].total_shares, 0);
    assert_eq!(l.pools[0].assets[0].balance, 0);
    assert_eq!(l.pools[0].assets[1].balance, 0);
}

#[test]
fn remove_liquidity_errors() {
    let mut l = PoolLedger::new();
    let id = two_asset_pool(&mut l, PoolType::ConstantProduct, 30);
    l.add_liquidity(id, &vec![1000, 1000], 0, ctx(7, 2)).unwrap();
    assert_eq!(
        l.remove_liquidity(id, 1001, &vec![0, 0], ctx(7, 3)),
        Err(Error::InsufficientLiquidity)
    );
    // another caller holds nothing
    assert_eq!(
        l.remove_liquidity(id, 1, &vec![0, 0], ctx(8, 3)),
        Err(Error::InsufficientLiquidity)
    );
    assert_eq!(
        l.remove_liquidity(id, 500, &vec![501, 0], ctx(7, 3)),
        Err(Error::SlippageTooHigh)
    );
    assert_eq!(l.pools[0].total_shares, 1000);
}

#[test]
fn constant_product_swap_matches_formula() {
    // pool 1000/1000, fee 30bp, swap 100 in: net input 99.7 -> 99, the
    // real-valued output is about 90.66, integer pricing pays 90
    let mut l = PoolLedger::new();
    let id = two_asset_pool(&mut l, PoolType::ConstantProduct, 30);
    l.add_liquidity(id, &vec![1000, 1000], 0, ctx(7, 2)).unwrap();
    let out = l.swap(id, 1, 100, 2, 0, ctx(9, 3)).unwrap();
    assert_eq!(out, 90);
    assert_eq!(l.pools[0].assets[0].balance, 1100);
    assert_eq!(l.pools[0].assets[1].balance, 910);
    // the product of reserves strictly grew (fee > 0)
    assert!(1100u128 * 910 > 1000u128 * 1000);
    assert_eq!(
        *l.events.last().unwrap(),
        PoolEvent::SwapExecuted {
            pool_id: id,
            caller: 9,
            asset_in: 1,
            asset_out: 2,
            amount_in: 100,
            amount_out: 90,
        }
    );
}

#[test]
fn zero_fee_swap_keeps_product() {
    let mut l = PoolLedger::new();
    let id = two_asset_pool(&mut l, PoolType::ConstantProduct, 0);
    l.add_liquidity(id, &vec![1000, 1000], 0, ctx(7, 2)).unwrap();
    let out = l.swap(id, 1, 100, 2, 0, ctx(9, 3)).unwrap();
    // net input is the full 100: out = 1000 - ceil(1000000 / 1100) = 90
    assert_eq!(out, 90);
    let new_product = l.pools[0].assets[0].balance * l.pools[0].assets[1].balance;
    assert!(new_product >= 1000 * 1000);
}

#[test]
fn weighted_swap_matches_formula() {
    let mut l = PoolLedger::new();
    let id = two_asset_pool(&mut l, PoolType::Weighted, 0);
    l.add_liquidity(id, &vec![1000, 1000], 0, ctx(7, 2)).unwrap();
    // out = 100 * 5000 * 1000 / (1000 * 5000 + 100 * 5000) = 90
    let out = l.swap(id, 1, 100, 2, 0, ctx(9, 3)).unwrap();
    assert_eq!(out, 90);
}

#[test]
fn stable_swap_has_lower_slippage() {
    let mut l = PoolLedger::new();
    let id = two_asset_pool(&mut l, PoolType::Stable, 0);
    l.add_liquidity(id, &vec![1000, 1000], 0, ctx(7, 2)).unwrap();
    // largest out with 100*(1100 + 1000-out) + 1100*(1000-out) >= 1200000,
    // which is out <= 91
    let out = l.swap(id, 1, 100, 2, 0, ctx(9, 3)).unwrap();
    assert_eq!(out, 91);
    // the stable curve pays more than the constant-product curve would (90)
    assert!(out > 90);
}

#[test]
fn swap_errors() {
    let mut l = PoolLedger::new();
    let id = two_asset_pool(&mut l, PoolType::ConstantProduct, 30);
    assert_eq!(l.swap(99, 1, 10, 2, 0, ctx(9, 3)), Err(Error::PoolNotFound));
    assert_eq!(l.swap(id, 1, 10, 1, 0, ctx(9, 3)), Err(Error::InvalidAssets));
    assert_eq!(l.swap(id, 1, 10, 5, 0, ctx(9, 3)), Err(Error::AssetNotFound));
    assert_eq!(l.swap(id, 5, 10, 2, 0, ctx(9, 3)), Err(Error::AssetNotFound));
    // no reserves yet
    assert_eq!(l.swap(id, 1, 10, 2, 0, ctx(9, 3)), Err(Error::InsufficientLiquidity));
    l.add_liquidity(id, &vec![1000, 1000], 0, ctx(7, 2)).unwrap();
    assert_eq!(l.swap(id, 1, 100, 2, 91, ctx(9, 3)), Err(Error::SlippageTooHigh));
    // nothing applied on any failure
    assert_eq!(l.pools[0].assets[0].balance, 1000);
    assert_eq!(l.pools[0].assets[1].balance, 1000);
}

#[test]
fn token_type_asset_ids() {
    assert_eq!(TokenType::NRSH.asset_id(), 1);
    assert_eq!(TokenType::ELXR.asset_id(), 2);
    assert_eq!(TokenType::IMRT.asset_id(), 3);
    let mut l = PoolLedger::new();
    let id = l
        .create_pool(
            PoolType::ConstantProduct,
            &vec![asset(TokenType::NRSH.asset_id()), asset(TokenType::ELXR.asset_id())],
            30,
            ctx(7, 1),
        )
        .unwrap();
    l.add_liquidity(id, &vec![500, 500], 0, ctx(7, 2)).unwrap();
    let out = l
        .swap(id, TokenType::NRSH.asset_id(), 50, TokenType::ELXR.asset_id(), 0, ctx(7, 3))
        .unwrap();
    assert!(out > 0 && out < 50);
}

#[test]
fn three_asset_pool_first_deposit_mints_minimum() {
    let mut l = PoolLedger::new();
    let id = l
        .create_pool(PoolType::ConstantProduct, &vec![asset(1), asset(2), asset(3)], 30,
            ctx(7, 1))
        .unwrap();
    let minted = l.add_liquidity(id, &vec![300, 200, 400], 0, ctx(7, 2)).unwrap();
    assert_eq!(minted, 200);
}
