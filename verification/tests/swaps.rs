use liquidity_core::atomic_swap::{derive_swap_id, SwapCoordinator, SwapParams, SwapStatus};
use liquidity_core::swap_lock::{generate_swap_secret, quantum_resistant_hash, verify_swap_secret};
use liquidity_core::{Error, ExecContext};

fn ctx(caller: u64, height: u64) -> ExecContext {
    ExecContext { caller, height }
}

fn params(nonce: u64) -> SwapParams {
    SwapParams {
        counterparty: 20,
        source_asset: 1,
        target_asset: 2,
        source_amount: 50,
        target_amount: 60,
        source_ledger_id: 100,
        target_ledger_id: 200,
        nonce,
    }
}

fn secret_and_lock() -> (Vec<u8>, Vec<u8>) {
    generate_swap_secret(&b"shared entropy".to_vec())
}

#[test]
fn hash_is_deterministic_and_input_sensitive() {
    let a = quantum_resistant_hash(&vec![1, 2, 3]);
    let b = quantum_resistant_hash(&vec![1, 2, 3]);
    let c = quantum_resistant_hash(&vec![1, 2, 4]);
    assert_eq!(a.len(), 64);
    assert_eq!(a, b);
    assert_ne!(a, c);
}

#[test]
fn secret_verification_is_exact() {
    let (secret, lock) = secret_and_lock();
    assert_eq!(secret.len(), 32);
    assert_eq!(lock.len(), 64);
    assert!(verify_swap_secret(&secret, &lock));
    let mut wrong = secret.clone();
    wrong[0] = wrong[0].wrapping_add(1);
    assert!(!verify_swap_secret(&wrong, &lock));
    assert!(!verify_swap_secret(&vec![], &lock));
}

#[test]
fn swap_ids_are_content_derived() {
    assert_eq!(derive_swap_id(10, params(1)), derive_swap_id(10, params(1)));
    assert_ne!(derive_swap_id(10, params(1)), derive_swap_id(10, params(2)));
    assert_ne!(derive_swap_id(10, params(1)), derive_swap_id(11, params(1)));
}

#[test]
fn initiate_escrows_source_amount() {
    let mut c = SwapCoordinator::new();
    let (_, lock) = secret_and_lock();
    let id = c.initiate_swap(params(1), &lock, 100, ctx(10, 5)).unwrap();
    assert_eq!(id, derive_swap_id(10, params(1)));
    assert_eq!(c.swaps.len(), 1);
    assert!(matches!(c.swaps[0].status, SwapStatus::Pending));
    assert_eq!(c.swaps[0].escrowed, 50);
    assert_eq!(c.swaps[0].initiator, 10);
    assert_eq!(c.swaps[0].expires_at, 100);
}

#[test]
fn initiate_rejects_past_expiry_and_duplicates() {
    let mut c = SwapCoordinator::new();
    let (_, lock) = secret_and_lock();
    assert_eq!(c.initiate_swap(params(1), &lock, 5, ctx(10, 5)), Err(Error::SwapExpired));
    c.initiate_swap(params(1), &lock, 100, ctx(10, 5)).unwrap();
    assert_eq!(
        c.initiate_swap(params(1), &lock, 100, ctx(10, 6)),
        Err(Error::DuplicateSwap)
    );
    assert_eq!(c.swaps.len(), 1);
}

#[test]
fn participate_escrows_both_legs() {
    let mut c = SwapCoordinator::new();
    let (_, lock) = secret_and_lock();
    let id = c.initiate_swap(params(1), &lock, 100, ctx(10, 5)).unwrap();
    assert_eq!(c.participate_swap(99, ctx(20, 6)), Err(Error::SwapNotFound));
    assert_eq!(c.participate_swap(id, ctx(21, 6)), Err(Error::Unauthorized));
    c.participate_swap(id, ctx(20, 6)).unwrap();
    assert!(matches!(c.swaps[0].status, SwapStatus::InProgress));
    assert_eq!(c.swaps[0].escrowed, 110);
    // a second join is refused: the swap is no longer pending
    assert_eq!(c.participate_swap(id, ctx(20, 7)), Err(Error::SwapAlreadyResolved));
}

#[test]
fn participate_rejects_expired_swap() {
    let mut c = SwapCoordinator::new();
    let (_, lock) = secret_and_lock();
    let id = c.initiate_swap(params(1), &lock, 100, ctx(10, 5)).unwrap();
    assert_eq!(c.participate_swap(id, ctx(20, 101)), Err(Error::SwapExpired));
}

#[test]
fn claim_succeeds_only_with_correct_secret() {
    let mut c = SwapCoordinator::new();
    let (secret, lock) = secret_and_lock();
    let id = c.initiate_swap(params(1), &lock, 100, ctx(10, 5)).unwrap();
    c.participate_swap(id, ctx(20, 6)).unwrap();
    let mut wrong = secret.clone();
    wrong[5] = wrong[5].wrapping_add(1);
    // a wrong secret fails and changes nothing
    assert_eq!(c.claim_swap(id, &wrong, ctx(20, 7)), Err(Error::InvalidSecret));
    assert!(matches!(c.swaps[0].status, SwapStatus::InProgress));
    assert_eq!(c.swaps[0].escrowed, 110);
    // the correct secret releases the whole escrow
    assert_eq!(c.claim_swap(id, &secret, ctx(20, 8)), Ok(110));
    assert!(matches!(c.swaps[0].status, SwapStatus::Completed));
    assert_eq!(c.swaps[0].escrowed, 0);
}

#[test]
fn claim_never_succeeds_twice() {
    let mut c = SwapCoordinator::new();
    let (secret, lock) = secret_and_lock();
    let id = c.initiate_swap(params(1), &lock, 100, ctx(10, 5)).unwrap();
    assert_eq!(c.claim_swap(id, &secret, ctx(20, 6)), Ok(50));
    assert_eq!(c.claim_swap(id, &secret, ctx(20, 7)), Err(Error::SwapAlreadyResolved));
}

#[test]
fn expired_swap_refunds_not_claims() {
    // initiated with amount 50 and expiry height 100: at height 101 the
    // claim fails and the refund returns the escrow, exactly once
    let mut c = SwapCoordinator::new();
    let (secret, lock) = secret_and_lock();
    let id = c.initiate_swap(params(1), &lock, 100, ctx(10, 5)).unwrap();
    assert_eq!(c.claim_swap(id, &secret, ctx(20, 101)), Err(Error::SwapExpired));
    assert_eq!(c.refund_swap(id, ctx(10, 101)), Ok(50));
    assert!(matches!(c.swaps[0].status, SwapStatus::Expired));
    assert_eq!(c.refund_swap(id, ctx(10, 102)), Err(Error::SwapAlreadyResolved));
    // after the refund even a correct secret is refused
    assert_eq!(c.claim_swap(id, &secret, ctx(20, 102)), Err(Error::SwapAlreadyResolved));
}

#[test]
fn refund_never_succeeds_before_expiry() {
    let mut c = SwapCoordinator::new();
    let (_, lock) = secret_and_lock();
    let id = c.initiate_swap(params(1), &lock, 100, ctx(10, 5)).unwrap();
    assert_eq!(c.refund_swap(id, ctx(10, 99)), Err(Error::SwapNotExpired));
    assert_eq!(c.refund_swap(id, ctx(10, 100)), Err(Error::SwapNotExpired));
    assert_eq!(c.refund_swap(99, ctx(10, 101)), Err(Error::SwapNotFound));
    assert!(matches!(c.swaps[0].status, SwapStatus::Pending));
}

#[test]
fn cancel_is_initiator_only_and_pending_only() {
    let mut c = SwapCoordinator::new();
    let (_, lock) = secret_and_lock();
    let id = c.initiate_swap(params(1), &lock, 100, ctx(10, 5)).unwrap();
    assert_eq!(c.cancel_swap(id, ctx(20, 6)), Err(Error::Unauthorized));
    assert_eq!(c.cancel_swap(id, ctx(10, 6)), Ok(50));
    assert!(matches!(c.swaps[0].status, SwapStatus::Canceled));
    assert_eq!(c.cancel_swap(id, ctx(10, 7)), Err(Error::SwapAlreadyResolved));
}

#[test]
fn cancel_refused_after_participation() {
    let mut c = SwapCoordinator::new();
    let (_, lock) = secret_and_lock();
    let id = c.initiate_swap(params(1), &lock, 100, ctx(10, 5)).unwrap();
    c.participate_swap(id, ctx(20, 6)).unwrap();
    assert_eq!(c.cancel_swap(id, ctx(10, 7)), Err(Error::SwapAlreadyResolved));
}
