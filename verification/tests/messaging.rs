use liquidity_core::codec::{
    apply_error_correction, correct_errors, correct_interface_errors, correct_quantum_errors,
    verify_and_correct, CodecKind,
};
use liquidity_core::math::{apply_fee, div_ceil, isqrt, mul_checked};
use liquidity_core::messenger::{CrossChainMessenger, XcmMessageType};
use liquidity_core::ops::{
    decode_liquidity_operation, encode_liquidity_operation, AssetAmount, LiquidityOperation,
};
use liquidity_core::Error;

#[test]
fn codec_round_trip_all_variants() {
    let payload = vec![0u8, 1, 2, 250, 255];
    for kind in [CodecKind::Classical, CodecKind::Bridge, CodecKind::Quantum] {
        let encoded = apply_error_correction(kind, &payload).unwrap();
        assert_eq!(verify_and_correct(&encoded), Ok(payload.clone()));
    }
    let empty: Vec<u8> = vec![];
    let encoded = apply_error_correction(CodecKind::Classical, &empty).unwrap();
    assert_eq!(verify_and_correct(&encoded), Ok(empty));
}

#[test]
fn codec_encoding_is_deterministic() {
    let payload = vec![9u8, 8, 7];
    let a = apply_error_correction(CodecKind::Quantum, &payload).unwrap();
    let b = apply_error_correction(CodecKind::Quantum, &payload).unwrap();
    assert_eq!(a, b);
    // tag, four length bytes, then five copies of the payload
    assert_eq!(a.len(), 5 + 5 * 3);
    assert_eq!(a[0], 3);
    assert_eq!(&a[1..5], &[3, 0, 0, 0]);
}

#[test]
fn classical_codec_corrects_one_corrupted_copy() {
    let payload = vec![10u8, 20, 30];
    let mut encoded = apply_error_correction(CodecKind::Classical, &payload).unwrap();
    // corrupt one copy of each byte position: majority still recovers
    encoded[5] = 99;
    encoded[9] = 99;
    assert_eq!(verify_and_correct(&encoded), Ok(payload));
}

#[test]
fn quantum_codec_corrects_two_corrupted_copies() {
    let payload = vec![42u8];
    let mut encoded = apply_error_correction(CodecKind::Quantum, &payload).unwrap();
    encoded[5] = 1;
    encoded[6] = 2;
    assert_eq!(verify_and_correct(&encoded), Ok(payload));
}

#[test]
fn codec_rejects_unrecoverable_frames() {
    // too short
    assert_eq!(verify_and_correct(&vec![1, 0, 0]), Err(Error::UncorrectableError));
    // unknown tag
    assert_eq!(verify_and_correct(&vec![9, 1, 0, 0, 0, 5, 5, 5]), Err(Error::UncorrectableError));
    // body length disagrees with the header
    assert_eq!(verify_and_correct(&vec![1, 1, 0, 0, 0, 5, 5]), Err(Error::UncorrectableError));
    // three distinct copies: no strict majority
    assert_eq!(
        verify_and_correct(&vec![1, 1, 0, 0, 0, 7, 8, 9]),
        Err(Error::UncorrectableError)
    );
}

#[test]
fn send_assigns_strictly_increasing_sequences_per_destination() {
    let mut m = CrossChainMessenger::new(1);
    let payload = vec![1u8, 2, 3];
    let a = m.send_xcm_message(2, XcmMessageType::AssetTransfer, &payload,
        CodecKind::Classical).unwrap();
    let b = m.send_xcm_message(2, XcmMessageType::PriceUpdate, &payload,
        CodecKind::Classical).unwrap();
    let c = m.send_xcm_message(3, XcmMessageType::AssetTransfer, &payload,
        CodecKind::Quantum).unwrap();
    assert_eq!(a.sequence, 0);
    assert_eq!(b.sequence, 1);
    assert_eq!(c.sequence, 0);
    assert_eq!(a.source_ledger_id, 1);
    assert_eq!(a.destination_ledger_id, 2);
    assert!(matches!(b.kind, XcmMessageType::PriceUpdate));
}

#[test]
fn receive_decodes_and_dispatches_once() {
    let mut sender = CrossChainMessenger::new(1);
    let mut receiver = CrossChainMessenger::new(2);
    let payload = vec![5u8, 6, 7];
    let msg = sender.send_xcm_message(2, XcmMessageType::LiquidityOperation, &payload,
        CodecKind::Classical).unwrap();
    let first = receiver
        .process_xcm_message(1, msg.kind, &msg.encoded_payload, msg.sequence)
        .unwrap();
    let (kind, decoded) = first.unwrap();
    assert!(matches!(kind, XcmMessageType::LiquidityOperation));
    assert_eq!(decoded, payload);
    // the same delivery again is an idempotent no-op
    let second = receiver
        .process_xcm_message(1, msg.kind, &msg.encoded_payload, msg.sequence)
        .unwrap();
    assert_eq!(second, None);
    // the same sequence number from another source is independent
    let third = receiver
        .process_xcm_message(3, msg.kind, &msg.encoded_payload, msg.sequence)
        .unwrap();
    assert!(third.is_some());
}

#[test]
fn uncorrectable_delivery_is_not_recorded() {
    let mut receiver = CrossChainMessenger::new(2);
    let garbage = vec![1u8, 1, 0, 0, 0, 7, 8, 9];
    assert_eq!(
        receiver.process_xcm_message(1, XcmMessageType::AssetTransfer, &garbage, 4),
        Err(Error::UncorrectableError)
    );
    // the sequence number stays unused, so a redelivery still dispatches
    let good = apply_error_correction(CodecKind::Classical, &vec![7u8]).unwrap();
    let r = receiver
        .process_xcm_message(1, XcmMessageType::AssetTransfer, &good, 4)
        .unwrap();
    assert!(r.is_some());
}

#[test]
fn checked_math_building_blocks() {
    assert_eq!(isqrt(0), 0);
    assert_eq!(isqrt(1), 1);
    assert_eq!(isqrt(999999), 999);
    assert_eq!(isqrt(1000000), 1000);
    assert_eq!(div_ceil(9, 3), 3);
    assert_eq!(div_ceil(10, 3), 4);
    assert_eq!(apply_fee(100, 30), Ok(99));
    assert_eq!(apply_fee(100, 0), Ok(100));
    assert_eq!(apply_fee(0, 9999), Ok(0));
    assert_eq!(mul_checked(u128::MAX, 2), Err(Error::MathOverflow));
    assert_eq!(mul_checked(1 << 64, 1 << 63), Ok(1 << 127));
}

fn sample_add_op() -> LiquidityOperation {
    LiquidityOperation::AddLiquidity {
        provider: 7,
        pool_id: 3,
        target_ledger_id: 9,
        min_shares: 12345678901234567890,
        operation_id: 77,
        expiration: 500,
        assets: vec![
            AssetAmount { asset_id: 1, amount: 1000 },
            AssetAmount { asset_id: 2, amount: u128::MAX },
        ],
    }
}

#[test]
fn operation_codec_round_trips() {
    let ops = vec![
        sample_add_op(),
        LiquidityOperation::RemoveLiquidity {
            provider: 8,
            pool_id: 4,
            target_ledger_id: 2,
            shares: 55,
            operation_id: 78,
            expiration: 600,
            min_assets: vec![],
        },
        LiquidityOperation::ExecuteSwap {
            initiator: 9,
            source_asset: 1,
            target_asset: 3,
            amount: 10,
            min_receive: 9,
            operation_id: 79,
            expiration: 700,
            path: vec![1, 2, 3],
        },
    ];
    for op in ops {
        let bytes = encode_liquidity_operation(&op);
        assert_eq!(decode_liquidity_operation(&bytes), Ok(op));
    }
}

#[test]
fn operation_decoder_rejects_damage() {
    // empty, unknown tag, truncated, and a length field that disagrees
    assert_eq!(decode_liquidity_operation(&vec![]), Err(Error::UncorrectableError));
    assert_eq!(decode_liquidity_operation(&vec![9; 100]), Err(Error::UncorrectableError));
    let mut bytes = encode_liquidity_operation(&sample_add_op());
    bytes.pop();
    assert_eq!(decode_liquidity_operation(&bytes), Err(Error::UncorrectableError));
    let mut bytes = encode_liquidity_operation(&sample_add_op());
    bytes[57] = bytes[57].wrapping_add(1);
    assert_eq!(decode_liquidity_operation(&bytes), Err(Error::UncorrectableError));
}

#[test]
fn send_liquidity_operation_frames_and_sequences() {
    let mut sender = CrossChainMessenger::new(1);
    let mut receiver = CrossChainMessenger::new(9);
    let op = sample_add_op();
    let msg = sender.send_liquidity_operation(9, &op, CodecKind::Classical).unwrap();
    assert_eq!(msg.sequence, 0);
    assert!(matches!(msg.kind, XcmMessageType::LiquidityOperation));
    let delivered = receiver
        .process_xcm_message(1, msg.kind, &msg.encoded_payload, msg.sequence)
        .unwrap();
    let (_, payload) = delivered.unwrap();
    assert_eq!(decode_liquidity_operation(&payload), Ok(op));
}

#[test]
fn per_variant_correction_checks_the_tag() {
    let payload = vec![4u8, 5];
    let classical = apply_error_correction(CodecKind::Classical, &payload).unwrap();
    let bridge = apply_error_correction(CodecKind::Bridge, &payload).unwrap();
    let quantum = apply_error_correction(CodecKind::Quantum, &payload).unwrap();
    assert_eq!(correct_errors(&classical), Ok(payload.clone()));
    assert_eq!(correct_interface_errors(&bridge), Ok(payload.clone()));
    assert_eq!(correct_quantum_errors(&quantum), Ok(payload.clone()));
    // a frame of another variant is rejected, not misread
    assert_eq!(correct_errors(&bridge), Err(Error::UncorrectableError));
    assert_eq!(correct_interface_errors(&quantum), Err(Error::UncorrectableError));
    assert_eq!(correct_quantum_errors(&classical), Err(Error::UncorrectableError));
}
