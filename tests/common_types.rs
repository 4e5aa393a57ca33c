use dan_consensus::commit_result::{
    ExecuteResult, FeeReceipt, RejectReason, SubstateDiff, TransactionResult,
};
use dan_consensus::substate::VersionedSubstateId;
use dan_consensus::types::{ObjectClaim, PayloadId, ShardId};

#[test]
fn shard_id_bytes() {
    let s = ShardId::new([3u8; 32]);
    assert_eq!(s.as_bytes(), &[3u8; 32][..]);
    assert_eq!(s.to_le_bytes(), &[3u8; 32][..]);
    assert_eq!(ShardId::from_bytes(&[3u8; 32]).unwrap(), s);
    assert_eq!(ShardId::from_bytes(&[1u8; 31]).unwrap_err().actual, 31);
    assert_eq!(ShardId::zero().0, [0u8; 32]);
    assert_eq!(ShardId::from([3u8; 32]), s);
    assert!(ShardId::zero() < s);
}

#[test]
fn payload_id_bytes() {
    let p = PayloadId::new([9u8; 32]);
    assert_eq!(p.as_slice(), &[9u8; 32][..]);
    assert_eq!(p.into_array(), [9u8; 32]);
    assert_eq!(PayloadId::zero().into_array(), [0u8; 32]);
    assert!(ObjectClaim {}.is_valid(p));
}

fn diff_with(id: u8) -> SubstateDiff {
    SubstateDiff {
        up_substates: vec![(VersionedSubstateId { substate_id: [id; 32], version: 0 }, vec![id])],
        down_substates: vec![],
    }
}

#[test]
fn transaction_result_accessors() {
    let accepted = TransactionResult::Accept(diff_with(1));
    assert!(accepted.is_accept());
    assert!(!accepted.is_reject());
    assert_eq!(accepted.accept().unwrap(), &diff_with(1));
    assert!(accepted.reject().is_none());
    assert_eq!(accepted.expect("accepted"), diff_with(1));
    let rejected = TransactionResult::Reject(RejectReason::PreviousQcRejection);
    assert!(rejected.is_reject());
    assert_eq!(rejected.reject(), Some(&RejectReason::PreviousQcRejection));
    assert!(rejected.accept().is_none());
}

#[test]
fn fee_only_commit_when_body_fails() {
    let receipt = FeeReceipt { total_fee_payment: 100, total_fees_charged: 100 };
    let r = ExecuteResult::finalize_with_fees(
        [1u8; 32],
        Ok(diff_with(7)),
        Err(RejectReason::ExecutionFailure("boom".to_string())),
        receipt,
    );
    assert_eq!(r.expect_finalization_success(), &diff_with(7));
    assert_eq!(r.expect_transaction_failure(), &RejectReason::ExecutionFailure("boom".to_string()));
    assert!(r.expect_fees_paid_in_full().is_paid_in_full());
    assert!(r.finalize.is_accept());
}

#[test]
fn fee_failure_rejects() {
    let receipt = FeeReceipt { total_fee_payment: 1, total_fees_charged: 100 };
    let r = ExecuteResult::finalize_with_fees([1u8; 32], Err(RejectReason::FeeTransactionFailed), Ok(diff_with(2)), receipt);
    assert_eq!(r.expect_failure(), &RejectReason::FeeTransactionFailed);
    assert!(r.transaction_failure.is_none());
    assert!(!receipt.is_paid_in_full());
    let ok = ExecuteResult::finalize_with_fees([1u8; 32], Ok(diff_with(1)), Ok(diff_with(2)), receipt);
    assert_eq!(ok.expect_success(), &diff_with(2));
}
