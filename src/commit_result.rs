//! The outcome of executing a transaction.
use crate::bytes::FixedHash;
use crate::substate::VersionedSubstateId;
use vstd::prelude::*;

verus! {

/// The substates a transaction creates (with their values) and destroys.
#[derive(Clone, Debug, PartialEq, Eq)]
pub struct SubstateDiff {
    pub up_substates: Vec<(VersionedSubstateId, Vec<u8>)>,
    pub down_substates: Vec<VersionedSubstateId>,
}

impl SubstateDiff {
    pub fn new() -> (r: SubstateDiff)
        ensures
            r.up_substates@.len() == 0,
            r.down_substates@.len() == 0,
    {
        SubstateDiff { up_substates: Vec::new(), down_substates: Vec::new() }
    }

    pub fn len(&self) -> (r: usize)
        requires
            self.up_substates@.len() + self.down_substates@.len() <= usize::MAX,
        ensures
            r == self.up_substates@.len() + self.down_substates@.len(),
    {
        self.up_substates.len() + self.down_substates.len()
    }
}

/// Why a transaction was rejected.
#[derive(Debug, Clone, PartialEq)]
pub enum RejectReason {
    ShardsNotPledged(String),
    ExecutionFailure(String),
    PreviousQcRejection,
    ShardPledgedToAnotherPayload(String),
    ShardRejected(String),
    FeeTransactionFailed,
    FeesNotPaid(String),
}

/// The finalized result of a transaction: its diff, or why it was rejected.
#[derive(Debug, Clone)]
pub enum TransactionResult {
    Accept(SubstateDiff),
    Reject(RejectReason),
}

impl TransactionResult {
    pub fn is_accept(&self) -> (r: bool)
        ensures
            r == (*self is Accept),
    {
        matches!(self, TransactionResult::Accept(_))
    }

    pub fn is_reject(&self) -> (r: bool)
        ensures
            r == (*self is Reject),
    {
        matches!(self, TransactionResult::Reject(_))
    }

    pub fn accept(&self) -> (r: Option<&SubstateDiff>)
        ensures
            r matches Some(d) ==> *self == TransactionResult::Accept(*d),
            r is None <==> *self is Reject,
    {
        match self {
            TransactionResult::Accept(d) => Some(d),
            TransactionResult::Reject(_) => None,
        }
    }

    pub fn reject(&self) -> (r: Option<&RejectReason>)
        ensures
            r matches Some(e) ==> *self == TransactionResult::Reject(*e),
            r is None <==> *self is Accept,
    {
        match self {
            TransactionResult::Accept(_) => None,
            TransactionResult::Reject(e) => Some(e),
        }
    }

    /// The diff of an accepted result.
    pub fn expect(self, _msg: &str) -> (r: SubstateDiff)
        requires
            self is Accept,
        ensures
            self == TransactionResult::Accept(r),
    {
        match self {
            TransactionResult::Accept(d) => d,
            TransactionResult::Reject(_) => {
                proof {
                    assert(false);
                }
                SubstateDiff::new()
            },
        }
    }
}

/// What the fee payment came to.
#[derive(Copy, Clone, Debug, PartialEq, Eq, Structural)]
pub struct FeeReceipt {
    pub total_fee_payment: u64,
    pub total_fees_charged: u64,
}

impl FeeReceipt {
    pub fn is_paid_in_full(&self) -> (r: bool)
        ensures
            r == (self.total_fee_payment >= self.total_fees_charged),
    {
        self.total_fee_payment >= self.total_fees_charged
    }
}

/// The finalized result of a transaction with its hash.
#[derive(Debug, Clone)]
pub struct FinalizeResult {
    pub transaction_hash: FixedHash,
    pub result: TransactionResult,
}

impl FinalizeResult {
    pub fn new(transaction_hash: FixedHash, result: TransactionResult) -> (r: FinalizeResult)
        ensures
            r.transaction_hash == transaction_hash,
            r.result == result,
    {
        FinalizeResult { transaction_hash, result }
    }

    pub fn reject(transaction_hash: FixedHash, reason: RejectReason) -> (r: FinalizeResult)
        ensures
            r.transaction_hash == transaction_hash,
            r.result == TransactionResult::Reject(reason),
    {
        FinalizeResult { transaction_hash, result: TransactionResult::Reject(reason) }
    }

    pub fn is_accept(&self) -> (r: bool)
        ensures
            r == (self.result is Accept),
    {
        self.result.is_accept()
    }
}

/// The result of executing a transaction: what is committed, why the body failed if it did,
/// and the fee payment.
#[derive(Debug, Clone)]
pub struct ExecuteResult {
    pub finalize: FinalizeResult,
    pub transaction_failure: Option<RejectReason>,
    pub fee_receipt: Option<FeeReceipt>,
}

impl ExecuteResult {
    /// Combines the fee instruction's outcome with the main body's. When the fees are paid but
    /// the body fails, the fee diff is still accepted and the body's failure is recorded; when the
    /// fees fail, the transaction is rejected.
    pub fn finalize_with_fees(
        transaction_hash: FixedHash,
        fee_outcome: Result<SubstateDiff, RejectReason>,
        main_outcome: Result<SubstateDiff, RejectReason>,
        fee_receipt: FeeReceipt,
    ) -> (r: ExecuteResult)
        ensures
            r.finalize.transaction_hash == transaction_hash,
            r.fee_receipt == Some(fee_receipt),
            fee_outcome is Err ==> r.finalize.result == TransactionResult::Reject(RejectReason::FeeTransactionFailed)
                && r.transaction_failure is None,
            fee_outcome is Ok && main_outcome is Ok ==> r.finalize.result == TransactionResult::Accept(main_outcome->Ok_0)
                && r.transaction_failure is None,
            fee_outcome is Ok && main_outcome is Err ==> r.finalize.result == TransactionResult::Accept(fee_outcome->Ok_0)
                && r.transaction_failure == Some(main_outcome->Err_0),
    {
        match fee_outcome {
            Err(_) => ExecuteResult {
                finalize: FinalizeResult::reject(transaction_hash, RejectReason::FeeTransactionFailed),
                transaction_failure: None,
                fee_receipt: Some(fee_receipt),
            },
            Ok(fee_diff) => match main_outcome {
                Ok(diff) => ExecuteResult {
                    finalize: FinalizeResult::new(transaction_hash, TransactionResult::Accept(diff)),
                    transaction_failure: None,
                    fee_receipt: Some(fee_receipt),
                },
                Err(reason) => ExecuteResult {
                    finalize: FinalizeResult::new(transaction_hash, TransactionResult::Accept(fee_diff)),
                    transaction_failure: Some(reason),
                    fee_receipt: Some(fee_receipt),
                },
            },
        }
    }

    /// The committed diff of a fully successful transaction.
    pub fn expect_success(&self) -> (r: &SubstateDiff)
        requires
            self.finalize.result is Accept,
            self.transaction_failure is None,
        ensures
            self.finalize.result == TransactionResult::Accept(*r),
    {
        self.expect_finalization_success()
    }

    /// The reason a transaction was rejected.
    pub fn expect_failure(&self) -> (r: &RejectReason)
        requires
            self.finalize.result is Reject,
        ensures
            self.finalize.result == TransactionResult::Reject(*r),
    {
        self.finalize.result.reject().unwrap()
    }

    /// The reason the body failed while the fees were paid.
    pub fn expect_transaction_failure(&self) -> (r: &RejectReason)
        requires
            self.transaction_failure is Some,
        ensures
            self.transaction_failure == Some(*r),
    {
        self.transaction_failure.as_ref().unwrap()
    }

    /// The committed diff, whether or not the body failed.
    pub fn expect_finalization_success(&self) -> (r: &SubstateDiff)
        requires
            self.finalize.result is Accept,
        ensures
            self.finalize.result == TransactionResult::Accept(*r),
    {
        self.finalize.result.accept().unwrap()
    }

    /// The fee receipt of a transaction whose fees were paid in full.
    pub fn expect_fees_paid_in_full(&self) -> (r: &FeeReceipt)
        requires
            self.fee_receipt matches Some(f) && f.total_fee_payment >= f.total_fees_charged,
        ensures
            self.fee_receipt == Some(*r),
    {
        self.fee_receipt.as_ref().unwrap()
    }
}

} // verus!
