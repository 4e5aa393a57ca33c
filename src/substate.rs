//! Versioned substate records and the atomic application of block diffs.
use crate::block::{BlockId, Epoch, NodeHeight, Shard};
use crate::bytes::{hash_eq, FixedHash};
use vstd::prelude::*;

verus! {

/// A substate id together with one of its versions.
#[derive(Copy, Clone, Debug, PartialEq, Eq)]
pub struct VersionedSubstateId {
    pub substate_id: FixedHash,
    pub version: u32,
}

/// One change of a block diff.
#[derive(Clone, Debug, PartialEq, Eq)]
pub enum SubstateChange {
    /// Creates `id` (at its version) with the given value.
    Up { id: VersionedSubstateId, shard: Shard, transaction_id: FixedHash, substate: Vec<u8> },
    /// Destroys `id` (at its version).
    Down { id: VersionedSubstateId, shard: Shard, transaction_id: FixedHash },
}

/// The substate changes a block produced when it executed.
#[derive(Clone, Debug, PartialEq, Eq)]
pub struct BlockDiff {
    pub block_id: BlockId,
    pub changes: Vec<SubstateChange>,
}

impl BlockDiff {
    pub fn is_empty(&self) -> (r: bool)
        ensures
            r == (self.changes@.len() == 0),
    {
        self.changes.len() == 0
    }
}

/// Where a change is committed: the block, its position and its justify QC.
#[derive(Copy, Clone, Debug, PartialEq, Eq)]
pub struct CommitContext {
    pub epoch: Epoch,
    pub height: NodeHeight,
    pub block_id: BlockId,
    pub justify_id: FixedHash,
}

/// How a substate version was destroyed.
#[derive(Copy, Clone, Debug, PartialEq, Eq)]
pub struct SubstateDestroyed {
    pub by_transaction: FixedHash,
    pub by_block: BlockId,
    pub justify: FixedHash,
    pub at_epoch: Epoch,
    pub at_height: NodeHeight,
}

/// A stored substate version: UP while `destroyed` is `None`, DOWN after.
#[derive(Clone, Debug, PartialEq, Eq)]
pub struct SubstateRecord {
    pub substate_id: FixedHash,
    pub version: u32,
    pub value: Vec<u8>,
    pub shard: Shard,
    pub created_at_epoch: Epoch,
    pub created_height: NodeHeight,
    pub created_block: BlockId,
    pub created_by_transaction: FixedHash,
    pub created_justify: FixedHash,
    pub destroyed: Option<SubstateDestroyed>,
}

/// Why a change cannot be applied.
#[derive(Copy, Clone, Debug, PartialEq, Eq)]
pub enum SubstateStoreError {
    /// An UP whose version is not one more than a DOWN version, or that already exists.
    VersionConflict { id: VersionedSubstateId },
    /// A DOWN of a version that is not the current UP version.
    NotUp { id: VersionedSubstateId },
}

/// Versions of each substate run 0, 1, 2, ... without repeats or gaps, and all but the
/// highest are DOWN.
pub open spec fn versions_wf(recs: Seq<SubstateRecord>) -> bool {
    &&& forall|i: int, j: int|
        0 <= i < recs.len() && 0 <= j < recs.len() && i != j && recs[i].substate_id
            == recs[j].substate_id ==> recs[i].version != recs[j].version
    &&& forall|i: int|
        0 <= i < recs.len() && recs[i].version > 0 ==> #[trigger] down_at(
            recs,
            recs[i].substate_id,
            (recs[i].version - 1) as u32,
        )
    &&& forall|i: int, j: int|
        0 <= i < recs.len() && 0 <= j < recs.len() && recs[i].substate_id == recs[j].substate_id
            && recs[i].version < recs[j].version ==> recs[i].destroyed is Some
}

/// Some record of `id` at `v` is DOWN.
pub open spec fn down_at(recs: Seq<SubstateRecord>, id: FixedHash, v: u32) -> bool {
    exists|j: int|
        0 <= j < recs.len() && recs[j].substate_id == id && recs[j].version == v
            && recs[j].destroyed is Some
}

/// Some record of `id` at `v` is UP.
pub open spec fn up_at(recs: Seq<SubstateRecord>, id: FixedHash, v: u32) -> bool {
    exists|j: int|
        0 <= j < recs.len() && recs[j].substate_id == id && recs[j].version == v
            && recs[j].destroyed is None
}

/// Some record of `id` has version `v` or higher.
pub open spec fn exists_at_or_above(recs: Seq<SubstateRecord>, id: FixedHash, v: u32) -> bool {
    exists|j: int| 0 <= j < recs.len() && recs[j].substate_id == id && recs[j].version >= v
}

/// An UP of `id` at `v` may be written: nothing at `v` or above, and `v - 1` is DOWN unless `v` is 0.
pub open spec fn up_allowed(recs: Seq<SubstateRecord>, id: FixedHash, v: u32) -> bool {
    !exists_at_or_above(recs, id, v) && (v == 0 || down_at(recs, id, (v - 1) as u32))
}

pub open spec fn up_record(
    id: VersionedSubstateId,
    shard: Shard,
    transaction_id: FixedHash,
    value: Vec<u8>,
    ctx: CommitContext,
) -> SubstateRecord {
    SubstateRecord {
        substate_id: id.substate_id,
        version: id.version,
        value,
        shard,
        created_at_epoch: ctx.epoch,
        created_height: ctx.height,
        created_block: ctx.block_id,
        created_by_transaction: transaction_id,
        created_justify: ctx.justify_id,
        destroyed: None,
    }
}

pub open spec fn destroyed_by(transaction_id: FixedHash, ctx: CommitContext) -> SubstateDestroyed {
    SubstateDestroyed {
        by_transaction: transaction_id,
        by_block: ctx.block_id,
        justify: ctx.justify_id,
        at_epoch: ctx.epoch,
        at_height: ctx.height,
    }
}

/// The record marked DOWN by `transaction_id` in the block of `ctx`.
pub open spec fn marked_down(rec: SubstateRecord, transaction_id: FixedHash, ctx: CommitContext) -> SubstateRecord {
    SubstateRecord { destroyed: Some(destroyed_by(transaction_id, ctx)), ..rec }
}

/// The index of the UP record of `id` at `v`.
pub open spec fn up_index(recs: Seq<SubstateRecord>, id: FixedHash, v: u32) -> int {
    choose|j: int|
        0 <= j < recs.len() && recs[j].substate_id == id && recs[j].version == v
            && recs[j].destroyed is None
}

/// The records after one change, or `None` where the change cannot be applied.
pub open spec fn apply_change_spec(
    recs: Seq<SubstateRecord>,
    change: SubstateChange,
    ctx: CommitContext,
) -> Option<Seq<SubstateRecord>> {
    match change {
        SubstateChange::Up { id, shard, transaction_id, substate } => {
            if up_allowed(recs, id.substate_id, id.version) {
                Some(recs.push(up_record(id, shard, transaction_id, substate, ctx)))
            } else {
                None
            }
        },
        SubstateChange::Down { id, shard, transaction_id } => {
            if up_at(recs, id.substate_id, id.version) {
                let k = up_index(recs, id.substate_id, id.version);
                Some(recs.update(k, marked_down(recs[k], transaction_id, ctx)))
            } else {
                None
            }
        },
    }
}

/// The records after the changes in order, or `None` where one cannot be applied.
pub open spec fn apply_changes_spec(
    recs: Seq<SubstateRecord>,
    changes: Seq<SubstateChange>,
    ctx: CommitContext,
) -> Option<Seq<SubstateRecord>>
    decreases changes.len(),
{
    if changes.len() == 0 {
        Some(recs)
    } else {
        match apply_changes_spec(recs, changes.drop_last(), ctx) {
            None => None,
            Some(r) => apply_change_spec(r, changes.last(), ctx),
        }
    }
}

proof fn lemma_up_preserves_wf(recs: Seq<SubstateRecord>, rec: SubstateRecord)
    requires
        versions_wf(recs),
        up_allowed(recs, rec.substate_id, rec.version),
        rec.destroyed is None,
    ensures
        versions_wf(recs.push(rec)),
{
    let n = recs.push(rec);
    assert forall|i: int| 0 <= i < n.len() && n[i].version > 0 implies #[trigger] down_at(
        n,
        n[i].substate_id,
        (n[i].version - 1) as u32,
    ) by {
        if i < recs.len() {
            assert(down_at(recs, recs[i].substate_id, (recs[i].version - 1) as u32));
            let j = choose|j: int|
                0 <= j < recs.len() && recs[j].substate_id == recs[i].substate_id && recs[j].version
                    == (recs[i].version - 1) as u32 && recs[j].destroyed is Some;
            assert(n[j] == recs[j]);
        } else {
            let j = choose|j: int|
                0 <= j < recs.len() && recs[j].substate_id == rec.substate_id && recs[j].version
                    == (rec.version - 1) as u32 && recs[j].destroyed is Some;
            assert(n[j] == recs[j]);
        }
    }
    assert forall|i: int, j: int|
        0 <= i < n.len() && 0 <= j < n.len() && n[i].substate_id == n[j].substate_id
            && n[i].version < n[j].version implies n[i].destroyed is Some by {
        if j == recs.len() && i < recs.len() {
            // recs[i] is below the new version, so it is at most the DOWN predecessor
            if rec.version == 0 {
            } else {
                let k = choose|k: int|
                    0 <= k < recs.len() && recs[k].substate_id == rec.substate_id && recs[k].version
                        == (rec.version - 1) as u32 && recs[k].destroyed is Some;
                if recs[i].version < recs[k].version {
                } else if recs[i].version == recs[k].version {
                    if i != k {
                    }
                } else {
                    assert(exists_at_or_above(recs, rec.substate_id, rec.version));
                }
            }
        } else if i == recs.len() && j < recs.len() {
            assert(exists_at_or_above(recs, rec.substate_id, rec.version));
        }
    }
    assert forall|i: int, j: int|
        0 <= i < n.len() && 0 <= j < n.len() && i != j && n[i].substate_id
            == n[j].substate_id implies n[i].version != n[j].version by {
        if i == recs.len() && j < recs.len() {
            assert(exists_at_or_above(recs, rec.substate_id, rec.version) || recs[j].version
                != rec.version);
        } else if j == recs.len() && i < recs.len() {
            assert(exists_at_or_above(recs, rec.substate_id, rec.version) || recs[i].version
                != rec.version);
        }
    }
}

proof fn lemma_down_preserves_wf(recs: Seq<SubstateRecord>, k: int, d: SubstateDestroyed)
    requires
        versions_wf(recs),
        0 <= k < recs.len(),
    ensures
        versions_wf(recs.update(k, SubstateRecord { destroyed: Some(d), ..recs[k] })),
{
    let n = recs.update(k, SubstateRecord { destroyed: Some(d), ..recs[k] });
    assert forall|i: int| 0 <= i < n.len() && n[i].version > 0 implies #[trigger] down_at(
        n,
        n[i].substate_id,
        (n[i].version - 1) as u32,
    ) by {
        assert(down_at(recs, recs[i].substate_id, (recs[i].version - 1) as u32));
        let j = choose|j: int|
            0 <= j < recs.len() && recs[j].substate_id == recs[i].substate_id && recs[j].version
                == (recs[i].version - 1) as u32 && recs[j].destroyed is Some;
        assert(n[j].destroyed is Some);
    }
}

/// Writes an UP record where the version rules allow it.
pub fn apply_up(
    recs: &mut Vec<SubstateRecord>,
    id: VersionedSubstateId,
    shard: Shard,
    transaction_id: FixedHash,
    value: Vec<u8>,
    ctx: CommitContext,
) -> (r: Result<(), SubstateStoreError>)
    requires
        versions_wf(old(recs)@),
    ensures
        r is Ok <==> up_allowed(old(recs)@, id.substate_id, id.version),
        r is Ok ==> final(recs)@ == old(recs)@.push(
            up_record(id, shard, transaction_id, value, ctx),
        ),
        r is Err ==> final(recs)@ == old(recs)@,
        r matches Err(e) ==> (e == (SubstateStoreError::VersionConflict { id })),
        versions_wf(final(recs)@),
{
    let mut conflict = false;
    let mut prev_down = false;
    let mut i: usize = 0;
    while i < recs.len()
        invariant
            i <= recs@.len(),
            conflict == (exists|j: int|
                0 <= j < i && recs@[j].substate_id == id.substate_id && recs@[j].version
                    >= id.version),
            id.version > 0 ==> (prev_down == (exists|j: int|
                0 <= j < i && recs@[j].substate_id == id.substate_id && recs@[j].version == (
                id.version - 1) as u32 && (recs@[j].destroyed is Some))),
        decreases recs@.len() - i,
    {
        if hash_eq(&recs[i].substate_id, &id.substate_id) {
            if recs[i].version >= id.version {
                conflict = true;
            }
            if id.version > 0 && recs[i].version == id.version - 1 && recs[i].destroyed.is_some() {
                prev_down = true;
            }
        }
        i = i + 1;
    }
    if conflict || (id.version > 0 && !prev_down) {
        return Err(SubstateStoreError::VersionConflict { id });
    }
    let rec = SubstateRecord {
        substate_id: id.substate_id,
        version: id.version,
        value,
        shard,
        created_at_epoch: ctx.epoch,
        created_height: ctx.height,
        created_block: ctx.block_id,
        created_by_transaction: transaction_id,
        created_justify: ctx.justify_id,
        destroyed: None,
    };
    proof {
        lemma_up_preserves_wf(recs@, rec);
    }
    recs.push(rec);
    Ok(())
}

/// Marks the UP record of `id` as DOWN where there is one.
pub fn apply_down(
    recs: &mut Vec<SubstateRecord>,
    id: VersionedSubstateId,
    transaction_id: FixedHash,
    ctx: CommitContext,
) -> (r: Result<usize, SubstateStoreError>)
    requires
        versions_wf(old(recs)@),
    ensures
        r is Ok <==> up_at(old(recs)@, id.substate_id, id.version),
        r matches Ok(k) ==> {
            &&& k == up_index(old(recs)@, id.substate_id, id.version)
            &&& old(recs)@[k as int].destroyed is None
            &&& final(recs)@ == old(recs)@.update(k as int, marked_down(old(recs)@[k as int], transaction_id, ctx))
        },
        r is Err ==> final(recs)@ == old(recs)@,
        r matches Err(e) ==> (e == (SubstateStoreError::NotUp { id })),
        versions_wf(final(recs)@),
{
    let mut i: usize = 0;
    while i < recs.len()
        invariant
            recs@ == old(recs)@,
            versions_wf(recs@),
            i <= recs@.len(),
            forall|j: int|
                0 <= j < i ==> !(recs@[j].substate_id == id.substate_id && recs@[j].version
                    == id.version && (recs@[j].destroyed is None)),
        decreases recs@.len() - i,
    {
        if hash_eq(&recs[i].substate_id, &id.substate_id) && recs[i].version == id.version
            && recs[i].destroyed.is_none() {
            proof {
                let k = up_index(recs@, id.substate_id, id.version);
                assert(recs@[i as int].substate_id == id.substate_id);
                if k != i {
                    assert(recs@[k].version != recs@[i as int].version);
                }
                lemma_down_preserves_wf(recs@, i as int, destroyed_by(transaction_id, ctx));
            }
            let d = SubstateDestroyed {
                by_transaction: transaction_id,
                by_block: ctx.block_id,
                justify: ctx.justify_id,
                at_epoch: ctx.epoch,
                at_height: ctx.height,
            };
            recs[i].destroyed = Some(d);
            return Ok(i);
        }
        i = i + 1;
    }
    Err(SubstateStoreError::NotUp { id })
}

/// Once a change fails, applying more changes does not succeed.
proof fn lemma_failure_persists(
    recs: Seq<SubstateRecord>,
    changes: Seq<SubstateChange>,
    n: int,
    ctx: CommitContext,
)
    requires
        0 <= n <= changes.len(),
        apply_changes_spec(recs, changes.subrange(0, n), ctx) is None,
    ensures
        apply_changes_spec(recs, changes, ctx) is None,
    decreases changes.len() - n,
{
    if n == changes.len() {
        assert(changes.subrange(0, n) =~= changes);
    } else {
        assert(changes.subrange(0, n + 1).drop_last() =~= changes.subrange(0, n));
        lemma_failure_persists(recs, changes, n + 1, ctx);
    }
}

/// Records that differ from `base` only by DOWN marks at listed indexes, plus appended records.
pub open spec fn restorable(base: Seq<SubstateRecord>, cur: Seq<SubstateRecord>, downed: Seq<usize>) -> bool {
    &&& cur.len() >= base.len()
    &&& forall|j: int| 0 <= j < downed.len() ==> (downed[j] < base.len() && (base[downed[j] as int].destroyed is None))
    &&& forall|k: int|
        0 <= k < base.len() ==> cur[k] == (SubstateRecord { destroyed: cur[k].destroyed, ..base[k] })
    &&& forall|k: int|
        0 <= k < base.len() && cur[k].destroyed != base[k].destroyed ==> (exists|j: int|
            0 <= j < downed.len() && downed[j] == k)
}

/// Applies the changes in order, all or nothing: on an error the records are left as they were.
pub fn apply_diff(recs: &mut Vec<SubstateRecord>, changes: Vec<SubstateChange>, ctx: CommitContext) -> (r:
    Result<(), SubstateStoreError>)
    requires
        versions_wf(old(recs)@),
    ensures
        r is Ok <==> apply_changes_spec(old(recs)@, changes@, ctx) is Some,
        r is Ok ==> apply_changes_spec(old(recs)@, changes@, ctx) == Some(final(recs)@),
        r is Err ==> final(recs)@ == old(recs)@,
        versions_wf(final(recs)@),
{
    let ghost base = recs@;
    let ghost all = changes@;
    let base_len = recs.len();
    let mut pending = changes;
    let mut downed: Vec<usize> = Vec::new();
    let mut failure: Option<SubstateStoreError> = None;
    let mut i: usize = 0;
    let n = pending.len();
    assert(all.subrange(0, 0) =~= Seq::<SubstateChange>::empty());
    assert(all.skip(0) =~= all);
    while i < n
        invariant
            n == all.len(),
            i <= n,
            pending@ == all.skip(i as int),
            base == old(recs)@,
            versions_wf(base),
            all == changes@,
            base_len == base.len(),
            versions_wf(recs@),
            failure is None,
            apply_changes_spec(base, all.subrange(0, i as int), ctx) == Some(recs@),
            restorable(base, recs@, downed@),
        decreases n - i,
    {
        let change = pending.remove(0);
        assert(change == all[i as int]);
        assert(pending@ =~= all.skip(i + 1));
        assert(all.subrange(0, i + 1).drop_last() =~= all.subrange(0, i as int));
        assert(all.subrange(0, i + 1).last() == all[i as int]);
        let ghost before = recs@;
        let ghost before_downed = downed@;
        match change {
            SubstateChange::Up { id, shard, transaction_id, substate } => {
                match apply_up(recs, id, shard, transaction_id, substate, ctx) {
                    Ok(()) => {
                        assert(restorable(base, recs@, downed@)) by {
                            assert forall|k: int| 0 <= k < base.len() implies recs@[k] == before[k] by {}
                        }
                    },
                    Err(e) => {
                        assert(apply_change_spec(before, all[i as int], ctx) is None);
                        failure = Some(e);
                    },
                }
            },
            SubstateChange::Down { id, shard, transaction_id } => {
                match apply_down(recs, id, transaction_id, ctx) {
                    Ok(k) => {
                        if k < base_len {
                            downed.push(k);
                        }
                        assert(restorable(base, recs@, downed@)) by {
                            assert forall|j: int| 0 <= j < downed@.len() implies (downed@[j] < base.len() && (base[downed@[j] as int].destroyed is None)) by {
                                if j < before_downed.len() {
                                    assert(downed@[j] == before_downed[j]);
                                } else {
                                    assert(before[k as int].destroyed is None);
                                    if before[k as int].destroyed != base[k as int].destroyed {
                                    }
                                }
                            }
                            assert forall|q: int| 0 <= q < base.len() && recs@[q].destroyed != base[q].destroyed implies (exists|j: int|
                                0 <= j < downed@.len() && downed@[j] == q) by {
                                if q == k as int {
                                    assert(downed@[downed@.len() - 1] == q);
                                } else {
                                    assert(recs@[q] == before[q]);
                                    let j = choose|j: int| 0 <= j < before_downed.len() && before_downed[j] == q;
                                    assert(downed@[j] == q);
                                }
                            }
                        }
                    },
                    Err(e) => {
                        assert(apply_change_spec(before, all[i as int], ctx) is None);
                        failure = Some(e);
                    },
                }
            },
        }
        match failure {
            Some(e) => {
                proof {
                    assert(apply_changes_spec(base, all.subrange(0, i + 1), ctx) is None);
                    lemma_failure_persists(base, all, i + 1, ctx);
                }
                // undo: drop appended records, then clear the DOWN marks
                recs.truncate(base_len);
                let mut t: usize = 0;
                while t < downed.len()
                    invariant
                        base_len == base.len(),
                        recs@.len() == base.len(),
                        t <= downed@.len(),
                        forall|j: int| 0 <= j < downed@.len() ==> (downed@[j] < base.len() && (base[downed@[j] as int].destroyed is None)),
                        forall|k: int|
                            0 <= k < base.len() ==> recs@[k] == (SubstateRecord { destroyed: recs@[k].destroyed, ..base[k] }),
                        forall|k: int|
                            0 <= k < base.len() && recs@[k].destroyed != base[k].destroyed ==> (exists|j: int|
                                t <= j < downed@.len() && downed@[j] == k),
                    decreases downed@.len() - t,
                {
                    let d = downed[t];
                    recs[d].destroyed = None;
                    proof {
                        assert forall|k: int|
                            0 <= k < base.len() && recs@[k].destroyed != base[k].destroyed implies (exists|j: int|
                                t + 1 <= j < downed@.len() && downed@[j] == k) by {
                            let j = choose|j: int| t <= j < downed@.len() && downed@[j] == k;
                            if j == t {
                                assert(k == d);
                            }
                        }
                    }
                    t = t + 1;
                }
                assert forall|k: int| 0 <= k < base.len() implies recs@[k] == base[k] by {
                    if recs@[k].destroyed != base[k].destroyed {
                        let j = choose|j: int| t <= j < downed@.len() && downed@[j] == k;
                    }
                }
                assert(recs@ =~= base);
                return Err(e);
            },
            None => {},
        }
        i = i + 1;
    }
    assert(all.subrange(0, n as int) =~= all);
    Ok(())
}

} // verus!
