//! Properties that relate several operations of the library.
use crate::block::{header_id_valid, Block, BlockId};
use crate::encoding::header_hash;
use crate::store::{commit_outcome, committed_unique, find_block, ids_valid, StateStore, StorageError};
use crate::substate::{down_at, versions_wf, BlockDiff, SubstateRecord};
use vstd::prelude::*;

verus! {

/// In a well-formed store, two committed blocks at the same epoch and height are the same block.
pub proof fn lemma_committed_blocks_unique(s: StateStore, i: int, j: int)
    requires
        s.wf(),
        0 <= i < s.blocks@.len(),
        0 <= j < s.blocks@.len(),
        s.blocks@[i].is_committed,
        s.blocks@[j].is_committed,
        s.blocks@[i].header.epoch == s.blocks@[j].header.epoch,
        s.blocks@[i].header.height == s.blocks@[j].header.height,
    ensures
        s.blocks@[i].header.id == s.blocks@[j].header.id,
{
    assert(committed_unique(s.blocks@));
}

/// A block whose id was checked (as `insert` does) has the id that hashing its header gives,
/// whenever the header is hashed again.
pub proof fn lemma_block_id_recomputes(b: Block, fetched: Block)
    requires
        header_id_valid(b.header),
        fetched.header == b.header,
    ensures
        header_hash(fetched.header) == b.header.id.0@,
{
}

/// Substate versions have no gaps: a version above zero has its predecessor stored as DOWN,
/// and a version below another of the same substate is DOWN.
pub proof fn lemma_versions_without_gaps(recs: Seq<SubstateRecord>, i: int, j: int)
    requires
        versions_wf(recs),
        0 <= i < recs.len(),
        0 <= j < recs.len(),
    ensures
        recs[i].version > 0 ==> down_at(recs, recs[i].substate_id, (recs[i].version - 1) as u32),
        recs[i].substate_id == recs[j].substate_id && recs[i].version < recs[j].version ==> recs[i].destroyed is Some,
        i != j && recs[i].substate_id == recs[j].substate_id ==> recs[i].version != recs[j].version,
{
}

/// Committing a block again is refused with `AlreadyCommitted`, and (by `commit_diff`'s
/// contract) leaves the store as it was: re-applying a committed diff changes nothing.
pub proof fn lemma_commit_twice_rejected(
    s: StateStore,
    after: StateStore,
    block_id: BlockId,
    diff: BlockDiff,
    r: Result<(), StorageError>,
)
    requires
        find_block(s.blocks@, block_id) matches Some(b) && b.is_committed,
        diff.block_id == block_id,
        commit_outcome(s, after, find_block(s.blocks@, block_id).unwrap(), diff, r),
    ensures
        r == Err::<(), StorageError>(StorageError::AlreadyCommitted),
{
    lemma_find_block_id(s.blocks@, block_id);
}

/// The block that `find_block` returns has the id that was asked for.
pub proof fn lemma_find_block_id(blocks: Seq<Block>, id: BlockId)
    ensures
        find_block(blocks, id) matches Some(b) ==> b.header.id == id,
    decreases blocks.len(),
{
    if blocks.len() > 0 {
        lemma_find_block_id(blocks.drop_first(), id);
    }
}

/// After a successful first commit, a second commit of the same block is refused.
pub proof fn lemma_second_commit_refused(
    s0: StateStore,
    s1: StateStore,
    s2: StateStore,
    block_id: BlockId,
    diff1: BlockDiff,
    diff2: BlockDiff,
    r2: Result<(), StorageError>,
)
    requires
        find_block(s0.blocks@, block_id) is Some,
        commit_outcome(s0, s1, find_block(s0.blocks@, block_id).unwrap(), diff1, Ok(())),
        diff2.block_id == block_id,
        commit_outcome(s1, s2, find_block(s1.blocks@, block_id).unwrap(), diff2, r2),
    ensures
        r2 == Err::<(), StorageError>(StorageError::AlreadyCommitted),
{
    lemma_find_block_id(s0.blocks@, block_id);
    lemma_find_block_id(s1.blocks@, block_id);
}

/// In a well-formed store, recomputing the id of a fetched block (other than the zero block)
/// gives the id it was fetched by.
pub proof fn lemma_fetched_block_id_recomputes(s: StateStore, id: BlockId)
    requires
        s.wf(),
        find_block(s.blocks@, id) is Some,
        id.0@ != crate::bytes::zero_hash(),
    ensures
        header_hash(find_block(s.blocks@, id).unwrap().header) == id.0@,
{
    crate::store::lemma_find_block_some(s.blocks@, id);
    let b = find_block(s.blocks@, id).unwrap();
    let k = choose|k: int| 0 <= k < s.blocks@.len() && s.blocks@[k] == b && b.header.id == id;
    assert(ids_valid(s.blocks@));
    assert(header_id_valid(s.blocks@[k].header));
}

} // verus!
