//! The block graph and the tables that hang off it, with their markers.
use crate::block::{Block, BlockId, Decision, Epoch, NodeHeight, QuorumCertificate, Shard};
use crate::bytes::FixedHash;
use crate::substate::{BlockDiff, SubstateRecord, SubstateStoreError};
use vstd::prelude::*;

verus! {

/// A row of a table that belongs to one block.
pub trait BlockRow: Sized {
    spec fn row_block(&self) -> BlockId;

    fn block_id_of(&self) -> (r: BlockId)
        ensures
            r == self.row_block(),
    ;
}

impl BlockRow for Block {
    open spec fn row_block(&self) -> BlockId {
        self.header.id
    }

    fn block_id_of(&self) -> (r: BlockId) {
        self.header.id
    }
}

impl BlockRow for BlockDiff {
    open spec fn row_block(&self) -> BlockId {
        self.block_id
    }

    fn block_id_of(&self) -> (r: BlockId) {
        self.block_id
    }
}

/// A state tree diff of one shard, pending until its block commits.
#[derive(Copy, Clone, Debug, PartialEq, Eq)]
pub struct PendingStateTreeDiff {
    pub block_id: BlockId,
    pub shard: Shard,
    pub version: u64,
}

impl BlockRow for PendingStateTreeDiff {
    open spec fn row_block(&self) -> BlockId {
        self.block_id
    }

    fn block_id_of(&self) -> (r: BlockId) {
        self.block_id
    }
}

/// How a transaction locks a substate.
#[derive(Copy, Clone, Debug, PartialEq, Eq, Structural)]
pub enum SubstateLockType {
    Read,
    Write,
    Output,
}

/// A substate lock taken by a transaction in a block.
#[derive(Clone, Debug, PartialEq, Eq)]
pub struct LockedSubstate {
    pub block_id: BlockId,
    pub transaction_id: FixedHash,
    /// The address (substate id and version) that evidence names.
    pub address: FixedHash,
    pub substate_id: FixedHash,
    pub version: u32,
    pub lock_type: SubstateLockType,
    /// The locked value, for inputs.
    pub value: Option<Vec<u8>>,
}

impl BlockRow for LockedSubstate {
    open spec fn row_block(&self) -> BlockId {
        self.block_id
    }

    fn block_id_of(&self) -> (r: BlockId) {
        self.block_id
    }
}

/// Stage of a transaction in the pool.
#[derive(Copy, Clone, Debug, PartialEq, Eq, Structural)]
pub enum TransactionPoolStage {
    New,
    Prepared,
    LocalPrepared,
    AllPrepared,
    LocalAccepted,
    AllAccepted,
    Finalized,
    Aborted,
}

/// A pool state change proposed in a block.
#[derive(Copy, Clone, Debug, PartialEq, Eq)]
pub struct TransactionPoolUpdate {
    pub block_id: BlockId,
    pub transaction_id: FixedHash,
    pub stage: TransactionPoolStage,
}

impl BlockRow for TransactionPoolUpdate {
    open spec fn row_block(&self) -> BlockId {
        self.block_id
    }

    fn block_id_of(&self) -> (r: BlockId) {
        self.block_id
    }
}

/// The result of executing a transaction in a block.
#[derive(Copy, Clone, Debug, PartialEq, Eq)]
pub struct TransactionExecution {
    pub block_id: BlockId,
    pub transaction_id: FixedHash,
    pub decision: Decision,
}

impl BlockRow for TransactionExecution {
    open spec fn row_block(&self) -> BlockId {
        self.block_id
    }

    fn block_id_of(&self) -> (r: BlockId) {
        self.block_id
    }
}

/// Marks a foreign proposal as proposed in a local block.
#[derive(Copy, Clone, Debug, PartialEq, Eq)]
pub struct ForeignProposalMark {
    pub foreign_block_id: BlockId,
    pub proposed_in: BlockId,
}

impl BlockRow for ForeignProposalMark {
    open spec fn row_block(&self) -> BlockId {
        self.proposed_in
    }

    fn block_id_of(&self) -> (r: BlockId) {
        self.proposed_in
    }
}

/// The rows that do not belong to block `x`.
pub open spec fn rows_not_in<T: BlockRow>(rows: Seq<T>, x: BlockId) -> Seq<T> {
    rows.filter(not_in_block::<T>(x))
}

/// Holds of the rows that do not belong to block `x`.
pub open spec fn not_in_block<T: BlockRow>(x: BlockId) -> spec_fn(T) -> bool {
    |t: T| t.row_block() != x
}

/// Removes every row of block `x`, keeping the order of the others.
pub fn retain_rows_not_in<T: BlockRow>(rows: &mut Vec<T>, x: BlockId)
    ensures
        final(rows)@ == rows_not_in(old(rows)@, x),
{
    let mut taken: Vec<T> = Vec::new();
    core::mem::swap(rows, &mut taken);
    let ghost orig = taken@;
    let n = taken.len();
    let mut i: usize = 0;
    proof {
        reveal(Seq::filter);
        assert(orig.subrange(0, 0) =~= Seq::<T>::empty());
        assert(rows@ =~= rows_not_in(orig.subrange(0, 0), x));
    }
    while i < n
        invariant
            n == orig.len(),
            i <= n,
            taken@ == orig.skip(i as int),
            rows@ == rows_not_in(orig.subrange(0, i as int), x),
        decreases n - i,
    {
        let row = taken.remove(0);
        proof {
            reveal(Seq::filter);
            assert(row == orig[i as int]);
            assert(taken@ =~= orig.skip(i + 1));
            assert(orig.subrange(0, i + 1).drop_last() =~= orig.subrange(0, i as int));
            assert(orig.subrange(0, i + 1).last() == orig[i as int]);
        }
        let b = row.block_id_of();
        if !b.equals(&x) {
            rows.push(row);
        }
        proof {
            reveal(Seq::filter);
        }
        i = i + 1;
    }
    proof {
        assert(orig.subrange(0, n as int) =~= orig);
    }
}

/// A marker that points at one block.
#[derive(Copy, Clone, Debug, PartialEq, Eq)]
pub struct BlockMarker {
    pub epoch: Epoch,
    pub height: NodeHeight,
    pub block_id: BlockId,
}

/// The highest QC seen.
#[derive(Copy, Clone, Debug, PartialEq, Eq)]
pub struct HighQc {
    pub epoch: Epoch,
    pub block_id: BlockId,
    pub block_height: NodeHeight,
    pub qc_id: FixedHash,
}

/// Errors of the state store.
#[derive(Copy, Clone, Debug, PartialEq, Eq)]
pub enum StorageError {
    /// No block with the id.
    NotFound { block_id: BlockId },
    /// A block with this id is already stored.
    AlreadyExists,
    /// The commands are not strictly increasing in canonical order.
    CommandsNotCanonical,
    /// The id is not the hash of the header fields.
    InvalidBlockId,
    /// The command merkle root does not match the commands.
    CommandMerkleRootMismatch,
    /// The parent block is not stored.
    ParentNotFound,
    /// The justify QC's block is not an ancestor of the block.
    JustifyNotAncestor,
    /// The justify QC lacks a quorum of distinct committee signatures.
    InvalidQuorumCertificate,
    /// The diff belongs to another block.
    BlockIdMismatch,
    /// The block is already committed.
    AlreadyCommitted,
    /// A dummy block may not change substates.
    DummyBlockHasChanges,
    /// A substate change conflicts with the stored versions.
    SubstateConflict { error: SubstateStoreError },
    /// Stored data contradicts an invariant (a parent that is not lower, a pledge that cannot be built).
    DataInconsistency,
}

/// The first stored block with `id`.
pub open spec fn find_block(blocks: Seq<Block>, id: BlockId) -> Option<Block>
    decreases blocks.len(),
{
    if blocks.len() == 0 {
        None
    } else if blocks[0].header.id == id {
        Some(blocks[0])
    } else {
        find_block(blocks.drop_first(), id)
    }
}

/// `anc` is reached from `cur` by following at most `fuel` parent links (one at least).
pub open spec fn ancestor_within(blocks: Seq<Block>, cur: BlockId, anc: BlockId, fuel: nat) -> bool
    decreases fuel,
{
    if fuel == 0 {
        false
    } else {
        match find_block(blocks, cur) {
            None => false,
            Some(b) => b.header.parent == anc || ancestor_within(
                blocks,
                b.header.parent,
                anc,
                (fuel - 1) as nat,
            ),
        }
    }
}

/// `anc` is a proper ancestor of the stored block `desc`.
pub open spec fn is_ancestor(blocks: Seq<Block>, desc: BlockId, anc: BlockId) -> bool {
    ancestor_within(blocks, desc, anc, blocks.len() as nat)
}

/// Block `b` descends from `anc` through the stored chain.
pub open spec fn extends(blocks: Seq<Block>, b: Block, anc: BlockId) -> bool {
    b.header.id != anc && (b.header.parent == anc || is_ancestor(blocks, b.header.parent, anc))
}

/// The id of `b` where its parent is `parent`.
pub open spec fn child_id(b: Block, parent: BlockId) -> Option<BlockId> {
    if b.header.parent == parent {
        Some(b.header.id)
    } else {
        None
    }
}

/// The id of `b` where it stands at `epoch` and `height`.
pub open spec fn id_at(b: Block, epoch: Epoch, height: NodeHeight) -> Option<BlockId> {
    if b.header.epoch == epoch && b.header.height == height {
        Some(b.header.id)
    } else {
        None
    }
}

/// No two stored blocks share an id.
pub open spec fn ids_unique(blocks: Seq<Block>) -> bool {
    forall|i: int, j: int| 0 <= i < j < blocks.len() ==> blocks[i].header.id != blocks[j].header.id
}

/// Every stored block but the zero block has the id that hashing its header gives.
pub open spec fn ids_valid(blocks: Seq<Block>) -> bool {
    forall|k: int| 0 <= k < blocks.len() && blocks[k].header.id.0@ != crate::bytes::zero_hash()
        ==> crate::block::header_id_valid(#[trigger] blocks[k].header)
}

/// Committed blocks at the same epoch and height are the same block.
pub open spec fn committed_unique(blocks: Seq<Block>) -> bool {
    forall|i: int, j: int|
        0 <= i < blocks.len() && 0 <= j < blocks.len() && blocks[i].is_committed
            && blocks[j].is_committed && blocks[i].header.epoch == blocks[j].header.epoch
            && blocks[i].header.height == blocks[j].header.height ==> blocks[i].header.id
            == blocks[j].header.id
}

/// The store of one validator: blocks, per-block tables, substates and markers.
pub struct StateStore {
    pub blocks: Vec<Block>,
    pub block_diffs: Vec<BlockDiff>,
    pub pending_tree_diffs: Vec<PendingStateTreeDiff>,
    pub substate_locks: Vec<LockedSubstate>,
    pub pool_updates: Vec<TransactionPoolUpdate>,
    pub executions: Vec<TransactionExecution>,
    pub foreign_marks: Vec<ForeignProposalMark>,
    pub substates: Vec<SubstateRecord>,
    /// The locked block of each epoch.
    pub locked: Vec<BlockMarker>,
    /// The last executed block of each epoch.
    pub last_executed: Vec<BlockMarker>,
    pub leaf: BlockMarker,
    pub high_qc: HighQc,
    pub last_voted: Option<BlockMarker>,
    pub last_proposed: Option<BlockMarker>,
    /// Per block, how many proposals were sent to each shard up to it.
    pub foreign_send_counters: Vec<(BlockId, crate::foreign::ForeignSendCounters)>,
}

impl StateStore {
    /// The store's invariant: substate versions are well formed, committed blocks are unique per
    /// epoch and height, block ids are unique, and every id but the zero block's is the hash of
    /// its header.
    pub open spec fn wf(&self) -> bool {
        &&& crate::substate::versions_wf(self.substates@)
        &&& committed_unique(self.blocks@)
        &&& ids_unique(self.blocks@)
        &&& ids_valid(self.blocks@)
    }

    /// A store that holds only the zero block, with every marker on it.
    pub fn new(network: u8, num_preshards: u32) -> (r: StateStore)
        requires
            num_preshards > 0,
        ensures
            r.wf(),
            r.blocks@.len() == 1,
            r.blocks@[0].header.id.0@ == crate::bytes::zero_hash(),
            r.blocks@[0].is_committed,
            forall|e: Epoch| #[trigger] marker_in(r.locked@, e).height == 0,
            forall|e: Epoch| #[trigger] marker_in(r.last_executed@, e).height == 0,
            r.high_qc.block_height == 0,
            r.substates@.len() == 0,
            r.last_voted is None,
    {
        let zero = Block::zero_block(network, num_preshards);
        let marker = BlockMarker { epoch: 0, height: 0, block_id: zero.header.id };
        let mut locked: Vec<BlockMarker> = Vec::new();
        locked.push(marker);
        let mut last_executed: Vec<BlockMarker> = Vec::new();
        last_executed.push(marker);
        proof {
            assert(locked@.drop_first() =~= Seq::<BlockMarker>::empty());
            assert(last_executed@.drop_first() =~= Seq::<BlockMarker>::empty());
            assert forall|e: Epoch| #[trigger] marker_in(locked@, e).height == 0 by {
                assert(marker_in(locked@.drop_first(), e) == start_marker(e));
            }
            assert forall|e: Epoch| #[trigger] marker_in(last_executed@, e).height == 0 by {
                assert(marker_in(last_executed@.drop_first(), e) == start_marker(e));
            }
        }
        let high_qc = HighQc {
            epoch: 0,
            block_id: zero.header.id,
            block_height: 0,
            qc_id: zero.justify.qc_id,
        };
        let mut blocks: Vec<Block> = Vec::new();
        blocks.push(zero);
        StateStore {
            blocks,
            block_diffs: Vec::new(),
            pending_tree_diffs: Vec::new(),
            substate_locks: Vec::new(),
            pool_updates: Vec::new(),
            executions: Vec::new(),
            foreign_marks: Vec::new(),
            substates: Vec::new(),
            locked,
            last_executed,
            leaf: marker,
            high_qc,
            last_voted: None,
            last_proposed: None,
            foreign_send_counters: Vec::new(),
        }
    }

    /// Index of the first block with `id`.
    pub fn find_index(&self, id: &BlockId) -> (r: Option<usize>)
        ensures
            r matches Some(k) ==> k < self.blocks@.len() && find_block(self.blocks@, *id) == Some(
                self.blocks@[k as int],
            ) && self.blocks@[k as int].header.id == *id,
            r matches Some(k) ==> forall|j: int| 0 <= j < k ==> self.blocks@[j].header.id != *id,
            r is None ==> find_block(self.blocks@, *id) is None,
            r is None <==> !(exists|k: int|
                0 <= k < self.blocks@.len() && self.blocks@[k].header.id == *id),
    {
        let mut i: usize = 0;
        assert(self.blocks@.skip(0) =~= self.blocks@);
        while i < self.blocks.len()
            invariant
                i <= self.blocks@.len(),
                find_block(self.blocks@, *id) == find_block(self.blocks@.skip(i as int), *id),
                forall|k: int| 0 <= k < i ==> self.blocks@[k].header.id != *id,
            decreases self.blocks@.len() - i,
        {
            assert(self.blocks@.skip(i as int).drop_first() =~= self.blocks@.skip(i + 1));
            if self.blocks[i].header.id.equals(id) {
                return Some(i);
            }
            i = i + 1;
        }
        proof {
            assert(self.blocks@.skip(i as int).len() == 0);
        }
        None
    }

    /// The stored block with `id`.
    pub fn get(&self, id: &BlockId) -> (r: Result<&Block, StorageError>)
        ensures
            r matches Ok(b) ==> find_block(self.blocks@, *id) == Some(*b),
            r is Err <==> find_block(self.blocks@, *id) is None,
            r matches Err(e) ==> e == (StorageError::NotFound { block_id: *id }),
    {
        match self.find_index(id) {
            Some(k) => Ok(&self.blocks[k]),
            None => Err(StorageError::NotFound { block_id: *id }),
        }
    }

    pub fn record_exists(&self, id: &BlockId) -> (r: bool)
        ensures
            r == find_block(self.blocks@, *id) is Some,
    {
        self.find_index(id).is_some()
    }

    /// Ids of the blocks whose parent is `id`, in store order.
    pub fn get_ids_by_parent(&self, id: &BlockId) -> (r: Vec<BlockId>)
        ensures
            r@ == self.blocks@.filter_map(|b: Block| child_id(b, *id)),
    {
        let mut out: Vec<BlockId> = Vec::new();
        let mut i: usize = 0;
        assert(self.blocks@.subrange(0, 0) =~= Seq::<Block>::empty());
        while i < self.blocks.len()
            invariant
                i <= self.blocks@.len(),
                out@ == self.blocks@.subrange(0, i as int).filter_map(|b: Block| child_id(b, *id)),
            decreases self.blocks@.len() - i,
        {
            assert(self.blocks@.subrange(0, i + 1).drop_last() =~= self.blocks@.subrange(0, i as int));
            if self.blocks[i].header.parent.equals(id) {
                out.push(self.blocks[i].header.id);
            }
            assert(out@ =~= self.blocks@.subrange(0, i + 1).filter_map(|b: Block| child_id(b, *id)));
            i = i + 1;
        }
        assert(self.blocks@.subrange(0, self.blocks@.len() as int) =~= self.blocks@);
        out
    }

    /// Ids of the blocks at `epoch` and `height`, in store order.
    pub fn get_ids_by_epoch_and_height(&self, epoch: Epoch, height: NodeHeight) -> (r: Vec<BlockId>)
        ensures
            r@ == self.blocks@.filter_map(|b: Block| id_at(b, epoch, height)),
    {
        let mut out: Vec<BlockId> = Vec::new();
        let mut i: usize = 0;
        assert(self.blocks@.subrange(0, 0) =~= Seq::<Block>::empty());
        while i < self.blocks.len()
            invariant
                i <= self.blocks@.len(),
                out@ == self.blocks@.subrange(0, i as int).filter_map(|b: Block| id_at(b, epoch, height)),
            decreases self.blocks@.len() - i,
        {
            assert(self.blocks@.subrange(0, i + 1).drop_last() =~= self.blocks@.subrange(0, i as int));
            if self.blocks[i].header.epoch == epoch && self.blocks[i].header.height == height {
                out.push(self.blocks[i].header.id);
            }
            assert(out@ =~= self.blocks@.subrange(0, i + 1).filter_map(|b: Block| id_at(b, epoch, height)));
            i = i + 1;
        }
        assert(self.blocks@.subrange(0, self.blocks@.len() as int) =~= self.blocks@);
        out
    }

    /// Whether `anc` is a proper ancestor of the stored block `desc`.
    pub fn is_ancestor(&self, desc: &BlockId, anc: &BlockId) -> (r: bool)
        ensures
            r == is_ancestor(self.blocks@, *desc, *anc),
    {
        let mut cur = *desc;
        let mut fuel: usize = self.blocks.len();
        while fuel > 0
            invariant
                fuel <= self.blocks@.len(),
                is_ancestor(self.blocks@, *desc, *anc) == ancestor_within(
                    self.blocks@,
                    cur,
                    *anc,
                    fuel as nat,
                ),
            decreases fuel,
        {
            match self.find_index(&cur) {
                None => {
                    return false;
                },
                Some(k) => {
                    let p = self.blocks[k].header.parent;
                    if p.equals(anc) {
                        return true;
                    }
                    cur = p;
                    fuel = fuel - 1;
                },
            }
        }
        false
    }

    /// Whether `block` descends from `ancestor` (it is not `ancestor` itself).
    pub fn extends(&self, block: &Block, ancestor: &BlockId) -> (r: bool)
        ensures
            r == extends(self.blocks@, *block, *ancestor),
    {
        if block.header.id.equals(ancestor) {
            return false;
        }
        if block.header.parent.equals(ancestor) {
            return true;
        }
        self.is_ancestor(&block.header.parent, ancestor)
    }
}

proof fn lemma_push_contains<T>(s: Seq<T>, v: T, t: T)
    ensures
        s.push(v).contains(t) <==> (s.contains(t) || t == v),
{
    if s.push(v).contains(t) {
        let k = choose|k: int| 0 <= k < s.push(v).len() && s.push(v)[k] == t;
        if k < s.len() {
            assert(s[k] == t);
        }
    }
    if s.contains(t) {
        let k = choose|k: int| 0 <= k < s.len() && s[k] == t;
        assert(s.push(v)[k] == t);
    }
    if t == v {
        assert(s.push(v)[s.len() as int] == t);
    }
}

proof fn lemma_drop_last_contains<T>(s: Seq<T>, t: T)
    requires
        s.len() > 0,
    ensures
        s.contains(t) <==> (s.drop_last().contains(t) || t == s.last()),
{
    assert(s == s.drop_last().push(s.last()));
    lemma_push_contains(s.drop_last(), s.last(), t);
}

pub proof fn lemma_filter_contains_iff<T>(s: Seq<T>, f: spec_fn(T) -> bool, t: T)
    ensures
        s.filter(f).contains(t) <==> (s.contains(t) && f(t)),
    decreases s.len(),
{
    reveal(Seq::filter);
    if s.len() > 0 {
        lemma_filter_contains_iff(s.drop_last(), f, t);
        lemma_drop_last_contains(s, t);
        if f(s.last()) {
            lemma_push_contains(s.drop_last().filter(f), s.last(), t);
        }
    }
}

pub proof fn lemma_filter_map_contains_iff<T, U>(s: Seq<T>, f: spec_fn(T) -> Option<U>, u: U)
    ensures
        s.filter_map(f).contains(u) <==> (exists|t: T| s.contains(t) && f(t) == Some(u)),
    decreases s.len(),
{
    if s.len() > 0 {
        let rest = s.drop_last();
        lemma_filter_map_contains_iff(rest, f, u);
        assert forall|t: T| s.contains(t) <==> (rest.contains(t) || t == s.last()) by {
            lemma_drop_last_contains(s, t);
        }
        match f(s.last()) {
            Some(v) => {
                assert(s.filter_map(f) == rest.filter_map(f).push(v));
                lemma_push_contains(rest.filter_map(f), v, u);
                if u == v {
                    assert(s.contains(s.last()) && f(s.last()) == Some(u));
                }
            },
            None => {},
        }
    } else {
        assert(s.filter_map(f).len() == 0);
    }
}

/// Whether some block in `blocks` has id `id`.
pub open spec fn has_id(blocks: Seq<Block>, id: BlockId) -> bool {
    exists|k: int| 0 <= k < blocks.len() && blocks[k].header.id == id
}

/// Blocks removed between two states of the store: stored before, gone after.
pub open spec fn removed_between(before: Seq<Block>, after: Seq<Block>, id: BlockId) -> bool {
    has_id(before, id) && !has_id(after, id)
}

/// Block `c` stands at `epoch` and `height` with an id other than `block_id`, or descends from
/// such a block through at most `fuel` parent links.
pub open spec fn parallel_descendant(ob: Seq<Block>, c: BlockId, epoch: Epoch, height: NodeHeight, block_id: BlockId, fuel: nat) -> bool
    decreases fuel,
{
    match find_block(ob, c) {
        None => false,
        Some(b) => (b.header.epoch == epoch && b.header.height == height && c != block_id) || (fuel > 0
            && parallel_descendant(ob, b.header.parent, epoch, height, block_id, (fuel - 1) as nat)),
    }
}

proof fn lemma_parallel_descendant_more_fuel(ob: Seq<Block>, c: BlockId, epoch: Epoch, height: NodeHeight, block_id: BlockId, fuel: nat)
    requires
        parallel_descendant(ob, c, epoch, height, block_id, fuel),
    ensures
        parallel_descendant(ob, c, epoch, height, block_id, fuel + 1),
    decreases fuel,
{
    let b = find_block(ob, c).unwrap();
    if !(b.header.epoch == epoch && b.header.height == height && c != block_id) {
        lemma_parallel_descendant_more_fuel(ob, b.header.parent, epoch, height, block_id, (fuel - 1) as nat);
    }
}

proof fn lemma_find_block_unique(s: Seq<Block>, q: int)
    requires
        ids_unique(s),
        0 <= q < s.len(),
    ensures
        find_block(s, s[q].header.id) == Some(s[q]),
{
    let c = s[q].header.id;
    if find_block(s, c) is None {
        lemma_find_block_none(s, c);
    }
    lemma_find_block_some(s, c);
    let k = choose|k: int| 0 <= k < s.len() && s[k] == find_block(s, c).unwrap() && find_block(s, c).unwrap().header.id == c;
    if k != q {
        if k < q {
        } else {
        }
    }
}

/// The block that `find_block` returns is stored under the id asked for.
pub proof fn lemma_find_block_some(s: Seq<Block>, id: BlockId)
    ensures
        find_block(s, id) matches Some(x) ==> exists|k: int| 0 <= k < s.len() && s[k] == x && x.header.id == id,
    decreases s.len(),
{
    if s.len() > 0 && s[0].header.id != id {
        lemma_find_block_some(s.drop_first(), id);
        if let Some(x) = find_block(s.drop_first(), id) {
            let k = choose|k: int| 0 <= k < s.drop_first().len() && s.drop_first()[k] == x && x.header.id == id;
            assert(s[k + 1] == x);
        }
    }
}

proof fn lemma_filter_map_none<T, U>(s: Seq<T>, f: spec_fn(T) -> Option<U>)
    requires
        forall|k: int| 0 <= k < s.len() ==> f(s[k]) is None,
    ensures
        s.filter_map(f) == Seq::<U>::empty(),
    decreases s.len(),
{
    if s.len() > 0 {
        lemma_filter_map_none(s.drop_last(), f);
        assert(f(s[s.len() - 1]) is None);
    } else {
        assert(s.filter_map(f) =~= Seq::<U>::empty());
    }
}

proof fn lemma_filter_map_single<T, U>(s: Seq<T>, f: spec_fn(T) -> Option<U>, k0: int, v: U)
    requires
        0 <= k0 < s.len(),
        f(s[k0]) == Some(v),
        forall|k: int| 0 <= k < s.len() && k != k0 ==> f(s[k]) is None,
    ensures
        s.filter_map(f) == seq![v],
    decreases s.len(),
{
    let t = s.drop_last();
    if k0 == s.len() - 1 {
        assert forall|k: int| 0 <= k < t.len() implies f(t[k]) is None by {
            assert(t[k] == s[k]);
        }
        lemma_filter_map_none(t, f);
        assert(s.filter_map(f) =~= seq![v]);
    } else {
        assert forall|k: int| 0 <= k < t.len() && k != k0 implies f(t[k]) is None by {
            assert(t[k] == s[k]);
        }
        assert(t[k0] == s[k0]);
        lemma_filter_map_single(t, f, k0, v);
        assert(f(s[s.len() - 1]) is None);
    }
}

/// Every table keeps, in order, exactly the rows whose block is not gone.
pub open spec fn tables_follow(old_s: StateStore, new_s: StateStore, gone: spec_fn(BlockId) -> bool) -> bool {
    &&& new_s.blocks@ == old_s.blocks@.filter(keep_rows::<Block>(gone))
    &&& new_s.block_diffs@ == old_s.block_diffs@.filter(keep_rows::<BlockDiff>(gone))
    &&& side_tables_follow(old_s, new_s, gone)
}

/// Holds of the rows whose block is not gone.
pub open spec fn keep_rows<T: BlockRow>(gone: spec_fn(BlockId) -> bool) -> spec_fn(T) -> bool {
    |t: T| !gone(t.row_block())
}

/// Membership in a list of block ids, as a predicate.
pub open spec fn in_list(removed: Seq<BlockId>) -> spec_fn(BlockId) -> bool {
    |id: BlockId| removed.contains(id)
}

proof fn lemma_keep_none<T: BlockRow>(s: Seq<T>)
    ensures
        s.filter(keep_rows::<T>(in_list(Seq::empty()))) == s,
    decreases s.len(),
{
    reveal(Seq::filter);
    if s.len() > 0 {
        lemma_keep_none(s.drop_last());
        assert(!Seq::<BlockId>::empty().contains(s.last().row_block()));
        assert(s.drop_last().push(s.last()) =~= s);
    }
}

proof fn lemma_keep_step<T: BlockRow>(s: Seq<T>, r: Seq<BlockId>, x: BlockId)
    ensures
        rows_not_in(s.filter(keep_rows::<T>(in_list(r))), x) == s.filter(keep_rows::<T>(in_list(r.push(x)))),
    decreases s.len(),
{
    reveal(Seq::filter);
    if s.len() > 0 {
        let t = s.drop_last();
        let v = s.last();
        lemma_keep_step(t, r, x);
        lemma_push_contains(r, x, v.row_block());
        let ft = t.filter(keep_rows::<T>(in_list(r)));
        if !r.contains(v.row_block()) {
            assert(s.filter(keep_rows::<T>(in_list(r))) == ft.push(v));
            assert(ft.push(v).drop_last() =~= ft);
            assert(rows_not_in(ft.push(v), x) == if v.row_block() != x { rows_not_in(ft, x).push(v) } else { rows_not_in(ft, x) });
        }
    }
}

proof fn lemma_keep_ext<T: BlockRow>(s: Seq<T>, g1: spec_fn(BlockId) -> bool, g2: spec_fn(BlockId) -> bool)
    requires
        forall|id: BlockId| #[trigger] g1(id) == g2(id),
    ensures
        s.filter(keep_rows::<T>(g1)) == s.filter(keep_rows::<T>(g2)),
    decreases s.len(),
{
    reveal(Seq::filter);
    if s.len() > 0 {
        lemma_keep_ext(s.drop_last(), g1, g2);
        assert(g1(s.last().row_block()) == g2(s.last().row_block()));
    }
}

/// Everything but the per-block tables is unchanged.
pub open spec fn same_outside_tables(a: StateStore, b: StateStore) -> bool {
    &&& a.substates@ == b.substates@
    &&& same_markers(a, b)
}

/// The markers and the send counters are the same in both stores.
pub open spec fn same_markers(a: StateStore, b: StateStore) -> bool {
    &&& a.locked@ == b.locked@
    &&& a.last_executed@ == b.last_executed@
    &&& a.foreign_send_counters@ == b.foreign_send_counters@
    &&& a.leaf == b.leaf
    &&& a.high_qc == b.high_qc
    &&& a.last_voted == b.last_voted
    &&& a.last_proposed == b.last_proposed
}

proof fn lemma_find_block_none(s: Seq<Block>, id: BlockId)
    requires
        find_block(s, id) is None,
    ensures
        forall|k: int| 0 <= k < s.len() ==> s[k].header.id != id,
    decreases s.len(),
{
    if s.len() > 0 {
        lemma_find_block_none(s.drop_first(), id);
        assert forall|k: int| 0 <= k < s.len() implies s[k].header.id != id by {
            if k > 0 {
                assert(s[k] == s.drop_first()[k - 1]);
            }
        }
    }
}

proof fn lemma_ids_unique_after_removal(s: Seq<Block>, x: BlockId)
    requires
        ids_unique(s),
    ensures
        ids_unique(rows_not_in(s, x)),
    decreases s.len(),
{
    reveal(Seq::filter);
    if s.len() > 0 {
        let t = s.drop_last();
        assert(ids_unique(t));
        lemma_ids_unique_after_removal(t, x);
        let ft = rows_not_in(t, x);
        if s.last().header.id != x {
            assert(rows_not_in(s, x) == ft.push(s.last()));
            assert forall|i: int| 0 <= i < ft.len() implies ft[i].header.id != s.last().header.id by {
                assert(ft.contains(ft[i]));
                lemma_rows_not_in_contains(t, x, ft[i]);
                let k = choose|k: int| 0 <= k < t.len() && t[k] == ft[i];
                assert(s[k] == t[k]);
            }
        } else {
            assert(rows_not_in(s, x) == ft);
        }
    }
}

/// Removing the rows of block `x` keeps the block invariants.
proof fn lemma_blocks_wf_after_removal(s: Seq<Block>, x: BlockId)
    requires
        committed_unique(s),
        ids_unique(s),
        ids_valid(s),
    ensures
        committed_unique(rows_not_in(s, x)),
        ids_unique(rows_not_in(s, x)),
        ids_valid(rows_not_in(s, x)),
{
    let r = rows_not_in(s, x);
    assert forall|tb: Block| r.contains(tb) implies s.contains(tb) by {
        lemma_rows_not_in_contains(s, x, tb);
    }
    lemma_committed_unique_subset(s, r);
    lemma_ids_unique_after_removal(s, x);
    assert forall|k: int| 0 <= k < r.len() && r[k].header.id.0@ != crate::bytes::zero_hash()
        implies crate::block::header_id_valid(#[trigger] r[k].header) by {
        assert(r.contains(r[k]));
        let q = choose|q: int| 0 <= q < s.len() && s[q] == r[k];
    }
}

/// Changing a block's flags keeps the id invariants.
proof fn lemma_blocks_flag_update(s: Seq<Block>, k: int, nb: Block)
    requires
        0 <= k < s.len(),
        nb.header == s[k].header,
        ids_unique(s),
        ids_valid(s),
    ensures
        ids_unique(s.update(k, nb)),
        ids_valid(s.update(k, nb)),
{
    let u = s.update(k, nb);
    assert forall|i: int, j: int| 0 <= i < j < u.len() implies u[i].header.id != u[j].header.id by {
        assert(u[i].header == s[i].header);
        assert(u[j].header == s[j].header);
    }
    assert forall|q: int| 0 <= q < u.len() && u[q].header.id.0@ != crate::bytes::zero_hash()
        implies crate::block::header_id_valid(#[trigger] u[q].header) by {
        assert(u[q].header == s[q].header);
    }
}

proof fn lemma_committed_unique_subset(a: Seq<Block>, b: Seq<Block>)
    requires
        committed_unique(a),
        forall|t: Block| b.contains(t) ==> a.contains(t),
    ensures
        committed_unique(b),
{
    assert forall|i: int, j: int|
        0 <= i < b.len() && 0 <= j < b.len() && b[i].is_committed && b[j].is_committed
            && b[i].header.epoch == b[j].header.epoch && b[i].header.height == b[j].header.height
        implies b[i].header.id == b[j].header.id by {
        assert(b.contains(b[i]));
        assert(b.contains(b[j]));
        let p = choose|p: int| 0 <= p < a.len() && a[p] == b[i];
        let q = choose|q: int| 0 <= q < a.len() && a[q] == b[j];
    }
}

impl StateStore {
    /// Deletes block `x` and every row that belongs to it.
    fn remove_block_rows(&mut self, x: BlockId)
        ensures
            final(self).blocks@ == rows_not_in(old(self).blocks@, x),
            final(self).block_diffs@ == rows_not_in(old(self).block_diffs@, x),
            final(self).pending_tree_diffs@ == rows_not_in(old(self).pending_tree_diffs@, x),
            final(self).substate_locks@ == rows_not_in(old(self).substate_locks@, x),
            final(self).pool_updates@ == rows_not_in(old(self).pool_updates@, x),
            final(self).executions@ == rows_not_in(old(self).executions@, x),
            final(self).foreign_marks@ == rows_not_in(old(self).foreign_marks@, x),
            same_outside_tables(*old(self), *final(self)),
    {
        retain_rows_not_in(&mut self.blocks, x);
        retain_rows_not_in(&mut self.block_diffs, x);
        retain_rows_not_in(&mut self.pending_tree_diffs, x);
        retain_rows_not_in(&mut self.substate_locks, x);
        retain_rows_not_in(&mut self.pool_updates, x);
        retain_rows_not_in(&mut self.executions, x);
        retain_rows_not_in(&mut self.foreign_marks, x);
    }
}

proof fn lemma_concat_contains<T>(a: Seq<T>, b: Seq<T>, t: T)
    ensures
        (a + b).contains(t) <==> (a.contains(t) || b.contains(t)),
{
    if (a + b).contains(t) {
        let k = choose|k: int| 0 <= k < (a + b).len() && (a + b)[k] == t;
        if k < a.len() {
            assert(a[k] == t);
        } else {
            assert(b[k - a.len()] == t);
        }
    }
    if a.contains(t) {
        let k = choose|k: int| 0 <= k < a.len() && a[k] == t;
        assert((a + b)[k] == t);
    }
    if b.contains(t) {
        let k = choose|k: int| 0 <= k < b.len() && b[k] == t;
        assert((a + b)[k + a.len()] == t);
    }
}

proof fn lemma_filter_len_strict<T>(s: Seq<T>, f: spec_fn(T) -> bool, k: int)
    requires
        0 <= k < s.len(),
        !f(s[k]),
    ensures
        s.filter(f).len() < s.len(),
    decreases s.len(),
{
    reveal(Seq::filter);
    s.drop_last().lemma_filter_len(f);
    if k < s.len() - 1 {
        assert(s.drop_last()[k] == s[k]);
        lemma_filter_len_strict(s.drop_last(), f, k);
    }
}

proof fn lemma_rows_not_in_contains<T: BlockRow>(s: Seq<T>, x: BlockId, t: T)
    ensures
        rows_not_in(s, x).contains(t) <==> (s.contains(t) && t.row_block() != x),
{
    lemma_filter_contains_iff(s, not_in_block::<T>(x), t);
}

proof fn lemma_rows_not_in_shrinks<T: BlockRow>(s: Seq<T>, x: BlockId, k: int)
    requires
        0 <= k < s.len(),
        s[k].row_block() == x,
    ensures
        rows_not_in(s, x).len() < s.len(),
{
    lemma_filter_len_strict(s, not_in_block::<T>(x), k);
}

proof fn lemma_find_block_after_removal(s: Seq<Block>, y: BlockId, x: BlockId)
    requires
        x != y,
    ensures
        find_block(rows_not_in(s, y), x) == find_block(s, x),
    decreases s.len(),
{
    if s.len() > 0 {
        let rest = s.drop_first();
        assert(s == seq![s[0]] + rest);
        rest.lemma_filter_prepend(s[0], not_in_block::<Block>(y));
        lemma_find_block_after_removal(rest, y, x);
        let f = rows_not_in(s, y);
        if s[0].header.id != y {
            assert(f == seq![s[0]] + rows_not_in(rest, y));
            assert(f[0] == s[0]);
            assert(f.drop_first() =~= rows_not_in(rest, y));
        } else {
            assert(f =~= rows_not_in(rest, y));
        }
    } else {
        reveal(Seq::filter);
    }
}

proof fn lemma_find_block_update(s: Seq<Block>, k: int, nb: Block, id: BlockId)
    requires
        0 <= k < s.len(),
        s[k].header.id == id,
        nb.header.id == id,
        forall|j: int| 0 <= j < k ==> s[j].header.id != id,
    ensures
        find_block(s.update(k, nb), id) == Some(nb),
    decreases k,
{
    let u = s.update(k, nb);
    if k > 0 {
        assert(u[0] == s[0]);
        assert(u.drop_first() =~= s.drop_first().update(k - 1, nb));
        lemma_find_block_update(s.drop_first(), k - 1, nb, id);
    } else {
        assert(u[0] == nb);
    }
}

/// Every table keeps exactly the rows whose block is not listed in `removed`.
pub open spec fn tables_follow_list(old_s: StateStore, new_s: StateStore, removed: Seq<BlockId>) -> bool {
    &&& forall|t: Block| new_s.blocks@.contains(t) <==> (old_s.blocks@.contains(t) && !removed.contains(t.row_block()))
    &&& forall|t: BlockDiff| new_s.block_diffs@.contains(t) <==> (old_s.block_diffs@.contains(t) && !removed.contains(t.row_block()))
    &&& forall|t: PendingStateTreeDiff| new_s.pending_tree_diffs@.contains(t) <==> (old_s.pending_tree_diffs@.contains(t) && !removed.contains(t.row_block()))
    &&& forall|t: LockedSubstate| new_s.substate_locks@.contains(t) <==> (old_s.substate_locks@.contains(t) && !removed.contains(t.row_block()))
    &&& forall|t: TransactionPoolUpdate| new_s.pool_updates@.contains(t) <==> (old_s.pool_updates@.contains(t) && !removed.contains(t.row_block()))
    &&& forall|t: TransactionExecution| new_s.executions@.contains(t) <==> (old_s.executions@.contains(t) && !removed.contains(t.row_block()))
    &&& forall|t: ForeignProposalMark| new_s.foreign_marks@.contains(t) <==> (old_s.foreign_marks@.contains(t) && !removed.contains(t.row_block()))
}

/// The id of `b` where its parent is `parent` and it is not `skip`.
pub open spec fn child_id_except(b: Block, parent: BlockId, skip: BlockId) -> Option<BlockId> {
    if b.header.parent == parent && b.header.id != skip {
        Some(b.header.id)
    } else {
        None
    }
}

impl StateStore {
    /// Ids of the children of `parent`, leaving out `skip`.
    fn children_except(&self, parent: &BlockId, skip: &BlockId) -> (r: Vec<BlockId>)
        ensures
            r@ == self.blocks@.filter_map(|b: Block| child_id_except(b, *parent, *skip)),
    {
        let mut out: Vec<BlockId> = Vec::new();
        let mut i: usize = 0;
        assert(self.blocks@.subrange(0, 0) =~= Seq::<Block>::empty());
        while i < self.blocks.len()
            invariant
                i <= self.blocks@.len(),
                out@ == self.blocks@.subrange(0, i as int).filter_map(|b: Block| child_id_except(b, *parent, *skip)),
            decreases self.blocks@.len() - i,
        {
            assert(self.blocks@.subrange(0, i + 1).drop_last() =~= self.blocks@.subrange(0, i as int));
            if self.blocks[i].header.parent.equals(parent) && !self.blocks[i].header.id.equals(skip) {
                out.push(self.blocks[i].header.id);
            }
            assert(out@ =~= self.blocks@.subrange(0, i + 1).filter_map(|b: Block| child_id_except(b, *parent, *skip)));
            i = i + 1;
        }
        assert(self.blocks@.subrange(0, self.blocks@.len() as int) =~= self.blocks@);
        out
    }

    /// Deletes every other block at the epoch and height of `block_id`, with all of their
    /// descendants and every row that belongs to a deleted block.
    pub fn remove_parallel_chains(&mut self, block_id: &BlockId) -> (r: Result<(), StorageError>)
        requires
            old(self).wf(),
        ensures
            final(self).wf(),
            r is Err <==> find_block(old(self).blocks@, *block_id) is None,
            r matches Err(e) ==> e == (StorageError::NotFound { block_id: *block_id }),
            r is Err ==> *final(self) == *old(self),
            r is Ok ==> parallel_chains_removed(*old(self), *final(self), *block_id),
            r is Ok ==> find_block(final(self).blocks@, *block_id) == find_block(old(self).blocks@, *block_id),
    {
        let k0 = match self.find_index(block_id) {
            Some(k) => k,
            None => {
                return Err(StorageError::NotFound { block_id: *block_id });
            },
        };
        let epoch = self.blocks[k0].header.epoch;
        let height = self.blocks[k0].header.height;
        let ghost old_s = *self;
        let ghost ob = self.blocks@;
        let mut work = self.get_ids_by_epoch_and_height(epoch, height);
        let ghost removed: Seq<BlockId> = Seq::empty();
        // drop `block_id` itself from the targets
        let mut targets: Vec<BlockId> = Vec::new();
        let mut t: usize = 0;
        while t < work.len()
            invariant
                t <= work@.len(),
                work@ == ob.filter_map(|b: Block| id_at(b, epoch, height)),
                forall|c: BlockId| targets@.contains(c) <==> (exists|j: int| 0 <= j < t && work@[j] == c && c != *block_id),
            decreases work@.len() - t,
        {
            let ghost before = targets@;
            if !work[t].equals(block_id) {
                targets.push(work[t]);
            }
            proof {
                assert forall|c: BlockId| targets@.contains(c) <==> (exists|j: int| 0 <= j < t + 1 && work@[j] == c && c != *block_id) by {
                    lemma_push_contains(before, work@[t as int], c);
                    if exists|j: int| 0 <= j < t + 1 && work@[j] == c && c != *block_id {
                        let j = choose|j: int| 0 <= j < t + 1 && work@[j] == c && c != *block_id;
                        if j < t {
                            assert(before.contains(c));
                        }
                    }
                }
            }
            t = t + 1;
        }
        let ghost all_at = work@;
        proof {
            assert forall|c: BlockId| targets@.contains(c) implies has_id(ob, c) by {
                let j = choose|j: int| 0 <= j < all_at.len() && all_at[j] == c && c != *block_id;
                assert(all_at.contains(c));
                lemma_filter_map_contains_iff(ob, |b: Block| id_at(b, epoch, height), c);
                let bb = choose|bb: Block| ob.contains(bb) && id_at(bb, epoch, height) == Some(c);
                let q = choose|q: int| 0 <= q < ob.len() && ob[q] == bb;
            }
            assert forall|k: int| 0 <= k < ob.len() && ob[k].header.epoch == epoch && ob[k].header.height == height
                && ob[k].header.id != *block_id implies targets@.contains(ob[k].header.id) by {
                assert(ob.contains(ob[k]));
                lemma_filter_map_contains_iff(ob, |b: Block| id_at(b, epoch, height), ob[k].header.id);
                let j = choose|j: int| 0 <= j < all_at.len() && all_at[j] == ob[k].header.id;
            }
        }
        proof {
            assert forall|c: BlockId| targets@.contains(c) implies parallel_descendant(ob, c, epoch, height, *block_id, removed.len() as nat) by {
                let j = choose|j: int| 0 <= j < all_at.len() && all_at[j] == c && c != *block_id;
                assert(all_at.contains(c));
                lemma_filter_map_contains_iff(ob, |b: Block| id_at(b, epoch, height), c);
                let bb = choose|bb: Block| ob.contains(bb) && id_at(bb, epoch, height) == Some(c);
                let q = choose|q: int| 0 <= q < ob.len() && ob[q] == bb;
                lemma_find_block_unique(ob, q);
            }
            lemma_keep_none(self.blocks@);
            lemma_keep_none(self.block_diffs@);
            lemma_keep_none(self.pending_tree_diffs@);
            lemma_keep_none(self.substate_locks@);
            lemma_keep_none(self.pool_updates@);
            lemma_keep_none(self.executions@);
            lemma_keep_none(self.foreign_marks@);
        }
        let mut work = targets;
        while work.len() > 0
            invariant
                old_s == *old(self),
                ob == old_s.blocks@,
                old_s.wf(),
                tables_follow_list(old_s, *self, removed),
                tables_follow(old_s, *self, in_list(removed)),
                forall|c: BlockId| (removed.contains(c) || work@.contains(c)) ==> parallel_descendant(ob, c, epoch, height, *block_id, removed.len() as nat),
                self.wf(),
                same_outside_tables(old_s, *self),
                !removed.contains(*block_id),
                !work@.contains(*block_id),
                forall|c: BlockId| work@.contains(c) ==> has_id(ob, c),
                forall|c: BlockId| removed.contains(c) ==> has_id(ob, c),
                forall|k: int| 0 <= k < ob.len() && ob[k].header.epoch == epoch && ob[k].header.height == height
                    && ob[k].header.id != *block_id ==> (removed.contains(ob[k].header.id) || work@.contains(ob[k].header.id)),
                forall|k: int| 0 <= k < ob.len() && removed.contains(ob[k].header.parent) && ob[k].header.id != *block_id
                    ==> (removed.contains(ob[k].header.id) || work@.contains(ob[k].header.id)),
                forall|k: int| 0 <= k < ob.len() && ob[k].header.id == *block_id ==> self.blocks@.contains(ob[k]),
                find_block(self.blocks@, *block_id) == find_block(ob, *block_id),
            decreases self.blocks@.len(), work@.len(),
        {
            let ghost work_before = work@;
            let ghost cur = *self;
            let x = work.pop().unwrap();
            proof {
                assert(work_before == work@.push(x));
                assert forall|c: BlockId| work_before.contains(c) <==> (work@.contains(c) || c == x) by {
                    lemma_push_contains(work@, x, c);
                }
            }
            match self.find_index(&x) {
                None => {
                    proof {
                        assert forall|c: BlockId| (removed.contains(c) || work@.contains(c)) implies parallel_descendant(ob, c, epoch, height, *block_id, removed.len() as nat) by {
                            assert(work_before.contains(c) || removed.contains(c));
                        }
                        // `x` was removed before: its rows and children are already handled
                        assert(has_id(ob, x));
                        let q = choose|q: int| 0 <= q < ob.len() && ob[q].header.id == x;
                        if !removed.contains(x) {
                            assert(ob.contains(ob[q]));
                            assert(self.blocks@.contains(ob[q]));
                            let z = choose|z: int| 0 <= z < self.blocks@.len() && self.blocks@[z] == ob[q];
                        }
                    }
                },
                Some(kx) => {
                    let mut kids = self.children_except(&x, block_id);
                    let ghost kids_seq = kids@;
                    proof {
                        assert(x != *block_id);
                        lemma_rows_not_in_shrinks(self.blocks@, x, kx as int);
                    }
                    self.remove_block_rows(x);
                    proof {
                        lemma_find_block_after_removal(cur.blocks@, x, *block_id);
                        let newr = removed.push(x);
                        assert forall|id: BlockId| newr.contains(id) <==> (removed.contains(id) || id == x) by {
                            lemma_push_contains(removed, x, id);
                        }
                        assert forall|tb: Block| self.blocks@.contains(tb) <==> (old_s.blocks@.contains(tb) && !newr.contains(tb.row_block())) by {
                            lemma_rows_not_in_contains(cur.blocks@, x, tb);
                            assert(newr.contains(tb.row_block()) <==> (removed.contains(tb.row_block()) || tb.row_block() == x));
                        }
                        assert forall|tb: BlockDiff| self.block_diffs@.contains(tb) <==> (old_s.block_diffs@.contains(tb) && !newr.contains(tb.row_block())) by {
                            lemma_rows_not_in_contains(cur.block_diffs@, x, tb);
                            assert(newr.contains(tb.row_block()) <==> (removed.contains(tb.row_block()) || tb.row_block() == x));
                        }
                        assert forall|tb: PendingStateTreeDiff| self.pending_tree_diffs@.contains(tb) <==> (old_s.pending_tree_diffs@.contains(tb) && !newr.contains(tb.row_block())) by {
                            lemma_rows_not_in_contains(cur.pending_tree_diffs@, x, tb);
                            assert(newr.contains(tb.row_block()) <==> (removed.contains(tb.row_block()) || tb.row_block() == x));
                        }
                        assert forall|tb: LockedSubstate| self.substate_locks@.contains(tb) <==> (old_s.substate_locks@.contains(tb) && !newr.contains(tb.row_block())) by {
                            lemma_rows_not_in_contains(cur.substate_locks@, x, tb);
                            assert(newr.contains(tb.row_block()) <==> (removed.contains(tb.row_block()) || tb.row_block() == x));
                        }
                        assert forall|tb: TransactionPoolUpdate| self.pool_updates@.contains(tb) <==> (old_s.pool_updates@.contains(tb) && !newr.contains(tb.row_block())) by {
                            lemma_rows_not_in_contains(cur.pool_updates@, x, tb);
                            assert(newr.contains(tb.row_block()) <==> (removed.contains(tb.row_block()) || tb.row_block() == x));
                        }
                        assert forall|tb: TransactionExecution| self.executions@.contains(tb) <==> (old_s.executions@.contains(tb) && !newr.contains(tb.row_block())) by {
                            lemma_rows_not_in_contains(cur.executions@, x, tb);
                            assert(newr.contains(tb.row_block()) <==> (removed.contains(tb.row_block()) || tb.row_block() == x));
                        }
                        assert forall|tb: ForeignProposalMark| self.foreign_marks@.contains(tb) <==> (old_s.foreign_marks@.contains(tb) && !newr.contains(tb.row_block())) by {
                            lemma_rows_not_in_contains(cur.foreign_marks@, x, tb);
                            assert(newr.contains(tb.row_block()) <==> (removed.contains(tb.row_block()) || tb.row_block() == x));
                        }
                        let wb = work@;
                        assert forall|k: int| 0 <= k < ob.len() && newr.contains(ob[k].header.parent) && ob[k].header.id != *block_id
                            implies (newr.contains(ob[k].header.id) || (wb + kids_seq).contains(ob[k].header.id)) by {
                            lemma_concat_contains(wb, kids_seq, ob[k].header.id);
                            if ob[k].header.parent == x && !removed.contains(ob[k].header.parent) {
                                if !removed.contains(ob[k].header.id) {
                                    assert(ob.contains(ob[k]));
                                    assert(cur.blocks@.contains(ob[k]));
                                    lemma_filter_map_contains_iff(cur.blocks@, |b: Block| child_id_except(b, x, *block_id), ob[k].header.id);
                                }
                            }
                        }
                        assert forall|k: int| 0 <= k < ob.len() && ob[k].header.id == *block_id implies self.blocks@.contains(ob[k]) by {
                            lemma_rows_not_in_contains(cur.blocks@, x, ob[k]);
                        }
                        assert forall|c: BlockId| kids_seq.contains(c) implies has_id(ob, c) && c != *block_id by {
                            lemma_filter_map_contains_iff(cur.blocks@, |b: Block| child_id_except(b, x, *block_id), c);
                            let bb = choose|bb: Block| cur.blocks@.contains(bb) && child_id_except(bb, x, *block_id) == Some(c);
                            assert(old_s.blocks@.contains(bb));
                            let q = choose|q: int| 0 <= q < ob.len() && ob[q] == bb;
                        }
                        assert forall|c: BlockId| (wb + kids_seq).contains(c) <==> (wb.contains(c) || kids_seq.contains(c)) by {
                            lemma_concat_contains(wb, kids_seq, c);
                        }
                        lemma_blocks_wf_after_removal(cur.blocks@, x);
                        lemma_keep_step(old_s.blocks@, removed, x);
                        lemma_keep_step(old_s.block_diffs@, removed, x);
                        lemma_keep_step(old_s.pending_tree_diffs@, removed, x);
                        lemma_keep_step(old_s.substate_locks@, removed, x);
                        lemma_keep_step(old_s.pool_updates@, removed, x);
                        lemma_keep_step(old_s.executions@, removed, x);
                        lemma_keep_step(old_s.foreign_marks@, removed, x);
                        assert(parallel_descendant(ob, x, epoch, height, *block_id, removed.len() as nat));
                        assert forall|c: BlockId| (newr.contains(c) || (wb + kids_seq).contains(c)) implies parallel_descendant(ob, c, epoch, height, *block_id, newr.len() as nat) by {
                            lemma_push_contains(removed, x, c);
                            if kids_seq.contains(c) {
                                lemma_filter_map_contains_iff(cur.blocks@, |b: Block| child_id_except(b, x, *block_id), c);
                                let bb = choose|bb: Block| cur.blocks@.contains(bb) && child_id_except(bb, x, *block_id) == Some(c);
                                assert(old_s.blocks@.contains(bb));
                                let q = choose|q: int| 0 <= q < ob.len() && ob[q] == bb;
                                lemma_find_block_unique(ob, q);
                            } else {
                                assert(removed.contains(c) || work_before.contains(c));
                                lemma_parallel_descendant_more_fuel(ob, c, epoch, height, *block_id, removed.len() as nat);
                            }
                        }
                    }
                    work.append(&mut kids);
                    proof {
                        removed = removed.push(x);
                    }
                },
            }
        }
        proof {
            assert forall|id: BlockId| removed.contains(id) <==> removed_between(ob, self.blocks@, id) by {
                if removed.contains(id) {
                    if has_id(self.blocks@, id) {
                        let z = choose|z: int| 0 <= z < self.blocks@.len() && self.blocks@[z].header.id == id;
                        assert(self.blocks@.contains(self.blocks@[z]));
                    }
                }
                if removed_between(ob, self.blocks@, id) && !removed.contains(id) {
                    let q = choose|q: int| 0 <= q < ob.len() && ob[q].header.id == id;
                    assert(ob.contains(ob[q]));
                    assert(self.blocks@.contains(ob[q]));
                    let z = choose|z: int| 0 <= z < self.blocks@.len() && self.blocks@[z] == ob[q];
                }
            }
            assert forall|k: int| 0 <= k < self.blocks@.len() && self.blocks@[k].header.epoch == epoch
                && self.blocks@[k].header.height == height implies self.blocks@[k].header.id == *block_id by {
                assert(self.blocks@.contains(self.blocks@[k]));
                let q = choose|q: int| 0 <= q < ob.len() && ob[q] == self.blocks@[k];
            }
            assert forall|k: int| 0 <= k < self.blocks@.len() && self.blocks@[k].header.id != *block_id
                implies !removed_between(ob, self.blocks@, self.blocks@[k].header.parent) by {
                assert(self.blocks@.contains(self.blocks@[k]));
                let q = choose|q: int| 0 <= q < ob.len() && ob[q] == self.blocks@[k];
            }
            assert(ob.contains(ob[k0 as int]));
            assert(self.blocks@.contains(ob[k0 as int]));
            let z = choose|z: int| 0 <= z < self.blocks@.len() && self.blocks@[z] == ob[k0 as int];
            assert(has_id(self.blocks@, *block_id));
            let gone = |id: BlockId| removed_between(ob, self.blocks@, id);
            lemma_keep_ext(old_s.blocks@, in_list(removed), gone);
            lemma_keep_ext(old_s.block_diffs@, in_list(removed), gone);
            lemma_keep_ext(old_s.pending_tree_diffs@, in_list(removed), gone);
            lemma_keep_ext(old_s.substate_locks@, in_list(removed), gone);
            lemma_keep_ext(old_s.pool_updates@, in_list(removed), gone);
            lemma_keep_ext(old_s.executions@, in_list(removed), gone);
            lemma_keep_ext(old_s.foreign_marks@, in_list(removed), gone);
            assert(tables_follow(old_s, *self, gone));
            // which blocks went: those at the epoch and height, and their descendants
            assert forall|k: int| 0 <= k < ob.len() && removed_between(ob, self.blocks@, ob[k].header.id)
                implies (exists|f: nat| parallel_descendant(ob, #[trigger] ob[k].header.id, epoch, height, *block_id, f)) by {
                assert(removed.contains(ob[k].header.id));
                assert(parallel_descendant(ob, ob[k].header.id, epoch, height, *block_id, removed.len() as nat));
            }
            // exactly one block remains at the epoch and height
            lemma_find_block_some(self.blocks@, *block_id);
            lemma_find_block_some(ob, *block_id);
            let z = choose|z: int| 0 <= z < self.blocks@.len() && self.blocks@[z] == find_block(ob, *block_id).unwrap()
                && find_block(ob, *block_id).unwrap().header.id == *block_id;
            assert(self.blocks@[z].header.epoch == epoch && self.blocks@[z].header.height == height);
            assert forall|k: int| 0 <= k < self.blocks@.len() && k != z implies id_at(self.blocks@[k], epoch, height) is None by {
                if self.blocks@[k].header.epoch == epoch && self.blocks@[k].header.height == height {
                    if k < z {
                    } else {
                    }
                }
            }
            lemma_filter_map_single(self.blocks@, |bb: Block| id_at(bb, epoch, height), z, *block_id);
        }
        Ok(())
    }
}

/// What removing the parallel chains of `block_id` leaves: the block itself, and no other block,
/// at its epoch and height; no block whose parent was deleted; a block deleted only when it
/// stood at that epoch and height with another id or descends from such a block; and every
/// table in order, less the rows of the deleted blocks.
pub open spec fn parallel_chains_removed(old_s: StateStore, new_s: StateStore, block_id: BlockId) -> bool {
    let b = find_block(old_s.blocks@, block_id).unwrap();
    &&& has_id(new_s.blocks@, block_id)
    &&& forall|k: int| 0 <= k < new_s.blocks@.len() && new_s.blocks@[k].header.epoch == b.header.epoch
        && new_s.blocks@[k].header.height == b.header.height ==> new_s.blocks@[k].header.id == block_id
    &&& forall|k: int| 0 <= k < new_s.blocks@.len() && new_s.blocks@[k].header.id != block_id
        ==> !removed_between(old_s.blocks@, new_s.blocks@, new_s.blocks@[k].header.parent)
    &&& new_s.blocks@.filter_map(|bb: Block| id_at(bb, b.header.epoch, b.header.height)) == seq![block_id]
    &&& forall|k: int| 0 <= k < old_s.blocks@.len() && removed_between(old_s.blocks@, new_s.blocks@, old_s.blocks@[k].header.id)
        ==> (exists|f: nat| parallel_descendant(old_s.blocks@, #[trigger] old_s.blocks@[k].header.id, b.header.epoch, b.header.height, block_id, f))
    &&& tables_follow(old_s, new_s, |id: BlockId| removed_between(old_s.blocks@, new_s.blocks@, id))
    &&& same_outside_tables(old_s, new_s)
}

/// The blocks from `id` down its parent chain while their height is above `floor`, lowest first;
/// `None` where a block is missing or the chain is longer than `fuel`.
pub open spec fn chain_above(blocks: Seq<Block>, id: BlockId, floor: NodeHeight, fuel: nat) -> Option<Seq<BlockId>>
    decreases fuel,
{
    match find_block(blocks, id) {
        None => None,
        Some(b) => if b.header.height <= floor {
            Some(Seq::empty())
        } else if fuel == 0 {
            None
        } else {
            match chain_above(blocks, b.header.parent, floor, (fuel - 1) as nat) {
                None => None,
                Some(s) => Some(s.push(id)),
            }
        },
    }
}

/// A marker on block `b`.
pub open spec fn marker_of(b: Block) -> BlockMarker {
    BlockMarker { epoch: b.header.epoch, height: b.header.height, block_id: b.header.id }
}

/// The high QC after seeing `qc`: it advances only to a higher block.
pub open spec fn next_high_qc(cur: HighQc, qc: QuorumCertificate) -> HighQc {
    if qc.block_height > cur.block_height {
        HighQc { epoch: qc.epoch, block_id: qc.block_id, block_height: qc.block_height, qc_id: qc.qc_id }
    } else {
        cur
    }
}

/// The safeNode predicate: the proposal's QC is above the locked block of its epoch (liveness),
/// or the proposal extends that block (safety).
pub open spec fn safe_node(blocks: Seq<Block>, locked: Seq<BlockMarker>, proposal: Block) -> bool {
    let l = marker_in(locked, proposal.header.epoch);
    proposal.justify.block_height > l.height || extends(blocks, proposal, l.block_id)
}

/// The start of an epoch: height zero, on the zero block.
pub open spec fn start_marker(epoch: Epoch) -> BlockMarker {
    BlockMarker { epoch, height: 0, block_id: BlockId(crate::updates::zero_array()) }
}

/// The marker of `epoch` (markers are singletons per epoch): the first entry for it, else the
/// start of the epoch.
pub open spec fn marker_in(ms: Seq<BlockMarker>, epoch: Epoch) -> BlockMarker
    decreases ms.len(),
{
    if ms.len() == 0 {
        start_marker(epoch)
    } else if ms[0].epoch == epoch {
        ms[0]
    } else {
        marker_in(ms.drop_first(), epoch)
    }
}

/// The marker of `epoch`.
pub fn marker_for(ms: &Vec<BlockMarker>, epoch: Epoch) -> (r: BlockMarker)
    ensures
        r == marker_in(ms@, epoch),
{
    let mut i: usize = 0;
    assert(ms@.skip(0) =~= ms@);
    while i < ms.len()
        invariant
            i <= ms@.len(),
            marker_in(ms@, epoch) == marker_in(ms@.skip(i as int), epoch),
        decreases ms@.len() - i,
    {
        assert(ms@.skip(i as int).drop_first() =~= ms@.skip(i + 1));
        if ms[i].epoch == epoch {
            return ms[i];
        }
        i = i + 1;
    }
    let z = crate::bytes::zero_bytes();
    proof {
        assert(exists|a: FixedHash| a@ == crate::bytes::zero_hash());
        let c = crate::updates::zero_array();
        assert(c =~= z);
    }
    BlockMarker { epoch, height: 0, block_id: BlockId(z) }
}

proof fn lemma_marker_update(ms: Seq<BlockMarker>, k: int, m: BlockMarker, e: Epoch)
    requires
        0 <= k < ms.len(),
        ms[k].epoch == m.epoch,
        forall|j: int| 0 <= j < k ==> ms[j].epoch != m.epoch,
    ensures
        marker_in(ms.update(k, m), e) == if e == m.epoch { m } else { marker_in(ms, e) },
    decreases k,
{
    let n = ms.update(k, m);
    if k > 0 {
        assert(n[0] == ms[0]);
        assert(n.drop_first() =~= ms.drop_first().update(k - 1, m));
        lemma_marker_update(ms.drop_first(), k - 1, m, e);
    } else {
        assert(n[0] == m);
        assert(n.drop_first() =~= ms.drop_first());
    }
}

proof fn lemma_marker_push(ms: Seq<BlockMarker>, m: BlockMarker, e: Epoch)
    requires
        forall|j: int| 0 <= j < ms.len() ==> ms[j].epoch != m.epoch,
    ensures
        marker_in(ms.push(m), e) == if e == m.epoch { m } else { marker_in(ms, e) },
    decreases ms.len(),
{
    let n = ms.push(m);
    if ms.len() > 0 {
        assert(n[0] == ms[0]);
        assert(n.drop_first() =~= ms.drop_first().push(m));
        lemma_marker_push(ms.drop_first(), m, e);
    } else {
        assert(n[0] == m);
        assert(n.drop_first() =~= Seq::<BlockMarker>::empty());
        assert(marker_in(n.drop_first(), e) == start_marker(e));
        assert(marker_in(ms, e) == start_marker(e));
    }
}

/// Sets the marker of `m.epoch` to `m`; the markers of other epochs stay.
pub fn set_marker(ms: &mut Vec<BlockMarker>, m: BlockMarker)
    ensures
        forall|e: Epoch| #[trigger] marker_in(final(ms)@, e) == if e == m.epoch { m } else { marker_in(old(ms)@, e) },
{
    let mut i: usize = 0;
    while i < ms.len()
        invariant
            i <= ms@.len(),
            ms@ == old(ms)@,
            forall|j: int| 0 <= j < i ==> ms@[j].epoch != m.epoch,
        decreases ms@.len() - i,
    {
        if ms[i].epoch == m.epoch {
            proof {
                assert forall|e: Epoch| #[trigger] marker_in(ms@.update(i as int, m), e) == if e == m.epoch { m } else { marker_in(ms@, e) } by {
                    lemma_marker_update(ms@, i as int, m, e);
                }
            }
            ms.set(i, m);
            return;
        }
        i = i + 1;
    }
    proof {
        assert forall|e: Epoch| #[trigger] marker_in(ms@.push(m), e) == if e == m.epoch { m } else { marker_in(ms@, e) } by {
            lemma_marker_push(ms@, m, e);
        }
    }
    ms.push(m);
}

/// Blocks to hand to the lock and commit callbacks, lowest first, and the resulting high QC.
#[derive(Clone, Debug, PartialEq, Eq)]
pub struct NodeUpdates {
    pub high_qc: HighQc,
    pub locked: Vec<BlockId>,
    /// For each locked block, the id of the QC that certifies it (the justify of the next block
    /// up the chain; for the highest, the justify of `b''`).
    pub locked_qcs: Vec<FixedHash>,
    pub committed: Vec<BlockId>,
}

/// The per-block tables and the substates are the same in both stores.
pub open spec fn same_data(a: StateStore, b: StateStore) -> bool {
    &&& a.blocks@ == b.blocks@
    &&& a.block_diffs@ == b.block_diffs@
    &&& a.pending_tree_diffs@ == b.pending_tree_diffs@
    &&& a.substate_locks@ == b.substate_locks@
    &&& a.pool_updates@ == b.pool_updates@
    &&& a.executions@ == b.executions@
    &&& a.foreign_marks@ == b.foreign_marks@
    &&& a.substates@ == b.substates@
}

impl StateStore {
    /// Collects the chain below `id` that lies above `floor`, lowest first.
    pub fn collect_chain(&self, id: &BlockId, floor: NodeHeight, fuel: u64) -> (r: Result<Vec<BlockId>, StorageError>)
        ensures
            r is Ok <==> chain_above(self.blocks@, *id, floor, fuel as nat) is Some,
            r matches Ok(v) ==> chain_above(self.blocks@, *id, floor, fuel as nat) == Some(v@),
        decreases fuel,
    {
        let k = match self.find_index(id) {
            None => {
                return Err(StorageError::NotFound { block_id: *id });
            },
            Some(k) => k,
        };
        if self.blocks[k].header.height <= floor {
            return Ok(Vec::new());
        }
        if fuel == 0 {
            return Err(StorageError::DataInconsistency);
        }
        let parent = self.blocks[k].header.parent;
        let mut below = self.collect_chain(&parent, floor, fuel - 1)?;
        below.push(*id);
        Ok(below)
    }

    /// Whether a proposal passes the safeNode predicate against the locked block of its epoch.
    pub fn is_safe(&self, proposal: &Block) -> (r: bool)
        ensures
            r == safe_node(self.blocks@, self.locked@, *proposal),
    {
        let locked = marker_for(&self.locked, proposal.header.epoch);
        if proposal.justify.block_height > locked.height {
            return true;
        }
        self.extends(proposal, &locked.block_id)
    }

    /// Records a vote for a safe proposal; an unsafe one gets no vote and leaves the store as it was.
    pub fn vote_if_safe(&mut self, proposal: &Block) -> (r: bool)
        ensures
            r == safe_node(old(self).blocks@, old(self).locked@, *proposal),
            r ==> final(self).last_voted == Some(marker_of(*proposal)),
            !r ==> *final(self) == *old(self),
            same_data(*old(self), *final(self)),
            final(self).locked == old(self).locked,
            final(self).last_executed == old(self).last_executed,
            final(self).high_qc == old(self).high_qc,
    {
        if self.is_safe(proposal) {
            self.last_voted = Some(
                BlockMarker {
                    epoch: proposal.header.epoch,
                    height: proposal.header.height,
                    block_id: proposal.header.id,
                },
            );
            true
        } else {
            false
        }
    }

    /// The ids of the QCs that certify each block of a locked chain.
    fn chain_qcs(&self, ids: &Vec<BlockId>, top_qc: FixedHash) -> (r: Result<Vec<FixedHash>, StorageError>)
        ensures
            r matches Ok(q) ==> qcs_for(self.blocks@, ids@, top_qc, q@),
            (forall|i: int| 0 < i < ids@.len() ==> find_block(self.blocks@, #[trigger] ids@[i]) is Some) ==> r is Ok,
    {
        let mut out: Vec<FixedHash> = Vec::new();
        let mut i: usize = 0;
        while i < ids.len()
            invariant
                i <= ids@.len(),
                out@.len() == i,
                forall|j: int| 0 <= j < i ==> #[trigger] out@[j] == qc_of_next(self.blocks@, ids@, top_qc, j),
            decreases ids@.len() - i,
        {
            if i + 1 < ids.len() {
                match self.find_index(&ids[i + 1]) {
                    Some(k) => out.push(self.blocks[k].justify.qc_id),
                    None => {
                        return Err(StorageError::DataInconsistency);
                    },
                }
            } else {
                out.push(top_qc);
            }
            i = i + 1;
        }
        Ok(out)
    }

    /// Runs the three-chain rule for a new block `b*` of epoch `e`: advances the high QC, locks
    /// `b'` (two links back) if it is higher than the locked block of `e`, and commits `b` (three
    /// links back) when the three blocks form a direct chain and `b` is above the last executed
    /// block of `e`. Returns the blocks newly locked (with the QC of each) and committed.
    pub fn update_nodes(&mut self, block: &Block) -> (r: Result<NodeUpdates, StorageError>)
        requires
            old(self).wf(),
        ensures
            final(self).wf(),
            same_data(*old(self), *final(self)),
            forall|e: Epoch| #[trigger] marker_in(final(self).locked@, e).height >= marker_in(old(self).locked@, e).height,
            forall|e: Epoch| #[trigger] marker_in(final(self).last_executed@, e).height >= marker_in(old(self).last_executed@, e).height,
            r is Err ==> *final(self) == *old(self),
            r matches Ok(u) ==> u.high_qc == final(self).high_qc && final(self).high_qc == next_high_qc(
                old(self).high_qc,
                block.justify,
            ),
            r is Ok <==> three_chain_ok(old(self).blocks@, old(self).locked@, old(self).last_executed@, *block),
            r matches Ok(u) ==> three_chain_effect(*old(self), *final(self), *block, u.locked@, u.committed@),
            r matches Ok(u) ==> qcs_for(old(self).blocks@, u.locked@, justified_node(old(self).blocks@, *block).unwrap().justify.qc_id,
                u.locked_qcs@),
    {
        let epoch = block.header.epoch;
        let justified_idx = match self.find_index(&block.justify.block_id) {
            None => {
                return Err(StorageError::NotFound { block_id: block.justify.block_id });
            },
            Some(k) => k,
        };
        let prepared_id = self.blocks[justified_idx].justify.block_id;
        let prepared_idx = match self.find_index(&prepared_id) {
            None => {
                return Err(StorageError::NotFound { block_id: prepared_id });
            },
            Some(k) => k,
        };
        let prepared_height = self.blocks[prepared_idx].header.height;
        let lock_floor = marker_for(&self.locked, epoch).height;
        let mut locked: Vec<BlockId> = Vec::new();
        let mut committed: Vec<BlockId> = Vec::new();
        if prepared_height != 0 && prepared_height > lock_floor {
            locked = self.collect_chain(&prepared_id, lock_floor, prepared_height - lock_floor)?;
        }
        let top_qc = self.blocks[justified_idx].justify.qc_id;
        proof {
            lemma_chain_above_stored(self.blocks@, prepared_id, lock_floor, (prepared_height - lock_floor) as nat);
        }
        let locked_qcs = match self.chain_qcs(&locked, top_qc) {
            Ok(q) => q,
            Err(e) => {
                return Err(e);
            },
        };
        let commit_id = self.blocks[prepared_idx].justify.block_id;
        let three_chain = prepared_height != 0 && self.blocks[justified_idx].header.parent.equals(&prepared_id)
            && self.blocks[prepared_idx].header.parent.equals(&commit_id) && !commit_id.is_zero();
        let commit_floor = marker_for(&self.last_executed, epoch).height;
        let mut commit_idx: usize = 0;
        if three_chain {
            commit_idx = match self.find_index(&commit_id) {
                None => {
                    return Err(StorageError::NotFound { block_id: commit_id });
                },
                Some(k) => k,
            };
            let commit_height = self.blocks[commit_idx].header.height;
            if commit_height > commit_floor {
                committed = self.collect_chain(&commit_id, commit_floor, commit_height - commit_floor)?;
            }
        }
        // every check has passed: apply the marker updates
        if block.justify.block_height > self.high_qc.block_height {
            self.high_qc = HighQc {
                epoch: block.justify.epoch,
                block_id: block.justify.block_id,
                block_height: block.justify.block_height,
                qc_id: block.justify.qc_id,
            };
        }
        if prepared_height != 0 && prepared_height > lock_floor {
            set_marker(&mut self.locked, BlockMarker { epoch, height: prepared_height, block_id: prepared_id });
        }
        if three_chain && self.blocks[commit_idx].header.height > commit_floor {
            let commit_height = self.blocks[commit_idx].header.height;
            set_marker(&mut self.last_executed, BlockMarker { epoch, height: commit_height, block_id: commit_id });
        }
        Ok(NodeUpdates { high_qc: self.high_qc, locked, locked_qcs, committed })
    }
}

/// The QC handed with block `ids[j]` of a locked chain: the justify of the next block up, or
/// `top_qc` for the highest.
pub open spec fn qc_of_next(blocks: Seq<Block>, ids: Seq<BlockId>, top_qc: FixedHash, j: int) -> FixedHash {
    if j + 1 < ids.len() {
        find_block(blocks, ids[j + 1]).unwrap().justify.qc_id
    } else {
        top_qc
    }
}

/// `qcs` holds, for each block of the chain `ids`, the QC handed with it.
pub open spec fn qcs_for(blocks: Seq<Block>, ids: Seq<BlockId>, top_qc: FixedHash, qcs: Seq<FixedHash>) -> bool {
    &&& qcs.len() == ids.len()
    &&& forall|j: int| 0 <= j < ids.len() ==> #[trigger] qcs[j] == qc_of_next(blocks, ids, top_qc, j)
}

proof fn lemma_chain_above_stored(blocks: Seq<Block>, id: BlockId, floor: NodeHeight, fuel: nat)
    ensures
        chain_above(blocks, id, floor, fuel) matches Some(s) ==> forall|i: int| 0 <= i < s.len() ==> find_block(blocks, #[trigger] s[i]) is Some,
    decreases fuel,
{
    if let Some(b) = find_block(blocks, id) {
        if b.header.height > floor && fuel > 0 {
            lemma_chain_above_stored(blocks, b.header.parent, floor, (fuel - 1) as nat);
            if let Some(s) = chain_above(blocks, b.header.parent, floor, (fuel - 1) as nat) {
                assert forall|i: int| 0 <= i < s.push(id).len() implies find_block(blocks, #[trigger] s.push(id)[i]) is Some by {
                    if i < s.len() {
                        assert(s.push(id)[i] == s[i]);
                    }
                }
            }
        }
    }
}

/// `b''`, `b'` and `b` of the three-chain rule for `b*`, where stored.
pub open spec fn justified_node(blocks: Seq<Block>, b_star: Block) -> Option<Block> {
    find_block(blocks, b_star.justify.block_id)
}

pub open spec fn prepared_node(blocks: Seq<Block>, b_star: Block) -> Option<Block> {
    match justified_node(blocks, b_star) {
        None => None,
        Some(j) => find_block(blocks, j.justify.block_id),
    }
}

/// The prepared node is not a genesis block and is above the locked block of `b*`'s epoch.
pub open spec fn lock_fires(blocks: Seq<Block>, locked: Seq<BlockMarker>, b_star: Block) -> bool {
    let p = prepared_node(blocks, b_star).unwrap();
    p.header.height != 0 && p.header.height > marker_in(locked, b_star.header.epoch).height
}

/// `b'' -> b' -> b` is a direct chain of parents, with `b` not the zero block.
pub open spec fn commit_fires(blocks: Seq<Block>, b_star: Block) -> bool {
    let j = justified_node(blocks, b_star).unwrap();
    let p = prepared_node(blocks, b_star).unwrap();
    &&& p.header.height != 0
    &&& j.header.parent == p.header.id
    &&& p.header.parent == p.justify.block_id
    &&& p.justify.block_id.0@ != crate::bytes::zero_hash()
}

/// When the three-chain rule succeeds for `b*`.
pub open spec fn three_chain_ok(blocks: Seq<Block>, locked: Seq<BlockMarker>, last_executed: Seq<BlockMarker>, b_star: Block) -> bool {
    let p = prepared_node(blocks, b_star).unwrap();
    let lfloor = marker_in(locked, b_star.header.epoch).height;
    let cfloor = marker_in(last_executed, b_star.header.epoch).height;
    &&& justified_node(blocks, b_star) is Some
    &&& prepared_node(blocks, b_star) is Some
    &&& lock_fires(blocks, locked, b_star) ==> chain_above(blocks, p.header.id, lfloor, (p.header.height - lfloor) as nat) is Some
    &&& commit_fires(blocks, b_star) ==> ({
        let c = find_block(blocks, p.justify.block_id);
        &&& c is Some
        &&& c.unwrap().header.height > cfloor ==> chain_above(blocks, c.unwrap().header.id, cfloor, (c.unwrap().header.height - cfloor) as nat) is Some
    })
}

/// The markers and callback lists that the three-chain rule yields for `b*`: the markers of
/// `b*`'s epoch move to `b'` and `b` when the rule fires; those of other epochs stay.
pub open spec fn three_chain_effect(old_s: StateStore, new_s: StateStore, b_star: Block, locked: Seq<BlockId>, committed: Seq<BlockId>) -> bool {
    let blocks = old_s.blocks@;
    let e = b_star.header.epoch;
    let p = prepared_node(blocks, b_star).unwrap();
    let c = find_block(blocks, p.justify.block_id).unwrap();
    let lfloor = marker_in(old_s.locked@, e).height;
    let cfloor = marker_in(old_s.last_executed@, e).height;
    &&& if lock_fires(blocks, old_s.locked@, b_star) {
        &&& marker_in(new_s.locked@, e) == (BlockMarker { epoch: e, height: p.header.height, block_id: p.header.id })
        &&& chain_above(blocks, p.header.id, lfloor, (p.header.height - lfloor) as nat) == Some(locked)
    } else {
        new_s.locked == old_s.locked && locked.len() == 0
    }
    &&& forall|x: Epoch| x != e ==> #[trigger] marker_in(new_s.locked@, x) == marker_in(old_s.locked@, x)
    &&& if commit_fires(blocks, b_star) && c.header.height > cfloor {
        &&& marker_in(new_s.last_executed@, e) == (BlockMarker { epoch: e, height: c.header.height, block_id: c.header.id })
        &&& chain_above(blocks, c.header.id, cfloor, (c.header.height - cfloor) as nat) == Some(committed)
    } else {
        new_s.last_executed == old_s.last_executed && committed.len() == 0
    }
    &&& forall|x: Epoch| x != e ==> #[trigger] marker_in(new_s.last_executed@, x) == marker_in(old_s.last_executed@, x)
}

/// What `insert` checks of a new block.
pub open spec fn insertable(blocks: Seq<Block>, block: Block) -> bool {
    &&& find_block(blocks, block.header.id) is None
    &&& crate::block::header_id_valid(block.header)
    &&& block.header.command_merkle_root@ == crate::encoding::command_merkle_root(block.commands@)
    &&& crate::block::commands_canonical(block.commands@)
    &&& find_block(blocks, block.header.parent) is Some
    &&& extends(blocks, block, block.justify.block_id)
}

/// The block as stored: not yet committed.
pub open spec fn as_stored(block: Block) -> Block {
    Block { is_committed: false, ..block }
}

/// The context in which a block's diff is committed.
pub open spec fn commit_context(b: Block) -> crate::substate::CommitContext {
    crate::substate::CommitContext {
        epoch: b.header.epoch,
        height: b.header.height,
        block_id: b.header.id,
        justify_id: b.justify.qc_id,
    }
}

impl StateStore {
    /// Validates and stores a block: a new id that is the hash of its header, a command root that
    /// matches its commands, a stored parent, and a justify QC over an ancestor.
    pub fn insert(&mut self, block: Block) -> (r: Result<(), StorageError>)
        requires
            old(self).wf(),
        ensures
            final(self).wf(),
            r is Ok <==> insertable(old(self).blocks@, block),
            r is Ok ==> final(self).blocks@ == old(self).blocks@.push(as_stored(block)),
            r is Err ==> *final(self) == *old(self),
            find_block(old(self).blocks@, block.header.id) is Some ==> r == Err::<(), StorageError>(StorageError::AlreadyExists),
            find_block(old(self).blocks@, block.header.id) is None && crate::block::header_id_valid(block.header)
                && block.header.command_merkle_root@ == crate::encoding::command_merkle_root(block.commands@)
                && !crate::block::commands_canonical(block.commands@)
                ==> r == Err::<(), StorageError>(StorageError::CommandsNotCanonical),
            find_block(old(self).blocks@, block.header.id) is None && !crate::block::header_id_valid(block.header)
                ==> r == Err::<(), StorageError>(StorageError::InvalidBlockId),
            find_block(old(self).blocks@, block.header.id) is None && crate::block::header_id_valid(block.header)
                && block.header.command_merkle_root@ != crate::encoding::command_merkle_root(block.commands@)
                ==> r == Err::<(), StorageError>(StorageError::CommandMerkleRootMismatch),
            final(self).block_diffs@ == old(self).block_diffs@,
            same_outside_tables(*old(self), *final(self)),
    {
        if self.record_exists(&block.header.id) {
            return Err(StorageError::AlreadyExists);
        }
        let hash = block.calculate_hash();
        if !crate::bytes::hash_eq(&hash, &block.header.id.0) {
            proof {
                if crate::block::header_id_valid(block.header) {
                    assert(hash@ == block.header.id.0@);
                    assert(hash =~= block.header.id.0);
                }
            }
            return Err(StorageError::InvalidBlockId);
        }
        let root = block.compute_command_merkle_root();
        if !crate::bytes::hash_eq(&root, &block.header.command_merkle_root) {
            proof {
                if block.header.command_merkle_root@ == crate::encoding::command_merkle_root(block.commands@) {
                    assert(root =~= block.header.command_merkle_root);
                }
            }
            return Err(StorageError::CommandMerkleRootMismatch);
        }
        if !crate::block::is_canonical(&block.commands) {
            return Err(StorageError::CommandsNotCanonical);
        }
        if !self.record_exists(&block.header.parent) {
            return Err(StorageError::ParentNotFound);
        }
        if !self.extends(&block, &block.justify.block_id) {
            return Err(StorageError::JustifyNotAncestor);
        }
        let mut block = block;
        block.is_committed = false;
        proof {
            lemma_find_block_none(self.blocks@, block.header.id);
            let n = self.blocks@.push(block);
            assert forall|i: int, j: int| 0 <= i < j < n.len() implies n[i].header.id != n[j].header.id by {
                if j < self.blocks@.len() {
                    assert(n[i] == self.blocks@[i]);
                    assert(n[j] == self.blocks@[j]);
                } else {
                    assert(n[i] == self.blocks@[i]);
                }
            }
            assert forall|q: int| 0 <= q < n.len() && n[q].header.id.0@ != crate::bytes::zero_hash()
                implies crate::block::header_id_valid(#[trigger] n[q].header) by {
                if q < self.blocks@.len() {
                    assert(n[q] == self.blocks@[q]);
                }
            }
            assert forall|i: int, j: int|
                0 <= i < self.blocks@.push(block).len() && 0 <= j < self.blocks@.push(block).len()
                    && self.blocks@.push(block)[i].is_committed && self.blocks@.push(block)[j].is_committed
                    && self.blocks@.push(block)[i].header.epoch == self.blocks@.push(block)[j].header.epoch
                    && self.blocks@.push(block)[i].header.height == self.blocks@.push(block)[j].header.height
                implies self.blocks@.push(block)[i].header.id == self.blocks@.push(block)[j].header.id by {
                assert(self.blocks@.push(block)[i] == self.blocks@[i]);
                assert(self.blocks@.push(block)[j] == self.blocks@[j]);
            }
        }
        self.blocks.push(block);
        Ok(())
    }

    /// Inserts the block unless one with its id is stored; true when it was inserted.
    pub fn save(&mut self, block: Block) -> (r: Result<bool, StorageError>)
        requires
            old(self).wf(),
        ensures
            final(self).wf(),
            find_block(old(self).blocks@, block.header.id) is Some ==> r == Ok::<bool, StorageError>(false)
                && *final(self) == *old(self),
            find_block(old(self).blocks@, block.header.id) is None ==> (r == Ok::<bool, StorageError>(true)
                <==> insertable(old(self).blocks@, block)),
            find_block(old(self).blocks@, block.header.id) is None ==> (r is Err <==> !insertable(old(self).blocks@, block)),
            r == Ok::<bool, StorageError>(true) ==> final(self).blocks@ == old(self).blocks@.push(as_stored(block)),
            r is Err ==> *final(self) == *old(self),
    {
        if self.record_exists(&block.header.id) {
            return Ok(false);
        }
        self.insert(block)?;
        Ok(true)
    }

    /// Marks a stored block as justified.
    pub fn set_justified(&mut self, block_id: &BlockId) -> (r: Result<(), StorageError>)
        requires
            old(self).wf(),
        ensures
            final(self).wf(),
            r is Err <==> find_block(old(self).blocks@, *block_id) is None,
            r is Err ==> *final(self) == *old(self),
            r is Ok ==> exists|k: int| 0 <= k < old(self).blocks@.len() && find_block(old(self).blocks@, *block_id) == Some(old(self).blocks@[k])
                && final(self).blocks@ == old(self).blocks@.update(k, Block { is_justified: true, ..old(self).blocks@[k] }),
            same_outside_tables(*old(self), *final(self)),
    {
        match self.find_index(block_id) {
            None => Err(StorageError::NotFound { block_id: *block_id }),
            Some(k) => {
                self.blocks[k].is_justified = true;
                proof {
                    assert forall|i: int, j: int|
                        0 <= i < self.blocks@.len() && 0 <= j < self.blocks@.len() && self.blocks@[i].is_committed
                            && self.blocks@[j].is_committed && self.blocks@[i].header.epoch == self.blocks@[j].header.epoch
                            && self.blocks@[i].header.height == self.blocks@[j].header.height
                        implies self.blocks@[i].header.id == self.blocks@[j].header.id by {
                        assert(old(self).blocks@[i].is_committed);
                        assert(old(self).blocks@[j].is_committed);
                    }
                    lemma_blocks_flag_update(old(self).blocks@, k as int, self.blocks@[k as int]);
                    assert(self.blocks@ == old(self).blocks@.update(k as int, self.blocks@[k as int]));
                }
                Ok(())
            },
        }
    }

    /// Commits a block: applies its substate diff atomically, deletes the parallel chains at its
    /// epoch and height (with every row of the deleted blocks), drops its pending diff and marks
    /// it committed. Nothing changes on error.
    pub fn commit_diff(&mut self, block_id: &BlockId, block_diff: BlockDiff) -> (r: Result<(), StorageError>)
        requires
            old(self).wf(),
        ensures
            final(self).wf(),
            r is Err ==> same_store(*old(self), *final(self)),
            find_block(old(self).blocks@, *block_id) is None ==> r == Err::<(), StorageError>(StorageError::NotFound { block_id: *block_id }),
            find_block(old(self).blocks@, *block_id) matches Some(b) ==> commit_outcome(*old(self), *final(self), b, block_diff, r),
    {
        let k = match self.find_index(block_id) {
            None => {
                return Err(StorageError::NotFound { block_id: *block_id });
            },
            Some(k) => k,
        };
        if !block_diff.block_id.equals(block_id) {
            return Err(StorageError::BlockIdMismatch);
        }
        if self.blocks[k].is_committed {
            return Err(StorageError::AlreadyCommitted);
        }
        let is_dummy = self.blocks[k].header.is_dummy;
        if is_dummy && !block_diff.is_empty() {
            return Err(StorageError::DummyBlockHasChanges);
        }
        let ctx = crate::substate::CommitContext {
            epoch: self.blocks[k].header.epoch,
            height: self.blocks[k].header.height,
            block_id: *block_id,
            justify_id: self.blocks[k].justify.qc_id,
        };
        let ghost old_s = *self;
        let ghost b = self.blocks@[k as int];
        match crate::substate::apply_diff(&mut self.substates, block_diff.changes, ctx) {
            Ok(()) => {},
            Err(e) => {
                return Err(StorageError::SubstateConflict { error: e });
            },
        }
        let ghost applied = *self;
        let removed = self.remove_parallel_chains(block_id);
        match removed {
            Ok(()) => {},
            Err(e) => {
                // the block was found above, so this does not happen
                proof {
                    assert(find_block(self.blocks@, *block_id) is Some);
                }
                return Err(e);
            },
        }
        let ghost chains_removed = *self;
        retain_rows_not_in(&mut self.block_diffs, *block_id);
        let ghost pruned = *self;
        proof {
            assert(find_block(self.blocks@, *block_id) == Some(b)) by {
                assert(find_block(old_s.blocks@, *block_id) == Some(old_s.blocks@[k as int]));
            }
        }
        let k2 = match self.find_index(block_id) {
            Some(k2) => k2,
            None => {
                proof {
                    let z = choose|z: int| 0 <= z < pruned.blocks@.len() && pruned.blocks@[z].header.id == *block_id;
                }
                return Err(StorageError::DataInconsistency);
            },
        };
        let ghost marked = Block { is_committed: true, ..pruned.blocks@[k2 as int] };
        self.blocks[k2].is_committed = true;
        proof {
            assert(self.blocks@ == pruned.blocks@.update(k2 as int, marked));
            lemma_find_block_update(pruned.blocks@, k2 as int, marked, *block_id);
            lemma_has_id_update(pruned.blocks@, k2 as int, marked);
            lemma_blocks_flag_update(pruned.blocks@, k2 as int, marked);
            assert forall|t: BlockDiff| self.block_diffs@.contains(t) implies t.block_id != *block_id by {
                lemma_rows_not_in_contains(chains_removed.block_diffs@, *block_id, t);
            }
            assert(parallel_chains_removed(applied, chains_removed, *block_id));
            assert forall|id: BlockId| removed_between(old_s.blocks@, self.blocks@, id) == removed_between(old_s.blocks@, chains_removed.blocks@, id) by {
                assert(has_id(self.blocks@, id) == has_id(chains_removed.blocks@, id));
            }
            let gone1 = |id: BlockId| removed_between(old_s.blocks@, self.blocks@, id);
            let gone0 = |id: BlockId| removed_between(applied.blocks@, chains_removed.blocks@, id);
            assert(tables_follow(applied, chains_removed, gone0));
            assert(applied.blocks@ == old_s.blocks@);
            assert forall|id: BlockId| #[trigger] gone0(id) == gone1(id) by {}
            lemma_keep_ext(old_s.pending_tree_diffs@, gone0, gone1);
            lemma_keep_ext(old_s.substate_locks@, gone0, gone1);
            lemma_keep_ext(old_s.pool_updates@, gone0, gone1);
            lemma_keep_ext(old_s.executions@, gone0, gone1);
            lemma_keep_ext(old_s.foreign_marks@, gone0, gone1);
            assert(side_tables_follow(old_s, *self, gone1));
            lemma_keep_ext(old_s.blocks@, gone0, gone1);
            lemma_keep_ext(old_s.block_diffs@, gone0, gone1);
            assert(pruned.blocks@[k2 as int].header.id == *block_id);
            assert(self.blocks@ == old_s.blocks@.filter(keep_rows::<Block>(gone1)).update(k2 as int, marked));
            assert(self.blocks@ == mark_committed(kept_blocks(old_s, *self), k2 as int));
            // the headers of the blocks are those after the removal
            assert forall|k: int| 0 <= k < self.blocks@.len() implies #[trigger] self.blocks@[k].header == chains_removed.blocks@[k].header by {}
            assert forall|k: int| 0 <= k < self.blocks@.len() && self.blocks@[k].header.id != *block_id
                implies !removed_between(old_s.blocks@, self.blocks@, #[trigger] self.blocks@[k].header.parent) by {
                assert(self.blocks@[k].header == chains_removed.blocks@[k].header);
            }
            assert forall|k: int| 0 <= k < old_s.blocks@.len() && removed_between(old_s.blocks@, self.blocks@, old_s.blocks@[k].header.id)
                implies (exists|f: nat| parallel_descendant(old_s.blocks@, #[trigger] old_s.blocks@[k].header.id, b.header.epoch, b.header.height, *block_id, f)) by {
                assert(removed_between(old_s.blocks@, chains_removed.blocks@, old_s.blocks@[k].header.id));
            }
            assert forall|i: int, j: int|
                0 <= i < self.blocks@.len() && 0 <= j < self.blocks@.len() && self.blocks@[i].is_committed
                    && self.blocks@[j].is_committed && self.blocks@[i].header.epoch == self.blocks@[j].header.epoch
                    && self.blocks@[i].header.height == self.blocks@[j].header.height
                implies self.blocks@[i].header.id == self.blocks@[j].header.id by {
                assert(pruned.blocks@[k2 as int].header.epoch == b.header.epoch);
                if i != k2 && j != k2 {
                    assert(pruned.blocks@[i].is_committed);
                    assert(pruned.blocks@[j].is_committed);
                } else if i == k2 && j != k2 {
                    assert(pruned.blocks@[j].header.epoch == b.header.epoch);
                } else if j == k2 && i != k2 {
                    assert(pruned.blocks@[i].header.epoch == b.header.epoch);
                }
            }
        }
        Ok(())
    }
}

/// The tables of locks, pool updates, executions, foreign marks and pending tree diffs keep, in order,
/// exactly the rows whose block is not gone.
pub open spec fn side_tables_follow(old_s: StateStore, new_s: StateStore, gone: spec_fn(BlockId) -> bool) -> bool {
    &&& new_s.pending_tree_diffs@ == old_s.pending_tree_diffs@.filter(keep_rows::<PendingStateTreeDiff>(gone))
    &&& new_s.substate_locks@ == old_s.substate_locks@.filter(keep_rows::<LockedSubstate>(gone))
    &&& new_s.pool_updates@ == old_s.pool_updates@.filter(keep_rows::<TransactionPoolUpdate>(gone))
    &&& new_s.executions@ == old_s.executions@.filter(keep_rows::<TransactionExecution>(gone))
    &&& new_s.foreign_marks@ == old_s.foreign_marks@.filter(keep_rows::<ForeignProposalMark>(gone))
}

proof fn lemma_has_id_update(s: Seq<Block>, k: int, nb: Block)
    requires
        0 <= k < s.len(),
        nb.header.id == s[k].header.id,
    ensures
        forall|id: BlockId| has_id(s.update(k, nb), id) == has_id(s, id),
{
    assert forall|id: BlockId| has_id(s.update(k, nb), id) == has_id(s, id) by {
        if has_id(s, id) {
            let j = choose|j: int| 0 <= j < s.len() && s[j].header.id == id;
            assert(s.update(k, nb)[j].header.id == id);
        }
        if has_id(s.update(k, nb), id) {
            let j = choose|j: int| 0 <= j < s.update(k, nb).len() && s.update(k, nb)[j].header.id == id;
            assert(s[j].header.id == id);
        }
    }
}

/// The blocks of `old_s` that are still in `new_s`, in order.
pub open spec fn kept_blocks(old_s: StateStore, new_s: StateStore) -> Seq<Block> {
    old_s.blocks@.filter(keep_rows::<Block>(|id: BlockId| removed_between(old_s.blocks@, new_s.blocks@, id)))
}

/// `blocks` with the block at `k` marked committed.
pub open spec fn mark_committed(blocks: Seq<Block>, k: int) -> Seq<Block> {
    blocks.update(k, Block { is_committed: true, ..blocks[k] })
}

/// Both stores hold the same data and markers.
pub open spec fn same_store(a: StateStore, b: StateStore) -> bool {
    &&& same_data(a, b)
    &&& a.locked@ == b.locked@
    &&& a.last_executed@ == b.last_executed@
    &&& a.foreign_send_counters@ == b.foreign_send_counters@
    &&& a.leaf == b.leaf
    &&& a.high_qc == b.high_qc
    &&& a.last_voted == b.last_voted
    &&& a.last_proposed == b.last_proposed
}

/// What `commit_diff` of stored block `b` yields: the first failing check, or the diff applied,
/// no other block left at `b`'s epoch and height, and `b` committed.
pub open spec fn commit_outcome(old_s: StateStore, new_s: StateStore, b: Block, diff: BlockDiff, r: Result<(), StorageError>) -> bool {
    if diff.block_id != b.header.id {
        r == Err::<(), StorageError>(StorageError::BlockIdMismatch)
    } else if b.is_committed {
        r == Err::<(), StorageError>(StorageError::AlreadyCommitted)
    } else if b.header.is_dummy && diff.changes@.len() != 0 {
        r == Err::<(), StorageError>(StorageError::DummyBlockHasChanges)
    } else {
        match crate::substate::apply_changes_spec(old_s.substates@, diff.changes@, commit_context(b)) {
            None => r is Err && (r->Err_0 is SubstateConflict),
            Some(recs) => {
                &&& r is Ok
                &&& new_s.substates@ == recs
                &&& find_block(new_s.blocks@, b.header.id) matches Some(nb) && nb.is_committed && nb.header.epoch == b.header.epoch
                    && nb.header.height == b.header.height
                &&& forall|k: int| 0 <= k < new_s.blocks@.len() && new_s.blocks@[k].header.epoch == b.header.epoch
                    && new_s.blocks@[k].header.height == b.header.height ==> new_s.blocks@[k].header.id == b.header.id
                &&& forall|t: BlockDiff| new_s.block_diffs@.contains(t) ==> t.block_id != b.header.id
                &&& forall|k: int| 0 <= k < new_s.blocks@.len() && new_s.blocks@[k].header.id != b.header.id
                    ==> !removed_between(old_s.blocks@, new_s.blocks@, new_s.blocks@[k].header.parent)
                &&& forall|k: int| 0 <= k < old_s.blocks@.len() && removed_between(old_s.blocks@, new_s.blocks@, old_s.blocks@[k].header.id)
                    ==> (exists|f: nat| parallel_descendant(old_s.blocks@, #[trigger] old_s.blocks@[k].header.id, b.header.epoch, b.header.height, b.header.id, f))
                &&& side_tables_follow(old_s, new_s, |id: BlockId| removed_between(old_s.blocks@, new_s.blocks@, id))
                &&& same_markers(old_s, new_s)
                &&& exists|k: int| 0 <= k < kept_blocks(old_s, new_s).len() && kept_blocks(old_s, new_s)[k].header.id == b.header.id
                    && new_s.blocks@ == #[trigger] mark_committed(kept_blocks(old_s, new_s), k)
                &&& new_s.block_diffs@ == rows_not_in(old_s.block_diffs@.filter(keep_rows::<BlockDiff>(|id: BlockId| removed_between(old_s.blocks@, new_s.blocks@, id))), b.header.id)
            },
        }
    }
}

/// The highest height among the stored blocks (zero for none).
pub open spec fn max_height_of(blocks: Seq<Block>) -> NodeHeight
    decreases blocks.len(),
{
    if blocks.len() == 0 {
        0
    } else {
        let m = max_height_of(blocks.drop_last());
        if blocks.last().header.height > m {
            blocks.last().header.height
        } else {
            m
        }
    }
}

/// The first pending diff of block `id`.
pub open spec fn find_diff(diffs: Seq<BlockDiff>, id: BlockId) -> Option<BlockDiff>
    decreases diffs.len(),
{
    if diffs.len() == 0 {
        None
    } else if diffs[0].block_id == id {
        Some(diffs[0])
    } else {
        find_diff(diffs.drop_first(), id)
    }
}

impl StateStore {
    pub fn get_count(&self) -> (r: usize)
        ensures
            r == self.blocks@.len(),
    {
        self.blocks.len()
    }

    pub fn parent_exists(&self, block: &Block) -> (r: bool)
        ensures
            r == find_block(self.blocks@, block.header.parent) is Some,
    {
        self.record_exists(&block.header.parent)
    }

    /// The parent of `block`; the zero block has none.
    pub fn get_parent(&self, block: &Block) -> (r: Result<&Block, StorageError>)
        ensures
            block.header.id.0@ == crate::bytes::zero_hash() && block.header.parent.0@ == crate::bytes::zero_hash()
                ==> r is Err,
            !(block.header.id.0@ == crate::bytes::zero_hash() && block.header.parent.0@ == crate::bytes::zero_hash())
                ==> (r is Err <==> find_block(self.blocks@, block.header.parent) is None),
            r matches Ok(p) ==> find_block(self.blocks@, block.header.parent) == Some(*p),
    {
        if block.header.id.is_zero() && block.header.parent.is_zero() {
            return Err(StorageError::NotFound { block_id: block.header.parent });
        }
        self.get(&block.header.parent)
    }

    pub fn has_been_justified(&self, block_id: &BlockId) -> (r: Result<bool, StorageError>)
        ensures
            r is Err <==> find_block(self.blocks@, *block_id) is None,
            r matches Ok(j) ==> j == find_block(self.blocks@, *block_id).unwrap().is_justified,
    {
        let b = self.get(block_id)?;
        Ok(b.is_justified)
    }

    pub fn get_child_block_ids(&self, block_id: &BlockId) -> (r: Vec<BlockId>)
        ensures
            r@ == self.blocks@.filter_map(|b: Block| child_id(b, *block_id)),
    {
        self.get_ids_by_parent(block_id)
    }

    /// The highest stored height.
    pub fn max_height(&self) -> (r: NodeHeight)
        ensures
            r == max_height_of(self.blocks@),
    {
        let mut m: NodeHeight = 0;
        let mut i: usize = 0;
        assert(self.blocks@.subrange(0, 0) =~= Seq::<Block>::empty());
        while i < self.blocks.len()
            invariant
                i <= self.blocks@.len(),
                m == max_height_of(self.blocks@.subrange(0, i as int)),
            decreases self.blocks@.len() - i,
        {
            assert(self.blocks@.subrange(0, i + 1).drop_last() =~= self.blocks@.subrange(0, i as int));
            if self.blocks[i].header.height > m {
                m = self.blocks[i].header.height;
            }
            i = i + 1;
        }
        assert(self.blocks@.subrange(0, self.blocks@.len() as int) =~= self.blocks@);
        m
    }

    /// Deletes the block record only; the caller deletes what hangs off it.
    pub fn delete_record(&mut self, block_id: &BlockId)
        requires
            old(self).wf(),
        ensures
            final(self).wf(),
            final(self).blocks@ == rows_not_in(old(self).blocks@, *block_id),
            final(self).block_diffs@ == old(self).block_diffs@,
            same_outside_tables(*old(self), *final(self)),
    {
        let ghost before = self.blocks@;
        retain_rows_not_in(&mut self.blocks, *block_id);
        proof {
            lemma_blocks_wf_after_removal(before, *block_id);
        }
    }

    /// The pending diff of a block.
    pub fn get_diff(&self, block_id: &BlockId) -> (r: Result<&BlockDiff, StorageError>)
        ensures
            r is Err <==> find_diff(self.block_diffs@, *block_id) is None,
            r matches Ok(d) ==> find_diff(self.block_diffs@, *block_id) == Some(*d),
    {
        let mut i: usize = 0;
        assert(self.block_diffs@.skip(0) =~= self.block_diffs@);
        while i < self.block_diffs.len()
            invariant
                i <= self.block_diffs@.len(),
                find_diff(self.block_diffs@, *block_id) == find_diff(self.block_diffs@.skip(i as int), *block_id),
            decreases self.block_diffs@.len() - i,
        {
            assert(self.block_diffs@.skip(i as int).drop_first() =~= self.block_diffs@.skip(i + 1));
            if self.block_diffs[i].block_id.equals(block_id) {
                return Ok(&self.block_diffs[i]);
            }
            i = i + 1;
        }
        Err(StorageError::NotFound { block_id: *block_id })
    }

    /// Removes the pending diff of a block.
    pub fn remove_diff(&mut self, block_id: &BlockId)
        requires
            old(self).wf(),
        ensures
            final(self).wf(),
            final(self).block_diffs@ == rows_not_in(old(self).block_diffs@, *block_id),
            final(self).blocks@ == old(self).blocks@,
            same_outside_tables(*old(self), *final(self)),
    {
        retain_rows_not_in(&mut self.block_diffs, *block_id);
    }

    /// Removes the pending state tree diffs of a block.
    pub fn remove_pending_tree_diff(&mut self, block_id: &BlockId)
        requires
            old(self).wf(),
        ensures
            final(self).wf(),
            final(self).pending_tree_diffs@ == rows_not_in(old(self).pending_tree_diffs@, *block_id),
            final(self).blocks@ == old(self).blocks@,
            same_outside_tables(*old(self), *final(self)),
    {
        retain_rows_not_in(&mut self.pending_tree_diffs, *block_id);
    }
}

/// Position of a stage in the pool's order; `Aborted` stands apart.
pub open spec fn stage_rank(s: TransactionPoolStage) -> int {
    match s {
        TransactionPoolStage::New => 0,
        TransactionPoolStage::Prepared => 1,
        TransactionPoolStage::LocalPrepared => 2,
        TransactionPoolStage::AllPrepared => 3,
        TransactionPoolStage::LocalAccepted => 4,
        TransactionPoolStage::AllAccepted => 5,
        TransactionPoolStage::Finalized => 6,
        TransactionPoolStage::Aborted => 7,
    }
}

impl TransactionPoolStage {
    fn rank(&self) -> (r: u8)
        ensures
            r as int == stage_rank(*self),
    {
        match self {
            TransactionPoolStage::New => 0,
            TransactionPoolStage::Prepared => 1,
            TransactionPoolStage::LocalPrepared => 2,
            TransactionPoolStage::AllPrepared => 3,
            TransactionPoolStage::LocalAccepted => 4,
            TransactionPoolStage::AllAccepted => 5,
            TransactionPoolStage::Finalized => 6,
            TransactionPoolStage::Aborted => 7,
        }
    }

    /// A pool entry moves one stage forward, or to `Aborted` from any stage that is not final.
    pub fn can_transition_to(&self, next: TransactionPoolStage) -> (r: bool)
        ensures
            r == (!(*self is Finalized) && !(*self is Aborted) && (next is Aborted || stage_rank(next)
                == stage_rank(*self) + 1)),
    {
        let a = self.rank();
        let b = next.rank();
        a < 6 && (b == 7 || b == a + 1)
    }

    /// The stage that a command of a block moves its transaction to.
    pub fn after_command(command: &crate::block::Command) -> (r: Option<TransactionPoolStage>)
        ensures
            command is Prepare ==> r == Some(TransactionPoolStage::Prepared),
            command is LocalPrepare ==> r == Some(TransactionPoolStage::LocalPrepared),
            command is AllPrepare ==> r == Some(TransactionPoolStage::AllPrepared),
            command is LocalAccept ==> r == Some(TransactionPoolStage::LocalAccepted),
            command is AllAccept ==> r == Some(TransactionPoolStage::AllAccepted),
            !(command is Prepare || command is LocalPrepare || command is AllPrepare || command is LocalAccept
                || command is AllAccept) ==> r is None,
    {
        match command {
            crate::block::Command::Prepare(_) => Some(TransactionPoolStage::Prepared),
            crate::block::Command::LocalPrepare(_) => Some(TransactionPoolStage::LocalPrepared),
            crate::block::Command::AllPrepare(_) => Some(TransactionPoolStage::AllPrepared),
            crate::block::Command::LocalAccept(_) => Some(TransactionPoolStage::LocalAccepted),
            crate::block::Command::AllAccept(_) => Some(TransactionPoolStage::AllAccepted),
            _ => None,
        }
    }
}

impl StateStore {
    /// Inserts a block whose justify QC is valid for `committee` (see `insert` for the other checks).
    pub fn insert_validated(&mut self, block: Block, committee: &Vec<FixedHash>) -> (r: Result<(), StorageError>)
        requires
            old(self).wf(),
        ensures
            final(self).wf(),
            r is Ok <==> (insertable(old(self).blocks@, block) && (block.justify.block_id.0@ == crate::bytes::zero_hash()
                || crate::block::has_quorum_spec(block.justify.signers@, committee@))),
            r is Ok ==> final(self).blocks@ == old(self).blocks@.push(as_stored(block)),
            r is Err ==> final(self).blocks@ == old(self).blocks@,
            same_outside_tables(*old(self), *final(self)),
    {
        if !block.justify.is_valid(committee) {
            return Err(StorageError::InvalidQuorumCertificate);
        }
        self.insert(block)
    }
}

/// The id of `b` where it is in `epoch` and `shard_group`, above `start` and at most `end`, and
/// not a dummy block unless those are included.
pub open spec fn id_between(
    b: Block,
    epoch: Epoch,
    shard_group: crate::block::ShardGroup,
    start: NodeHeight,
    end: NodeHeight,
    include_dummy: bool,
) -> Option<BlockId> {
    if b.header.epoch == epoch && b.header.shard_group == shard_group && start < b.header.height
        && b.header.height <= end && (include_dummy || !b.header.is_dummy) {
        Some(b.header.id)
    } else {
        None
    }
}

proof fn lemma_filter_map_prefix<T, U>(s: Seq<T>, f: spec_fn(T) -> Option<U>, i: int)
    requires
        0 <= i <= s.len(),
    ensures
        s.filter_map(f).len() >= s.subrange(0, i).filter_map(f).len(),
        s.filter_map(f).subrange(0, s.subrange(0, i).filter_map(f).len() as int) == s.subrange(0, i).filter_map(f),
    decreases s.len(),
{
    if i == s.len() {
        assert(s.subrange(0, i) =~= s);
        assert(s.filter_map(f).subrange(0, s.filter_map(f).len() as int) =~= s.filter_map(f));
    } else {
        let t = s.drop_last();
        assert(s.subrange(0, i) =~= t.subrange(0, i));
        lemma_filter_map_prefix(t, f, i);
        let p = t.subrange(0, i).filter_map(f);
        match f(s.last()) {
            Some(v) => {
                assert(s.filter_map(f) == t.filter_map(f) + seq![v]);
                assert(s.filter_map(f).subrange(0, p.len() as int) =~= t.filter_map(f).subrange(0, p.len() as int));
            },
            None => {
                assert(s.filter_map(f) == t.filter_map(f));
            },
        }
    }
}

impl StateStore {
    /// Ids of up to `limit` blocks of `epoch` and `shard_group` whose height lies in
    /// `(start, end]` (dummy blocks only when asked for), in store order.
    pub fn get_all_blocks_between(
        &self,
        epoch: Epoch,
        shard_group: crate::block::ShardGroup,
        start: NodeHeight,
        end: NodeHeight,
        include_dummy_blocks: bool,
        limit: u64,
    ) -> (r: Vec<BlockId>)
        ensures
            ({
                let all = self.blocks@.filter_map(|b: Block| id_between(b, epoch, shard_group, start, end, include_dummy_blocks));
                r@ == all.subrange(0, if all.len() < limit { all.len() as int } else { limit as int })
            }),
    {
        let mut out: Vec<BlockId> = Vec::new();
        let mut i: usize = 0;
        assert(self.blocks@.subrange(0, 0) =~= Seq::<Block>::empty());
        while i < self.blocks.len() && (out.len() as u64) < limit
            invariant
                i <= self.blocks@.len(),
                out@ == self.blocks@.subrange(0, i as int).filter_map(|b: Block| id_between(b, epoch, shard_group, start, end, include_dummy_blocks)),
                out@.len() <= limit,
            decreases self.blocks@.len() - i,
        {
            assert(self.blocks@.subrange(0, i + 1).drop_last() =~= self.blocks@.subrange(0, i as int));
            assert(self.blocks@.subrange(0, i + 1).last() == self.blocks@[i as int]);
            let b = &self.blocks[i];
            if b.header.epoch == epoch && b.header.shard_group == shard_group && start < b.header.height
                && b.header.height <= end && (include_dummy_blocks || !b.header.is_dummy) {
                out.push(b.header.id);
            }
            assert(out@ =~= self.blocks@.subrange(0, i + 1).filter_map(|b: Block| id_between(b, epoch, shard_group, start, end, include_dummy_blocks)));
            i = i + 1;
        }
        proof {
            let all = self.blocks@.filter_map(|b: Block| id_between(b, epoch, shard_group, start, end, include_dummy_blocks));
            lemma_filter_map_prefix(self.blocks@, |b: Block| id_between(b, epoch, shard_group, start, end, include_dummy_blocks), i as int);
            if i == self.blocks@.len() {
                assert(self.blocks@.subrange(0, i as int) =~= self.blocks@);
                assert(all.subrange(0, all.len() as int) =~= all);
            }
        }
        out
    }
}

impl Block {
    pub fn as_locked_block(&self) -> (r: BlockMarker)
        ensures
            r == marker_of(*self),
    {
        BlockMarker { epoch: self.header.epoch, height: self.header.height, block_id: self.header.id }
    }

    pub fn as_last_executed(&self) -> (r: BlockMarker)
        ensures
            r == marker_of(*self),
    {
        BlockMarker { epoch: self.header.epoch, height: self.header.height, block_id: self.header.id }
    }

    pub fn as_leaf_block(&self) -> (r: BlockMarker)
        ensures
            r == marker_of(*self),
    {
        BlockMarker { epoch: self.header.epoch, height: self.header.height, block_id: self.header.id }
    }

    pub fn as_last_voted(&self) -> (r: BlockMarker)
        ensures
            r == marker_of(*self),
    {
        BlockMarker { epoch: self.header.epoch, height: self.header.height, block_id: self.header.id }
    }

    pub fn as_last_proposed(&self) -> (r: BlockMarker)
        ensures
            r == marker_of(*self),
    {
        BlockMarker { epoch: self.header.epoch, height: self.header.height, block_id: self.header.id }
    }
}

/// The stored block `id` and its ancestors, lowest last, at most `limit` of them; the chain
/// stops at a block that is not stored or that is its own parent (the zero block).
pub open spec fn parent_chain(blocks: Seq<Block>, id: BlockId, limit: nat) -> Seq<BlockId>
    decreases limit,
{
    if limit == 0 {
        Seq::empty()
    } else {
        match find_block(blocks, id) {
            None => Seq::empty(),
            Some(b) => if b.header.parent == id {
                seq![id]
            } else {
                seq![id] + parent_chain(blocks, b.header.parent, (limit - 1) as nat)
            },
        }
    }
}

/// The id of `b` where it is of `epoch`.
pub open spec fn id_in_epoch(b: Block, epoch: Epoch) -> Option<BlockId> {
    if b.header.epoch == epoch {
        Some(b.header.id)
    } else {
        None
    }
}

impl StateStore {
    /// Block `id` and its ancestors, at most `limit` of them.
    pub fn get_parent_chain(&self, id: &BlockId, limit: u64) -> (r: Vec<BlockId>)
        ensures
            r@ == parent_chain(self.blocks@, *id, limit as nat),
    {
        let mut out: Vec<BlockId> = Vec::new();
        let mut cur = *id;
        let mut fuel: u64 = limit;
        while fuel > 0
            invariant
                out@ + parent_chain(self.blocks@, cur, fuel as nat) == parent_chain(self.blocks@, *id, limit as nat),
            decreases fuel,
        {
            match self.find_index(&cur) {
                None => {
                    assert(out@ + Seq::<BlockId>::empty() =~= out@);
                    return out;
                },
                Some(k) => {
                    let p = self.blocks[k].header.parent;
                    let ghost before = out@;
                    out.push(cur);
                    if p.equals(&cur) {
                        assert(before + seq![cur] =~= out@);
                        return out;
                    }
                    assert(before + (seq![cur] + parent_chain(self.blocks@, p, (fuel - 1) as nat)) =~= out@ + parent_chain(
                        self.blocks@,
                        p,
                        (fuel - 1) as nat,
                    ));
                    cur = p;
                    fuel = fuel - 1;
                },
            }
        }
        assert(out@ + Seq::<BlockId>::empty() =~= out@);
        out
    }

    /// Ids of the last `n` stored blocks of `epoch`, in store order.
    pub fn get_last_n_in_epoch(&self, n: usize, epoch: Epoch) -> (r: Vec<BlockId>)
        ensures
            ({
                let all = self.blocks@.filter_map(|b: Block| id_in_epoch(b, epoch));
                r@ == all.subrange(if all.len() > n { all.len() - n } else { 0 }, all.len() as int)
            }),
    {
        let mut all: Vec<BlockId> = Vec::new();
        let mut i: usize = 0;
        assert(self.blocks@.subrange(0, 0) =~= Seq::<Block>::empty());
        while i < self.blocks.len()
            invariant
                i <= self.blocks@.len(),
                all@ == self.blocks@.subrange(0, i as int).filter_map(|b: Block| id_in_epoch(b, epoch)),
            decreases self.blocks@.len() - i,
        {
            assert(self.blocks@.subrange(0, i + 1).drop_last() =~= self.blocks@.subrange(0, i as int));
            if self.blocks[i].header.epoch == epoch {
                all.push(self.blocks[i].header.id);
            }
            assert(all@ =~= self.blocks@.subrange(0, i + 1).filter_map(|b: Block| id_in_epoch(b, epoch)));
            i = i + 1;
        }
        assert(self.blocks@.subrange(0, self.blocks@.len() as int) =~= self.blocks@);
        let start = if all.len() > n { all.len() - n } else { 0 };
        let mut out: Vec<BlockId> = Vec::new();
        let mut j: usize = start;
        while j < all.len()
            invariant
                start <= j <= all@.len(),
                out@ == all@.subrange(start as int, j as int),
            decreases all@.len() - j,
        {
            out.push(all[j]);
            assert(out@ =~= all@.subrange(start as int, j + 1));
            j = j + 1;
        }
        out
    }
}

} // verus!
