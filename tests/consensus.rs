use indexmap::IndexMap;
use dan_consensus::block::{
    Block, BlockError, BlockId, Command, Decision, QuorumCertificate, ShardGroup, ShardGroupEvidence,
    TransactionAtom,
};
use dan_consensus::foreign::{ForeignProposalAction, ForeignReceiveCounters};
use dan_consensus::store::{
    LockedSubstate, StateStore, StorageError, SubstateLockType, TransactionExecution, TransactionPoolStage,
    TransactionPoolUpdate,
};
use dan_consensus::substate::{BlockDiff, SubstateChange, SubstateStoreError, VersionedSubstateId};
use dan_consensus::updates::{BootstrapSubstates, InitialSubstate, SubstateUpdate, MAIN_NET};
use dan_consensus::store::marker_for;

fn h(n: u8) -> [u8; 32] {
    [n; 32]
}

fn sg() -> ShardGroup {
    ShardGroup::new(0, 3)
}

fn atom(id: u8, evidence: Vec<[u8; 32]>) -> TransactionAtom {
    TransactionAtom {
        id: h(id),
        decision: Decision::Commit,
        evidence: vec![ShardGroupEvidence { shard_group: sg(), substates: evidence }],
        transaction_fee: 10,
        leader_fee: 1,
    }
}

fn make_block(parent: BlockId, justify: QuorumCertificate, height: u64, commands: Vec<Command>) -> Block {
    Block::create(
        0,
        parent,
        justify,
        height,
        1,
        sg(),
        h(7),
        commands,
        h(0),
        0,
        IndexMap::new(),
        None,
        1000 + height,
        0,
        h(0),
        vec![],
    )
    .unwrap()
}

fn qc_for(b: &Block) -> QuorumCertificate {
    QuorumCertificate::new(b.header.id, b.header.height, b.header.epoch, sg(), Decision::Commit, vec![h(1), h(2), h(3)])
}

fn zero_id(store: &StateStore) -> BlockId {
    store.blocks[0].header.id
}

/// Stores B1 <- B2 <- B3 on the zero block, each justified by a QC of its parent.
fn three_blocks(store: &mut StateStore) -> (Block, Block, Block) {
    let z = zero_id(store);
    let b1 = make_block(z, QuorumCertificate::genesis(1, sg()), 1, vec![Command::Prepare(atom(9, vec![h(20)]))]);
    store.insert(b1.clone()).unwrap();
    let b2 = make_block(b1.header.id, qc_for(&b1), 2, vec![Command::LocalPrepare(atom(9, vec![h(20)]))]);
    store.insert(b2.clone()).unwrap();
    let b3 = make_block(b2.header.id, qc_for(&b2), 3, vec![Command::AllPrepare(atom(9, vec![h(20)]))]);
    store.insert(b3.clone()).unwrap();
    (b1, b2, b3)
}

fn up(id: u8, version: u32, value: u8) -> SubstateChange {
    SubstateChange::Up {
        id: VersionedSubstateId { substate_id: h(id), version },
        shard: 0,
        transaction_id: h(9),
        substate: vec![value],
    }
}

fn down(id: u8, version: u32) -> SubstateChange {
    SubstateChange::Down { id: VersionedSubstateId { substate_id: h(id), version }, shard: 0, transaction_id: h(9) }
}

#[test]
fn single_shard_commit_fires_on_three_chain() {
    let mut store = StateStore::new(0, 4);
    let (b1, b2, b3) = three_blocks(&mut store);
    let b4 = make_block(b3.header.id, qc_for(&b3), 4, vec![]);
    let updates = store.update_nodes(&b4).unwrap();
    assert_eq!(updates.committed, vec![b1.header.id]);
    assert_eq!(updates.locked, vec![b1.header.id, b2.header.id]);
    assert_eq!(marker_for(&store.last_executed, 1).block_id, b1.header.id);
    assert_eq!(marker_for(&store.locked, 1).block_id, b2.header.id);
    assert_eq!(updates.locked_qcs, vec![b2.justify.qc_id, b3.justify.qc_id]);
    assert_eq!(store.high_qc.block_id, b3.header.id);
    let diff = BlockDiff { block_id: b1.header.id, changes: vec![up(20, 0, 5)] };
    store.block_diffs.push(diff.clone());
    store.commit_diff(&b1.header.id, diff).unwrap();
    assert_eq!(store.substates.len(), 1);
    let rec = &store.substates[0];
    assert_eq!(rec.created_block, b1.header.id);
    assert_eq!(rec.created_height, 1);
    assert_eq!(rec.created_at_epoch, 1);
    assert_eq!(rec.created_justify, b1.justify.qc_id);
    assert_eq!(rec.created_by_transaction, h(9));
    assert!(rec.destroyed.is_none());
    assert!(store.get_diff(&b1.header.id).is_err());
    assert!(store.blocks.iter().any(|b| b.header.id == b1.header.id && b.is_committed));
}

#[test]
fn no_commit_without_contiguous_chain() {
    let mut store = StateStore::new(0, 4);
    let (_b1, _b2, b3) = three_blocks(&mut store);
    let updates = store.update_nodes(&make_block(b3.header.id, qc_for(&b3), 4, vec![])).unwrap();
    assert_eq!(updates.committed.len(), 1);
    // a block justified by B1 only locks nothing new and commits nothing
    let mut store2 = StateStore::new(0, 4);
    let (b1, _, _) = three_blocks(&mut store2);
    let weak = make_block(b1.header.id, qc_for(&b1), 5, vec![]);
    let u = store2.update_nodes(&weak).unwrap();
    assert!(u.committed.is_empty());
    assert!(u.locked.is_empty());
    assert_eq!(marker_for(&store2.last_executed, 1).height, 0);
}

#[test]
fn unsafe_proposal_gets_no_vote() {
    let mut store = StateStore::new(0, 4);
    let (b1, _b2, b3) = three_blocks(&mut store);
    store.update_nodes(&make_block(b3.header.id, qc_for(&b3), 4, vec![])).unwrap();
    assert_eq!(marker_for(&store.locked, 1).height, 2);
    // forks off B1 with a QC at height 1: neither above the lock nor extending it
    let fork = make_block(b1.header.id, qc_for(&b1), 2, vec![Command::EpochEnd]);
    assert!(!store.is_safe(&fork));
    assert!(!store.vote_if_safe(&fork));
    assert!(store.last_voted.is_none());
    // a proposal on top of the locked chain is safe
    let good = make_block(b3.header.id, qc_for(&b3), 4, vec![]);
    assert!(store.vote_if_safe(&good));
    assert_eq!(store.last_voted.unwrap().block_id, good.header.id);
}

#[test]
fn commit_removes_parallel_chains() {
    let mut store = StateStore::new(0, 4);
    let z = zero_id(&store);
    let b = make_block(z, QuorumCertificate::genesis(1, sg()), 1, vec![Command::Prepare(atom(1, vec![]))]);
    let b_other = make_block(z, QuorumCertificate::genesis(1, sg()), 1, vec![Command::Prepare(atom(2, vec![]))]);
    store.insert(b.clone()).unwrap();
    store.insert(b_other.clone()).unwrap();
    let child = make_block(b_other.header.id, qc_for(&b_other), 2, vec![]);
    store.insert(child.clone()).unwrap();
    store.pool_updates.push(TransactionPoolUpdate {
        block_id: child.header.id,
        transaction_id: h(2),
        stage: TransactionPoolStage::Prepared,
    });
    store.executions.push(TransactionExecution { block_id: b_other.header.id, transaction_id: h(2), decision: Decision::Commit });
    store.executions.push(TransactionExecution { block_id: b.header.id, transaction_id: h(1), decision: Decision::Commit });
    store.block_diffs.push(BlockDiff { block_id: b_other.header.id, changes: vec![] });
    store.commit_diff(&b.header.id, BlockDiff { block_id: b.header.id, changes: vec![] }).unwrap();
    assert_eq!(store.blocks.len(), 2);
    assert!(!store.record_exists(&b_other.header.id));
    assert!(!store.record_exists(&child.header.id));
    assert!(store.record_exists(&b.header.id));
    assert!(store.pool_updates.is_empty());
    assert_eq!(store.executions.len(), 1);
    assert_eq!(store.executions[0].block_id, b.header.id);
    assert!(store.block_diffs.is_empty());
    assert_eq!(store.get_ids_by_epoch_and_height(1, 1), vec![b.header.id]);
    // the parent (the zero block) stays
    assert!(store.record_exists(&z));
}

#[test]
fn insert_refuses_non_canonical_commands() {
    let mut store = StateStore::new(0, 4);
    let z = zero_id(&store);
    let mut b = make_block(z, QuorumCertificate::genesis(1, sg()), 1, vec![]);
    b.commands = vec![Command::EpochEnd, Command::Prepare(atom(1, vec![]))];
    b.header.command_merkle_root = b.compute_command_merkle_root();
    b.header.id = BlockId::new(b.calculate_hash());
    assert_eq!(store.insert(b), Err(StorageError::CommandsNotCanonical));
    assert_eq!(store.get_count(), 1);
}

#[test]
fn send_counters_are_stored_per_block() {
    let mut store = StateStore::new(0, 4);
    let (b1, _b2, _b3) = three_blocks(&mut store);
    let mut parent = make_block(b1.header.id, qc_for(&b1), 2, vec![]);
    parent.header.foreign_indexes = IndexMap::from([(2u32, 0u64)]);
    store.save_foreign_send_counters(&parent).unwrap();
    let child = Block::create(0, parent.header.id, qc_for(&parent), 3, 1, sg(), h(7), vec![], h(0), 0,
        IndexMap::from([(2u32, 1u64), (5, 0)]), None, 0, 0, h(0), vec![]).unwrap();
    store.save_foreign_send_counters(&child).unwrap();
    assert_eq!(store.get_send_counters(&child.header.id), vec![(2, 2), (5, 1)]);
    let quiet = make_block(BlockId::new(h(50)), qc_for(&b1), 4, vec![]);
    let before = store.foreign_send_counters.len();
    store.save_foreign_send_counters(&quiet).unwrap();
    assert_eq!(store.foreign_send_counters.len(), before);
}

#[test]
fn foreign_proposal_gap_is_deferred() {
    let mut counters = ForeignReceiveCounters::new();
    let x = ShardGroup::new(4, 7);
    assert_eq!(counters.receive(x, 1), ForeignProposalAction::Accept);
    assert_eq!(counters.last_seen(x), 1);
    assert_eq!(counters.receive(x, 3), ForeignProposalAction::Defer { missing_from: 2, missing_to: 2 });
    assert_eq!(counters.last_seen(x), 1);
    assert_eq!(counters.receive(x, 1), ForeignProposalAction::Drop);
    assert_eq!(counters.receive(x, 2), ForeignProposalAction::Accept);
    assert_eq!(counters.receive(x, 3), ForeignProposalAction::Accept);
    assert_eq!(counters.last_seen(x), 3);
    assert_eq!(counters.last_seen(ShardGroup::new(8, 9)), 0);
}

#[test]
fn pledge_excludes_later_stage_locks() {
    let mut store = StateStore::new(0, 4);
    let z = zero_id(&store);
    let b = make_block(z, QuorumCertificate::genesis(1, sg()), 1, vec![Command::LocalPrepare(atom(9, vec![h(30), h(31)]))]);
    store.insert(b.clone()).unwrap();
    let lock = |address: u8, lock_type: SubstateLockType, value: Option<Vec<u8>>| LockedSubstate {
        block_id: b.header.id,
        transaction_id: h(9),
        address: h(address),
        substate_id: h(address + 100),
        version: 0,
        lock_type,
        value,
    };
    store.substate_locks.push(lock(30, SubstateLockType::Read, Some(vec![1])));
    store.substate_locks.push(lock(31, SubstateLockType::Write, Some(vec![2])));
    store.substate_locks.push(lock(32, SubstateLockType::Output, None));
    let pledge = store.get_block_pledge(&b).unwrap();
    assert_eq!(pledge.len(), 2);
    assert!(pledge.pledges.iter().all(|(tx, _)| *tx == h(9)));
    // an input lock without its value cannot be pledged
    store.substate_locks.push(lock(30, SubstateLockType::Read, None));
    assert_eq!(store.get_block_pledge(&b).unwrap_err(), StorageError::DataInconsistency);
}

#[test]
fn commit_twice_is_already_committed() {
    let mut store = StateStore::new(0, 4);
    let z = zero_id(&store);
    let b = make_block(z, QuorumCertificate::genesis(1, sg()), 1, vec![]);
    store.insert(b.clone()).unwrap();
    store.commit_diff(&b.header.id, BlockDiff { block_id: b.header.id, changes: vec![up(1, 0, 1)] }).unwrap();
    let before = store.substates.clone();
    let r = store.commit_diff(&b.header.id, BlockDiff { block_id: b.header.id, changes: vec![up(1, 0, 1)] });
    assert_eq!(r, Err(StorageError::AlreadyCommitted));
    assert_eq!(store.substates, before);
}

#[test]
fn dummy_block_with_changes_is_rejected() {
    let mut store = StateStore::new(0, 4);
    let z = zero_id(&store);
    let mut b = make_block(z, QuorumCertificate::genesis(1, sg()), 1, vec![]);
    b.header.is_dummy = true;
    b.header.id = BlockId::new(b.calculate_hash());
    store.insert(b.clone()).unwrap();
    let r = store.commit_diff(&b.header.id, BlockDiff { block_id: b.header.id, changes: vec![up(1, 0, 1)] });
    assert_eq!(r, Err(StorageError::DummyBlockHasChanges));
    assert!(store.substates.is_empty());
    store.commit_diff(&b.header.id, BlockDiff { block_id: b.header.id, changes: vec![] }).unwrap();
}

#[test]
fn block_with_wrong_command_root_is_rejected() {
    let mut store = StateStore::new(0, 4);
    let z = zero_id(&store);
    let mut b = make_block(z, QuorumCertificate::genesis(1, sg()), 1, vec![Command::EpochEnd]);
    b.header.command_merkle_root = h(5);
    b.header.id = BlockId::new(b.calculate_hash());
    assert_eq!(store.insert(b), Err(StorageError::CommandMerkleRootMismatch));
    assert_eq!(store.blocks.len(), 1);
}

#[test]
fn block_id_is_header_hash() {
    let mut store = StateStore::new(0, 4);
    let z = zero_id(&store);
    let b = make_block(z, QuorumCertificate::genesis(1, sg()), 1, vec![Command::EpochEnd]);
    assert_eq!(b.calculate_hash(), b.header.id.0);
    assert_ne!(b.header.id.0, [0u8; 32]);
    let mut tampered = b.clone();
    tampered.header.timestamp += 1;
    assert_ne!(tampered.calculate_hash(), b.header.id.0);
    assert_eq!(store.insert(tampered), Err(StorageError::InvalidBlockId));
    store.insert(b.clone()).unwrap();
    assert_eq!(store.insert(b.clone()), Err(StorageError::AlreadyExists));
    assert_eq!(store.save(b), Ok(false));
    // a new block that cannot be inserted is an error, not `false`
    let orphan = make_block(BlockId::new(h(99)), QuorumCertificate::genesis(1, sg()), 5, vec![]);
    assert_eq!(store.save(orphan), Err(StorageError::ParentNotFound));
}

#[test]
fn genesis_block_shape() {
    let g = Block::genesis(0, 1, sg(), h(4), Some(h(6)));
    assert!(g.header.parent.is_zero());
    assert_eq!(g.header.height, 0);
    assert!(g.justify.is_genesis());
    assert_eq!(g.justify.qc_id, g.header.justify_id);
    assert_eq!(g.header.state_merkle_root, h(4));
    assert_eq!(g.header.extra_data, h(6).to_vec());
    assert!(g.is_genesis());
    assert_eq!(g.calculate_hash(), g.header.id.0);
    let zero = Block::zero_block(0, 4);
    assert!(zero.header.id.is_zero());
    assert!(zero.is_committed);
}

#[test]
fn commands_must_be_canonical() {
    let a = Command::Prepare(atom(2, vec![]));
    let b = Command::Prepare(atom(1, vec![]));
    let r = Block::create(0, BlockId::zero(), QuorumCertificate::genesis(1, sg()), 1, 1, sg(), h(0), vec![a.clone(), b.clone()], h(0), 0, IndexMap::new(), None, 0, 0, h(0), vec![]);
    assert_eq!(r.unwrap_err(), BlockError::CommandsNotCanonical);
    let ok = Block::create(0, BlockId::zero(), QuorumCertificate::genesis(1, sg()), 1, 1, sg(), h(0), vec![b, a, Command::EpochEnd], h(0), 0, IndexMap::from([(1u32, 2u64), (3, 1)]), None, 0, 0, h(0), vec![]);
    let ok = ok.unwrap();
    assert!(ok.is_epoch_end());
    assert_eq!(ok.command_count(), 3);
    assert!(!dan_consensus::block::is_map_sorted_by_shard(&IndexMap::from([(3u32, 2u64), (1, 1)])));
    assert!(dan_consensus::block::is_map_sorted_by_shard(&IndexMap::from([(1u32, 2u64), (3, 1)])));
}

#[test]
fn total_transaction_fee_sums_committing_atoms() {
    let cmds = vec![
        Command::Prepare(atom(1, vec![])),
        Command::AllAccept(atom(2, vec![])),
        Command::AllAccept(atom(3, vec![])),
    ];
    let b = make_block(BlockId::zero(), QuorumCertificate::genesis(1, sg()), 1, cmds);
    assert_eq!(b.calculate_total_transaction_fee(), 20);
}

#[test]
fn command_root_depends_on_commands() {
    let empty = dan_consensus::encoding::compute_command_merkle_root(&vec![]);
    let one = dan_consensus::encoding::compute_command_merkle_root(&vec![Command::EpochEnd]);
    assert_ne!(empty, one);
    assert_ne!(empty, [0u8; 32]);
    // BLAKE2b-256 of the bytes "dan.cmds.v1"
    let again = dan_consensus::encoding::compute_command_merkle_root(&vec![]);
    assert_eq!(empty, again);
}

#[test]
fn substate_versions_advance_without_gaps() {
    let mut store = StateStore::new(0, 4);
    let z = zero_id(&store);
    let b1 = make_block(z, QuorumCertificate::genesis(1, sg()), 1, vec![]);
    store.insert(b1.clone()).unwrap();
    store.commit_diff(&b1.header.id, BlockDiff { block_id: b1.header.id, changes: vec![up(1, 0, 1)] }).unwrap();
    let b2 = make_block(b1.header.id, qc_for(&b1), 2, vec![]);
    store.insert(b2.clone()).unwrap();
    // a gap: version 2 without version 1
    let r = store.commit_diff(&b2.header.id, BlockDiff { block_id: b2.header.id, changes: vec![down(1, 0), up(1, 2, 3)] });
    assert_eq!(
        r,
        Err(StorageError::SubstateConflict {
            error: SubstateStoreError::VersionConflict { id: VersionedSubstateId { substate_id: h(1), version: 2 } }
        })
    );
    // nothing of the failed diff was kept
    assert_eq!(store.substates.len(), 1);
    assert!(store.substates[0].destroyed.is_none());
    store.commit_diff(&b2.header.id, BlockDiff { block_id: b2.header.id, changes: vec![down(1, 0), up(1, 1, 3)] }).unwrap();
    assert_eq!(store.substates.len(), 2);
    assert!(store.substates[0].destroyed.is_some());
    assert_eq!(store.substates[1].version, 1);
}

#[test]
fn down_of_missing_version_fails() {
    let mut recs = Vec::new();
    let ctx = dan_consensus::substate::CommitContext { epoch: 1, height: 1, block_id: BlockId::zero(), justify_id: h(0) };
    let r = dan_consensus::substate::apply_diff(&mut recs, vec![down(1, 0)], ctx);
    assert_eq!(r, Err(SubstateStoreError::NotUp { id: VersionedSubstateId { substate_id: h(1), version: 0 } }));
    let r = dan_consensus::substate::apply_diff(&mut recs, vec![up(1, 0, 1), down(1, 0), up(1, 1, 2)], ctx);
    assert_eq!(r, Ok(()));
    assert_eq!(recs.len(), 2);
}

#[test]
fn dummy_block_is_flagged_and_hashed() {
    let store = StateStore::new(0, 4);
    let z = zero_id(&store);
    let d = Block::dummy_block(0, z, h(7), QuorumCertificate::genesis(1, sg()), 1, 1, sg(), h(0), 5, 0, h(0));
    assert!(d.is_dummy());
    assert_eq!(d.command_count(), 0);
    assert_eq!(d.calculate_hash(), d.id().0);
    assert_eq!(d.parent(), &z);
    assert_eq!(d.height(), 1);
}

#[test]
fn qc_validity_needs_two_thirds_of_distinct_members() {
    let committee = vec![h(1), h(2), h(3), h(4)];
    let target = BlockId::new(h(50));
    let qc = |signers: Vec<[u8; 32]>| QuorumCertificate::new(target, 3, 1, sg(), Decision::Commit, signers);
    assert!(qc(vec![h(1), h(2), h(3)]).is_valid(&committee));
    assert!(!qc(vec![h(1), h(2)]).is_valid(&committee));
    assert!(!qc(vec![h(1), h(1), h(2)]).is_valid(&committee));
    assert!(!qc(vec![h(1), h(2), h(9)]).is_valid(&committee));
    assert!(QuorumCertificate::genesis(1, sg()).is_valid(&committee));
    assert_ne!(qc(vec![h(1), h(2), h(3)]).qc_id, qc(vec![h(1), h(2), h(4)]).qc_id);
}

#[test]
fn send_counters_stay_sorted() {
    let mut c = dan_consensus::foreign::ForeignSendCounters::new();
    assert!(c.is_empty());
    c.increment_counter(5);
    c.increment_counter(2);
    c.increment_counter(5);
    assert_eq!(c.counters, vec![(2, 1), (5, 2)]);
    c.increment_for_block(&IndexMap::from([(1u32, 0u64), (5, 9)]));
    assert_eq!(c.counters, vec![(1, 1), (2, 1), (5, 3)]);
    assert_eq!(c.get_count(5), 3);
    assert_eq!(c.get_count(4), 0);
}

#[test]
fn missed_proposals_are_capped() {
    let mut stats = dan_consensus::block::ValidatorEpochStats::new(3);
    stats.add_missed_proposal(2);
    stats.add_missed_proposal(2);
    stats.add_missed_proposal(2);
    assert_eq!(stats.missed_proposals, 2);
    stats.missed_proposals = 5;
    stats.add_missed_proposal(2);
    assert_eq!(stats.missed_proposals, 2);
    stats.reset_missed_proposals();
    assert_eq!(stats.missed_proposals, 0);
    assert_eq!(stats.epoch, 3);
}

#[test]
fn signing_recomputes_the_id() {
    let mut b = make_block(BlockId::zero(), QuorumCertificate::genesis(1, sg()), 1, vec![]);
    let before = b.header.id;
    b.set_signature(dan_consensus::block::ValidatorSignature { public_nonce: h(3), signature: h(4) });
    assert_ne!(b.header.id, before);
    assert_eq!(b.calculate_hash(), b.header.id.0);
    assert!(b.signature().is_some());
}

#[test]
fn block_lookups_by_parent_and_height() {
    let mut store = StateStore::new(0, 4);
    let (b1, b2, _b3) = three_blocks(&mut store);
    assert_eq!(store.get_ids_by_parent(&b1.header.id), vec![b2.header.id]);
    assert_eq!(store.get_ids_by_epoch_and_height(1, 2), vec![b2.header.id]);
    assert!(store.is_ancestor(&b2.header.id, &zero_id(&store)));
    assert!(!store.is_ancestor(&b1.header.id, &b2.header.id));
    assert_eq!(store.get(&b2.header.id).unwrap().header.height, 2);
    assert_eq!(store.get(&BlockId::new(h(77))).unwrap_err(), StorageError::NotFound { block_id: BlockId::new(h(77)) });
    store.set_justified(&b2.header.id).unwrap();
    assert!(store.get(&b2.header.id).unwrap().is_justified());
    assert_eq!(store.collect_chain(&b2.header.id, 0, 2).unwrap(), vec![b1.header.id, b2.header.id]);
}

#[test]
fn header_round_trips_through_its_encoding() {
    let mut b = Block::create(
        2,
        BlockId::new(h(1)),
        QuorumCertificate::genesis(1, sg()),
        9,
        4,
        sg(),
        h(7),
        vec![Command::EpochEnd],
        h(8),
        55,
        IndexMap::from([(1u32, 3u64), (6, 2)]),
        None,
        1234,
        77,
        h(9),
        vec![1, 2, 3],
    )
    .unwrap();
    b.set_signature(dan_consensus::block::ValidatorSignature { public_nonce: h(3), signature: h(4) });
    let bytes = dan_consensus::encoding::encode_header(&b.header);
    let decoded = dan_consensus::codec::decode_header(&bytes).unwrap();
    assert_eq!(decoded.id, b.header.id);
    assert_eq!(decoded.foreign_indexes, b.header.foreign_indexes);
    assert_eq!(decoded.extra_data, vec![1, 2, 3]);
    assert_eq!(decoded.signature, b.header.signature);
    assert_eq!(decoded.height, 9);
    assert_eq!(dan_consensus::encoding::encode_header(&decoded), bytes);
    let unsigned = make_block(BlockId::zero(), QuorumCertificate::genesis(1, sg()), 1, vec![]);
    let bytes = dan_consensus::encoding::encode_header(&unsigned.header);
    assert_eq!(dan_consensus::codec::decode_header(&bytes).unwrap().id, unsigned.header.id);
    let mut truncated = bytes.clone();
    truncated.pop();
    assert!(dan_consensus::codec::decode_header(&truncated).is_none());
    let mut wrong_domain = bytes.clone();
    wrong_domain[0] = 0;
    assert!(dan_consensus::codec::decode_header(&wrong_domain).is_none());
    assert!(dan_consensus::codec::decode_header(&vec![0u8; 10]).is_none());
}

#[test]
fn transaction_stages_follow_the_commands() {
    let mut store = StateStore::new(0, 4);
    let (b1, b2, b3) = three_blocks(&mut store);
    let stages: Vec<TransactionPoolStage> =
        [&b1, &b2, &b3].iter().map(|b| TransactionPoolStage::after_command(&b.commands[0]).unwrap()).collect();
    assert_eq!(stages, vec![TransactionPoolStage::Prepared, TransactionPoolStage::LocalPrepared, TransactionPoolStage::AllPrepared]);
    assert!(TransactionPoolStage::New.can_transition_to(stages[0]));
    assert!(stages[0].can_transition_to(stages[1]));
    assert!(stages[1].can_transition_to(stages[2]));
    assert!(!stages[0].can_transition_to(stages[2]));
    assert!(stages[2].can_transition_to(TransactionPoolStage::Aborted));
    assert!(!TransactionPoolStage::Finalized.can_transition_to(TransactionPoolStage::Aborted));
    assert!(TransactionPoolStage::after_command(&Command::EpochEnd).is_none());
}

#[test]
fn insert_checks_the_justify_quorum() {
    let mut store = StateStore::new(0, 4);
    let committee = vec![h(1), h(2), h(3), h(4)];
    let z = zero_id(&store);
    let b1 = make_block(z, QuorumCertificate::genesis(1, sg()), 1, vec![]);
    store.insert_validated(b1.clone(), &committee).unwrap();
    let weak_qc = QuorumCertificate::new(b1.header.id, 1, 1, sg(), Decision::Commit, vec![h(1)]);
    let b2 = make_block(b1.header.id, weak_qc, 2, vec![]);
    assert_eq!(store.insert_validated(b2, &committee), Err(StorageError::InvalidQuorumCertificate));
    let b2 = make_block(b1.header.id, qc_for(&b1), 2, vec![]);
    store.insert_validated(b2, &committee).unwrap();
    assert_eq!(store.get_count(), 3);
    assert_eq!(store.max_height(), 2);
}

#[test]
fn substate_updates_of_committed_transactions() {
    let mut store = StateStore::new(0, 4);
    let z = zero_id(&store);
    let b1 = make_block(z, QuorumCertificate::genesis(1, sg()), 1, vec![]);
    store.insert(b1.clone()).unwrap();
    store.commit_diff(&b1.header.id, BlockDiff { block_id: b1.header.id, changes: vec![up(1, 0, 5)] }).unwrap();
    let b2 = make_block(b1.header.id, qc_for(&b1), 2, vec![]);
    store.insert(b2.clone()).unwrap();
    let later = |c: SubstateChange| match c {
        SubstateChange::Up { id, shard, substate, .. } => SubstateChange::Up { id, shard, transaction_id: h(10), substate },
        SubstateChange::Down { id, shard, .. } => SubstateChange::Down { id, shard, transaction_id: h(10) },
    };
    store
        .commit_diff(&b2.header.id, BlockDiff { block_id: b2.header.id, changes: vec![later(down(1, 0)), later(up(1, 1, 6))] })
        .unwrap();
    let mut a = atom(10, vec![]);
    a.decision = Decision::Commit;
    let block = make_block(b2.header.id, qc_for(&b2), 3, vec![Command::AllAccept(a)]);
    let updates = store.get_substate_updates(&block);
    assert_eq!(
        updates,
        vec![
            SubstateUpdate::Destroy { substate_id: h(1), version: 0, destroyed_by_transaction: h(10) },
            SubstateUpdate::Create { substate_id: h(1), version: 1, value: vec![6] },
        ]
    );
    let prepare_only = make_block(b2.header.id, qc_for(&b2), 3, vec![Command::Prepare(atom(10, vec![]))]);
    assert!(store.get_substate_updates(&prepare_only).is_empty());
}

fn initial(n: u8) -> InitialSubstate {
    InitialSubstate { id: h(n), value: vec![n] }
}

fn bootstrap_values() -> BootstrapSubstates {
    BootstrapSubstates {
        public_identity: initial(1),
        faucet_component: initial(2),
        faucet_vault: initial(3),
        confidential_resource: initial(4),
    }
}

#[test]
fn bootstrap_is_idempotent() {
    let mut store = StateStore::new(0, 4);
    assert_eq!(store.bootstrap_state(0x26, 4, bootstrap_values()), Ok(true));
    assert_eq!(store.substates.len(), 4);
    for n in 1..=4u8 {
        assert!(store.substate_is_up(&h(n), 0));
    }
    let genesis_qc = QuorumCertificate::genesis(0, ShardGroup::all_shards(4));
    assert_eq!(store.substates[0].created_justify, genesis_qc.qc_id);
    assert!(store.substates[0].created_block.is_zero());
    assert_eq!(store.bootstrap_state(0x26, 4, bootstrap_values()), Ok(false));
    assert_eq!(store.substates.len(), 4);
}

#[test]
fn main_net_bootstrap_has_no_faucet() {
    let mut store = StateStore::new(0, 4);
    assert_eq!(store.bootstrap_state(MAIN_NET, 4, bootstrap_values()), Ok(true));
    assert_eq!(store.substates.len(), 2);
    assert!(store.substate_exists(&h(1), 0));
    assert!(store.substate_exists(&h(4), 0));
    assert!(!store.substate_exists(&h(2), 0));
    assert!(!store.substate_exists(&h(3), 0));
}

#[test]
fn block_graph_row_operations() {
    let mut store = StateStore::new(0, 4);
    let (b1, b2, b3) = three_blocks(&mut store);
    assert!(b2.justifies_parent());
    assert!(store.parent_exists(&b3));
    assert_eq!(store.get_parent(&b2).unwrap().header.id, b1.header.id);
    assert!(store.get_parent(&store.blocks[0].clone()).is_err());
    assert_eq!(store.has_been_justified(&b1.header.id), Ok(false));
    assert_eq!(store.get_child_block_ids(&b2.header.id), vec![b3.header.id]);
    store.block_diffs.push(BlockDiff { block_id: b3.header.id, changes: vec![up(3, 0, 1)] });
    assert_eq!(store.get_diff(&b3.header.id).unwrap().changes.len(), 1);
    store.remove_diff(&b3.header.id);
    assert!(store.get_diff(&b3.header.id).is_err());
    store.delete_record(&b3.header.id);
    assert!(!store.record_exists(&b3.header.id));
    let loaded = Block::load(
        b1.header.id, 0, b1.header.parent, b1.justify.clone(), 1, 1, sg(), h(7), h(0), b1.commands.clone(),
        b1.header.command_merkle_root, 0, false, true, false, IndexMap::new(), None, 99, Some(5), 1001, 0, h(0), vec![],
    );
    assert_eq!(loaded.calculate_hash(), b1.header.id.0);
    assert!(loaded.is_justified());
    assert_eq!(loaded.stored_at, Some(99));
}

#[test]
fn blocks_between_heights_with_limit() {
    let mut store = StateStore::new(0, 4);
    let (b1, b2, b3) = three_blocks(&mut store);
    assert_eq!(store.get_all_blocks_between(1, sg(), 0, 3, true, 10), vec![b1.header.id, b2.header.id, b3.header.id]);
    assert_eq!(store.get_all_blocks_between(1, sg(), 1, 3, true, 10), vec![b2.header.id, b3.header.id]);
    assert_eq!(store.get_all_blocks_between(1, sg(), 0, 3, true, 2), vec![b1.header.id, b2.header.id]);
    assert!(store.get_all_blocks_between(2, sg(), 0, 3, true, 10).is_empty());
}

#[test]
fn transaction_ids_of_a_block() {
    let other = ShardGroup::new(4, 7);
    let mut foreign_atom = atom(5, vec![]);
    foreign_atom.evidence = vec![ShardGroupEvidence { shard_group: other, substates: vec![] }];
    let b = make_block(
        BlockId::zero(),
        QuorumCertificate::genesis(1, sg()),
        1,
        vec![Command::Prepare(atom(3, vec![])), Command::Prepare(foreign_atom), Command::EpochEnd],
    );
    assert_eq!(b.all_transaction_ids(), vec![h(3), h(5)]);
    assert_eq!(b.all_transaction_ids_in_committee(sg()), vec![h(3)]);
    assert_eq!(b.all_transaction_ids_in_committee(other), vec![h(5)]);
}

#[test]
fn lock_is_kept_per_epoch() {
    let mut store = StateStore::new(0, 4);
    let (b1, _b2, b3) = three_blocks(&mut store);
    store.update_nodes(&make_block(b3.header.id, qc_for(&b3), 4, vec![])).unwrap();
    assert_eq!(marker_for(&store.locked, 1).height, 2);
    assert_eq!(marker_for(&store.locked, 0).height, 0);
    // in epoch 1 a fork justified at height 1 is unsafe; in a later epoch the lock starts over
    let fork = make_block(b1.header.id, qc_for(&b1), 2, vec![Command::EpochEnd]);
    assert!(!store.is_safe(&fork));
    let mut later = fork.clone();
    later.header.epoch = 2;
    assert!(store.is_safe(&later));
}

#[test]
fn command_listings_and_chains() {
    let mut store = StateStore::new(0, 4);
    let (b1, b2, b3) = three_blocks(&mut store);
    let mut aborted = atom(6, vec![]);
    aborted.decision = Decision::Abort;
    let fp = dan_consensus::block::ForeignProposalAtom { block_id: BlockId::new(h(40)), shard_group: sg() };
    let cmds = vec![
        Command::AllAccept(atom(5, vec![])),
        Command::AllAccept(aborted),
        Command::SomePrepare(atom(8, vec![])),
        Command::ForeignProposal(fp),
        Command::MintConfidentialOutput(dan_consensus::block::MintConfidentialOutputAtom { commitment: h(41) }),
        Command::ResumeNode(dan_consensus::block::ResumeNodeAtom { public_key: h(42) }),
    ];
    let b = make_block(b3.header.id, qc_for(&b3), 4, cmds);
    assert_eq!(b.all_committing_transactions_ids(), vec![h(5)]);
    assert_eq!(b.all_finalising_transactions_ids(), vec![h(5), h(6)]);
    assert_eq!(b.all_some_prepare(), vec![h(8)]);
    assert_eq!(b.all_foreign_proposals(), vec![fp]);
    assert_eq!(b.all_confidential_output_mints()[0].commitment, h(41));
    assert_eq!(b.all_resume_nodes()[0].public_key, h(42));
    assert_eq!(b.as_locked_block().height, 4);
    assert_eq!(b.as_leaf_block().block_id, b.header.id);
    assert_eq!(b.as_last_executed().epoch, 1);
    assert_eq!(b.clone().into_commands().len(), 6);
    assert_eq!(b.into_justify().block_id, b3.header.id);
    let z = zero_id(&store);
    assert_eq!(store.get_parent_chain(&b3.header.id, 10), vec![b3.header.id, b2.header.id, b1.header.id, z]);
    assert_eq!(store.get_parent_chain(&b3.header.id, 2), vec![b3.header.id, b2.header.id]);
    assert_eq!(store.get_last_n_in_epoch(2, 1), vec![b2.header.id, b3.header.id]);
    assert_eq!(store.get_last_n_in_epoch(9, 0), vec![z]);
}
