//! Substate updates of committed blocks, and bootstrapping of the initial substates.
use crate::block::{command_committing, Block, BlockId, Command, Shard};
use crate::bytes::{hash_eq, zero_bytes, zero_hash, FixedHash};
use crate::store::{StateStore, StorageError};
use crate::substate::{
    apply_changes_spec, apply_diff, up_at, versions_wf, CommitContext, SubstateChange, SubstateRecord,
    VersionedSubstateId,
};
use vstd::prelude::*;

verus! {

/// A substate change of a committed transaction, as reported to other shard groups.
#[derive(Clone, Debug, PartialEq, Eq)]
pub enum SubstateUpdate {
    Create { substate_id: FixedHash, version: u32, value: Vec<u8> },
    Destroy { substate_id: FixedHash, version: u32, destroyed_by_transaction: FixedHash },
}

/// The record was created or destroyed by transaction `tx`.
pub open spec fn touched_by(rec: SubstateRecord, tx: FixedHash) -> bool {
    rec.created_by_transaction == tx || (rec.destroyed matches Some(d) && d.by_transaction == tx)
}

/// `u` reports record `rec` for transaction `tx`: a destruction when `tx` destroyed a version it
/// did not create, otherwise the creation.
pub open spec fn update_for(u: SubstateUpdate, rec: SubstateRecord, tx: FixedHash) -> bool {
    if rec.destroyed is Some && rec.created_by_transaction != tx {
        u == SubstateUpdate::Destroy {
            substate_id: rec.substate_id,
            version: rec.version,
            destroyed_by_transaction: rec.destroyed->Some_0.by_transaction,
        }
    } else {
        match u {
            SubstateUpdate::Create { substate_id, version, value } => substate_id == rec.substate_id
                && version == rec.version && value@ == rec.value@,
            _ => false,
        }
    }
}

/// Indexes of the first `n` records touched by `tx`, in order.
pub open spec fn tx_record_indices(recs: Seq<SubstateRecord>, tx: FixedHash, n: nat) -> Seq<int>
    decreases n,
{
    if n == 0 {
        Seq::empty()
    } else {
        let s = tx_record_indices(recs, tx, (n - 1) as nat);
        if touched_by(recs[n - 1], tx) {
            s.push(n - 1)
        } else {
            s
        }
    }
}

/// The transaction that command `c` commits, where it commits it with a COMMIT decision.
pub open spec fn committed_tx(c: Command) -> Option<FixedHash> {
    match command_committing(c) {
        Some(a) => if a.decision is Commit {
            Some(a.id)
        } else {
            None
        },
        None => None,
    }
}

/// For the first `n` commands, pairs of (transaction, record index) to report, in order.
pub open spec fn block_update_pairs(block: Block, recs: Seq<SubstateRecord>, n: nat) -> Seq<(FixedHash, int)>
    decreases n,
{
    if n == 0 {
        Seq::empty()
    } else {
        block_update_pairs(block, recs, (n - 1) as nat) + match committed_tx(block.commands@[n - 1]) {
            Some(tx) => tx_record_indices(recs, tx, recs.len()).map_values(|i: int| (tx, i)),
            None => Seq::empty(),
        }
    }
}

/// The updates agree one for one with the pairs.
pub open spec fn updates_for(u: Seq<SubstateUpdate>, recs: Seq<SubstateRecord>, pairs: Seq<(FixedHash, int)>) -> bool {
    &&& u.len() == pairs.len()
    &&& forall|k: int| 0 <= k < pairs.len() ==> 0 <= (#[trigger] pairs[k]).1 < recs.len() && update_for(u[k], recs[pairs[k].1], pairs[k].0)
}

fn update_of(rec: &SubstateRecord, tx: &FixedHash) -> (r: SubstateUpdate)
    ensures
        update_for(r, *rec, *tx),
{
    match &rec.destroyed {
        Some(d) => {
            if !hash_eq(&rec.created_by_transaction, tx) {
                return SubstateUpdate::Destroy {
                    substate_id: rec.substate_id,
                    version: rec.version,
                    destroyed_by_transaction: d.by_transaction,
                };
            }
        },
        None => {},
    }
    let value = rec.value.clone();
    assert(value@ =~= rec.value@);
    SubstateUpdate::Create { substate_id: rec.substate_id, version: rec.version, value }
}

fn collect_tx_updates(
    recs: &Vec<SubstateRecord>,
    tx: &FixedHash,
    out: &mut Vec<SubstateUpdate>,
    Ghost(base): Ghost<Seq<(FixedHash, int)>>,
)
    requires
        updates_for(old(out)@, recs@, base),
    ensures
        updates_for(final(out)@, recs@, base + tx_record_indices(recs@, *tx, recs@.len()).map_values(|i: int| (*tx, i))),
{
    let mut j: usize = 0;
    while j < recs.len()
        invariant
            j <= recs@.len(),
            updates_for(out@, recs@, base + tx_record_indices(recs@, *tx, j as nat).map_values(|i: int| (*tx, i))),
        decreases recs@.len() - j,
    {
        let ghost prev = base + tx_record_indices(recs@, *tx, j as nat).map_values(|i: int| (*tx, i));
        let ghost next = base + tx_record_indices(recs@, *tx, (j + 1) as nat).map_values(|i: int| (*tx, i));
        let rec = &recs[j];
        let touched = hash_eq(&rec.created_by_transaction, tx) || match &rec.destroyed {
            Some(d) => hash_eq(&d.by_transaction, tx),
            None => false,
        };
        if touched {
            out.push(update_of(rec, tx));
            proof {
                assert(next =~= prev.push((*tx, j as int)));
                assert forall|k: int| 0 <= k < next.len() implies 0 <= (#[trigger] next[k]).1 < recs@.len()
                    && update_for(out@[k], recs@[next[k].1], next[k].0) by {
                    if k < prev.len() {
                        assert(next[k] == prev[k]);
                    }
                }
            }
        } else {
            proof {
                assert(next =~= prev);
            }
        }
        j = j + 1;
    }
}

impl StateStore {
    /// The updates of a block: for each `AllAccept` command that commits its transaction, every
    /// substate record that the transaction created or destroyed, in store order.
    pub fn get_substate_updates(&self, block: &Block) -> (r: Vec<SubstateUpdate>)
        ensures
            updates_for(r@, self.substates@, block_update_pairs(*block, self.substates@, block.commands@.len())),
    {
        let mut out: Vec<SubstateUpdate> = Vec::new();
        let recs = &self.substates;
        let mut i: usize = 0;
        assert(block_update_pairs(*block, recs@, 0) =~= Seq::<(FixedHash, int)>::empty());
        while i < block.commands.len()
            invariant
                i <= block.commands@.len(),
                *recs == self.substates,
                updates_for(out@, recs@, block_update_pairs(*block, recs@, i as nat)),
            decreases block.commands@.len() - i,
        {
            let ghost prev = block_update_pairs(*block, recs@, i as nat);
            match block.commands[i].committing() {
                Some(atom) => {
                    if atom.decision.is_commit() {
                        collect_tx_updates(recs, &atom.id, &mut out, Ghost(prev));
                    } else {
                        assert(block_update_pairs(*block, recs@, (i + 1) as nat) =~= prev);
                    }
                },
                None => {
                    assert(block_update_pairs(*block, recs@, (i + 1) as nat) =~= prev);
                },
            }
            i = i + 1;
        }
        out
    }

    /// Creates the given substates at version zero in the zero block, justified by the genesis
    /// QC of epoch zero over all `num_preshards` shards, unless the first of them already has a
    /// version zero (then nothing changes and the result is false).
    fn create_initial_substates(&mut self, num_preshards: u32, initial: Vec<(FixedHash, Shard, Vec<u8>)>) -> (r: Result<bool, StorageError>)
        requires
            old(self).wf(),
            num_preshards > 0,
        ensures
            final(self).wf(),
            final(self).blocks@ == old(self).blocks@,
            bootstrapped(old(self).substates@, initial@) ==> r == Ok::<bool, StorageError>(false) && *final(self) == *old(self),
            !bootstrapped(old(self).substates@, initial@) ==> (r == Ok::<bool, StorageError>(true) <==> apply_changes_spec(
                old(self).substates@, bootstrap_changes(initial@), bootstrap_context(num_preshards)) is Some),
            !bootstrapped(old(self).substates@, initial@) ==> (r is Err <==> apply_changes_spec(
                old(self).substates@, bootstrap_changes(initial@), bootstrap_context(num_preshards)) is None),
            r == Ok::<bool, StorageError>(true) ==> apply_changes_spec(old(self).substates@, bootstrap_changes(initial@),
                bootstrap_context(num_preshards)) == Some(final(self).substates@),
            r is Err ==> final(self).substates@ == old(self).substates@,
    {
        if initial.len() > 0 && self.substate_exists(&initial[0].0, 0) {
            return Ok(false);
        }
        let z = zero_bytes();
        let qc = crate::block::QuorumCertificate::genesis(0, crate::block::ShardGroup::all_shards(num_preshards));
        let justify_id = qc.qc_id;
        proof {
            assert(exists|a: FixedHash| a@ == zero_hash());
            let c = zero_array();
            assert(c =~= z);
            assert(exists|a: FixedHash| a@ == genesis_justify_bytes(num_preshards));
            let j = genesis_justify(num_preshards);
            assert(j =~= justify_id);
        }
        let mut changes: Vec<SubstateChange> = Vec::new();
        let mut initial = initial;
        let ghost all = initial@;
        let n = initial.len();
        let mut i: usize = 0;
        assert(all.skip(0) =~= all);
        assert(all.subrange(0, 0) =~= Seq::<(FixedHash, Shard, Vec<u8>)>::empty());
        while i < n
            invariant
                n == all.len(),
                i <= n,
                initial@ == all.skip(i as int),
                z == zero_array(),
                changes@ == bootstrap_changes(all.subrange(0, i as int)),
            decreases n - i,
        {
            let (id, shard, value) = initial.remove(0);
            assert(initial@ =~= all.skip(i + 1));
            assert(all.subrange(0, i + 1).drop_last() =~= all.subrange(0, i as int));
            changes.push(
                SubstateChange::Up {
                    id: VersionedSubstateId { substate_id: id, version: 0 },
                    shard,
                    transaction_id: z,
                    substate: value,
                },
            );
            i = i + 1;
        }
        assert(all.subrange(0, n as int) =~= all);
        let ctx = CommitContext { epoch: 0, height: 0, block_id: BlockId(z), justify_id };
        assert(ctx == bootstrap_context(num_preshards));
        match apply_diff(&mut self.substates, changes, ctx) {
            Ok(()) => Ok(true),
            Err(e) => Err(StorageError::SubstateConflict { error: e }),
        }
    }

    /// Bootstraps the state: the public identity resource, then (except on the main network) the
    /// faucet component and its vault, then the confidential resource, each at version zero in
    /// shard zero. Nothing changes once the public identity resource exists.
    pub fn bootstrap_state(&mut self, network: u8, num_preshards: u32, substates: BootstrapSubstates) -> (r: Result<bool, StorageError>)
        requires
            old(self).wf(),
            num_preshards > 0,
        ensures
            final(self).wf(),
            final(self).blocks@ == old(self).blocks@,
            ({
                let initial = bootstrap_list(network, substates);
                &&& bootstrapped(old(self).substates@, initial) ==> r == Ok::<bool, StorageError>(false) && *final(self) == *old(self)
                &&& !bootstrapped(old(self).substates@, initial) ==> (r == Ok::<bool, StorageError>(true) <==> apply_changes_spec(
                    old(self).substates@, bootstrap_changes(initial), bootstrap_context(num_preshards)) is Some)
                &&& !bootstrapped(old(self).substates@, initial) ==> (r is Err <==> apply_changes_spec(
                    old(self).substates@, bootstrap_changes(initial), bootstrap_context(num_preshards)) is None)
                &&& r == Ok::<bool, StorageError>(true) ==> apply_changes_spec(old(self).substates@, bootstrap_changes(initial),
                    bootstrap_context(num_preshards)) == Some(final(self).substates@)
                &&& r is Err ==> final(self).substates@ == old(self).substates@
            }),
    {
        let ghost expected = bootstrap_list(network, substates);
        let BootstrapSubstates { public_identity, faucet_component, faucet_vault, confidential_resource } = substates;
        let mut initial: Vec<(FixedHash, Shard, Vec<u8>)> = Vec::new();
        initial.push((public_identity.id, 0, public_identity.value));
        if network != MAIN_NET {
            initial.push((faucet_component.id, 0, faucet_component.value));
            initial.push((faucet_vault.id, 0, faucet_vault.value));
        }
        initial.push((confidential_resource.id, 0, confidential_resource.value));
        assert(initial@ =~= expected);
        self.create_initial_substates(num_preshards, initial)
    }

    /// Whether `id` has a record (UP or DOWN) at `version`.
    pub fn substate_exists(&self, id: &FixedHash, version: u32) -> (r: bool)
        ensures
            r == exists_at(self.substates@, *id, version),
    {
        let mut i: usize = 0;
        while i < self.substates.len()
            invariant
                i <= self.substates@.len(),
                forall|j: int| 0 <= j < i ==> !(self.substates@[j].substate_id == *id && self.substates@[j].version == version),
            decreases self.substates@.len() - i,
        {
            if hash_eq(&self.substates[i].substate_id, id) && self.substates[i].version == version {
                return true;
            }
            i = i + 1;
        }
        false
    }

    /// Whether `id` has an UP record at `version`.
    pub fn substate_is_up(&self, id: &FixedHash, version: u32) -> (r: bool)
        ensures
            r == up_at(self.substates@, *id, version),
    {
        let mut i: usize = 0;
        while i < self.substates.len()
            invariant
                i <= self.substates@.len(),
                forall|j: int| 0 <= j < i ==> !(self.substates@[j].substate_id == *id && self.substates@[j].version == version
                    && (self.substates@[j].destroyed is None)),
            decreases self.substates@.len() - i,
        {
            if hash_eq(&self.substates[i].substate_id, id) && self.substates[i].version == version
                && self.substates[i].destroyed.is_none() {
                return true;
            }
            i = i + 1;
        }
        false
    }
}

/// The context of bootstrapped substates: epoch and height zero, in the zero block, justified by
/// the genesis QC.
pub open spec fn bootstrap_context(num_preshards: u32) -> CommitContext {
    CommitContext {
        epoch: 0,
        height: 0,
        block_id: BlockId(zero_array()),
        justify_id: genesis_justify(num_preshards),
    }
}

/// Some record of `id` is at version `v`.
pub open spec fn exists_at(recs: Seq<SubstateRecord>, id: FixedHash, v: u32) -> bool {
    exists|j: int| 0 <= j < recs.len() && recs[j].substate_id == id && recs[j].version == v
}

/// The first initial substate already has a version zero.
pub open spec fn bootstrapped(recs: Seq<SubstateRecord>, initial: Seq<(FixedHash, Shard, Vec<u8>)>) -> bool {
    initial.len() > 0 && exists_at(recs, initial[0].0, 0)
}

/// The id of the genesis QC of epoch zero over all `num_preshards` shards, as bytes.
pub open spec fn genesis_justify_bytes(num_preshards: u32) -> Seq<u8> {
    crate::bytes::blake2b_256_of(crate::encoding::genesis_qc_bytes(0, crate::block::ShardGroup::all_shards_spec(num_preshards)))
}

/// The id of the genesis QC of epoch zero over all `num_preshards` shards.
pub open spec fn genesis_justify(num_preshards: u32) -> FixedHash {
    choose|a: FixedHash| a@ == genesis_justify_bytes(num_preshards)
}

/// The all-zero array.
pub open spec fn zero_array() -> FixedHash {
    choose|a: FixedHash| a@ == zero_hash()
}

/// The UP changes at version zero that bootstrap the given substates.
pub open spec fn bootstrap_changes(initial: Seq<(FixedHash, Shard, Vec<u8>)>) -> Seq<SubstateChange>
    decreases initial.len(),
{
    if initial.len() == 0 {
        Seq::empty()
    } else {
        bootstrap_changes(initial.drop_last()).push(
            SubstateChange::Up {
                id: VersionedSubstateId { substate_id: initial.last().0, version: 0 },
                shard: initial.last().1,
                transaction_id: zero_array(),
                substate: initial.last().2,
            },
        )
    }
}

/// The network byte of the main network.
pub const MAIN_NET: u8 = 0;

/// One initial substate: its id and its encoded value.
#[derive(Clone, Debug, PartialEq, Eq)]
pub struct InitialSubstate {
    pub id: FixedHash,
    pub value: Vec<u8>,
}

/// The encoded values of the substates that bootstrapping may create.
#[derive(Clone, Debug, PartialEq, Eq)]
pub struct BootstrapSubstates {
    pub public_identity: InitialSubstate,
    pub faucet_component: InitialSubstate,
    pub faucet_vault: InitialSubstate,
    pub confidential_resource: InitialSubstate,
}

/// The substates that bootstrapping creates on `network`, in order, each in shard zero.
pub open spec fn bootstrap_list(network: u8, s: BootstrapSubstates) -> Seq<(FixedHash, Shard, Vec<u8>)> {
    if network == MAIN_NET {
        seq![(s.public_identity.id, 0u32, s.public_identity.value), (s.confidential_resource.id, 0u32, s.confidential_resource.value)]
    } else {
        seq![
            (s.public_identity.id, 0u32, s.public_identity.value),
            (s.faucet_component.id, 0u32, s.faucet_component.value),
            (s.faucet_vault.id, 0u32, s.faucet_vault.value),
            (s.confidential_resource.id, 0u32, s.confidential_resource.value),
        ]
    }
}

} // verus!
