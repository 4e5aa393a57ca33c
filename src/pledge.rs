//! Pledges: a committee's commitment that substates stay locked for a transaction.
use crate::block::{evidence_for, Block, Command, TransactionAtom};
use crate::bytes::{hash_eq, FixedHash};
use crate::store::{LockedSubstate, StateStore, StorageError, SubstateLockType};
use vstd::prelude::*;

verus! {

/// A lock that a transaction wants on a substate version.
#[derive(Copy, Clone, Debug, PartialEq, Eq)]
pub struct SubstateLockIntent {
    pub substate_id: FixedHash,
    pub version: u32,
    pub lock_type: SubstateLockType,
}

/// A pledged substate: an input with its locked value, or an output to be created.
#[derive(Clone, Debug, PartialEq, Eq)]
pub enum SubstatePledge {
    Input { substate_id: FixedHash, version: u32, is_write: bool, value: Vec<u8> },
    Output { substate_id: FixedHash, version: u32 },
}

/// An intent and a value fit together: inputs carry a value, outputs do not.
pub open spec fn intent_fits(lock_type: SubstateLockType, has_value: bool) -> bool {
    match lock_type {
        SubstateLockType::Output => !has_value,
        _ => has_value,
    }
}

/// `p` is the pledge built from `intent` and `value`.
pub open spec fn pledge_from(p: SubstatePledge, intent: SubstateLockIntent, value: Option<Seq<u8>>) -> bool {
    match p {
        SubstatePledge::Input { substate_id, version, is_write, value: v } => {
            &&& !(intent.lock_type is Output)
            &&& substate_id == intent.substate_id
            &&& version == intent.version
            &&& is_write == (intent.lock_type is Write)
            &&& value == Some(v@)
        },
        SubstatePledge::Output { substate_id, version } => {
            &&& intent.lock_type is Output
            &&& substate_id == intent.substate_id
            &&& version == intent.version
            &&& value is None
        },
    }
}

pub open spec fn value_view(v: Option<Vec<u8>>) -> Option<Seq<u8>> {
    match v {
        Some(x) => Some(x@),
        None => None,
    }
}

impl SubstatePledge {
    /// Builds a pledge; `None` where the value does not fit the intent.
    pub fn try_create(intent: SubstateLockIntent, value: Option<Vec<u8>>) -> (r: Option<SubstatePledge>)
        ensures
            r is Some <==> intent_fits(intent.lock_type, value is Some),
            r matches Some(p) ==> pledge_from(p, intent, value_view(value)),
    {
        match (intent.lock_type, value) {
            (SubstateLockType::Output, None) => Some(
                SubstatePledge::Output { substate_id: intent.substate_id, version: intent.version },
            ),
            (SubstateLockType::Read, Some(v)) => Some(
                SubstatePledge::Input {
                    substate_id: intent.substate_id,
                    version: intent.version,
                    is_write: false,
                    value: v,
                },
            ),
            (SubstateLockType::Write, Some(v)) => Some(
                SubstatePledge::Input {
                    substate_id: intent.substate_id,
                    version: intent.version,
                    is_write: true,
                    value: v,
                },
            ),
            _ => None,
        }
    }
}

/// Pledges of a block, per transaction.
#[derive(Clone, Debug, PartialEq, Eq)]
pub struct BlockPledge {
    pub pledges: Vec<(FixedHash, SubstatePledge)>,
}

impl BlockPledge {
    pub fn new() -> (r: BlockPledge)
        ensures
            r.pledges@.len() == 0,
    {
        BlockPledge { pledges: Vec::new() }
    }

    pub fn add_substate_pledge(&mut self, transaction_id: FixedHash, pledge: SubstatePledge)
        ensures
            final(self).pledges@ == old(self).pledges@.push((transaction_id, pledge)),
    {
        self.pledges.push((transaction_id, pledge));
    }

    pub fn len(&self) -> (r: usize)
        ensures
            r == self.pledges@.len(),
    {
        self.pledges.len()
    }
}

/// The atom of a `LocalPrepare` or `LocalAccept` command.
pub open spec fn local_stage_atom(c: Command) -> Option<TransactionAtom> {
    match c {
        Command::LocalPrepare(a) => Some(a),
        Command::LocalAccept(a) => Some(a),
        _ => None,
    }
}

/// The intent of a lock.
pub open spec fn lock_intent(lock: LockedSubstate) -> SubstateLockIntent {
    SubstateLockIntent { substate_id: lock.substate_id, version: lock.version, lock_type: lock.lock_type }
}

/// `e` is the pledge of `lock` for its transaction.
pub open spec fn entry_for(e: (FixedHash, SubstatePledge), lock: LockedSubstate) -> bool {
    e.0 == lock.transaction_id && pledge_from(e.1, lock_intent(lock), value_view(lock.value))
}

/// A lock of transaction `atom_id` on an address that `evidence` names.
pub open spec fn lock_matches(lock: LockedSubstate, atom_id: FixedHash, evidence: Seq<FixedHash>) -> bool {
    lock.transaction_id == atom_id && evidence.contains(lock.address)
}

/// Indexes of the first `n` locks that match the atom, in order.
pub open spec fn atom_lock_indices(locks: Seq<LockedSubstate>, atom_id: FixedHash, evidence: Seq<FixedHash>, n: nat) -> Seq<int>
    decreases n,
{
    if n == 0 {
        Seq::empty()
    } else {
        let s = atom_lock_indices(locks, atom_id, evidence, (n - 1) as nat);
        if lock_matches(locks[n - 1], atom_id, evidence) {
            s.push(n - 1)
        } else {
            s
        }
    }
}

/// Indexes of the locks that command `i` of `block` pledges: for a committing `LocalPrepare` or
/// `LocalAccept` atom, the locks of its transaction on addresses named by its evidence for the
/// block's shard group. Locks outside that evidence belong to later stages and are left out.
pub open spec fn command_lock_indices(block: Block, locks: Seq<LockedSubstate>, i: int) -> Seq<int> {
    match local_stage_atom(block.commands@[i]) {
        Some(a) => if a.decision is Commit {
            match evidence_for(a.evidence@, block.header.shard_group) {
                Some(ev) => atom_lock_indices(locks, a.id, ev, locks.len()),
                None => Seq::empty(),
            }
        } else {
            Seq::empty()
        },
        None => Seq::empty(),
    }
}

/// Indexes of the pledged locks of the first `n` commands, in command then lock order.
pub open spec fn block_lock_indices(block: Block, locks: Seq<LockedSubstate>, n: nat) -> Seq<int>
    decreases n,
{
    if n == 0 {
        Seq::empty()
    } else {
        block_lock_indices(block, locks, (n - 1) as nat) + command_lock_indices(block, locks, n - 1)
    }
}

/// The indexes of all locks pledged by `block`.
pub open spec fn pledged_lock_indices(block: Block, locks: Seq<LockedSubstate>) -> Seq<int> {
    block_lock_indices(block, locks, block.commands@.len())
}

/// The pledges agree one for one with the locks at `idx`.
pub open spec fn pledges_for(p: Seq<(FixedHash, SubstatePledge)>, locks: Seq<LockedSubstate>, idx: Seq<int>) -> bool {
    &&& p.len() == idx.len()
    &&& forall|k: int| 0 <= k < idx.len() ==> 0 <= #[trigger] idx[k] < locks.len() && entry_for(p[k], locks[idx[k]])
}

/// Some lock at `idx` has a value that does not fit its intent.
pub open spec fn some_unfit(locks: Seq<LockedSubstate>, idx: Seq<int>) -> bool {
    exists|k: int| 0 <= k < idx.len() && 0 <= idx[k] < locks.len() && !intent_fits(locks[#[trigger] idx[k]].lock_type, locks[idx[k]].value is Some)
}

pub fn contains_hash(v: &Vec<FixedHash>, h: &FixedHash) -> (r: bool)
    ensures
        r == v@.contains(*h),
{
    let mut i: usize = 0;
    while i < v.len()
        invariant
            i <= v@.len(),
            forall|j: int| 0 <= j < i ==> v@[j] != *h,
        decreases v@.len() - i,
    {
        if hash_eq(&v[i], h) {
            assert(v@[i as int] == *h);
            return true;
        }
        i = i + 1;
    }
    false
}

fn copy_value(v: &Option<Vec<u8>>) -> (r: Option<Vec<u8>>)
    ensures
        value_view(r) == value_view(*v),
{
    match v {
        Some(x) => {
            let c = x.clone();
            assert(c@ =~= x@);
            Some(c)
        },
        None => None,
    }
}

proof fn lemma_atom_indices_bounded(locks: Seq<LockedSubstate>, atom_id: FixedHash, evidence: Seq<FixedHash>, n: nat)
    requires
        n <= locks.len(),
    ensures
        forall|k: int| 0 <= k < atom_lock_indices(locks, atom_id, evidence, n).len() ==> 0 <= #[trigger] atom_lock_indices(locks, atom_id, evidence, n)[k] < n,
    decreases n,
{
    if n > 0 {
        lemma_atom_indices_bounded(locks, atom_id, evidence, (n - 1) as nat);
        let s = atom_lock_indices(locks, atom_id, evidence, (n - 1) as nat);
        let t = atom_lock_indices(locks, atom_id, evidence, n);
        assert forall|k: int| 0 <= k < t.len() implies 0 <= #[trigger] t[k] < n by {
            if k < s.len() {
                assert(t[k] == s[k]);
            }
        }
    }
}

/// Appends the pledges of the locks that match one atom, in lock order.
fn collect_atom_pledges(
    locks: &Vec<LockedSubstate>,
    atom_id: &FixedHash,
    evidence: &Vec<FixedHash>,
    out: &mut Vec<(FixedHash, SubstatePledge)>,
    Ghost(base): Ghost<Seq<int>>,
) -> (r: Result<(), StorageError>)
    requires
        pledges_for(old(out)@, locks@, base),
    ensures
        r matches Err(e) ==> e == StorageError::DataInconsistency,
        r is Err ==> some_unfit(locks@, base + atom_lock_indices(locks@, *atom_id, evidence@, locks@.len())),
        r is Ok ==> pledges_for(final(out)@, locks@, base + atom_lock_indices(locks@, *atom_id, evidence@, locks@.len())),
{
    let mut j: usize = 0;
    while j < locks.len()
        invariant
            j <= locks@.len(),
            pledges_for(out@, locks@, base + atom_lock_indices(locks@, *atom_id, evidence@, j as nat)),
        decreases locks@.len() - j,
    {
        let ghost prev = base + atom_lock_indices(locks@, *atom_id, evidence@, j as nat);
        proof {
            lemma_atom_indices_bounded(locks@, *atom_id, evidence@, (j + 1) as nat);
        }
        let lock = &locks[j];
        if hash_eq(&lock.transaction_id, atom_id) && contains_hash(evidence, &lock.address) {
            let intent = SubstateLockIntent {
                substate_id: lock.substate_id,
                version: lock.version,
                lock_type: lock.lock_type,
            };
            match SubstatePledge::try_create(intent, copy_value(&lock.value)) {
                Some(p) => {
                    out.push((lock.transaction_id, p));
                    proof {
                        assert(lock_matches(locks@[j as int], *atom_id, evidence@));
                        let next = base + atom_lock_indices(locks@, *atom_id, evidence@, (j + 1) as nat);
                        assert(next =~= prev.push(j as int));
                        assert forall|k: int| 0 <= k < next.len() implies 0 <= #[trigger] next[k] < locks@.len() && entry_for(out@[k], locks@[next[k]]) by {
                            if k < prev.len() {
                                assert(next[k] == prev[k]);
                            }
                        }
                    }
                },
                None => {
                    proof {
                        assert(lock_matches(locks@[j as int], *atom_id, evidence@));
                        lemma_atom_indices_prefix(locks@, *atom_id, evidence@, (j + 1) as nat, locks@.len());
                        let aj = atom_lock_indices(locks@, *atom_id, evidence@, j as nat);
                        let aj1 = atom_lock_indices(locks@, *atom_id, evidence@, (j + 1) as nat);
                        let an = atom_lock_indices(locks@, *atom_id, evidence@, locks@.len());
                        assert(aj1 == aj.push(j as int));
                        assert(aj1[aj.len() as int] == j as int);
                        assert(an[aj.len() as int] == aj1[aj.len() as int]);
                        let full = base + atom_lock_indices(locks@, *atom_id, evidence@, locks@.len());
                        let k = prev.len() as int;
                        assert(full[k] == an[aj.len() as int]);
                        assert(full[k] == j as int);
                    }
                    return Err(StorageError::DataInconsistency);
                },
            }
        } else {
            proof {
                let next = base + atom_lock_indices(locks@, *atom_id, evidence@, (j + 1) as nat);
                assert(next =~= prev);
            }
        }
        j = j + 1;
    }
    Ok(())
}

proof fn lemma_atom_indices_prefix(locks: Seq<LockedSubstate>, atom_id: FixedHash, evidence: Seq<FixedHash>, n: nat, m: nat)
    requires
        n <= m,
    ensures
        atom_lock_indices(locks, atom_id, evidence, m).len() >= atom_lock_indices(locks, atom_id, evidence, n).len(),
        forall|k: int| 0 <= k < atom_lock_indices(locks, atom_id, evidence, n).len() ==> atom_lock_indices(locks, atom_id, evidence, m)[k]
            == #[trigger] atom_lock_indices(locks, atom_id, evidence, n)[k],
    decreases m,
{
    if n < m {
        lemma_atom_indices_prefix(locks, atom_id, evidence, n, (m - 1) as nat);
    }
}

proof fn lemma_block_indices_prefix(block: Block, locks: Seq<LockedSubstate>, n: nat, m: nat)
    requires
        n <= m,
    ensures
        block_lock_indices(block, locks, m).len() >= block_lock_indices(block, locks, n).len(),
        forall|k: int| 0 <= k < block_lock_indices(block, locks, n).len() ==> block_lock_indices(block, locks, m)[k]
            == #[trigger] block_lock_indices(block, locks, n)[k],
    decreases m,
{
    if n < m {
        lemma_block_indices_prefix(block, locks, n, (m - 1) as nat);
    }
}

impl StateStore {
    /// The pledges of a block, one for each lock at `pledged_lock_indices`, in that order. A
    /// pledged lock whose value does not fit its intent is a data inconsistency.
    pub fn get_block_pledge(&self, block: &Block) -> (r: Result<BlockPledge, StorageError>)
        ensures
            r is Err <==> some_unfit(self.substate_locks@, pledged_lock_indices(*block, self.substate_locks@)),
            r matches Err(e) ==> e == StorageError::DataInconsistency,
            r matches Ok(p) ==> pledges_for(p.pledges@, self.substate_locks@, pledged_lock_indices(*block, self.substate_locks@)),
    {
        let mut out: Vec<(FixedHash, SubstatePledge)> = Vec::new();
        let locks = &self.substate_locks;
        let sg = block.header.shard_group;
        let mut i: usize = 0;
        assert(block_lock_indices(*block, locks@, 0) =~= Seq::<int>::empty());
        while i < block.commands.len()
            invariant
                i <= block.commands@.len(),
                sg == block.header.shard_group,
                *locks == self.substate_locks,
                pledges_for(out@, locks@, block_lock_indices(*block, locks@, i as nat)),
            decreases block.commands@.len() - i,
        {
            let ghost prev = block_lock_indices(*block, locks@, i as nat);
            let ghost next = block_lock_indices(*block, locks@, (i + 1) as nat);
            assert(next == prev + command_lock_indices(*block, locks@, i as int));
            let atom_opt = match &block.commands[i] {
                Command::LocalPrepare(a) => Some(a),
                Command::LocalAccept(a) => Some(a),
                _ => None,
            };
            let mut handled = false;
            if let Some(atom) = atom_opt {
                assert(local_stage_atom(block.commands@[i as int]) == Some(*atom));
                if atom.decision.is_commit() {
                    if let Some(evidence) = atom.evidence_for(sg) {
                        handled = true;
                        assert(command_lock_indices(*block, locks@, i as int) == atom_lock_indices(locks@, atom.id, evidence@, locks@.len()));
                        match collect_atom_pledges(locks, &atom.id, evidence, &mut out, Ghost(prev)) {
                            Ok(()) => {},
                            Err(e) => {
                                proof {
                                    lemma_block_indices_prefix(*block, locks@, (i + 1) as nat, block.commands@.len());
                                    let full = pledged_lock_indices(*block, locks@);
                                    let k = choose|k: int| 0 <= k < next.len() && 0 <= next[k] < locks@.len() && !intent_fits(locks@[#[trigger] next[k]].lock_type, locks@[next[k]].value is Some);
                                    assert(full[k] == next[k]);
                                }
                                return Err(e);
                            },
                        }
                    }
                }
            }
            if !handled {
                assert(command_lock_indices(*block, locks@, i as int) =~= Seq::<int>::empty());
                assert(next =~= prev);
            }
            i = i + 1;
        }
        proof {
            let full = pledged_lock_indices(*block, locks@);
            assert(!some_unfit(locks@, full)) by {
                if some_unfit(locks@, full) {
                    let k = choose|k: int| 0 <= k < full.len() && 0 <= full[k] < locks@.len() && !intent_fits(locks@[#[trigger] full[k]].lock_type, locks@[full[k]].value is Some);
                    assert(entry_for(out@[k], locks@[full[k]]));
                }
            }
        }
        Ok(BlockPledge { pledges: out })
    }
}

} // verus!
