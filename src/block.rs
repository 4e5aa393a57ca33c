//! The block, quorum certificate and command data model.
use crate::bytes::{blake2b_256_of, hash_eq, is_zero_hash, zero_bytes, zero_hash, FixedHash};
use crate::encoding::{
    calculate_header_hash, calculate_qc_id, command_merkle_root, compute_command_merkle_root,
    header_bytes, header_hash, qc_bytes,
};
use crate::fmap::{index_entries, index_map_entry, index_map_len, index_map_new};
use indexmap::IndexMap;
use vstd::prelude::*;

verus! {

/// Epoch number.
pub type Epoch = u64;

/// Height of a block in the chain of its epoch.
pub type NodeHeight = u64;

/// A bucket of the pre-partitioned key space.
pub type Shard = u32;

/// Identifier of a block: the hash of its header fields.
#[derive(Copy, Clone, Debug, PartialEq, Eq, PartialOrd, Ord, Hash)]
pub struct BlockId(pub FixedHash);

impl BlockId {
    pub fn zero() -> (r: BlockId)
        ensures
            r.0@ == zero_hash(),
    {
        BlockId(zero_bytes())
    }

    /// The parent of every genesis block.
    pub fn genesis() -> (r: BlockId)
        ensures
            r.0@ == zero_hash(),
    {
        BlockId(zero_bytes())
    }

    pub fn new(hash: FixedHash) -> (r: BlockId)
        ensures
            r.0 == hash,
    {
        BlockId(hash)
    }

    pub fn hash(&self) -> (r: &FixedHash)
        ensures
            *r == self.0,
    {
        &self.0
    }

    pub fn as_bytes(&self) -> (r: &[u8])
        ensures
            r@ == self.0@,
    {
        self.0.as_slice()
    }

    pub fn is_zero(&self) -> (r: bool)
        ensures
            r == (self.0@ == zero_hash()),
    {
        is_zero_hash(&self.0)
    }

    /// Equality of two ids, usable in verified code.
    pub fn equals(&self, other: &BlockId) -> (r: bool)
        ensures
            r == (*self == *other),
    {
        hash_eq(&self.0, &other.0)
    }

    pub fn byte_size() -> (r: usize)
        ensures
            r == 32,
    {
        32
    }
}

/// A contiguous, inclusive range of shards assigned to one committee.
#[derive(Copy, Clone, Debug, PartialEq, Eq, Structural, Hash, PartialOrd, Ord)]
pub struct ShardGroup {
    pub start: Shard,
    pub end_inclusive: Shard,
}

impl ShardGroup {
    pub fn new(start: Shard, end_inclusive: Shard) -> (r: ShardGroup)
        ensures
            r.start == start,
            r.end_inclusive == end_inclusive,
    {
        ShardGroup { start, end_inclusive }
    }

    pub open spec fn all_shards_spec(num_preshards: u32) -> ShardGroup {
        ShardGroup { start: 0, end_inclusive: (num_preshards - 1) as u32 }
    }

    /// The group of every shard, for a key space of `num_preshards` shards.
    pub fn all_shards(num_preshards: u32) -> (r: ShardGroup)
        requires
            num_preshards > 0,
        ensures
            r == ShardGroup::all_shards_spec(num_preshards),
    {
        ShardGroup { start: 0, end_inclusive: num_preshards - 1 }
    }

    pub fn contains(&self, shard: Shard) -> (r: bool)
        ensures
            r == (self.start <= shard <= self.end_inclusive),
    {
        self.start <= shard && shard <= self.end_inclusive
    }
}

/// The outcome a committee agreed on for a block or a transaction.
#[derive(Copy, Clone, Debug, PartialEq, Eq, Structural, Hash, PartialOrd, Ord)]
pub enum Decision {
    Commit,
    Abort,
}

impl Decision {
    pub fn is_commit(&self) -> (r: bool)
        ensures
            r == (*self is Commit),
    {
        matches!(self, Decision::Commit)
    }

    pub fn is_abort(&self) -> (r: bool)
        ensures
            r == (*self is Abort),
    {
        matches!(self, Decision::Abort)
    }
}

/// A quorum certificate: signatures of a committee over a block.
#[derive(Clone, Debug, PartialEq, Eq)]
pub struct QuorumCertificate {
    /// Hash of the other fields.
    pub qc_id: FixedHash,
    pub block_id: BlockId,
    pub block_height: NodeHeight,
    pub epoch: Epoch,
    pub shard_group: ShardGroup,
    pub decision: Decision,
    /// Public keys of the validators that signed.
    pub signers: Vec<FixedHash>,
}

impl QuorumCertificate {
    pub fn id(&self) -> (r: &FixedHash)
        ensures
            *r == self.qc_id,
    {
        &self.qc_id
    }

    pub fn block_id(&self) -> (r: &BlockId)
        ensures
            *r == self.block_id,
    {
        &self.block_id
    }

    pub fn block_height(&self) -> (r: NodeHeight)
        ensures
            r == self.block_height,
    {
        self.block_height
    }
}

/// The substates that a transaction touches in one shard group.
#[derive(Clone, Debug, PartialEq, Eq)]
pub struct ShardGroupEvidence {
    pub shard_group: ShardGroup,
    /// Addresses of the substates, inputs and outputs.
    pub substates: Vec<FixedHash>,
}

/// The per-transaction payload of a command.
#[derive(Clone, Debug, PartialEq, Eq)]
pub struct TransactionAtom {
    pub id: FixedHash,
    pub decision: Decision,
    pub evidence: Vec<ShardGroupEvidence>,
    pub transaction_fee: u64,
    pub leader_fee: u64,
}

/// Evidence recorded for shard group `sg`, if any (the first entry for it).
pub open spec fn evidence_for(ev: Seq<ShardGroupEvidence>, sg: ShardGroup) -> Option<Seq<FixedHash>>
    decreases ev.len(),
{
    if ev.len() == 0 {
        None
    } else if ev[0].shard_group == sg {
        Some(ev[0].substates@)
    } else {
        evidence_for(ev.drop_first(), sg)
    }
}

impl TransactionAtom {
    /// The substates named by the evidence for `sg`.
    pub fn evidence_for(&self, sg: ShardGroup) -> (r: Option<&Vec<FixedHash>>)
        ensures
            r matches Some(v) ==> evidence_for(self.evidence@, sg) == Some(v@),
            r is None ==> evidence_for(self.evidence@, sg) is None,
    {
        let mut i: usize = 0;
        assert(self.evidence@.skip(0) =~= self.evidence@);
        while i < self.evidence.len()
            invariant
                i <= self.evidence@.len(),
                evidence_for(self.evidence@, sg) == evidence_for(self.evidence@.skip(i as int), sg),
            decreases self.evidence@.len() - i,
        {
            assert(self.evidence@.skip(i as int).drop_first() =~= self.evidence@.skip(i + 1));
            if self.evidence[i].shard_group == sg {
                return Some(&self.evidence[i].substates);
            }
            i = i + 1;
        }
        None
    }
}

/// A foreign block that is sequenced locally.
#[derive(Copy, Clone, Debug, PartialEq, Eq)]
pub struct ForeignProposalAtom {
    pub block_id: BlockId,
    pub shard_group: ShardGroup,
}

/// A confidential output minted from a base-layer burn.
#[derive(Copy, Clone, Debug, PartialEq, Eq)]
pub struct MintConfidentialOutputAtom {
    pub commitment: FixedHash,
}

/// A validator that resumes participation.
#[derive(Copy, Clone, Debug, PartialEq, Eq)]
pub struct ResumeNodeAtom {
    pub public_key: FixedHash,
}

/// One entry of a block, in canonical order of its variants.
#[derive(Clone, Debug, PartialEq, Eq)]
pub enum Command {
    Prepare(TransactionAtom),
    LocalPrepare(TransactionAtom),
    AllPrepare(TransactionAtom),
    LocalAccept(TransactionAtom),
    AllAccept(TransactionAtom),
    SomePrepare(TransactionAtom),
    ForeignProposal(ForeignProposalAtom),
    MintConfidentialOutput(MintConfidentialOutputAtom),
    ResumeNode(ResumeNodeAtom),
    EpochEnd,
}

/// Position of a command's variant in the canonical order.
pub open spec fn command_rank(c: Command) -> u8 {
    match c {
        Command::Prepare(_) => 0,
        Command::LocalPrepare(_) => 1,
        Command::AllPrepare(_) => 2,
        Command::LocalAccept(_) => 3,
        Command::AllAccept(_) => 4,
        Command::SomePrepare(_) => 5,
        Command::ForeignProposal(_) => 6,
        Command::MintConfidentialOutput(_) => 7,
        Command::ResumeNode(_) => 8,
        Command::EpochEnd => 9,
    }
}

/// The identifier that orders commands of the same variant.
pub open spec fn command_key(c: Command) -> Seq<u8> {
    match c {
        Command::Prepare(a) => a.id@,
        Command::LocalPrepare(a) => a.id@,
        Command::AllPrepare(a) => a.id@,
        Command::LocalAccept(a) => a.id@,
        Command::AllAccept(a) => a.id@,
        Command::SomePrepare(a) => a.id@,
        Command::ForeignProposal(a) => a.block_id.0@,
        Command::MintConfidentialOutput(a) => a.commitment@,
        Command::ResumeNode(a) => a.public_key@,
        Command::EpochEnd => zero_hash(),
    }
}

/// Strict lexicographic order on byte strings of equal length.
pub open spec fn bytes_lt(a: Seq<u8>, b: Seq<u8>) -> bool {
    exists|k: int|
        0 <= k < a.len() && k < b.len() && a[k] < b[k] && forall|j: int| 0 <= j < k ==> a[j] == b[j]
}

/// The canonical order of commands: by variant, then by key.
pub open spec fn command_lt(a: Command, b: Command) -> bool {
    command_rank(a) < command_rank(b) || (command_rank(a) == command_rank(b) && bytes_lt(
        command_key(a),
        command_key(b),
    ))
}

/// Commands strictly increasing in canonical order (so without duplicates).
pub open spec fn commands_canonical(cs: Seq<Command>) -> bool {
    forall|i: int| 0 <= i < cs.len() - 1 ==> #[trigger] command_lt(cs[i], cs[i + 1])
}

/// The transaction atom that a command carries, if any.
pub open spec fn command_transaction(c: Command) -> Option<TransactionAtom> {
    match c {
        Command::Prepare(a) => Some(a),
        Command::LocalPrepare(a) => Some(a),
        Command::AllPrepare(a) => Some(a),
        Command::LocalAccept(a) => Some(a),
        Command::AllAccept(a) => Some(a),
        Command::SomePrepare(a) => Some(a),
        _ => None,
    }
}

/// The atom of a command that commits (finalises) a transaction.
pub open spec fn command_committing(c: Command) -> Option<TransactionAtom> {
    match c {
        Command::AllAccept(a) => Some(a),
        _ => None,
    }
}

impl Command {
    pub fn rank(&self) -> (r: u8)
        ensures
            r == command_rank(*self),
    {
        match self {
            Command::Prepare(_) => 0,
            Command::LocalPrepare(_) => 1,
            Command::AllPrepare(_) => 2,
            Command::LocalAccept(_) => 3,
            Command::AllAccept(_) => 4,
            Command::SomePrepare(_) => 5,
            Command::ForeignProposal(_) => 6,
            Command::MintConfidentialOutput(_) => 7,
            Command::ResumeNode(_) => 8,
            Command::EpochEnd => 9,
        }
    }

    pub fn key(&self) -> (r: FixedHash)
        ensures
            r@ == command_key(*self),
    {
        match self {
            Command::Prepare(a) => a.id,
            Command::LocalPrepare(a) => a.id,
            Command::AllPrepare(a) => a.id,
            Command::LocalAccept(a) => a.id,
            Command::AllAccept(a) => a.id,
            Command::SomePrepare(a) => a.id,
            Command::ForeignProposal(a) => a.block_id.0,
            Command::MintConfidentialOutput(a) => a.commitment,
            Command::ResumeNode(a) => a.public_key,
            Command::EpochEnd => zero_bytes(),
        }
    }

    pub fn transaction(&self) -> (r: Option<&TransactionAtom>)
        ensures
            r matches Some(a) ==> command_transaction(*self) == Some(*a),
            r is None ==> command_transaction(*self) is None,
    {
        match self {
            Command::Prepare(a) => Some(a),
            Command::LocalPrepare(a) => Some(a),
            Command::AllPrepare(a) => Some(a),
            Command::LocalAccept(a) => Some(a),
            Command::AllAccept(a) => Some(a),
            Command::SomePrepare(a) => Some(a),
            _ => None,
        }
    }

    pub fn committing(&self) -> (r: Option<&TransactionAtom>)
        ensures
            r matches Some(a) ==> command_committing(*self) == Some(*a),
            r is None ==> command_committing(*self) is None,
    {
        match self {
            Command::AllAccept(a) => Some(a),
            _ => None,
        }
    }

    pub fn local_prepare(&self) -> (r: Option<&TransactionAtom>)
        ensures
            r matches Some(a) ==> *self == Command::LocalPrepare(*a),
            r is None ==> !(*self is LocalPrepare),
    {
        match self {
            Command::LocalPrepare(a) => Some(a),
            _ => None,
        }
    }

    pub fn local_accept(&self) -> (r: Option<&TransactionAtom>)
        ensures
            r matches Some(a) ==> *self == Command::LocalAccept(*a),
            r is None ==> !(*self is LocalAccept),
    {
        match self {
            Command::LocalAccept(a) => Some(a),
            _ => None,
        }
    }

    pub fn foreign_proposal(&self) -> (r: Option<&ForeignProposalAtom>)
        ensures
            r matches Some(a) ==> *self == Command::ForeignProposal(*a),
            r is None ==> !(*self is ForeignProposal),
    {
        match self {
            Command::ForeignProposal(a) => Some(a),
            _ => None,
        }
    }

    pub fn is_epoch_end(&self) -> (r: bool)
        ensures
            r == (*self is EpochEnd),
    {
        matches!(self, Command::EpochEnd)
    }
}

/// Compares two byte arrays lexicographically: -1, 0 or 1.
pub fn compare_hashes(a: &FixedHash, b: &FixedHash) -> (r: i8)
    ensures
        r == -1 <==> bytes_lt(a@, b@),
        r == 0 <==> a == b,
        r == 1 <==> bytes_lt(b@, a@),
        r == -1 || r == 0 || r == 1,
{
    let mut i: usize = 0;
    while i < 32
        invariant
            i <= 32,
            forall|j: int| 0 <= j < i ==> a@[j] == b@[j],
        decreases 32 - i,
    {
        if a[i] < b[i] {
            assert(bytes_lt(a@, b@));
            assert forall|k: int| 0 <= k < 32 && k < 32 && b@[k] < a@[k] implies !(forall|j: int|
                0 <= j < k ==> b@[j] == a@[j]) by {
                if forall|j: int| 0 <= j < k ==> b@[j] == a@[j] {
                    if k < i {
                    } else if k > i {
                        assert(b@[i as int] == a@[i as int]);
                    }
                }
            }
            assert(a@[i as int] != b@[i as int]);
            return -1;
        }
        if a[i] > b[i] {
            assert(bytes_lt(b@, a@));
            assert forall|k: int| 0 <= k < 32 && k < 32 && a@[k] < b@[k] implies !(forall|j: int|
                0 <= j < k ==> a@[j] == b@[j]) by {
                if forall|j: int| 0 <= j < k ==> a@[j] == b@[j] {
                    if k < i {
                    } else if k > i {
                        assert(b@[i as int] == a@[i as int]);
                    }
                }
            }
            assert(a@[i as int] != b@[i as int]);
            return 1;
        }
        i = i + 1;
    }
    assert(a@ =~= b@);
    assert(a =~= b);
    0
}

/// Whether command `a` comes strictly before command `b` in canonical order.
pub fn command_precedes(a: &Command, b: &Command) -> (r: bool)
    ensures
        r == command_lt(*a, *b),
{
    let ra = a.rank();
    let rb = b.rank();
    if ra != rb {
        return ra < rb;
    }
    let ka = a.key();
    let kb = b.key();
    compare_hashes(&ka, &kb) == -1
}

/// Whether the commands are strictly increasing in canonical order.
pub fn is_canonical(commands: &Vec<Command>) -> (r: bool)
    ensures
        r == commands_canonical(commands@),
{
    if commands.len() < 2 {
        return true;
    }
    let mut i: usize = 0;
    while i < commands.len() - 1
        invariant
            commands@.len() >= 2,
            i + 1 <= commands@.len(),
            forall|j: int| 0 <= j < i ==> #[trigger] command_lt(commands@[j], commands@[j + 1]),
        decreases commands@.len() - i,
    {
        if !command_precedes(&commands[i], &commands[i + 1]) {
            return false;
        }
        i = i + 1;
    }
    true
}

} // verus!

verus! {

/// A validator's Schnorr signature over a block id.
#[derive(Copy, Clone, Debug, PartialEq, Eq)]
pub struct ValidatorSignature {
    pub public_nonce: FixedHash,
    pub signature: FixedHash,
}

/// The hashed part of a block.
#[derive(Clone, Debug)]
pub struct BlockHeader {
    pub id: BlockId,
    pub network: u8,
    pub parent: BlockId,
    pub justify_id: FixedHash,
    pub height: NodeHeight,
    pub epoch: Epoch,
    pub shard_group: ShardGroup,
    pub proposed_by: FixedHash,
    pub state_merkle_root: FixedHash,
    pub command_merkle_root: FixedHash,
    pub total_leader_fee: u64,
    pub is_dummy: bool,
    /// How many proposals were sent to each shard, sorted by shard.
    pub foreign_indexes: IndexMap<Shard, u64>,
    pub signature: Option<ValidatorSignature>,
    pub timestamp: u64,
    pub base_layer_block_height: u64,
    pub base_layer_block_hash: FixedHash,
    pub extra_data: Vec<u8>,
}

/// Foreign indexes strictly increasing by shard (an ordered map).
pub open spec fn foreign_indexes_sorted(fi: Seq<(Shard, u64)>) -> bool {
    forall|i: int, j: int| 0 <= i < j < fi.len() ==> fi[i].0 < fi[j].0
}

/// The counter recorded for `shard`, if any.
pub open spec fn foreign_counter(fi: Seq<(Shard, u64)>, shard: Shard) -> Option<u64> {
    if exists|i: int| 0 <= i < fi.len() && fi[i].0 == shard {
        let i = choose|i: int| 0 <= i < fi.len() && fi[i].0 == shard;
        Some(fi[i].1)
    } else {
        None
    }
}

/// Looks up the counter for `shard` in sorted foreign indexes.
pub fn get_foreign_counter(fi: &Vec<(Shard, u64)>, shard: Shard) -> (r: Option<u64>)
    requires
        foreign_indexes_sorted(fi@),
    ensures
        r == foreign_counter(fi@, shard),
{
    let mut i: usize = 0;
    while i < fi.len()
        invariant
            foreign_indexes_sorted(fi@),
            i <= fi@.len(),
            forall|j: int| 0 <= j < i ==> fi@[j].0 != shard,
        decreases fi@.len() - i,
    {
        if fi[i].0 == shard {
            proof {
                assert(0 <= i < fi@.len() && fi@[i as int].0 == shard);
                let k = choose|k: int| 0 <= k < fi@.len() && fi@[k].0 == shard;
                if k > i {
                    assert(fi@[i as int].0 < fi@[k].0);
                }
                assert(k == i as int);
            }
            return Some(fi[i].1);
        }
        i = i + 1;
    }
    None
}

/// Looks up the counter for `shard` in a sorted foreign-index map.
pub fn get_foreign_counter_in_map(fi: &IndexMap<Shard, u64>, shard: Shard) -> (r: Option<u64>)
    requires
        foreign_indexes_sorted(index_entries(*fi)),
    ensures
        r == foreign_counter(index_entries(*fi), shard),
{
    let ghost s = index_entries(*fi);
    let n = index_map_len(fi);
    let mut i: usize = 0;
    while i < n
        invariant
            s == index_entries(*fi),
            n == s.len(),
            foreign_indexes_sorted(s),
            i <= n,
            forall|j: int| 0 <= j < i ==> s[j].0 != shard,
        decreases n - i,
    {
        let (k, v) = index_map_entry(fi, i);
        if k == shard {
            proof {
                assert(0 <= i < s.len() && s[i as int].0 == shard);
                let q = choose|q: int| 0 <= q < s.len() && s[q].0 == shard;
                if q > i {
                    assert(s[i as int].0 < s[q].0);
                }
                assert(q == i as int);
            }
            return Some(v);
        }
        i = i + 1;
    }
    None
}

/// Whether the entries of a foreign-index map are strictly increasing by shard.
pub fn is_map_sorted_by_shard(fi: &IndexMap<Shard, u64>) -> (r: bool)
    ensures
        r == foreign_indexes_sorted(index_entries(*fi)),
{
    let ghost s = index_entries(*fi);
    let n = index_map_len(fi);
    if n < 2 {
        return true;
    }
    let mut i: usize = 0;
    while i < n - 1
        invariant
            s == index_entries(*fi),
            n == s.len(),
            n >= 2,
            i < n,
            forall|a: int, b: int| 0 <= a < b <= i ==> s[a].0 < s[b].0,
        decreases n - i,
    {
        let (a, _) = index_map_entry(fi, i);
        let (b, _) = index_map_entry(fi, i + 1);
        if a >= b {
            return false;
        }
        i = i + 1;
    }
    true
}

/// A block: its header, the QC that justifies its parent chain, its commands and bookkeeping flags.
#[derive(Clone, Debug)]
pub struct Block {
    pub header: BlockHeader,
    pub justify: QuorumCertificate,
    /// Commands in canonical order; committed to by `command_merkle_root`.
    pub commands: Vec<Command>,
    /// Set once a QC for this block is seen.
    pub is_justified: bool,
    /// Set once the block's diff is committed.
    pub is_committed: bool,
    pub block_time: Option<u64>,
    /// When the block was stored, as a unix timestamp.
    pub stored_at: Option<u64>,
}

/// Errors of block construction.
#[derive(Copy, Clone, Debug, PartialEq, Eq, Structural)]
pub enum BlockError {
    /// The commands are not strictly increasing in canonical order.
    CommandsNotCanonical,
}

} // verus!

verus! {

impl QuorumCertificate {
    /// A QC over `block_id`, with its id computed from its fields.
    pub fn new(
        block_id: BlockId,
        block_height: NodeHeight,
        epoch: Epoch,
        shard_group: ShardGroup,
        decision: Decision,
        signers: Vec<FixedHash>,
    ) -> (r: QuorumCertificate)
        ensures
            r.block_id == block_id,
            r.block_height == block_height,
            r.epoch == epoch,
            r.shard_group == shard_group,
            r.decision == decision,
            r.signers@ == signers@,
            r.qc_id@ == blake2b_256_of(qc_bytes(r)),
    {
        let mut qc = QuorumCertificate {
            qc_id: zero_bytes(),
            block_id,
            block_height,
            epoch,
            shard_group,
            decision,
            signers,
        };
        let id = calculate_qc_id(&qc);
        qc.qc_id = id;
        qc
    }

    /// The synthetic QC over the zero block that justifies genesis blocks.
    pub fn genesis(epoch: Epoch, shard_group: ShardGroup) -> (r: QuorumCertificate)
        ensures
            r.block_id.0@ == zero_hash(),
            r.block_height == 0,
            r.epoch == epoch,
            r.shard_group == shard_group,
            r.decision == Decision::Commit,
            r.signers@.len() == 0,
            r.qc_id@ == blake2b_256_of(qc_bytes(r)),
            r.qc_id@ == blake2b_256_of(crate::encoding::genesis_qc_bytes(epoch, shard_group)),
    {
        let r = QuorumCertificate::new(BlockId::zero(), 0, epoch, shard_group, Decision::Commit, Vec::new());
        assert(r.signers@ =~= Seq::<FixedHash>::empty());
        assert(qc_bytes(r) =~= crate::encoding::genesis_qc_bytes(epoch, shard_group));
        r
    }

    /// Whether this is a genesis QC (it certifies the zero block).
    pub fn is_genesis(&self) -> (r: bool)
        ensures
            r == (self.block_id.0@ == zero_hash()),
    {
        self.block_id.is_zero()
    }
}

/// Whether the header's id is the hash of its fields.
pub open spec fn header_id_valid(h: BlockHeader) -> bool {
    h.id.0@ == header_hash(h)
}

/// Sum of the transaction fees of the committing commands.
pub open spec fn total_transaction_fee(cs: Seq<Command>) -> int
    decreases cs.len(),
{
    if cs.len() == 0 {
        0
    } else {
        total_transaction_fee(cs.drop_last()) + match command_committing(cs.last()) {
            Some(a) => a.transaction_fee as int,
            None => 0int,
        }
    }
}

impl BlockHeader {
    /// Recomputes the hash of the header fields.
    pub fn calculate_hash(&self) -> (r: FixedHash)
        ensures
            r@ == header_hash(*self),
    {
        calculate_header_hash(self)
    }

    pub fn is_genesis(&self) -> (r: bool)
        ensures
            r == (self.height == 0),
    {
        self.height == 0
    }
}

impl Block {
    /// Builds a block over the given fields, computing its command root and its id.
    pub fn create(
        network: u8,
        parent: BlockId,
        justify: QuorumCertificate,
        height: NodeHeight,
        epoch: Epoch,
        shard_group: ShardGroup,
        proposed_by: FixedHash,
        commands: Vec<Command>,
        state_merkle_root: FixedHash,
        total_leader_fee: u64,
        sorted_foreign_indexes: IndexMap<Shard, u64>,
        signature: Option<ValidatorSignature>,
        timestamp: u64,
        base_layer_block_height: u64,
        base_layer_block_hash: FixedHash,
        extra_data: Vec<u8>,
    ) -> (r: Result<Block, BlockError>)
        requires
            foreign_indexes_sorted(index_entries(sorted_foreign_indexes)),
        ensures
            r is Ok <==> commands_canonical(commands@),
            commands@.len() == 0 ==> r is Ok,
            !commands_canonical(commands@) ==> r == Err::<Block, BlockError>(
                BlockError::CommandsNotCanonical,
            ),
            r matches Ok(b) ==> {
                &&& b.header.network == network
                &&& b.header.parent == parent
                &&& b.header.justify_id == justify.qc_id
                &&& b.header.height == height
                &&& b.header.epoch == epoch
                &&& b.header.shard_group == shard_group
                &&& b.header.proposed_by == proposed_by
                &&& b.header.state_merkle_root == state_merkle_root
                &&& b.header.command_merkle_root@ == command_merkle_root(commands@)
                &&& b.header.total_leader_fee == total_leader_fee
                &&& !b.header.is_dummy
                &&& b.header.foreign_indexes == sorted_foreign_indexes
                &&& b.header.signature == signature
                &&& b.header.timestamp == timestamp
                &&& b.header.base_layer_block_height == base_layer_block_height
                &&& b.header.base_layer_block_hash == base_layer_block_hash
                &&& b.header.extra_data@ == extra_data@
                &&& header_id_valid(b.header)
                &&& b.justify == justify
                &&& b.commands@ == commands@
                &&& !b.is_justified
                &&& !b.is_committed
                &&& b.block_time is None
                &&& b.stored_at is None
            },
    {
        if !is_canonical(&commands) {
            return Err(BlockError::CommandsNotCanonical);
        }
        let command_merkle_root = compute_command_merkle_root(&commands);
        let mut header = BlockHeader {
            id: BlockId::zero(),
            network,
            parent,
            justify_id: justify.qc_id,
            height,
            epoch,
            shard_group,
            proposed_by,
            state_merkle_root,
            command_merkle_root,
            total_leader_fee,
            is_dummy: false,
            foreign_indexes: sorted_foreign_indexes,
            signature,
            timestamp,
            base_layer_block_height,
            base_layer_block_hash,
            extra_data,
        };
        let id = header.calculate_hash();
        let ghost unset = header;
        header.id = BlockId(id);
        assert(header_bytes(header) == header_bytes(unset));
        Ok(Block::new(header, justify, commands))
    }

    /// Rebuilds a stored block from its fields, as they were saved (the id is taken as stored).
    pub fn load(
        id: BlockId,
        network: u8,
        parent: BlockId,
        justify: QuorumCertificate,
        height: NodeHeight,
        epoch: Epoch,
        shard_group: ShardGroup,
        proposed_by: FixedHash,
        state_merkle_root: FixedHash,
        commands: Vec<Command>,
        command_merkle_root: FixedHash,
        total_leader_fee: u64,
        is_dummy: bool,
        is_justified: bool,
        is_committed: bool,
        sorted_foreign_indexes: IndexMap<Shard, u64>,
        signature: Option<ValidatorSignature>,
        created_at: u64,
        block_time: Option<u64>,
        timestamp: u64,
        base_layer_block_height: u64,
        base_layer_block_hash: FixedHash,
        extra_data: Vec<u8>,
    ) -> (r: Block)
        ensures
            r.header == (BlockHeader {
                id,
                network,
                parent,
                justify_id: justify.qc_id,
                height,
                epoch,
                shard_group,
                proposed_by,
                state_merkle_root,
                command_merkle_root,
                total_leader_fee,
                is_dummy,
                foreign_indexes: sorted_foreign_indexes,
                signature,
                timestamp,
                base_layer_block_height,
                base_layer_block_hash,
                extra_data,
            }),
            r.justify == justify,
            r.commands == commands,
            r.is_justified == is_justified,
            r.is_committed == is_committed,
            r.block_time == block_time,
            r.stored_at == Some(created_at),
    {
        let justify_id = justify.qc_id;
        Block {
            header: BlockHeader {
                id,
                network,
                parent,
                justify_id,
                height,
                epoch,
                shard_group,
                proposed_by,
                state_merkle_root,
                command_merkle_root,
                total_leader_fee,
                is_dummy,
                foreign_indexes: sorted_foreign_indexes,
                signature,
                timestamp,
                base_layer_block_height,
                base_layer_block_hash,
                extra_data,
            },
            justify,
            commands,
            is_justified,
            is_committed,
            block_time,
            stored_at: Some(created_at),
        }
    }

    /// Wraps a header with its justify QC and commands; the flags start unset.
    pub fn new(header: BlockHeader, justify: QuorumCertificate, commands: Vec<Command>) -> (r: Block)
        ensures
            r.header == header,
            r.justify == justify,
            r.commands == commands,
            !r.is_justified,
            !r.is_committed,
            r.block_time is None,
            r.stored_at is None,
    {
        Block {
            header,
            justify,
            commands,
            is_justified: false,
            is_committed: false,
            block_time: None,
            stored_at: None,
        }
    }

    /// A block that a replica fabricates for a silent leader: no commands, the previous QC
    /// reused, and the dummy flag set (it may not change substates).
    pub fn dummy_block(
        network: u8,
        parent: BlockId,
        proposed_by: FixedHash,
        justify: QuorumCertificate,
        height: NodeHeight,
        epoch: Epoch,
        shard_group: ShardGroup,
        state_merkle_root: FixedHash,
        timestamp: u64,
        base_layer_block_height: u64,
        base_layer_block_hash: FixedHash,
    ) -> (r: Block)
        ensures
            r.header.is_dummy,
            r.header.network == network,
            r.header.shard_group == shard_group,
            r.header.proposed_by == proposed_by,
            r.header.state_merkle_root == state_merkle_root,
            r.header.timestamp == timestamp,
            r.header.base_layer_block_height == base_layer_block_height,
            r.header.base_layer_block_hash == base_layer_block_hash,
            index_entries(r.header.foreign_indexes).len() == 0,
            r.header.total_leader_fee == 0,
            r.header.signature is None,
            r.header.extra_data@.len() == 0,
            !r.is_justified,
            r.header.parent == parent,
            r.header.height == height,
            r.header.epoch == epoch,
            r.header.justify_id == justify.qc_id,
            r.justify == justify,
            r.commands@.len() == 0,
            r.header.command_merkle_root@ == command_merkle_root(Seq::empty()),
            header_id_valid(r.header),
            !r.is_committed,
    {
        let commands: Vec<Command> = Vec::new();
        let command_merkle_root = compute_command_merkle_root(&commands);
        let mut header = BlockHeader {
            id: BlockId::zero(),
            network,
            parent,
            justify_id: justify.qc_id,
            height,
            epoch,
            shard_group,
            proposed_by,
            state_merkle_root,
            command_merkle_root,
            total_leader_fee: 0,
            is_dummy: true,
            foreign_indexes: index_map_new(),
            signature: None,
            timestamp,
            base_layer_block_height,
            base_layer_block_hash,
            extra_data: Vec::new(),
        };
        let id = header.calculate_hash();
        let ghost unset = header;
        header.id = BlockId(id);
        assert(header_bytes(header) == header_bytes(unset));
        assert(commands@ =~= Seq::<Command>::empty());
        Block::new(header, justify, commands)
    }

    /// The first block of an epoch for a shard group: height zero, child of the zero block,
    /// justified by the genesis QC, with no commands.
    pub fn genesis(
        network: u8,
        epoch: Epoch,
        shard_group: ShardGroup,
        state_merkle_root: FixedHash,
        sidechain_id: Option<FixedHash>,
    ) -> (r: Block)
        ensures
            r.header.parent.0@ == zero_hash(),
            r.header.height == 0,
            r.header.epoch == epoch,
            r.header.network == network,
            r.header.shard_group == shard_group,
            r.header.state_merkle_root == state_merkle_root,
            r.header.command_merkle_root@ == command_merkle_root(Seq::empty()),
            r.header.proposed_by@ == zero_hash(),
            r.header.total_leader_fee == 0,
            !r.header.is_dummy,
            index_entries(r.header.foreign_indexes).len() == 0,
            r.header.signature is None,
            r.header.timestamp == 0,
            r.header.base_layer_block_height == 0,
            r.header.base_layer_block_hash@ == zero_hash(),
            sidechain_id matches Some(s) ==> r.header.extra_data@ == s@,
            sidechain_id is None ==> r.header.extra_data@.len() == 0,
            header_id_valid(r.header),
            r.justify.block_id.0@ == zero_hash(),
            r.justify.block_height == 0,
            r.justify.epoch == epoch,
            r.justify.shard_group == shard_group,
            r.justify.qc_id == r.header.justify_id,
            r.justify.decision == Decision::Commit,
            r.justify.signers@.len() == 0,
            r.justify.qc_id@ == blake2b_256_of(crate::encoding::genesis_qc_bytes(epoch, shard_group)),
            r.commands@.len() == 0,
            !r.is_committed,
            !r.is_justified,
    {
        let mut extra_data: Vec<u8> = Vec::new();
        match sidechain_id {
            Some(s) => {
                crate::bytes::append_hash(&mut extra_data, &s);
            },
            None => {},
        }
        let commands: Vec<Command> = Vec::new();
        assert(commands@ =~= Seq::<Command>::empty());
        let r = Block::create(
            network,
            BlockId::zero(),
            QuorumCertificate::genesis(epoch, shard_group),
            0,
            epoch,
            shard_group,
            zero_bytes(),
            commands,
            state_merkle_root,
            0,
            index_map_new(),
            None,
            0,
            0,
            zero_bytes(),
            extra_data,
        );
        match r {
            Ok(b) => b,
            Err(_) => {
                assert(false);
                Block::zero_block(network, 1)
            },
        }
    }

    /// The parent of all genesis blocks. Its id is zero and it counts as committed.
    pub fn zero_block(network: u8, num_preshards: u32) -> (r: Block)
        requires
            num_preshards > 0,
        ensures
            r.header.id.0@ == zero_hash(),
            r.header.parent.0@ == zero_hash(),
            r.header.height == 0,
            r.header.epoch == 0,
            r.header.network == network,
            r.header.shard_group == ShardGroup::all_shards_spec(num_preshards),
            r.justify.block_id.0@ == zero_hash(),
            r.commands@.len() == 0,
            r.is_committed,
            !r.is_justified,
    {
        let sg = ShardGroup::all_shards(num_preshards);
        let justify = QuorumCertificate::genesis(0, sg);
        let header = BlockHeader {
            id: BlockId::zero(),
            network,
            parent: BlockId::zero(),
            justify_id: justify.qc_id,
            height: 0,
            epoch: 0,
            shard_group: sg,
            proposed_by: zero_bytes(),
            state_merkle_root: zero_bytes(),
            command_merkle_root: zero_bytes(),
            total_leader_fee: 0,
            is_dummy: false,
            foreign_indexes: index_map_new(),
            signature: None,
            timestamp: 0,
            base_layer_block_height: 0,
            base_layer_block_hash: zero_bytes(),
            extra_data: Vec::new(),
        };
        Block {
            header,
            justify,
            commands: Vec::new(),
            is_justified: false,
            is_committed: true,
            block_time: None,
            stored_at: None,
        }
    }

    pub fn calculate_hash(&self) -> (r: FixedHash)
        ensures
            r@ == header_hash(self.header),
    {
        self.header.calculate_hash()
    }

    pub fn is_genesis(&self) -> (r: bool)
        ensures
            r == (self.header.height == 0),
    {
        self.header.is_genesis()
    }

    pub fn is_epoch_end(&self) -> (r: bool)
        ensures
            r == exists|i: int| 0 <= i < self.commands@.len() && self.commands@[i] is EpochEnd,
    {
        let mut i: usize = 0;
        while i < self.commands.len()
            invariant
                i <= self.commands@.len(),
                forall|j: int| 0 <= j < i ==> !(self.commands@[j] is EpochEnd),
            decreases self.commands@.len() - i,
        {
            if self.commands[i].is_epoch_end() {
                return true;
            }
            i = i + 1;
        }
        false
    }

    /// Whether the justify QC certifies this block's parent.
    pub fn justifies_parent(&self) -> (r: bool)
        ensures
            r == (self.justify.block_id == self.header.parent),
    {
        self.justify.block_id.equals(&self.header.parent)
    }

    /// Sum of the transaction fees of the committing commands.
    pub fn calculate_total_transaction_fee(&self) -> (r: u64)
        requires
            total_transaction_fee(self.commands@) <= u64::MAX,
        ensures
            r == total_transaction_fee(self.commands@),
    {
        let mut total: u64 = 0;
        let mut i: usize = 0;
        assert(self.commands@.subrange(0, 0) =~= Seq::<Command>::empty());
        while i < self.commands.len()
            invariant
                i <= self.commands@.len(),
                total == total_transaction_fee(self.commands@.subrange(0, i as int)),
                total_transaction_fee(self.commands@) <= u64::MAX,
            decreases self.commands@.len() - i,
        {
            proof {
                lemma_fee_prefix_monotone(self.commands@, i as int + 1);
                assert(self.commands@.subrange(0, i + 1).drop_last() =~= self.commands@.subrange(
                    0,
                    i as int,
                ));
            }
            match self.commands[i].committing() {
                Some(a) => {
                    total = total + a.transaction_fee;
                },
                None => {},
            }
            i = i + 1;
        }
        assert(self.commands@.subrange(0, self.commands@.len() as int) =~= self.commands@);
        total
    }

    pub fn command_count(&self) -> (r: usize)
        ensures
            r == self.commands@.len(),
    {
        self.commands.len()
    }

    pub fn compute_command_merkle_root(&self) -> (r: FixedHash)
        ensures
            r@ == command_merkle_root(self.commands@),
    {
        compute_command_merkle_root(&self.commands)
    }
}

proof fn lemma_fee_prefix_monotone(cs: Seq<Command>, n: int)
    requires
        0 <= n <= cs.len(),
    ensures
        total_transaction_fee(cs.subrange(0, n)) <= total_transaction_fee(cs),
    decreases cs.len() - n,
{
    if n < cs.len() {
        lemma_fee_prefix_monotone(cs, n + 1);
        assert(cs.subrange(0, n + 1).drop_last() =~= cs.subrange(0, n));
    } else {
        assert(cs.subrange(0, n) =~= cs);
    }
}

impl Block {
    pub fn header(&self) -> (r: &BlockHeader)
        ensures
            *r == self.header,
    {
        &self.header
    }

    pub fn id(&self) -> (r: &BlockId)
        ensures
            *r == self.header.id,
    {
        &self.header.id
    }

    pub fn network(&self) -> (r: u8)
        ensures
            r == self.header.network,
    {
        self.header.network
    }

    pub fn parent(&self) -> (r: &BlockId)
        ensures
            *r == self.header.parent,
    {
        &self.header.parent
    }

    pub fn justify(&self) -> (r: &QuorumCertificate)
        ensures
            *r == self.justify,
    {
        &self.justify
    }

    pub fn height(&self) -> (r: NodeHeight)
        ensures
            r == self.header.height,
    {
        self.header.height
    }

    pub fn epoch(&self) -> (r: Epoch)
        ensures
            r == self.header.epoch,
    {
        self.header.epoch
    }

    pub fn shard_group(&self) -> (r: ShardGroup)
        ensures
            r == self.header.shard_group,
    {
        self.header.shard_group
    }

    pub fn total_leader_fee(&self) -> (r: u64)
        ensures
            r == self.header.total_leader_fee,
    {
        self.header.total_leader_fee
    }

    pub fn proposed_by(&self) -> (r: &FixedHash)
        ensures
            *r == self.header.proposed_by,
    {
        &self.header.proposed_by
    }

    pub fn state_merkle_root(&self) -> (r: &FixedHash)
        ensures
            *r == self.header.state_merkle_root,
    {
        &self.header.state_merkle_root
    }

    pub fn command_merkle_root(&self) -> (r: &FixedHash)
        ensures
            *r == self.header.command_merkle_root,
    {
        &self.header.command_merkle_root
    }

    pub fn commands(&self) -> (r: &Vec<Command>)
        ensures
            *r == self.commands,
    {
        &self.commands
    }

    pub fn is_dummy(&self) -> (r: bool)
        ensures
            r == self.header.is_dummy,
    {
        self.header.is_dummy
    }

    pub fn is_justified(&self) -> (r: bool)
        ensures
            r == self.is_justified,
    {
        self.is_justified
    }

    pub fn is_committed(&self) -> (r: bool)
        ensures
            r == self.is_committed,
    {
        self.is_committed
    }

    pub fn get_foreign_counter(&self, shard: Shard) -> (r: Option<u64>)
        requires
            foreign_indexes_sorted(index_entries(self.header.foreign_indexes)),
        ensures
            r == foreign_counter(index_entries(self.header.foreign_indexes), shard),
    {
        get_foreign_counter_in_map(&self.header.foreign_indexes, shard)
    }

    pub fn foreign_indexes(&self) -> (r: &IndexMap<Shard, u64>)
        ensures
            *r == self.header.foreign_indexes,
    {
        &self.header.foreign_indexes
    }

    pub fn block_time(&self) -> (r: Option<u64>)
        ensures
            r == self.block_time,
    {
        self.block_time
    }

    pub fn timestamp(&self) -> (r: u64)
        ensures
            r == self.header.timestamp,
    {
        self.header.timestamp
    }

    pub fn signature(&self) -> (r: Option<ValidatorSignature>)
        ensures
            r == self.header.signature,
    {
        self.header.signature
    }

    /// Signs the block; the signature is among the hashed fields, so the id is recomputed.
    pub fn set_signature(&mut self, signature: ValidatorSignature)
        ensures
            final(self).header.signature == Some(signature),
            final(self).header.id.0@ == header_hash(final(self).header),
            final(self).commands == old(self).commands,
            final(self).justify == old(self).justify,
    {
        self.header.signature = Some(signature);
        let id = self.header.calculate_hash();
        let ghost unset = self.header;
        self.header.id = BlockId(id);
        assert(header_bytes(self.header) == header_bytes(unset));
    }

    pub fn base_layer_block_height(&self) -> (r: u64)
        ensures
            r == self.header.base_layer_block_height,
    {
        self.header.base_layer_block_height
    }

    pub fn base_layer_block_hash(&self) -> (r: &FixedHash)
        ensures
            *r == self.header.base_layer_block_hash,
    {
        &self.header.base_layer_block_hash
    }

    pub fn extra_data(&self) -> (r: &Vec<u8>)
        ensures
            *r == self.header.extra_data,
    {
        &self.header.extra_data
    }
}

/// Missed-proposal accounting of one validator in one epoch.
#[derive(Copy, Clone, Debug, PartialEq, Eq, Structural)]
pub struct ValidatorEpochStats {
    pub epoch: Epoch,
    pub missed_proposals: u64,
}

impl ValidatorEpochStats {
    pub fn new(epoch: Epoch) -> (r: ValidatorEpochStats)
        ensures
            r.epoch == epoch,
            r.missed_proposals == 0,
    {
        ValidatorEpochStats { epoch, missed_proposals: 0 }
    }

    /// Counts a missed proposal: the count becomes `min(count + 1, cap)`.
    pub fn add_missed_proposal(&mut self, cap: u64)
        ensures
            final(self).epoch == old(self).epoch,
            final(self).missed_proposals == if old(self).missed_proposals < cap {
                (old(self).missed_proposals + 1) as u64
            } else {
                cap
            },
    {
        if self.missed_proposals < cap {
            self.missed_proposals = self.missed_proposals + 1;
        } else {
            self.missed_proposals = cap;
        }
    }

    /// The proposer proposed: its count starts over.
    pub fn reset_missed_proposals(&mut self)
        ensures
            final(self).epoch == old(self).epoch,
            final(self).missed_proposals == 0,
    {
        self.missed_proposals = 0;
    }
}

/// Signatures needed from a committee of `n`: all but the `f = (n - 1) / 3` that may be faulty.
pub open spec fn quorum_threshold(n: int) -> int {
    if n == 0 {
        0
    } else {
        n - (n - 1) / 3
    }
}

/// The signers are distinct members of the committee, and there are enough of them.
pub open spec fn has_quorum_spec(signers: Seq<FixedHash>, committee: Seq<FixedHash>) -> bool {
    &&& signers.no_duplicates()
    &&& forall|i: int| 0 <= i < signers.len() ==> committee.contains(#[trigger] signers[i])
    &&& signers.len() >= quorum_threshold(committee.len() as int)
    &&& committee.len() > 0
}

impl QuorumCertificate {
    /// Whether the QC is valid for `committee`: a genesis QC, or one signed by at least `2f + 1`
    /// distinct committee members.
    pub fn is_valid(&self, committee: &Vec<FixedHash>) -> (r: bool)
        ensures
            r == (self.block_id.0@ == zero_hash() || has_quorum_spec(self.signers@, committee@)),
    {
        if self.is_genesis() {
            return true;
        }
        if committee.len() == 0 {
            return false;
        }
        let n = committee.len();
        let threshold = n - (n - 1) / 3;
        if self.signers.len() < threshold {
            return false;
        }
        let mut i: usize = 0;
        while i < self.signers.len()
            invariant
                self.block_id.0@ != zero_hash(),
                i <= self.signers@.len(),
                forall|a: int, b: int| 0 <= a < b < i ==> self.signers@[a] != self.signers@[b],
                forall|a: int| 0 <= a < i ==> committee@.contains(#[trigger] self.signers@[a]),
            decreases self.signers@.len() - i,
        {
            let mut found = false;
            let mut k: usize = 0;
            while k < committee.len()
                invariant
                    self.block_id.0@ != zero_hash(),
                    i < self.signers@.len(),
                    k <= committee@.len(),
                    found ==> committee@.contains(self.signers@[i as int]),
                    !found ==> forall|c: int| 0 <= c < k ==> committee@[c] != self.signers@[i as int],
                decreases committee@.len() - k,
            {
                if hash_eq(&committee[k], &self.signers[i]) {
                    found = true;
                }
                k = k + 1;
            }
            if !found {
                assert(!committee@.contains(self.signers@[i as int]));
                return false;
            }
            let mut j: usize = 0;
            while j < i
                invariant
                    self.block_id.0@ != zero_hash(),
                    i < self.signers@.len(),
                    j <= i,
                    forall|a: int| 0 <= a < j ==> self.signers@[a] != self.signers@[i as int],
                decreases i - j,
            {
                if hash_eq(&self.signers[j], &self.signers[i]) {
                    assert(!self.signers@.no_duplicates());
                    return false;
                }
                j = j + 1;
            }
            i = i + 1;
        }
        true
    }
}

/// The transaction of command `c` where its evidence names shard group `sg`.
pub open spec fn tx_in_committee(c: Command, sg: ShardGroup) -> Option<FixedHash> {
    match command_transaction(c) {
        Some(a) => if evidence_for(a.evidence@, sg) is Some {
            Some(a.id)
        } else {
            None
        },
        None => None,
    }
}

impl Block {
    /// Ids of the transactions of this block whose evidence involves shard group `sg`, in command order.
    pub fn all_transaction_ids_in_committee(&self, sg: ShardGroup) -> (r: Vec<FixedHash>)
        ensures
            r@ == self.commands@.filter_map(|c: Command| tx_in_committee(c, sg)),
    {
        let mut out: Vec<FixedHash> = Vec::new();
        let mut i: usize = 0;
        assert(self.commands@.subrange(0, 0) =~= Seq::<Command>::empty());
        while i < self.commands.len()
            invariant
                i <= self.commands@.len(),
                out@ == self.commands@.subrange(0, i as int).filter_map(|c: Command| tx_in_committee(c, sg)),
            decreases self.commands@.len() - i,
        {
            assert(self.commands@.subrange(0, i + 1).drop_last() =~= self.commands@.subrange(0, i as int));
            match self.commands[i].transaction() {
                Some(a) => {
                    if a.evidence_for(sg).is_some() {
                        out.push(a.id);
                    }
                },
                None => {},
            }
            assert(out@ =~= self.commands@.subrange(0, i + 1).filter_map(|c: Command| tx_in_committee(c, sg)));
            i = i + 1;
        }
        assert(self.commands@.subrange(0, self.commands@.len() as int) =~= self.commands@);
        out
    }

    /// Ids of the transactions of this block, in command order.
    pub fn all_transaction_ids(&self) -> (r: Vec<FixedHash>)
        ensures
            r@ == self.commands@.filter_map(|c: Command| tx_id_of(c)),
    {
        let mut out: Vec<FixedHash> = Vec::new();
        let mut i: usize = 0;
        assert(self.commands@.subrange(0, 0) =~= Seq::<Command>::empty());
        while i < self.commands.len()
            invariant
                i <= self.commands@.len(),
                out@ == self.commands@.subrange(0, i as int).filter_map(|c: Command| tx_id_of(c)),
            decreases self.commands@.len() - i,
        {
            assert(self.commands@.subrange(0, i + 1).drop_last() =~= self.commands@.subrange(0, i as int));
            match self.commands[i].transaction() {
                Some(a) => {
                    out.push(a.id);
                },
                None => {},
            }
            assert(out@ =~= self.commands@.subrange(0, i + 1).filter_map(|c: Command| tx_id_of(c)));
            i = i + 1;
        }
        assert(self.commands@.subrange(0, self.commands@.len() as int) =~= self.commands@);
        out
    }
}

/// The id of the transaction that command `c` carries.
pub open spec fn tx_id_of(c: Command) -> Option<FixedHash> {
    match command_transaction(c) {
        Some(a) => Some(a.id),
        None => None,
    }
}

/// Selector of `Block::all_committing_transactions_ids`.
pub open spec fn committing_tx_id(c: Command) -> Option<FixedHash> {
    match c {
        Command::AllAccept(a) => if a.decision is Commit { Some(a.id) } else { None },
        _ => None,
    }
}

/// Selector of `Block::all_finalising_transactions_ids`.
pub open spec fn finalising_tx_id(c: Command) -> Option<FixedHash> {
    match c {
        Command::AllAccept(a) => Some(a.id),
        _ => None,
    }
}

/// Selector of `Block::all_foreign_proposals`.
pub open spec fn foreign_proposal_of(c: Command) -> Option<ForeignProposalAtom> {
    match c {
        Command::ForeignProposal(f) => Some(f),
        _ => None,
    }
}

/// Selector of `Block::all_resume_nodes`.
pub open spec fn resume_node_of(c: Command) -> Option<ResumeNodeAtom> {
    match c {
        Command::ResumeNode(r) => Some(r),
        _ => None,
    }
}

/// Selector of `Block::all_confidential_output_mints`.
pub open spec fn mint_of(c: Command) -> Option<MintConfidentialOutputAtom> {
    match c {
        Command::MintConfidentialOutput(m) => Some(m),
        _ => None,
    }
}

/// Selector of `Block::all_some_prepare`.
pub open spec fn some_prepare_id(c: Command) -> Option<FixedHash> {
    match c {
        Command::SomePrepare(a) => Some(a.id),
        _ => None,
    }
}

impl Block {
    /// Ids of the transactions this block commits: `AllAccept` with a COMMIT decision.
    pub fn all_committing_transactions_ids(&self) -> (r: Vec<FixedHash>)
        ensures
            r@ == self.commands@.filter_map(|c: Command| committing_tx_id(c)),
    {
        let mut out: Vec<FixedHash> = Vec::new();
        let mut i: usize = 0;
        assert(self.commands@.subrange(0, 0) =~= Seq::<Command>::empty());
        while i < self.commands.len()
            invariant
                i <= self.commands@.len(),
                out@ == self.commands@.subrange(0, i as int).filter_map(|c: Command| committing_tx_id(c)),
            decreases self.commands@.len() - i,
        {
            assert(self.commands@.subrange(0, i + 1).drop_last() =~= self.commands@.subrange(0, i as int));
            match &self.commands[i] {
                Command::AllAccept(a) => { if a.decision.is_commit() { out.push(a.id); } },
                _ => {},
            }
            assert(out@ =~= self.commands@.subrange(0, i + 1).filter_map(|c: Command| committing_tx_id(c)));
            i = i + 1;
        }
        assert(self.commands@.subrange(0, self.commands@.len() as int) =~= self.commands@);
        out
    }

    /// Ids of the transactions this block finalises: every `AllAccept`, whatever its decision.
    pub fn all_finalising_transactions_ids(&self) -> (r: Vec<FixedHash>)
        ensures
            r@ == self.commands@.filter_map(|c: Command| finalising_tx_id(c)),
    {
        let mut out: Vec<FixedHash> = Vec::new();
        let mut i: usize = 0;
        assert(self.commands@.subrange(0, 0) =~= Seq::<Command>::empty());
        while i < self.commands.len()
            invariant
                i <= self.commands@.len(),
                out@ == self.commands@.subrange(0, i as int).filter_map(|c: Command| finalising_tx_id(c)),
            decreases self.commands@.len() - i,
        {
            assert(self.commands@.subrange(0, i + 1).drop_last() =~= self.commands@.subrange(0, i as int));
            match &self.commands[i] {
                Command::AllAccept(a) => { out.push(a.id); },
                _ => {},
            }
            assert(out@ =~= self.commands@.subrange(0, i + 1).filter_map(|c: Command| finalising_tx_id(c)));
            i = i + 1;
        }
        assert(self.commands@.subrange(0, self.commands@.len() as int) =~= self.commands@);
        out
    }

    /// The foreign proposals this block sequences.
    pub fn all_foreign_proposals(&self) -> (r: Vec<ForeignProposalAtom>)
        ensures
            r@ == self.commands@.filter_map(|c: Command| foreign_proposal_of(c)),
    {
        let mut out: Vec<ForeignProposalAtom> = Vec::new();
        let mut i: usize = 0;
        assert(self.commands@.subrange(0, 0) =~= Seq::<Command>::empty());
        while i < self.commands.len()
            invariant
                i <= self.commands@.len(),
                out@ == self.commands@.subrange(0, i as int).filter_map(|c: Command| foreign_proposal_of(c)),
            decreases self.commands@.len() - i,
        {
            assert(self.commands@.subrange(0, i + 1).drop_last() =~= self.commands@.subrange(0, i as int));
            match &self.commands[i] {
                Command::ForeignProposal(f) => { out.push(*f); },
                _ => {},
            }
            assert(out@ =~= self.commands@.subrange(0, i + 1).filter_map(|c: Command| foreign_proposal_of(c)));
            i = i + 1;
        }
        assert(self.commands@.subrange(0, self.commands@.len() as int) =~= self.commands@);
        out
    }

    /// The validators this block resumes.
    pub fn all_resume_nodes(&self) -> (r: Vec<ResumeNodeAtom>)
        ensures
            r@ == self.commands@.filter_map(|c: Command| resume_node_of(c)),
    {
        let mut out: Vec<ResumeNodeAtom> = Vec::new();
        let mut i: usize = 0;
        assert(self.commands@.subrange(0, 0) =~= Seq::<Command>::empty());
        while i < self.commands.len()
            invariant
                i <= self.commands@.len(),
                out@ == self.commands@.subrange(0, i as int).filter_map(|c: Command| resume_node_of(c)),
            decreases self.commands@.len() - i,
        {
            assert(self.commands@.subrange(0, i + 1).drop_last() =~= self.commands@.subrange(0, i as int));
            match &self.commands[i] {
                Command::ResumeNode(r) => { out.push(*r); },
                _ => {},
            }
            assert(out@ =~= self.commands@.subrange(0, i + 1).filter_map(|c: Command| resume_node_of(c)));
            i = i + 1;
        }
        assert(self.commands@.subrange(0, self.commands@.len() as int) =~= self.commands@);
        out
    }

    /// The confidential outputs this block mints.
    pub fn all_confidential_output_mints(&self) -> (r: Vec<MintConfidentialOutputAtom>)
        ensures
            r@ == self.commands@.filter_map(|c: Command| mint_of(c)),
    {
        let mut out: Vec<MintConfidentialOutputAtom> = Vec::new();
        let mut i: usize = 0;
        assert(self.commands@.subrange(0, 0) =~= Seq::<Command>::empty());
        while i < self.commands.len()
            invariant
                i <= self.commands@.len(),
                out@ == self.commands@.subrange(0, i as int).filter_map(|c: Command| mint_of(c)),
            decreases self.commands@.len() - i,
        {
            assert(self.commands@.subrange(0, i + 1).drop_last() =~= self.commands@.subrange(0, i as int));
            match &self.commands[i] {
                Command::MintConfidentialOutput(m) => { out.push(*m); },
                _ => {},
            }
            assert(out@ =~= self.commands@.subrange(0, i + 1).filter_map(|c: Command| mint_of(c)));
            i = i + 1;
        }
        assert(self.commands@.subrange(0, self.commands@.len() as int) =~= self.commands@);
        out
    }

    /// Ids of the transactions of this block's `SomePrepare` commands.
    pub fn all_some_prepare(&self) -> (r: Vec<FixedHash>)
        ensures
            r@ == self.commands@.filter_map(|c: Command| some_prepare_id(c)),
    {
        let mut out: Vec<FixedHash> = Vec::new();
        let mut i: usize = 0;
        assert(self.commands@.subrange(0, 0) =~= Seq::<Command>::empty());
        while i < self.commands.len()
            invariant
                i <= self.commands@.len(),
                out@ == self.commands@.subrange(0, i as int).filter_map(|c: Command| some_prepare_id(c)),
            decreases self.commands@.len() - i,
        {
            assert(self.commands@.subrange(0, i + 1).drop_last() =~= self.commands@.subrange(0, i as int));
            match &self.commands[i] {
                Command::SomePrepare(a) => { out.push(a.id); },
                _ => {},
            }
            assert(out@ =~= self.commands@.subrange(0, i + 1).filter_map(|c: Command| some_prepare_id(c)));
            i = i + 1;
        }
        assert(self.commands@.subrange(0, self.commands@.len() as int) =~= self.commands@);
        out
    }

    pub fn into_justify(self) -> (r: QuorumCertificate)
        ensures
            r == self.justify,
    {
        self.justify
    }

    pub fn into_commands(self) -> (r: Vec<Command>)
        ensures
            r == self.commands,
    {
        self.commands
    }
}

} // verus!
