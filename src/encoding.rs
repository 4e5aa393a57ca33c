//! Canonical byte encodings of headers, commands and QCs, and the hashes over them.
use crate::block::{
    command_rank, BlockHeader, Command, Decision, QuorumCertificate, Shard, ShardGroup,
    ShardGroupEvidence, TransactionAtom, ValidatorSignature,
};
use crate::bytes::{
    append_bool, append_hash, append_u32, append_u64, append_var_bytes, blake2b_256,
    blake2b_256_of, bool_byte, var_bytes, FixedHash,
};
use vstd::bytes::{spec_u32_to_le_bytes, spec_u64_to_le_bytes};
use crate::fmap::{index_entries, index_map_entry, index_map_len};
use indexmap::IndexMap;
use vstd::prelude::*;

verus! {

/// Domain separator of block hashes: "dan.block.v1".
pub open spec fn block_domain() -> Seq<u8> {
    seq![100u8, 97u8, 110u8, 46u8, 98u8, 108u8, 111u8, 99u8, 107u8, 46u8, 118u8, 49u8]
}

/// Domain separator of command roots: "dan.cmds.v1".
pub open spec fn commands_domain() -> Seq<u8> {
    seq![100u8, 97u8, 110u8, 46u8, 99u8, 109u8, 100u8, 115u8, 46u8, 118u8, 49u8]
}

/// Domain separator of QC ids: "dan.qc.v1".
pub open spec fn qc_domain() -> Seq<u8> {
    seq![100u8, 97u8, 110u8, 46u8, 113u8, 99u8, 46u8, 118u8, 49u8]
}

fn block_domain_bytes() -> (r: Vec<u8>)
    ensures
        r@ == block_domain(),
{
    let r: Vec<u8> = vec![100u8, 97u8, 110u8, 46u8, 98u8, 108u8, 111u8, 99u8, 107u8, 46u8, 118u8, 49u8];
    assert(r@ =~= block_domain());
    r
}

fn commands_domain_bytes() -> (r: Vec<u8>)
    ensures
        r@ == commands_domain(),
{
    let r: Vec<u8> = vec![100u8, 97u8, 110u8, 46u8, 99u8, 109u8, 100u8, 115u8, 46u8, 118u8, 49u8];
    assert(r@ =~= commands_domain());
    r
}

fn qc_domain_bytes() -> (r: Vec<u8>)
    ensures
        r@ == qc_domain(),
{
    let r: Vec<u8> = vec![100u8, 97u8, 110u8, 46u8, 113u8, 99u8, 46u8, 118u8, 49u8];
    assert(r@ =~= qc_domain());
    r
}

pub open spec fn shard_group_bytes(sg: ShardGroup) -> Seq<u8> {
    spec_u32_to_le_bytes(sg.start) + spec_u32_to_le_bytes(sg.end_inclusive)
}

fn append_shard_group(out: &mut Vec<u8>, sg: ShardGroup)
    ensures
        final(out)@ == old(out)@ + shard_group_bytes(sg),
{
    append_u32(out, sg.start);
    append_u32(out, sg.end_inclusive);
    assert(final(out)@ =~= old(out)@ + shard_group_bytes(sg));
}

pub open spec fn decision_bytes(d: Decision) -> Seq<u8> {
    match d {
        Decision::Commit => seq![1u8],
        Decision::Abort => seq![0u8],
    }
}

fn append_decision(out: &mut Vec<u8>, d: Decision)
    ensures
        final(out)@ == old(out)@ + decision_bytes(d),
{
    match d {
        Decision::Commit => out.push(1u8),
        Decision::Abort => out.push(0u8),
    }
    assert(final(out)@ =~= old(out)@ + decision_bytes(d));
}

/// The hashes one after another.
pub open spec fn concat_hashes(s: Seq<FixedHash>) -> Seq<u8>
    decreases s.len(),
{
    if s.len() == 0 {
        Seq::empty()
    } else {
        concat_hashes(s.drop_last()) + s.last()@
    }
}

/// A count-prefixed list of hashes.
pub open spec fn hash_list_bytes(s: Seq<FixedHash>) -> Seq<u8> {
    spec_u64_to_le_bytes(s.len() as u64) + concat_hashes(s)
}

fn append_hash_list(out: &mut Vec<u8>, s: &Vec<FixedHash>)
    ensures
        final(out)@ == old(out)@ + hash_list_bytes(s@),
{
    append_u64(out, s.len() as u64);
    let ghost start = out@;
    let mut i: usize = 0;
    assert(s@.subrange(0, 0) =~= Seq::<FixedHash>::empty());
    assert(start + concat_hashes(s@.subrange(0, 0)) =~= start);
    while i < s.len()
        invariant
            i <= s@.len(),
            out@ == start + concat_hashes(s@.subrange(0, i as int)),
        decreases s@.len() - i,
    {
        append_hash(out, &s[i]);
        assert(s@.subrange(0, i + 1).drop_last() =~= s@.subrange(0, i as int));
        assert(out@ =~= start + concat_hashes(s@.subrange(0, i + 1)));
        i = i + 1;
    }
    assert(s@.subrange(0, s@.len() as int) =~= s@);
    assert(final(out)@ =~= old(out)@ + hash_list_bytes(s@));
}

pub open spec fn one_evidence_bytes(e: ShardGroupEvidence) -> Seq<u8> {
    shard_group_bytes(e.shard_group) + hash_list_bytes(e.substates@)
}

pub open spec fn concat_evidence(s: Seq<ShardGroupEvidence>) -> Seq<u8>
    decreases s.len(),
{
    if s.len() == 0 {
        Seq::empty()
    } else {
        concat_evidence(s.drop_last()) + one_evidence_bytes(s.last())
    }
}

pub open spec fn evidence_bytes(s: Seq<ShardGroupEvidence>) -> Seq<u8> {
    spec_u64_to_le_bytes(s.len() as u64) + concat_evidence(s)
}

fn append_evidence(out: &mut Vec<u8>, s: &Vec<ShardGroupEvidence>)
    ensures
        final(out)@ == old(out)@ + evidence_bytes(s@),
{
    append_u64(out, s.len() as u64);
    let ghost start = out@;
    let mut i: usize = 0;
    assert(s@.subrange(0, 0) =~= Seq::<ShardGroupEvidence>::empty());
    assert(start + concat_evidence(s@.subrange(0, 0)) =~= start);
    while i < s.len()
        invariant
            i <= s@.len(),
            out@ == start + concat_evidence(s@.subrange(0, i as int)),
        decreases s@.len() - i,
    {
        let ghost before = out@;
        append_shard_group(out, s[i].shard_group);
        append_hash_list(out, &s[i].substates);
        assert(out@ =~= before + one_evidence_bytes(s@[i as int]));
        assert(s@.subrange(0, i + 1).drop_last() =~= s@.subrange(0, i as int));
        assert(out@ =~= start + concat_evidence(s@.subrange(0, i + 1)));
        i = i + 1;
    }
    assert(s@.subrange(0, s@.len() as int) =~= s@);
    assert(final(out)@ =~= old(out)@ + evidence_bytes(s@));
}

pub open spec fn atom_bytes(a: TransactionAtom) -> Seq<u8> {
    a.id@ + decision_bytes(a.decision) + spec_u64_to_le_bytes(a.transaction_fee)
        + spec_u64_to_le_bytes(a.leader_fee) + evidence_bytes(a.evidence@)
}

fn append_atom(out: &mut Vec<u8>, a: &TransactionAtom)
    ensures
        final(out)@ == old(out)@ + atom_bytes(*a),
{
    append_hash(out, &a.id);
    append_decision(out, a.decision);
    append_u64(out, a.transaction_fee);
    append_u64(out, a.leader_fee);
    append_evidence(out, &a.evidence);
    assert(final(out)@ =~= old(out)@ + atom_bytes(*a));
}

/// The canonical encoding of a command: its rank, then its payload.
pub open spec fn command_bytes(c: Command) -> Seq<u8> {
    seq![command_rank(c)] + match c {
        Command::Prepare(a) => atom_bytes(a),
        Command::LocalPrepare(a) => atom_bytes(a),
        Command::AllPrepare(a) => atom_bytes(a),
        Command::LocalAccept(a) => atom_bytes(a),
        Command::AllAccept(a) => atom_bytes(a),
        Command::SomePrepare(a) => atom_bytes(a),
        Command::ForeignProposal(f) => f.block_id.0@ + shard_group_bytes(f.shard_group),
        Command::MintConfidentialOutput(m) => m.commitment@,
        Command::ResumeNode(r) => r.public_key@,
        Command::EpochEnd => Seq::empty(),
    }
}

pub fn encode_command(c: &Command) -> (r: Vec<u8>)
    ensures
        r@ == command_bytes(*c),
{
    let mut out: Vec<u8> = Vec::new();
    out.push(c.rank());
    match c {
        Command::Prepare(a) => append_atom(&mut out, a),
        Command::LocalPrepare(a) => append_atom(&mut out, a),
        Command::AllPrepare(a) => append_atom(&mut out, a),
        Command::LocalAccept(a) => append_atom(&mut out, a),
        Command::AllAccept(a) => append_atom(&mut out, a),
        Command::SomePrepare(a) => append_atom(&mut out, a),
        Command::ForeignProposal(f) => {
            append_hash(&mut out, &f.block_id.0);
            append_shard_group(&mut out, f.shard_group);
        },
        Command::MintConfidentialOutput(m) => append_hash(&mut out, &m.commitment),
        Command::ResumeNode(r) => append_hash(&mut out, &r.public_key),
        Command::EpochEnd => {},
    }
    assert(out@ =~= command_bytes(*c));
    out
}

/// Hash of each command, one after another.
pub open spec fn command_leaves(cs: Seq<Command>) -> Seq<u8>
    decreases cs.len(),
{
    if cs.len() == 0 {
        Seq::empty()
    } else {
        command_leaves(cs.drop_last()) + blake2b_256_of(command_bytes(cs.last()))
    }
}

/// The root that commits a block to its ordered commands.
pub open spec fn command_merkle_root(cs: Seq<Command>) -> Seq<u8> {
    blake2b_256_of(commands_domain() + command_leaves(cs))
}

pub fn compute_command_merkle_root(commands: &Vec<Command>) -> (r: FixedHash)
    ensures
        r@ == command_merkle_root(commands@),
{
    let mut out = commands_domain_bytes();
    let ghost start = out@;
    let mut i: usize = 0;
    assert(commands@.subrange(0, 0) =~= Seq::<Command>::empty());
    assert(start + command_leaves(commands@.subrange(0, 0)) =~= start);
    while i < commands.len()
        invariant
            i <= commands@.len(),
            start == commands_domain(),
            out@ == start + command_leaves(commands@.subrange(0, i as int)),
        decreases commands@.len() - i,
    {
        let enc = encode_command(&commands[i]);
        let leaf = blake2b_256(&enc);
        append_hash(&mut out, &leaf);
        assert(commands@.subrange(0, i + 1).drop_last() =~= commands@.subrange(0, i as int));
        assert(out@ =~= start + command_leaves(commands@.subrange(0, i + 1)));
        i = i + 1;
    }
    assert(commands@.subrange(0, commands@.len() as int) =~= commands@);
    blake2b_256(&out)
}

pub open spec fn foreign_index_bytes(e: (Shard, u64)) -> Seq<u8> {
    spec_u32_to_le_bytes(e.0) + spec_u64_to_le_bytes(e.1)
}

pub open spec fn concat_foreign_indexes(s: Seq<(Shard, u64)>) -> Seq<u8>
    decreases s.len(),
{
    if s.len() == 0 {
        Seq::empty()
    } else {
        concat_foreign_indexes(s.drop_last()) + foreign_index_bytes(s.last())
    }
}

pub open spec fn foreign_indexes_bytes(s: Seq<(Shard, u64)>) -> Seq<u8> {
    spec_u64_to_le_bytes(s.len() as u64) + concat_foreign_indexes(s)
}

fn append_foreign_indexes(out: &mut Vec<u8>, m: &IndexMap<Shard, u64>)
    ensures
        final(out)@ == old(out)@ + foreign_indexes_bytes(index_entries(*m)),
{
    let ghost s = index_entries(*m);
    let n = index_map_len(m);
    append_u64(out, n as u64);
    let ghost start = out@;
    let mut i: usize = 0;
    assert(s.subrange(0, 0) =~= Seq::<(Shard, u64)>::empty());
    assert(start + concat_foreign_indexes(s.subrange(0, 0)) =~= start);
    while i < n
        invariant
            s == index_entries(*m),
            n == s.len(),
            i <= n,
            out@ == start + concat_foreign_indexes(s.subrange(0, i as int)),
        decreases n - i,
    {
        let ghost before = out@;
        let (shard, count) = index_map_entry(m, i);
        append_u32(out, shard);
        append_u64(out, count);
        assert(out@ =~= before + foreign_index_bytes(s[i as int]));
        assert(s.subrange(0, i + 1).drop_last() =~= s.subrange(0, i as int));
        assert(out@ =~= start + concat_foreign_indexes(s.subrange(0, i + 1)));
        i = i + 1;
    }
    assert(s.subrange(0, n as int) =~= s);
    assert(final(out)@ =~= old(out)@ + foreign_indexes_bytes(s));
}

pub open spec fn signature_bytes(s: Option<ValidatorSignature>) -> Seq<u8> {
    match s {
        None => seq![0u8],
        Some(sig) => seq![1u8] + sig.public_nonce@ + sig.signature@,
    }
}

fn append_signature(out: &mut Vec<u8>, s: &Option<ValidatorSignature>)
    ensures
        final(out)@ == old(out)@ + signature_bytes(*s),
{
    match s {
        None => out.push(0u8),
        Some(sig) => {
            out.push(1u8);
            append_hash(out, &sig.public_nonce);
            append_hash(out, &sig.signature);
        },
    }
    assert(final(out)@ =~= old(out)@ + signature_bytes(*s));
}

/// The hashed fields of a header, in declared order, after the domain separator.
pub open spec fn header_bytes(h: BlockHeader) -> Seq<u8> {
    block_domain() + seq![h.network] + h.parent.0@ + h.justify_id@ + spec_u64_to_le_bytes(h.height)
        + spec_u64_to_le_bytes(h.epoch) + shard_group_bytes(h.shard_group) + h.proposed_by@
        + h.state_merkle_root@ + h.command_merkle_root@ + spec_u64_to_le_bytes(h.total_leader_fee)
        + bool_byte(h.is_dummy) + foreign_indexes_bytes(index_entries(h.foreign_indexes)) + spec_u64_to_le_bytes(
        h.timestamp,
    ) + spec_u64_to_le_bytes(h.base_layer_block_height) + h.base_layer_block_hash@ + var_bytes(
        h.extra_data@,
    ) + signature_bytes(h.signature)
}

/// The id that a header's fields hash to.
pub open spec fn header_hash(h: BlockHeader) -> Seq<u8> {
    blake2b_256_of(header_bytes(h))
}

pub fn encode_header(h: &BlockHeader) -> (r: Vec<u8>)
    ensures
        r@ == header_bytes(*h),
{
    let mut out = block_domain_bytes();
    out.push(h.network);
    append_hash(&mut out, &h.parent.0);
    append_hash(&mut out, &h.justify_id);
    append_u64(&mut out, h.height);
    append_u64(&mut out, h.epoch);
    append_shard_group(&mut out, h.shard_group);
    append_hash(&mut out, &h.proposed_by);
    append_hash(&mut out, &h.state_merkle_root);
    append_hash(&mut out, &h.command_merkle_root);
    append_u64(&mut out, h.total_leader_fee);
    append_bool(&mut out, h.is_dummy);
    append_foreign_indexes(&mut out, &h.foreign_indexes);
    append_u64(&mut out, h.timestamp);
    append_u64(&mut out, h.base_layer_block_height);
    append_hash(&mut out, &h.base_layer_block_hash);
    append_var_bytes(&mut out, &h.extra_data);
    append_signature(&mut out, &h.signature);
    assert(out@ =~= header_bytes(*h));
    out
}

/// Hashes the header fields (the stored id is not among them).
pub fn calculate_header_hash(h: &BlockHeader) -> (r: FixedHash)
    ensures
        r@ == header_hash(*h),
{
    let enc = encode_header(h);
    blake2b_256(&enc)
}

/// The fields of a QC that its id commits to.
pub open spec fn qc_bytes(qc: QuorumCertificate) -> Seq<u8> {
    qc_domain() + qc.block_id.0@ + spec_u64_to_le_bytes(qc.block_height) + spec_u64_to_le_bytes(
        qc.epoch,
    ) + shard_group_bytes(qc.shard_group) + decision_bytes(qc.decision) + hash_list_bytes(
        qc.signers@,
    )
}

/// The fields of the genesis QC of `epoch` and `sg`: over the zero block, at height zero, with
/// a COMMIT decision and no signers.
pub open spec fn genesis_qc_bytes(epoch: u64, sg: ShardGroup) -> Seq<u8> {
    qc_domain() + crate::bytes::zero_hash() + spec_u64_to_le_bytes(0) + spec_u64_to_le_bytes(epoch)
        + shard_group_bytes(sg) + decision_bytes(Decision::Commit) + hash_list_bytes(Seq::empty())
}

pub fn calculate_qc_id(qc: &QuorumCertificate) -> (r: FixedHash)
    ensures
        r@ == blake2b_256_of(qc_bytes(*qc)),
{
    let mut out = qc_domain_bytes();
    append_hash(&mut out, &qc.block_id.0);
    append_u64(&mut out, qc.block_height);
    append_u64(&mut out, qc.epoch);
    append_shard_group(&mut out, qc.shard_group);
    append_decision(&mut out, qc.decision);
    append_hash_list(&mut out, &qc.signers);
    assert(out@ =~= qc_bytes(*qc));
    blake2b_256(&out)
}

} // verus!
