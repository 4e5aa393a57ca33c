//! Decoding of the canonical header encoding.
use crate::block::{BlockHeader, BlockId, ShardGroup, Shard, ValidatorSignature};
use crate::bytes::{blake2b_256, blake2b_256_of, bool_byte, var_bytes, FixedHash};
use crate::encoding::{
    block_domain, concat_foreign_indexes, encode_header, foreign_index_bytes, foreign_indexes_bytes,
    header_bytes, shard_group_bytes, signature_bytes,
};
use vstd::bytes::{
    lemma_auto_spec_u32_to_from_le_bytes, lemma_auto_spec_u64_to_from_le_bytes, spec_u32_to_le_bytes,
    spec_u64_to_le_bytes, spec_u32_from_le_bytes, spec_u64_from_le_bytes,
};
use crate::fmap::{has_key, index_entries, index_map_insert, index_map_new};
use indexmap::IndexMap;
use vstd::prelude::*;

verus! {

/// The hashed fields before the foreign indexes: 206 bytes.
pub open spec fn header_prefix(h: BlockHeader) -> Seq<u8> {
    block_domain() + seq![h.network] + h.parent.0@ + h.justify_id@ + spec_u64_to_le_bytes(h.height)
        + spec_u64_to_le_bytes(h.epoch) + shard_group_bytes(h.shard_group) + h.proposed_by@
        + h.state_merkle_root@ + h.command_merkle_root@ + spec_u64_to_le_bytes(h.total_leader_fee)
        + bool_byte(h.is_dummy)
}

/// The hashed fields after the foreign indexes.
pub open spec fn header_suffix(h: BlockHeader) -> Seq<u8> {
    spec_u64_to_le_bytes(h.timestamp) + spec_u64_to_le_bytes(h.base_layer_block_height)
        + h.base_layer_block_hash@ + var_bytes(h.extra_data@) + signature_bytes(h.signature)
}

proof fn lemma_header_split(h: BlockHeader)
    ensures
        header_bytes(h) == header_prefix(h) + foreign_indexes_bytes(index_entries(h.foreign_indexes)) + header_suffix(h),
{
    lemma_auto_spec_u64_to_from_le_bytes();
    assert(header_bytes(h) =~= header_prefix(h) + foreign_indexes_bytes(index_entries(h.foreign_indexes)) + header_suffix(h));
}

proof fn lemma_prefix_layout(h: BlockHeader)
    ensures
        header_prefix(h).len() == 206,
        header_prefix(h).subrange(0, 12) == block_domain(),
        header_prefix(h)[12] == h.network,
        header_prefix(h).subrange(13, 45) == h.parent.0@,
        header_prefix(h).subrange(45, 77) == h.justify_id@,
        header_prefix(h).subrange(77, 85) == spec_u64_to_le_bytes(h.height),
        header_prefix(h).subrange(85, 93) == spec_u64_to_le_bytes(h.epoch),
        header_prefix(h).subrange(93, 97) == spec_u32_to_le_bytes(h.shard_group.start),
        header_prefix(h).subrange(97, 101) == spec_u32_to_le_bytes(h.shard_group.end_inclusive),
        header_prefix(h).subrange(101, 133) == h.proposed_by@,
        header_prefix(h).subrange(133, 165) == h.state_merkle_root@,
        header_prefix(h).subrange(165, 197) == h.command_merkle_root@,
        header_prefix(h).subrange(197, 205) == spec_u64_to_le_bytes(h.total_leader_fee),
        header_prefix(h)[205] == (if h.is_dummy { 1u8 } else { 0u8 }),
{
    lemma_auto_spec_u64_to_from_le_bytes();
    lemma_auto_spec_u32_to_from_le_bytes();
    let p = header_prefix(h);
    assert(spec_u64_to_le_bytes(h.height).len() == 8);
    assert(spec_u64_to_le_bytes(h.epoch).len() == 8);
    assert(spec_u64_to_le_bytes(h.total_leader_fee).len() == 8);
    assert(spec_u32_to_le_bytes(h.shard_group.start).len() == 4);
    assert(spec_u32_to_le_bytes(h.shard_group.end_inclusive).len() == 4);
    assert(p.subrange(0, 12) =~= block_domain());
    assert(p.subrange(13, 45) =~= h.parent.0@);
    assert(p.subrange(45, 77) =~= h.justify_id@);
    assert(p.subrange(77, 85) =~= spec_u64_to_le_bytes(h.height));
    assert(p.subrange(85, 93) =~= spec_u64_to_le_bytes(h.epoch));
    assert(p.subrange(93, 97) =~= spec_u32_to_le_bytes(h.shard_group.start));
    assert(p.subrange(97, 101) =~= spec_u32_to_le_bytes(h.shard_group.end_inclusive));
    assert(p.subrange(101, 133) =~= h.proposed_by@);
    assert(p.subrange(133, 165) =~= h.state_merkle_root@);
    assert(p.subrange(165, 197) =~= h.command_merkle_root@);
    assert(p.subrange(197, 205) =~= spec_u64_to_le_bytes(h.total_leader_fee));
}

proof fn lemma_foreign_layout(s: Seq<(Shard, u64)>)
    ensures
        concat_foreign_indexes(s).len() == 12 * s.len(),
        forall|k: int| 0 <= k < s.len() ==> concat_foreign_indexes(s).subrange(12 * k, 12 * k + 4)
            == spec_u32_to_le_bytes(#[trigger] s[k].0) && concat_foreign_indexes(s).subrange(12 * k + 4, 12 * k + 12)
            == spec_u64_to_le_bytes(s[k].1),
    decreases s.len(),
{
    lemma_auto_spec_u64_to_from_le_bytes();
    lemma_auto_spec_u32_to_from_le_bytes();
    if s.len() > 0 {
        let t = s.drop_last();
        lemma_foreign_layout(t);
        let c = concat_foreign_indexes(s);
        let ct = concat_foreign_indexes(t);
        assert(foreign_index_bytes(s.last()).len() == 12);
        assert forall|k: int| 0 <= k < s.len() implies c.subrange(12 * k, 12 * k + 4) == spec_u32_to_le_bytes(#[trigger] s[k].0)
            && c.subrange(12 * k + 4, 12 * k + 12) == spec_u64_to_le_bytes(s[k].1) by {
            if k < t.len() {
                assert(t[k] == s[k]);
                assert(c.subrange(12 * k, 12 * k + 4) =~= ct.subrange(12 * k, 12 * k + 4));
                assert(c.subrange(12 * k + 4, 12 * k + 12) =~= ct.subrange(12 * k + 4, 12 * k + 12));
            } else {
                assert(c.subrange(12 * k, 12 * k + 4) =~= spec_u32_to_le_bytes(s[k].0));
                assert(c.subrange(12 * k + 4, 12 * k + 12) =~= spec_u64_to_le_bytes(s[k].1));
            }
        }
    }
}

proof fn lemma_suffix_layout(h: BlockHeader)
    ensures
        header_suffix(h).subrange(0, 8) == spec_u64_to_le_bytes(h.timestamp),
        header_suffix(h).subrange(8, 16) == spec_u64_to_le_bytes(h.base_layer_block_height),
        header_suffix(h).subrange(16, 48) == h.base_layer_block_hash@,
        header_suffix(h).subrange(48, 56) == spec_u64_to_le_bytes(h.extra_data@.len() as u64),
        header_suffix(h).subrange(56, 56 + h.extra_data@.len() as int) == h.extra_data@,
        header_suffix(h).len() == 56 + h.extra_data@.len() as int + signature_bytes(h.signature).len(),
        header_suffix(h).subrange(56 + h.extra_data@.len() as int, header_suffix(h).len() as int) == signature_bytes(h.signature),
{
    lemma_auto_spec_u64_to_from_le_bytes();
    let x = header_suffix(h);
    let m = h.extra_data@.len() as int;
    assert(spec_u64_to_le_bytes(h.timestamp).len() == 8);
    assert(spec_u64_to_le_bytes(h.base_layer_block_height).len() == 8);
    assert(spec_u64_to_le_bytes(h.extra_data@.len() as u64).len() == 8);
    assert(x.subrange(0, 8) =~= spec_u64_to_le_bytes(h.timestamp));
    assert(x.subrange(8, 16) =~= spec_u64_to_le_bytes(h.base_layer_block_height));
    assert(x.subrange(16, 48) =~= h.base_layer_block_hash@);
    assert(x.subrange(48, 56) =~= spec_u64_to_le_bytes(h.extra_data@.len() as u64));
    assert(x.subrange(56, 56 + m) =~= h.extra_data@);
    assert(x.subrange(56 + m, x.len() as int) =~= signature_bytes(h.signature));
}

proof fn lemma_sub_concat(x: Seq<u8>, y: Seq<u8>, a: int, b: int)
    requires
        0 <= a <= b <= x.len() + y.len(),
    ensures
        b <= x.len() ==> (x + y).subrange(a, b) == x.subrange(a, b),
        a >= x.len() ==> (x + y).subrange(a, b) == y.subrange(a - x.len(), b - x.len()),
{
    if b <= x.len() {
        assert((x + y).subrange(a, b) =~= x.subrange(a, b));
    }
    if a >= x.len() {
        assert((x + y).subrange(a, b) =~= y.subrange(a - x.len(), b - x.len()));
    }
}

/// The signature with its arrays seen as byte strings.
pub open spec fn signature_view(s: Option<ValidatorSignature>) -> Option<(Seq<u8>, Seq<u8>)> {
    match s {
        Some(sig) => Some((sig.public_nonce@, sig.signature@)),
        None => None,
    }
}

/// Two headers agree on every hashed field (the id is not one of them).
pub open spec fn same_fields(a: BlockHeader, b: BlockHeader) -> bool {
    &&& a.network == b.network
    &&& a.parent.0@ == b.parent.0@
    &&& a.justify_id@ == b.justify_id@
    &&& a.height == b.height
    &&& a.epoch == b.epoch
    &&& a.shard_group == b.shard_group
    &&& a.proposed_by@ == b.proposed_by@
    &&& a.state_merkle_root@ == b.state_merkle_root@
    &&& a.command_merkle_root@ == b.command_merkle_root@
    &&& a.total_leader_fee == b.total_leader_fee
    &&& a.is_dummy == b.is_dummy
    &&& index_entries(a.foreign_indexes) == index_entries(b.foreign_indexes)
    &&& a.timestamp == b.timestamp
    &&& a.base_layer_block_height == b.base_layer_block_height
    &&& a.base_layer_block_hash@ == b.base_layer_block_hash@
    &&& a.extra_data@ == b.extra_data@
    &&& signature_view(a.signature) == signature_view(b.signature)
}

pub open spec fn u64_at(b: Seq<u8>, p: int) -> u64 {
    spec_u64_from_le_bytes(b.subrange(p, p + 8))
}

pub open spec fn u32_at(b: Seq<u8>, p: int) -> u32 {
    spec_u32_from_le_bytes(b.subrange(p, p + 4))
}

/// Where the foreign indexes of `h` end in its encoding.
pub open spec fn indexes_end(h: BlockHeader) -> int {
    214 + 12 * (index_entries(h.foreign_indexes).len() as int)
}

/// Where the extra data of `h` ends in its encoding (the signature follows).
pub open spec fn fields_end(h: BlockHeader) -> int {
    indexes_end(h) + 56 + (h.extra_data@.len() as int)
}

/// Where each field of `h` stands in its encoding.
proof fn lemma_decode_fields(h: BlockHeader, b: Seq<u8>)
    requires
        header_bytes(h) == b,
        b.len() <= usize::MAX,
    ensures
        b.len() == fields_end(h) + signature_bytes(h.signature).len(),
        b.subrange(0, 12) == block_domain(),
        b[12] == h.network,
        b.subrange(13, 45) == h.parent.0@,
        b.subrange(45, 77) == h.justify_id@,
        u64_at(b, 77) == h.height,
        u64_at(b, 85) == h.epoch,
        u32_at(b, 93) == h.shard_group.start,
        u32_at(b, 97) == h.shard_group.end_inclusive,
        b.subrange(101, 133) == h.proposed_by@,
        b.subrange(133, 165) == h.state_merkle_root@,
        b.subrange(165, 197) == h.command_merkle_root@,
        u64_at(b, 197) == h.total_leader_fee,
        b[205] == (if h.is_dummy { 1u8 } else { 0u8 }),
        u64_at(b, 206) as int == index_entries(h.foreign_indexes).len(),
        forall|k: int| 0 <= k < index_entries(h.foreign_indexes).len() ==> u32_at(b, 214 + 12 * k) == (#[trigger] index_entries(h.foreign_indexes)[k]).0
            && u64_at(b, 218 + 12 * k) == index_entries(h.foreign_indexes)[k].1,
        u64_at(b, indexes_end(h)) == h.timestamp,
        u64_at(b, indexes_end(h) + 8) == h.base_layer_block_height,
        b.subrange(indexes_end(h) + 16, indexes_end(h) + 48) == h.base_layer_block_hash@,
        u64_at(b, indexes_end(h) + 48) as int == h.extra_data@.len(),
        b.subrange(indexes_end(h) + 56, fields_end(h)) == h.extra_data@,
        b.subrange(fields_end(h), b.len() as int) == signature_bytes(h.signature),
{
    lemma_auto_spec_u64_to_from_le_bytes();
    lemma_auto_spec_u32_to_from_le_bytes();
    lemma_header_split(h);
    lemma_prefix_layout(h);
    lemma_suffix_layout(h);
    let fi = index_entries(h.foreign_indexes);
    lemma_foreign_layout(fi);
    let p = header_prefix(h);
    let fb = foreign_indexes_bytes(fi);
    let x = header_suffix(h);
    let n = fi.len() as int;
    let e = 214 + 12 * n;
    let m = h.extra_data@.len() as int;
    assert(fb.len() == 8 + 12 * n);
    assert(b.len() == 206 + fb.len() + x.len());
    assert(n <= usize::MAX);
    assert(m <= usize::MAX);
    assert(b == (p + fb) + x);
    let pf = p + fb;
    // prefix fields
    assert forall|a: int, c: int| 0 <= a <= c <= 206 implies b.subrange(a, c) == p.subrange(a, c) by {
        lemma_sub_concat(pf, x, a, c);
        lemma_sub_concat(p, fb, a, c);
    }
    assert(b.subrange(12, 13) == p.subrange(12, 13));
    assert(b[12] == b.subrange(12, 13)[0]);
    assert(p[12] == p.subrange(12, 13)[0]);
    assert(b.subrange(205, 206) == p.subrange(205, 206));
    assert(b[205] == b.subrange(205, 206)[0]);
    assert(p[205] == p.subrange(205, 206)[0]);
    assert(b.subrange(77, 85) == p.subrange(77, 85));
    assert(b.subrange(85, 93) == p.subrange(85, 93));
    assert(b.subrange(93, 97) == p.subrange(93, 97));
    assert(b.subrange(97, 101) == p.subrange(97, 101));
    assert(b.subrange(197, 205) == p.subrange(197, 205));
    assert(b.subrange(0, 12) == p.subrange(0, 12));
    assert(b.subrange(13, 45) == p.subrange(13, 45));
    assert(b.subrange(45, 77) == p.subrange(45, 77));
    assert(b.subrange(101, 133) == p.subrange(101, 133));
    assert(b.subrange(133, 165) == p.subrange(133, 165));
    assert(b.subrange(165, 197) == p.subrange(165, 197));
    // foreign indexes
    let c = concat_foreign_indexes(fi);
    assert forall|a: int, d: int| 206 <= a <= d <= e implies b.subrange(a, d) == fb.subrange(a - 206, d - 206) by {
        lemma_sub_concat(pf, x, a, d);
        lemma_sub_concat(p, fb, a, d);
    }
    assert(fb.subrange(0, 8) =~= spec_u64_to_le_bytes(n as u64));
    assert(b.subrange(206, 214) == fb.subrange(0, 8));
    assert forall|k: int| 0 <= k < n implies u32_at(b, 214 + 12 * k) == (#[trigger] fi[k]).0 && u64_at(b, 218 + 12 * k) == fi[k].1 by {
        assert(12 * k + 12 <= 12 * n) by (nonlinear_arith)
            requires
                0 <= k < n,
        ;
        assert(b.subrange(214 + 12 * k, 218 + 12 * k) == fb.subrange(8 + 12 * k, 12 + 12 * k));
        lemma_sub_concat(spec_u64_to_le_bytes(n as u64), c, 8 + 12 * k, 12 + 12 * k);
        assert(b.subrange(218 + 12 * k, 226 + 12 * k) == fb.subrange(12 + 12 * k, 20 + 12 * k));
        lemma_sub_concat(spec_u64_to_le_bytes(n as u64), c, 12 + 12 * k, 20 + 12 * k);
        assert(c.subrange(12 * k, 12 * k + 4) == spec_u32_to_le_bytes(fi[k].0));
        assert(c.subrange(12 * k + 4, 12 * k + 12) == spec_u64_to_le_bytes(fi[k].1));
    }
    // suffix fields
    assert forall|a: int, d: int| e <= a <= d <= b.len() implies b.subrange(a, d) == x.subrange(a - e, d - e) by {
        lemma_sub_concat(pf, x, a, d);
    }
    assert(b.subrange(e, e + 8) == x.subrange(0, 8));
    assert(b.subrange(e + 8, e + 16) == x.subrange(8, 16));
    assert(b.subrange(e + 16, e + 48) == x.subrange(16, 48));
    assert(b.subrange(e + 48, e + 56) == x.subrange(48, 56));
    assert(b.subrange(e + 56, e + 56 + m) == x.subrange(56, 56 + m));
    assert(b.subrange(e + 56 + m, b.len() as int) == x.subrange(56 + m, x.len() as int));
}

fn read_u64_at(b: &[u8], p: usize) -> (r: u64)
    requires
        p + 8 <= b@.len(),
    ensures
        r == u64_at(b@, p as int),
{
    let l = b.len();
    let s = vstd::slice::slice_subrange(b, p, p + 8);
    vstd::bytes::u64_from_le_bytes(s)
}

fn read_u32_at(b: &[u8], p: usize) -> (r: u32)
    requires
        p + 4 <= b@.len(),
    ensures
        r == u32_at(b@, p as int),
{
    let l = b.len();
    let s = vstd::slice::slice_subrange(b, p, p + 4);
    vstd::bytes::u32_from_le_bytes(s)
}

fn read_hash_at(b: &[u8], p: usize) -> (r: FixedHash)
    requires
        p + 32 <= b@.len(),
    ensures
        r@ == b@.subrange(p as int, p + 32),
{
    let l = b.len();
    let s = vstd::slice::slice_subrange(b, p, p + 32);
    crate::types::copy_hash(s)
}

fn bytes_equal(a: &Vec<u8>, b: &Vec<u8>) -> (r: bool)
    ensures
        r == (a@ == b@),
{
    if a.len() != b.len() {
        return false;
    }
    let mut i: usize = 0;
    while i < a.len()
        invariant
            a@.len() == b@.len(),
            i <= a@.len(),
            forall|j: int| 0 <= j < i ==> a@[j] == b@[j],
        decreases a@.len() - i,
    {
        if a[i] != b[i] {
            return false;
        }
        i = i + 1;
    }
    assert(a@ =~= b@);
    true
}

proof fn lemma_same_fields_same_bytes(a: BlockHeader, b: BlockHeader)
    requires
        same_fields(a, b),
    ensures
        header_bytes(a) == header_bytes(b),
{
    assert(signature_bytes(a.signature) == signature_bytes(b.signature));
    assert(shard_group_bytes(a.shard_group) == shard_group_bytes(b.shard_group));
    assert(header_bytes(a) =~= header_bytes(b));
}

/// Decodes a header from its canonical encoding; the id is the hash of the bytes. Decoding an
/// encoded header gives back its fields, and its id when that id was valid.
#[verifier::rlimit(100)]
#[verifier::spinoff_prover]
pub fn decode_header(bytes: &Vec<u8>) -> (r: Option<BlockHeader>)
    ensures
        r matches Some(h2) ==> header_bytes(h2) == bytes@ && h2.id.0@ == blake2b_256_of(bytes@),
        forall|h: BlockHeader| header_bytes(h) == bytes@ && crate::block::foreign_indexes_sorted(index_entries(h.foreign_indexes))
            ==> (r matches Some(h2) && same_fields(h2, h) && (crate::block::header_id_valid(h) ==> h2.id == h.id)),
{
    let b = bytes.as_slice();
    let len = b.len();
    assert(bytes@.len() <= usize::MAX);
    if len < 214 {
        proof {
            assert forall|h: BlockHeader| header_bytes(h) == bytes@ implies false by {
                lemma_decode_fields(h, bytes@);
            }
        }
        return None;
    }
    let domain = vstd::slice::slice_subrange(b, 0, 12);
    let expected: Vec<u8> = vec![100u8, 97u8, 110u8, 46u8, 98u8, 108u8, 111u8, 99u8, 107u8, 46u8, 118u8, 49u8];
    let dv = vstd::slice::slice_to_vec(domain);
    if !bytes_equal(&dv, &expected) {
        proof {
            assert(expected@ =~= block_domain());
            assert forall|h: BlockHeader| header_bytes(h) == bytes@ implies false by {
                lemma_decode_fields(h, bytes@);
            }
        }
        return None;
    }
    let network = b[12];
    let parent = read_hash_at(b, 13);
    let justify_id = read_hash_at(b, 45);
    let height = read_u64_at(b, 77);
    let epoch = read_u64_at(b, 85);
    let start = read_u32_at(b, 93);
    let end_inclusive = read_u32_at(b, 97);
    let proposed_by = read_hash_at(b, 101);
    let state_merkle_root = read_hash_at(b, 133);
    let command_merkle_root = read_hash_at(b, 165);
    let total_leader_fee = read_u64_at(b, 197);
    let dummy_byte = b[205];
    if dummy_byte > 1 {
        proof {
            assert forall|h: BlockHeader| header_bytes(h) == bytes@ implies false by {
                lemma_decode_fields(h, bytes@);
            }
        }
        return None;
    }
    let n = read_u64_at(b, 206);
    let avail = (len - 214) / 12;
    if n > avail as u64 {
        proof {
            assert forall|h: BlockHeader| header_bytes(h) == bytes@ implies false by {
                lemma_decode_fields(h, bytes@);
            }
        }
        return None;
    }
    let n = n as usize;
    let e = 214 + 12 * n;
    let mut foreign_indexes = index_map_new();
    let ghost mut pairs: Seq<(Shard, u64)> = Seq::empty();
    let mut k: usize = 0;
    while k < n
        invariant
            b@ == bytes@,
            len == b@.len(),
            e == 214 + 12 * n,
            e <= len,
            k <= n,
            pairs.len() == k,
            forall|j: int| 0 <= j < k ==> (#[trigger] pairs[j]).0 == u32_at(b@, 214 + 12 * j)
                && pairs[j].1 == u64_at(b@, 218 + 12 * j),
            crate::block::foreign_indexes_sorted(pairs) ==> index_entries(foreign_indexes) == pairs,
        decreases n - k,
    {
        let shard = read_u32_at(b, 214 + 12 * k);
        let count = read_u64_at(b, 218 + 12 * k);
        proof {
            let next = pairs.push((shard, count));
            if crate::block::foreign_indexes_sorted(next) {
                assert forall|a: int, c: int| 0 <= a < c < pairs.len() implies pairs[a].0 < pairs[c].0 by {
                    assert(next[a] == pairs[a]);
                    assert(next[c] == pairs[c]);
                }
                assert(crate::block::foreign_indexes_sorted(pairs));
                assert(!has_key(index_entries(foreign_indexes), shard)) by {
                    if has_key(index_entries(foreign_indexes), shard) {
                        let q = choose|q: int| 0 <= q < pairs.len() && pairs[q].0 == shard;
                        assert(next[q].0 < next[pairs.len() as int].0);
                    }
                }
            }
        }
        index_map_insert(&mut foreign_indexes, shard, count);
        proof {
            let next = pairs.push((shard, count));
            pairs = next;
        }
        k = k + 1;
    }
    if len - e < 56 {
        proof {
            assert forall|h: BlockHeader| header_bytes(h) == bytes@ implies false by {
                lemma_decode_fields(h, bytes@);
            }
        }
        return None;
    }
    let timestamp = read_u64_at(b, e);
    let base_layer_block_height = read_u64_at(b, e + 8);
    let base_layer_block_hash = read_hash_at(b, e + 16);
    let m = read_u64_at(b, e + 48);
    if m > (len - e - 56) as u64 {
        proof {
            assert forall|h: BlockHeader| header_bytes(h) == bytes@ implies false by {
                lemma_decode_fields(h, bytes@);
            }
        }
        return None;
    }
    let f = e + 56 + m as usize;
    let extra_data = vstd::slice::slice_to_vec(vstd::slice::slice_subrange(b, e + 56, f));
    if f >= len {
        proof {
            assert forall|h: BlockHeader| header_bytes(h) == bytes@ implies false by {
                lemma_decode_fields(h, bytes@);
            }
        }
        return None;
    }
    let tag = b[f];
    let signature = if tag == 0 && len - f == 1 {
        None
    } else if tag == 1 && len - f == 65 {
        Some(ValidatorSignature { public_nonce: read_hash_at(b, f + 1), signature: read_hash_at(b, f + 33) })
    } else {
        proof {
            assert forall|h: BlockHeader| header_bytes(h) == bytes@ implies false by {
                lemma_decode_fields(h, bytes@);
                let sb = signature_bytes(h.signature);
                assert(bytes@.subrange(f as int, len as int) == sb);
                assert(bytes@[f as int] == sb[0]);
            }
        }
        return None;
    };
    let h2 = BlockHeader {
        id: BlockId(blake2b_256(bytes)),
        network,
        parent: BlockId(parent),
        justify_id,
        height,
        epoch,
        shard_group: ShardGroup { start, end_inclusive },
        proposed_by,
        state_merkle_root,
        command_merkle_root,
        total_leader_fee,
        is_dummy: dummy_byte == 1,
        foreign_indexes,
        signature,
        timestamp,
        base_layer_block_height,
        base_layer_block_hash,
        extra_data,
    };
    proof {
        assert forall|h: BlockHeader| header_bytes(h) == bytes@ && crate::block::foreign_indexes_sorted(index_entries(h.foreign_indexes))
            implies same_fields(h2, h) by {
            lemma_decode_fields(h, bytes@);
            assert(pairs =~= index_entries(h.foreign_indexes));
            let sb = signature_bytes(h.signature);
            assert(bytes@.subrange(f as int, len as int) == sb);
            assert(bytes@[f as int] == sb[0]);
            match h.signature {
                Some(sig) => {
                    assert(sb.subrange(1, 33) =~= sig.public_nonce@);
                    assert(sb.subrange(33, 65) =~= sig.signature@);
                    assert(bytes@.subrange(f + 1, f + 33) =~= sb.subrange(1, 33));
                    assert(bytes@.subrange(f + 33, f + 65) =~= sb.subrange(33, 65));
                },
                None => {},
            }
        }
    }
    let enc = encode_header(&h2);
    if !bytes_equal(&enc, bytes) {
        proof {
            assert forall|h: BlockHeader| header_bytes(h) == bytes@ && crate::block::foreign_indexes_sorted(index_entries(h.foreign_indexes))
                implies false by {
                lemma_same_fields_same_bytes(h2, h);
            }
        }
        return None;
    }
    proof {
        assert forall|h: BlockHeader| header_bytes(h) == bytes@ && crate::block::header_id_valid(h) implies h2.id == h.id by {
            assert(h2.id.0@ == h.id.0@);
            assert(h2.id.0 =~= h.id.0);
        }
    }
    Some(h2)
}

} // verus!
