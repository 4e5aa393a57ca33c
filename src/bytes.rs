//! Byte-level helpers: hashing and canonical little-endian encoding.
use blake2::Digest;
use vstd::bytes::{spec_u32_to_le_bytes, spec_u64_to_le_bytes, u32_to_le_bytes, u64_to_le_bytes};
use vstd::prelude::*;

verus! {

/// A 32-byte hash value.
pub type FixedHash = [u8; 32];

/// The 32-byte BLAKE2b digest of a byte string.
pub uninterp spec fn blake2b_256_of(data: Seq<u8>) -> Seq<u8>;

/// Relies on blake2's `Blake2b<U32>::digest`: a 32-byte digest that depends on the input bytes alone.
#[verifier::external_body]
pub(crate) fn blake2b_256(data: &Vec<u8>) -> (r: FixedHash)
    ensures
        r@ == blake2b_256_of(data@),
{
    let digest = blake2::Blake2b::<blake2::digest::consts::U32>::digest(data.as_slice());
    let mut r = [0u8; 32];
    r.copy_from_slice(digest.as_slice());
    r
}

/// The all-zero hash.
pub open spec fn zero_hash() -> Seq<u8> {
    Seq::new(32, |i: int| 0u8)
}

pub fn zero_bytes() -> (r: FixedHash)
    ensures
        r@ == zero_hash(),
{
    let r = [0u8; 32];
    assert(r@ =~= zero_hash());
    r
}

/// Whether every byte of `h` is zero.
pub fn is_zero_hash(h: &FixedHash) -> (r: bool)
    ensures
        r == (h@ == zero_hash()),
{
    let mut i: usize = 0;
    while i < 32
        invariant
            i <= 32,
            forall|j: int| 0 <= j < i ==> h@[j] == 0,
        decreases 32 - i,
    {
        if h[i] != 0 {
            assert(h@[i as int] != zero_hash()[i as int]);
            return false;
        }
        i = i + 1;
    }
    assert(h@ =~= zero_hash());
    true
}

/// Byte-wise equality of two hashes.
pub fn hash_eq(a: &FixedHash, b: &FixedHash) -> (r: bool)
    ensures
        r == (a == b),
{
    let mut i: usize = 0;
    while i < 32
        invariant
            i <= 32,
            forall|j: int| 0 <= j < i ==> a@[j] == b@[j],
        decreases 32 - i,
    {
        if a[i] != b[i] {
            assert(a@[i as int] != b@[i as int]);
            return false;
        }
        i = i + 1;
    }
    assert(a@ =~= b@);
    assert(a =~= b);
    true
}

pub fn append_slice(out: &mut Vec<u8>, s: &[u8])
    ensures
        final(out)@ == old(out)@ + s@,
{
    let ghost start = out@;
    let mut i: usize = 0;
    while i < s.len()
        invariant
            i <= s@.len(),
            out@ == start + s@.subrange(0, i as int),
        decreases s@.len() - i,
    {
        out.push(s[i]);
        assert(s@.subrange(0, i + 1) =~= s@.subrange(0, i as int).push(s@[i as int]));
        i = i + 1;
    }
    assert(s@.subrange(0, s@.len() as int) =~= s@);
}

pub fn append_hash(out: &mut Vec<u8>, h: &FixedHash)
    ensures
        final(out)@ == old(out)@ + h@,
{
    append_slice(out, h.as_slice());
}

pub fn append_u64(out: &mut Vec<u8>, x: u64)
    ensures
        final(out)@ == old(out)@ + spec_u64_to_le_bytes(x),
{
    let mut b = u64_to_le_bytes(x);
    out.append(&mut b);
}

pub fn append_u32(out: &mut Vec<u8>, x: u32)
    ensures
        final(out)@ == old(out)@ + spec_u32_to_le_bytes(x),
{
    let mut b = u32_to_le_bytes(x);
    out.append(&mut b);
}

pub open spec fn bool_byte(b: bool) -> Seq<u8> {
    if b {
        seq![1u8]
    } else {
        seq![0u8]
    }
}

pub fn append_bool(out: &mut Vec<u8>, b: bool)
    ensures
        final(out)@ == old(out)@ + bool_byte(b),
{
    if b {
        out.push(1u8);
    } else {
        out.push(0u8);
    }
    assert(final(out)@ =~= old(out)@ + bool_byte(b));
}

/// Length-prefixed bytes.
pub open spec fn var_bytes(s: Seq<u8>) -> Seq<u8> {
    spec_u64_to_le_bytes(s.len() as u64) + s
}

pub fn append_var_bytes(out: &mut Vec<u8>, s: &Vec<u8>)
    ensures
        final(out)@ == old(out)@ + var_bytes(s@),
{
    append_u64(out, s.len() as u64);
    append_slice(out, s.as_slice());
    assert(final(out)@ =~= old(out)@ + var_bytes(s@));
}

} // verus!
