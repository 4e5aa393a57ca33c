//! Identifiers shared by the substate store and the consensus layer.
use vstd::prelude::*;

verus! {

/// Identifier of an object in the substate space.
#[derive(Copy, Clone, Debug, PartialEq, Eq, Hash)]
pub struct ObjectId(pub [u8; 32]);

/// A 32-byte position in the sharded key space.
#[derive(Copy, Clone, Debug, PartialEq, Eq, PartialOrd, Ord, Hash)]
pub struct ShardId(pub [u8; 32]);

/// Returned when a byte slice does not have the length of a 32-byte hash.
#[derive(Copy, Clone, Debug, PartialEq, Eq)]
pub struct FixedHashSizeError {
    pub actual: usize,
}

/// Copies a 32-byte slice into an array.
pub fn copy_hash(bytes: &[u8]) -> (r: [u8; 32])
    requires
        bytes@.len() == 32,
    ensures
        r@ == bytes@,
{
    let mut v: [u8; 32] = [0u8; 32];
    let mut i: usize = 0;
    while i < 32
        invariant
            bytes@.len() == 32,
            v@.len() == 32,
            i <= 32,
            forall|j: int| 0 <= j < i ==> v@[j] == bytes@[j],
        decreases 32 - i,
    {
        v.set(i, bytes[i]);
        i = i + 1;
    }
    assert(v@ =~= bytes@);
    v
}

impl ShardId {
    /// The shard id as little-endian bytes (the stored representation).
    pub fn to_le_bytes(&self) -> (r: &[u8])
        ensures
            r@ == self.0@,
    {
        self.0.as_slice()
    }

    pub fn new(id: [u8; 32]) -> (r: ShardId)
        ensures
            r.0 == id,
    {
        ShardId(id)
    }

    pub fn as_bytes(&self) -> (r: &[u8])
        ensures
            r@ == self.0@,
    {
        self.0.as_slice()
    }

    /// Reads a shard id from exactly 32 bytes.
    pub fn from_bytes(bytes: &[u8]) -> (r: Result<ShardId, FixedHashSizeError>)
        ensures
            bytes@.len() == 32 <==> r is Ok,
            r matches Ok(s) ==> s.0@ == bytes@,
            r matches Err(e) ==> e.actual == bytes@.len(),
    {
        if bytes.len() == 32 {
            Ok(ShardId(copy_hash(bytes)))
        } else {
            Err(FixedHashSizeError { actual: bytes.len() })
        }
    }

    pub fn zero() -> (r: ShardId)
        ensures
            r.0@ == Seq::new(32, |i: int| 0u8),
    {
        let r = ShardId([0u8; 32]);
        assert(r.0@ =~= Seq::new(32, |i: int| 0u8));
        r
    }
}

impl From<[u8; 32]> for ShardId {
    fn from(bytes: [u8; 32]) -> (r: ShardId) {
        ShardId(bytes)
    }
}

impl vstd::std_specs::convert::FromSpecImpl<[u8; 32]> for ShardId {
    open spec fn obeys_from_spec() -> bool {
        true
    }

    open spec fn from_spec(bytes: [u8; 32]) -> ShardId {
        ShardId(bytes)
    }
}

/// Whether a substate is created or destroyed by a change.
#[derive(Copy, Clone, Debug, PartialEq, Eq, Hash)]
pub enum SubstateChange {
    Create,
    Destroy,
}

/// Lifecycle state of a substate as seen by one payload.
#[derive(Debug, Clone)]
pub enum SubstateState {
    DoesNotExist,
    Up { created_by: PayloadId, data: Vec<u8> },
    Down { deleted_by: PayloadId },
}

/// A claim on an object made by a payload; every claim is currently accepted.
#[derive(Debug, Clone)]
pub struct ObjectClaim {}

impl ObjectClaim {
    pub fn is_valid(&self, _payload: PayloadId) -> (r: bool)
        ensures
            r,
    {
        true
    }
}

/// Identifier of a payload (a transaction).
#[derive(Copy, Clone, Debug, PartialEq, Eq, Hash)]
pub struct PayloadId {
    id: [u8; 32],
}

impl PayloadId {
    pub closed spec fn bytes(self) -> [u8; 32] {
        self.id
    }

    pub fn new(id: [u8; 32]) -> (r: PayloadId)
        ensures
            r.bytes() == id,
    {
        PayloadId { id }
    }

    pub fn zero() -> (r: PayloadId)
        ensures
            r.bytes()@ == Seq::new(32, |i: int| 0u8),
    {
        let r = PayloadId { id: [0u8; 32] };
        assert(r.id@ =~= Seq::new(32, |i: int| 0u8));
        r
    }

    pub fn as_slice(&self) -> (r: &[u8])
        ensures
            r@ == self.bytes()@,
    {
        self.id.as_slice()
    }

    pub fn into_array(self) -> (r: [u8; 32])
        ensures
            r == self.bytes(),
    {
        self.id
    }
}

} // verus!
