use vstd::prelude::*;

use crate::bytes;
use crate::error::{self, Error, Result};
use crate::ordmap::OrderedKey;

verus! {

/// The identity of one logical database in a shared log.
#[derive(Clone, Copy, Debug, PartialEq, Eq, PartialOrd, Ord, Hash)]
pub struct SharedDbId {
    pub database: [u8; 16],
    pub generation: [u8; 16],
}

/// The number whose big-endian bytes these are.
pub open spec fn big_endian(bytes: Seq<u8>) -> int
    decreases bytes.len(),
{
    if bytes.len() == 0 {
        0
    } else {
        big_endian(bytes.drop_last()) * 256 + bytes.last()
    }
}

proof fn big_endian_first_difference(left: Seq<u8>, right: Seq<u8>, at: int)
    requires
        left.len() == right.len(),
        0 <= at < left.len(),
        left.take(at) == right.take(at),
        left[at] < right[at],
    ensures
        big_endian(left) < big_endian(right),
    decreases left.len(),
{
    if at == left.len() - 1 {
        assert(left.drop_last() =~= left.take(at));
        assert(right.drop_last() =~= right.take(at));
    } else {
        assert(left.drop_last().take(at) =~= left.take(at));
        assert(right.drop_last().take(at) =~= right.take(at));
        big_endian_first_difference(left.drop_last(), right.drop_last(), at);
    }
}

proof fn big_endian_injective(left: Seq<u8>, right: Seq<u8>)
    requires
        left.len() == right.len(),
        big_endian(left) == big_endian(right),
    ensures
        left == right,
    decreases left.len(),
{
    if left.len() > 0 {
        big_endian_injective(left.drop_last(), right.drop_last());
        assert(left =~= left.drop_last().push(left.last()));
        assert(right =~= right.drop_last().push(right.last()));
    } else {
        assert(left =~= right);
    }
}

impl SharedDbId {
    /// The database bytes followed by the generation bytes.
    pub open spec fn spec_bytes(self) -> Seq<u8> {
        self.database@ + self.generation@
    }

    pub fn new(database: [u8; 16], generation: [u8; 16]) -> (id: Self)
        ensures
            id == (SharedDbId { database, generation }),
    {
        SharedDbId { database, generation }
    }

    pub fn database(self) -> (database: [u8; 16])
        ensures
            database == self.database,
    {
        self.database
    }

    pub fn generation(self) -> (generation: [u8; 16])
        ensures
            generation == self.generation,
    {
        self.generation
    }

    pub fn bytes(self) -> (result: Vec<u8>)
        ensures
            result@ == self.spec_bytes(),
            result@.len() == 32,
    {
        let mut result: Vec<u8> = Vec::new();
        bytes::put_slice(&mut result, self.database.as_slice());
        bytes::put_slice(&mut result, self.generation.as_slice());
        assert(result@ =~= self.spec_bytes());
        result
    }

    /// Reads the identity from the first 32 bytes.
    pub fn from_bytes(source: &[u8]) -> (r: Result<Self>)
        ensures
            match r {
                Ok(id) => source@.len() >= 32 && id.spec_bytes() == source@.take(32),
                Err(e) => source@.len() < 32 && e == error::corruption(
                    "shared WAL",
                    "truncated field",
                ),
            },
    {
        if source.len() < 32 {
            return Err(Error::corruption("shared WAL", "truncated field"));
        }
        let id = SharedDbId {
            database: bytes::array16_at(source, 0),
            generation: bytes::array16_at(source, 16),
        };
        assert(id.spec_bytes() =~= source@.take(32));
        Ok(id)
    }

    pub fn same(&self, other: &Self) -> (same: bool)
        ensures
            same == (*self == *other),
    {
        let same: bool = bytes::same_bytes(self.database.as_slice(), other.database.as_slice())
            && bytes::same_bytes(self.generation.as_slice(), other.generation.as_slice());
        proof {
            if self.database@ == other.database@ && self.generation@ == other.generation@ {
                assert(self.database =~= other.database);
                assert(self.generation =~= other.generation);
            }
        }
        same
    }
}

/// Identities with the same bytes are the same.
pub(crate) proof fn identity_is_its_bytes(left: SharedDbId, right: SharedDbId)
    requires
        left.spec_bytes() == right.spec_bytes(),
    ensures
        left == right,
{
    assert(left.database@ =~= left.spec_bytes().take(16));
    assert(right.database@ =~= right.spec_bytes().take(16));
    assert(left.generation@ =~= left.spec_bytes().skip(16));
    assert(right.generation@ =~= right.spec_bytes().skip(16));
    assert(left.database =~= right.database);
    assert(left.generation =~= right.generation);
}

impl OrderedKey for SharedDbId {
    open spec fn rank(self) -> int {
        big_endian(self.spec_bytes())
    }

    proof fn rank_injective(left: Self, right: Self) {
        big_endian_injective(left.spec_bytes(), right.spec_bytes());
        identity_is_its_bytes(left, right);
    }

    fn precedes(&self, other: &Self) -> (before: bool) {
        let left = self.bytes();
        let right = other.bytes();
        let mut index: usize = 0;
        while index < 32
            invariant
                index <= 32,
                left@ == self.spec_bytes(),
                right@ == other.spec_bytes(),
                left@.len() == 32,
                right@.len() == 32,
                left@.take(index as int) == right@.take(index as int),
            decreases 32 - index,
        {
            if left[index] != right[index] {
                proof {
                    if left@[index as int] < right@[index as int] {
                        big_endian_first_difference(left@, right@, index as int);
                    } else {
                        big_endian_first_difference(right@, left@, index as int);
                    }
                }
                return left[index] < right[index];
            }
            proof {
                assert(left@.take(index + 1) =~= left@.take(index as int).push(
                    left@[index as int],
                ));
                assert(right@.take(index + 1) =~= right@.take(index as int).push(
                    right@[index as int],
                ));
            }
            index += 1;
        }
        assert(left@ =~= left@.take(32));
        assert(right@ =~= right@.take(32));
        false
    }
}

#[derive(Clone, Copy, Debug, PartialEq, Eq, Structural)]
pub struct SharedWalOptions {
    pub max_bytes: u64,
    pub segment_bytes: u32,
    pub buffer_bytes: u32,
    pub max_databases: u32,
    pub index_bytes: u64,
}

impl Default for SharedWalOptions {
    fn default() -> (options: Self)
        ensures
            options == (SharedWalOptions {
                max_bytes: 1_073_741_824,
                segment_bytes: 67_108_864,
                buffer_bytes: 1_048_576,
                max_databases: 100_000,
                index_bytes: 67_108_864,
            }),
            options.valid(),
    {
        SharedWalOptions {
            max_bytes: 1_073_741_824,
            segment_bytes: 67_108_864,
            buffer_bytes: 1_048_576,
            max_databases: 100_000,
            index_bytes: 67_108_864,
        }
    }
}

impl SharedWalOptions {
    /// The bounded storage policies: two segments fit, and every budget lies in its range.
    pub open spec fn valid(self) -> bool {
        &&& 256 <= self.segment_bytes
        &&& self.segment_bytes * 2 <= self.max_bytes <= 1_099_511_627_776
        &&& 128 <= self.buffer_bytes <= 67_108_864
        &&& 1 <= self.max_databases <= 1_000_000
        &&& 1024 <= self.index_bytes <= 1_073_741_824
    }

    pub fn validate(self) -> (r: Result<()>)
        ensures
            r == (if self.valid() {
                Ok(())
            } else {
                Err(error::invalid("shared WAL options", "invalid bounded storage policy"))
            }),
    {
        if self.segment_bytes < 256 || (self.segment_bytes as u64) * 2 > self.max_bytes
            || self.max_bytes > 1_099_511_627_776 || self.buffer_bytes < 128 || self.buffer_bytes
            > 67_108_864 || self.max_databases == 0 || self.max_databases > 1_000_000
            || self.index_bytes < 1024 || self.index_bytes > 1_073_741_824 {
            return Err(Error::invalid("shared WAL options", "invalid bounded storage policy"));
        }
        Ok(())
    }
}

#[derive(Clone, Copy, Debug, PartialEq, Eq, Structural)]
pub struct SharedDurablePosition {
    pub lsn: u64,
}

impl SharedDurablePosition {
    pub fn lsn(self) -> (lsn: u64)
        ensures
            lsn == self.lsn,
    {
        self.lsn
    }
}

#[derive(Clone, Copy, Debug, Default, PartialEq, Eq, Structural)]
pub struct SharedWalStatus {
    pub storage: u64,
    pub buffered: u64,
    pub durable: u64,
    pub visible: u64,
    pub writes: u64,
    pub syncs: u64,
}

impl SharedWalStatus {
    pub fn storage_bytes(self) -> (bytes: u64)
        ensures
            bytes == self.storage,
    {
        self.storage
    }

    pub fn buffered_bytes(self) -> (bytes: u64)
        ensures
            bytes == self.buffered,
    {
        self.buffered
    }

    pub fn durable_lsn(self) -> (lsn: u64)
        ensures
            lsn == self.durable,
    {
        self.durable
    }

    pub fn visible_lsn(self) -> (lsn: u64)
        ensures
            lsn == self.visible,
    {
        self.visible
    }

    pub fn write_calls(self) -> (calls: u64)
        ensures
            calls == self.writes,
    {
        self.writes
    }

    pub fn sync_calls(self) -> (calls: u64)
        ensures
            calls == self.syncs,
    {
        self.syncs
    }
}

} // verus!
