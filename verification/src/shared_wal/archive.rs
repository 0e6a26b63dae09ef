//! Archive protection of one member.
use vstd::prelude::*;

use super::frame;
use crate::error::{self, Error, Result};

verus! {

pub const RESERVE: u64 = 8192;

#[derive(Clone, Copy, Debug, PartialEq, Eq, Structural)]
pub struct ArchiveOptions {
    pub max_bytes: u64,
}

/// A record boundary in the archived history of a database.
#[derive(Clone, Copy, Debug, PartialEq, Eq)]
pub struct ArchiveCursor {
    pub database: [u8; 16],
    pub generation: [u8; 16],
    pub branch: [u8; 16],
    pub epoch: u64,
    pub segment: u64,
    pub offset: u64,
    pub seq: u64,
    pub digest: [u8; 32],
}

/// What keeps a member's records in the log until an archive has taken them.
#[derive(Clone, Copy, Debug)]
pub struct Protection {
    pub options: ArchiveOptions,
    pub initial: ArchiveCursor,
    pub released: ArchiveCursor,
    pub latest: ArchiveCursor,
    pub durable: ArchiveCursor,
}

/// The nearest value that 64 bits hold.
pub open spec fn saturated(value: int) -> u64 {
    if value > u64::MAX {
        u64::MAX
    } else if value < 0 {
        0
    } else {
        value as u64
    }
}

/// The product, held at the largest value.
pub fn saturating_mul(left: u64, right: u64) -> (product: u64)
    ensures
        product == saturated(left * right),
{
    assert(0 <= left * right <= u64::MAX * u64::MAX) by (nonlinear_arith)
        requires
            left <= u64::MAX,
            right <= u64::MAX,
    ;
    let wide: u128 = (left as u128) * (right as u128);
    if wide > u64::MAX as u128 {
        u64::MAX
    } else {
        wide as u64
    }
}

/// The index bytes that one protection is charged.
pub open spec fn spec_protection_charge() -> u64 {
    saturated(vstd::layout::size_of::<Protection>() as int + 32)
}

pub fn protection_charge() -> (charge: u64)
    ensures
        charge == spec_protection_charge(),
{
    (core::mem::size_of::<Protection>() as u64).saturating_add(32)
}

impl ArchiveCursor {
    /// The boundary after one more record of `length` bytes.
    pub open spec fn spec_after(self, length: int, digest: [u8; 32]) -> ArchiveCursor {
        ArchiveCursor {
            offset: (self.offset + length) as u64,
            seq: (self.seq + 1) as u64,
            digest,
            ..self
        }
    }

    pub fn same(&self, other: &Self) -> (same: bool)
        ensures
            same == (*self == *other),
    {
        let same: bool = crate::bytes::same_bytes(
            self.database.as_slice(),
            other.database.as_slice(),
        ) && crate::bytes::same_bytes(self.generation.as_slice(), other.generation.as_slice())
            && crate::bytes::same_bytes(self.branch.as_slice(), other.branch.as_slice())
            && crate::bytes::same_bytes(self.digest.as_slice(), other.digest.as_slice())
            && self.epoch == other.epoch && self.segment == other.segment && self.offset
            == other.offset && self.seq == other.seq;
        proof {
            if same {
                assert(self.database =~= other.database);
                assert(self.generation =~= other.generation);
                assert(self.branch =~= other.branch);
                assert(self.digest =~= other.digest);
            }
        }
        same
    }
}

/// The boundary after `raw_length` more record bytes, or why it cannot be formed.
pub open spec fn advanced(cursor: ArchiveCursor, raw_length: int, digest: [u8; 32]) -> Result<
    ArchiveCursor,
> {
    if cursor.offset + raw_length > u64::MAX || cursor.seq == u64::MAX {
        Err(frame::shared("position overflow"))
    } else {
        Ok(cursor.spec_after(raw_length, digest))
    }
}

/// The cursor one record further; `digest` is the chain digest that covers the record.
pub fn advance(cursor: ArchiveCursor, raw_length: usize, digest: [u8; 32]) -> (r: Result<
    ArchiveCursor,
>)
    ensures
        r == advanced(cursor, raw_length as int, digest),
{
    let offset: u64 = match frame::add(cursor.offset, raw_length as u64) {
        Ok(offset) => offset,
        Err(e) => return Err(e),
    };
    let seq: u64 = match frame::add(cursor.seq, 1) {
        Ok(seq) => seq,
        Err(e) => return Err(e),
    };
    Ok(
        ArchiveCursor {
            database: cursor.database,
            generation: cursor.generation,
            branch: cursor.branch,
            epoch: cursor.epoch,
            segment: cursor.segment,
            offset,
            seq,
            digest,
        },
    )
}

impl Protection {
    /// The reserve, the record bytes not yet released and a frame header for each such record.
    pub open spec fn spec_bytes(self) -> u64 {
        saturated(
            saturated(RESERVE + saturated(self.latest.offset - self.released.offset)) + saturated(
                saturated(self.latest.seq - self.released.seq) * frame::FRAME_HEADER,
            ),
        )
    }

    pub fn bytes(&self) -> (bytes: u64)
        ensures
            bytes == self.spec_bytes(),
    {
        let records: u64 = saturating_mul(
            self.latest.seq.saturating_sub(self.released.seq),
            frame::FRAME_HEADER as u64,
        );
        RESERVE.saturating_add(
            self.latest.offset.saturating_sub(self.released.offset),
        ).saturating_add(records)
    }

    /// The latest boundary after one more record, within the archive budget.
    pub open spec fn spec_next(self, raw_length: int, digest: [u8; 32]) -> Result<ArchiveCursor> {
        let charged = saturated(saturated(self.spec_bytes() + raw_length) + frame::FRAME_HEADER);
        if charged > self.options.max_bytes {
            Err(error::limit("archive_bytes", charged, self.options.max_bytes))
        } else {
            advanced(self.latest, raw_length, digest)
        }
    }

    pub fn next(&self, raw_length: usize, digest: [u8; 32]) -> (r: Result<ArchiveCursor>)
        ensures
            r == self.spec_next(raw_length as int, digest),
    {
        let charged: u64 = self.bytes().saturating_add(raw_length as u64).saturating_add(
            frame::FRAME_HEADER as u64,
        );
        if charged > self.options.max_bytes {
            return Err(Error::limit("archive_bytes", charged, self.options.max_bytes));
        }
        advance(self.latest, raw_length, digest)
    }

    /// The protection after recovery has seen the record `seq`.
    pub open spec fn spec_replayed(
        self,
        seq: u64,
        raw_length: int,
        digest: [u8; 32],
    ) -> Result<Protection> {
        if seq > self.released.seq {
            match advanced(self.latest, raw_length, digest) {
                Ok(latest) => Ok(Protection { latest, ..self }),
                Err(e) => Err(e),
            }
        } else {
            Ok(self)
        }
    }

    pub fn replay(self, seq: u64, raw_length: usize, digest: [u8; 32]) -> (r: Result<Protection>)
        ensures
            r == self.spec_replayed(seq, raw_length as int, digest),
    {
        if seq > self.released.seq {
            match advance(self.latest, raw_length, digest) {
                Ok(latest) => Ok(
                    Protection {
                        options: self.options,
                        initial: self.initial,
                        released: self.released,
                        latest,
                        durable: self.durable,
                    },
                ),
                Err(e) => Err(e),
            }
        } else {
            Ok(self)
        }
    }
}

/// A value that fits is itself; any other is held at the end that it passed.
pub proof fn saturation_keeps_what_fits(value: int)
    ensures
        0 <= value <= u64::MAX ==> saturated(value) == value,
        value < 0 ==> saturated(value) == 0,
        value > u64::MAX ==> saturated(value) == 0xffff_ffff_ffff_ffffu64,
{
}

} // verus!
