//! Positions in a write-ahead log.
use vstd::prelude::*;

use crate::error::{self, Error, Result};

verus! {

/// The last durable record and where it lies.
#[derive(Clone, Copy, Debug, PartialEq, Eq, Structural)]
pub struct DurablePosition {
    pub seq: u64,
    pub segment: u64,
    pub offset: u64,
}

impl DurablePosition {
    pub fn new(seq: u64, segment: u64, offset: u64) -> (position: Self)
        ensures
            position == (DurablePosition { seq, segment, offset }),
    {
        DurablePosition { seq, segment, offset }
    }

    pub fn seq(self) -> (seq: u64)
        ensures
            seq == self.seq,
    {
        self.seq
    }

    pub fn segment(self) -> (segment: u64)
        ensures
            segment == self.segment,
    {
        self.segment
    }

    pub fn offset(self) -> (offset: u64)
        ensures
            offset == self.offset,
    {
        self.offset
    }
}

/// Where replay starts: the segment and offset of the first record that the catalog does not
/// cover, and its sequence.
#[derive(Clone, Copy, Debug, PartialEq, Eq, Structural)]
pub struct Checkpoint {
    pub segment_first_seq: u64,
    pub offset: u64,
    pub next_seq: u64,
}

impl Checkpoint {
    /// Sequences start at one.
    pub open spec fn valid(self) -> bool {
        self.next_seq > 0
    }

    pub open spec fn restored(segment_first_seq: u64, offset: u64, next_seq: u64) -> Result<
        Checkpoint,
    > {
        if next_seq == 0 {
            Err(error::corruption("checkpoint", "next sequence is zero"))
        } else {
            Ok(Checkpoint { segment_first_seq, offset, next_seq })
        }
    }

    pub fn new(segment_first_seq: u64, offset: u64, next_seq: u64) -> (r: Result<Self>)
        ensures
            r == Checkpoint::restored(segment_first_seq, offset, next_seq),
    {
        if next_seq == 0 {
            return Err(Error::corruption("checkpoint", "next sequence is zero"));
        }
        Ok(Checkpoint { segment_first_seq, offset, next_seq })
    }

    pub fn segment_first_seq(self) -> (seq: u64)
        ensures
            seq == self.segment_first_seq,
    {
        self.segment_first_seq
    }

    pub fn offset(self) -> (offset: u64)
        ensures
            offset == self.offset,
    {
        self.offset
    }

    pub fn next_seq(self) -> (seq: u64)
        ensures
            seq == self.next_seq,
    {
        self.next_seq
    }
}

} // verus!
