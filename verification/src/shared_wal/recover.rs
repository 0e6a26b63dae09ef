//! Rebuilding the state of a log from its segment files.
//!
//! A recovery names the segment file to read next, takes its content, and then takes its frames
//! one by one, each with what the record codec and the archive chain say of the record in it.
use vstd::prelude::*;

use super::archive::Protection;
use super::boundary::{self, Boundary};
use super::frame::{self, FrameView, Pointer};
use super::state::{self, Action, Member, MemberView, Segment, SegmentView, SharedWal, WalView};
use super::store;
use super::types::{SharedDbId, SharedWalOptions};
use crate::bytes;
use crate::checksum;
use crate::error::{self, Error, Result};
use crate::ordmap::{self, OrderedMap};
use crate::text;

verus! {

pub struct Recovery {
    pub identity: [u8; 16],
    pub options: SharedWalOptions,
    pub paths: Vec<u64>,
    pub index: usize,
    pub members: OrderedMap<SharedDbId, Member>,
    pub segments: OrderedMap<u64, Segment>,
    pub storage: u64,
    pub charged: u64,
    pub next_lsn: Option<u64>,
    pub rotate: bool,
}

pub struct RecoveryView {
    pub identity: [u8; 16],
    pub options: SharedWalOptions,
    pub paths: Seq<u64>,
    pub index: int,
    pub members: Map<SharedDbId, MemberView>,
    pub segments: Map<u64, SegmentView>,
    pub storage: u64,
    pub charged: u64,
    pub next_lsn: Option<u64>,
    pub rotate: bool,
}

impl View for Recovery {
    type V = RecoveryView;

    open spec fn view(&self) -> RecoveryView {
        RecoveryView {
            identity: self.identity,
            options: self.options,
            paths: self.paths@,
            index: self.index as int,
            members: state::member_views(self.members@),
            segments: state::segment_views(self.segments@),
            storage: self.storage,
            charged: self.charged,
            next_lsn: self.next_lsn,
            rotate: self.rotate,
        }
    }
}

/// A segment whose frames are being read.
pub struct SegmentScan {
    pub number: u64,
    pub length: u64,
    pub end: u64,
    pub offset: u64,
    pub next: u64,
    pub last: bool,
    pub evidence: Option<Boundary>,
    pub members: OrderedMap<SharedDbId, u64>,
}

pub struct ScanView {
    pub number: u64,
    pub length: u64,
    pub end: u64,
    pub offset: u64,
    pub next: u64,
    pub last: bool,
    pub evidence: Option<Boundary>,
    pub members: Map<SharedDbId, u64>,
}

impl View for SegmentScan {
    type V = ScanView;

    open spec fn view(&self) -> ScanView {
        ScanView {
            number: self.number,
            length: self.length,
            end: self.end,
            offset: self.offset,
            next: self.next,
            last: self.last,
            evidence: self.evidence,
            members: self.members@,
        }
    }
}

/// How a segment file starts.
pub enum SegmentStart {
    /// Nothing of it was accepted. A boundary that says so is to be published if it is new.
    Empty { publish: Option<Boundary> },
    /// Its header was accepted and its frames follow.
    Frames(SegmentScan),
}

/// What stands at the position that a scan has reached.
#[derive(Clone, Copy, Debug, PartialEq, Eq, Structural)]
pub enum Found {
    /// The accepted prefix is complete.
    End,
    /// An incomplete append: the prefix in front of it is accepted, and a boundary that says so is
    /// to be published.
    Torn,
    /// A frame of this length with the right checksum.
    Frame(usize),
}

impl Recovery {
    spec fn tables_wf(&self) -> bool {
        &&& self.options.valid()
        &&& self.members.wf()
        &&& self.segments.wf()
        &&& forall|i: int|
            0 <= i < self.segments.entries@.len() ==> (
            #[trigger] self.segments.entries@[i]).1.members.wf()
        &&& self.index <= self.paths@.len()
        &&& self.segments.entries@.len() == self.index
        &&& forall|i: int|
            0 <= i < self.index ==> (#[trigger] self.segments.entries@[i]).0 == self.paths@[i]
        &&& self.storage <= self.options.max_bytes
        &&& self.next_lsn matches Some(next) ==> next >= 1
    }

    /// What holds between segments: the segments read so far are the first ones, in order, and
    /// storage and index account for them.
    pub closed spec fn wf(&self) -> bool {
        &&& self.tables_wf()
        &&& state::total_length(self.segments.entries@) == self.storage
        &&& state::total_charge(self.segments.entries@) + state::total_member_charge(
            self.members.entries@,
        ) <= self.charged
        &&& 0 < self.index == self.paths@.len() && !self.rotate
            ==> self.segments.entries@.last().1.length >= frame::SEGMENT_HEADER
    }

    /// What holds while a segment's frames are read: the segment is the next one, and storage and
    /// index account for it too.
    pub closed spec fn scanning(&self, scan: &SegmentScan) -> bool {
        &&& self.tables_wf()
        &&& self.index < self.paths@.len()
        &&& scan.number == self.paths@[self.index as int]
        &&& self.index > 0 ==> self.segments.entries@.last().0 < scan.number
        &&& scan.last == (self.index + 1 == self.paths@.len())
        &&& scan.members.wf()
        &&& scan.length >= frame::SEGMENT_HEADER
        &&& scan.end <= scan.length
        &&& frame::SEGMENT_HEADER <= scan.offset
        &&& scan.next >= 1
        &&& state::total_length(self.segments.entries@) + scan.length == self.storage
        &&& state::total_charge(self.segments.entries@) + state::total_member_charge(
            self.members.entries@,
        ) + 128 + 96 * scan.members.entries@.len() <= self.charged
    }

    /// Starts a recovery from the registered members and the numbers of the segment files, in
    /// order. `charged` accounts for the members.
    pub fn new(
        identity: [u8; 16],
        options: SharedWalOptions,
        members: OrderedMap<SharedDbId, Member>,
        charged: u64,
        paths: Vec<u64>,
    ) -> (recovery: Self)
        requires
            options.valid(),
            members.wf(),
            state::total_member_charge(members.entries@) <= charged,
        ensures
            recovery.wf(),
            recovery@ == (RecoveryView {
                identity,
                options,
                paths: paths@,
                index: 0,
                members: state::member_views(members@),
                segments: Map::empty(),
                storage: 0,
                charged,
                next_lsn: None,
                rotate: false,
            }),
    {
        let recovery = Recovery {
            identity,
            options,
            paths,
            index: 0,
            members,
            segments: OrderedMap::new(),
            storage: 0,
            charged,
            next_lsn: None,
            rotate: false,
        };
        assert(recovery@.segments =~= Map::empty());
        recovery
    }

    /// The number of the segment file to read next.
    pub fn next_segment(&self) -> (number: Option<u64>)
        requires
            self.wf(),
        ensures
            number == (if self@.index < self@.paths.len() {
                Some(self@.paths[self@.index])
            } else {
                None
            }),
    {
        if self.index < self.paths.len() {
            Some(self.paths[self.index])
        } else {
            None
        }
    }
}

/// The evidence that accompanies a segment file.
pub open spec fn evidence_of(
    recovery: RecoveryView,
    content: Seq<u8>,
    file: Option<Seq<u8>>,
) -> Result<Option<Boundary>> {
    match file {
        None => Ok(None),
        Some(bytes) => match boundary::boundary_of(
            bytes,
            recovery.identity@,
            recovery.paths[recovery.index],
            content,
        ) {
            Ok(boundary) => Ok(Some(boundary)),
            Err(e) => Err(e),
        },
    }
}

/// How much of a segment file is to be accepted, as far as evidence says.
pub open spec fn accepted_end(content: Seq<u8>, evidence: Option<Boundary>) -> u64 {
    match evidence {
        Some(boundary) => boundary.end,
        None => content.len() as u64,
    }
}

/// Why a segment file is refused before its header is looked at.
pub open spec fn segment_refusal(
    recovery: RecoveryView,
    content: Seq<u8>,
    file: Option<Seq<u8>>,
) -> Option<Error> {
    let number = recovery.paths[recovery.index];
    let storage = recovery.storage + content.len();
    if recovery.index > 0 && recovery.paths[recovery.index - 1] + 1 != number {
        Some(frame::shared("missing middle segment"))
    } else if storage > u64::MAX {
        Some(frame::shared("position overflow"))
    } else if storage > recovery.options.max_bytes {
        Some(
            error::limit(
                "shared_wal_storage_bytes",
                storage as u64,
                recovery.options.max_bytes,
            ),
        )
    } else {
        match evidence_of(recovery, content, file) {
            Err(e) => Some(e),
            Ok(_) => if recovery.charged + 128 > u64::MAX {
                Some(frame::shared("position overflow"))
            } else {
                None
            },
        }
    }
}

/// Whether nothing of the file is accepted: no complete header, or evidence that says so.
pub open spec fn starts_empty(content: Seq<u8>, evidence: Option<Boundary>) -> bool {
    accepted_end(content, evidence) == 0 || content.len() < frame::SEGMENT_HEADER
}

/// The sequence number that the next segment starts with.
pub open spec fn expected_lsn(recovery: RecoveryView) -> u64 {
    match recovery.next_lsn {
        Some(next) => next,
        None => 1,
    }
}

/// Why an empty segment is refused.
pub open spec fn empty_refusal(recovery: RecoveryView, evidence: Option<Boundary>) -> Option<
    Error,
> {
    let last = recovery.index + 1 == recovery.paths.len();
    match evidence {
        None => if last {
            None
        } else {
            Some(frame::shared("incomplete middle segment header"))
        },
        Some(boundary) => if boundary.end != 0 || boundary.next != expected_lsn(recovery) {
            Some(frame::shared("empty boundary continuation"))
        } else {
            None
        },
    }
}

/// The recovery after a segment of which nothing was accepted.
pub open spec fn after_empty(recovery: RecoveryView, content: Seq<u8>) -> RecoveryView {
    RecoveryView {
        index: recovery.index + 1,
        segments: recovery.segments.insert(
            recovery.paths[recovery.index],
            SegmentView { length: content.len() as u64, members: Map::empty() },
        ),
        storage: (recovery.storage + content.len()) as u64,
        charged: (recovery.charged + 128) as u64,
        next_lsn: Some(expected_lsn(recovery)),
        rotate: recovery.index + 1 == recovery.paths.len(),
        ..recovery
    }
}

/// The first sequence number of a segment with a header, continuing the segment before it.
pub open spec fn header_first(recovery: RecoveryView, content: Seq<u8>) -> Result<u64> {
    match frame::segment_first(
        content.take(frame::SEGMENT_HEADER as int),
        recovery.identity@,
        recovery.paths[recovery.index],
    ) {
        Err(e) => Err(e),
        Ok(first) => if recovery.next_lsn matches Some(expected) && expected != first {
            Err(frame::shared("cross-segment LSN gap"))
        } else {
            Ok(first)
        },
    }
}

impl Recovery {
    /// Takes the content of the next segment file, and its boundary file if there is one.
    pub fn begin_segment(&mut self, content: &[u8], file: Option<&[u8]>) -> (r: Result<
        SegmentStart,
    >)
        requires
            old(self).wf(),
            old(self)@.index < old(self)@.paths.len(),
        ensures
            ({
                let before = old(self)@;
                let shown = match file {
                    Some(bytes) => Some(bytes@),
                    None => None,
                };
                match segment_refusal(before, content@, shown) {
                    Some(e) => r matches Err(found) && found == e && *final(self)
                        == *old(self),
                    None => {
                        let evidence = evidence_of(before, content@, shown)->Ok_0;
                        if starts_empty(content@, evidence) {
                            match empty_refusal(before, evidence) {
                                Some(e) => r matches Err(found) && found == e && *final(self)
                        == *old(self),
                                None => {
                                    &&& r matches Ok(SegmentStart::Empty { publish })
                                    &&& publish == (match evidence {
                                        Some(_) => None,
                                        None => Some(
                                            Boundary { end: 0, next: expected_lsn(before) },
                                        ),
                                    })
                                    &&& final(self).wf()
                                    &&& final(self)@ == after_empty(before, content@)
                                },
                            }
                        } else {
                            match header_first(before, content@) {
                                Err(e) => r matches Err(found) && found == e && *final(self)
                        == *old(self),
                                Ok(first) => {
                                    &&& r matches Ok(SegmentStart::Frames(scan))
                                    &&& final(self).scanning(&scan)
                                    &&& final(self)@ == (RecoveryView {
                                        storage: (before.storage + content@.len()) as u64,
                                        charged: (before.charged + 128) as u64,
                                        ..before
                                    })
                                    &&& scan@ == (ScanView {
                                        number: before.paths[before.index],
                                        length: content@.len() as u64,
                                        end: accepted_end(content@, evidence),
                                        offset: frame::SEGMENT_HEADER as u64,
                                        next: first,
                                        last: before.index + 1 == before.paths.len(),
                                        evidence,
                                        members: Map::empty(),
                                    })
                                },
                            }
                        }
                    },
                }
            }),
    {
        let ghost before = self@;
        let ghost entries = self.segments.entries@;
        let number: u64 = self.paths[self.index];
        if self.index > 0 {
            let previous: u64 = self.paths[self.index - 1];
            if previous == u64::MAX || previous + 1 != number {
                return Err(frame::invalid("missing middle segment"));
            }
            assert(entries.last().0 == previous);
        }
        let length: u64 = content.len() as u64;
        let storage: u64 = match frame::add(self.storage, length) {
            Ok(storage) => storage,
            Err(e) => return Err(e),
        };
        if storage > self.options.max_bytes {
            return Err(
                Error::limit("shared_wal_storage_bytes", storage, self.options.max_bytes),
            );
        }
        let evidence: Option<Boundary> = match file {
            Some(bytes) => match boundary::read_boundary(bytes, &self.identity, number, content) {
                Ok(found) => Some(found),
                Err(e) => return Err(e),
            },
            None => None,
        };
        let charged: u64 = match frame::add(self.charged, 128) {
            Ok(charged) => charged,
            Err(e) => return Err(e),
        };
        let end: u64 = match evidence {
            Some(found) => found.end,
            None => length,
        };
        let last: bool = self.index == self.paths.len() - 1;
        if end == 0 || length < frame::SEGMENT_HEADER as u64 {
            if !last && evidence.is_none() {
                return Err(frame::invalid("incomplete middle segment header"));
            }
            let next: u64 = match self.next_lsn {
                Some(next) => next,
                None => 1,
            };
            match evidence {
                Some(found) => {
                    if found.end != 0 || found.next != next {
                        return Err(frame::invalid("empty boundary continuation"));
                    }
                },
                None => {},
            }
            let publish: Option<Boundary> = match evidence {
                Some(_) => None,
                None => Some(Boundary { end: 0, next }),
            };
            let fresh = Segment { length, members: OrderedMap::new() };
            self.storage = storage;
            self.charged = charged;
            self.next_lsn = Some(next);
            self.rotate = last;
            self.segments.insert(number, fresh);
            self.index = self.index + 1;
            proof {
                pushed_last(entries, number, fresh);
                state::totals_push(entries, (number, fresh));
                state::segment_view_insert(old(self).segments@, number, fresh);
                assert(fresh@.members =~= Map::empty());
                assert(self@ == after_empty(before, content@));
            }
            return Ok(SegmentStart::Empty { publish });
        }
        let header = vstd::slice::slice_subrange(content, 0, frame::SEGMENT_HEADER);
        assert(header@ =~= content@.take(frame::SEGMENT_HEADER as int));
        let first: u64 = match frame::inspect_segment(header, &self.identity, number) {
            Ok(first) => first,
            Err(e) => return Err(e),
        };
        match self.next_lsn {
            Some(expected) => {
                if expected != first {
                    return Err(frame::invalid("cross-segment LSN gap"));
                }
            },
            None => {},
        }
        self.storage = storage;
        self.charged = charged;
        let scan = SegmentScan {
            number,
            length,
            end,
            offset: frame::SEGMENT_HEADER as u64,
            next: first,
            last,
            evidence,
            members: OrderedMap::new(),
        };
        Ok(SegmentStart::Frames(scan))
    }
}

/// A segment with a larger number than all before it goes to the end of the table.
proof fn pushed_last(entries: Seq<(u64, Segment)>, number: u64, segment: Segment)
    requires
        entries.len() > 0 ==> entries.last().0 < number,
    ensures
        ordmap::placed(entries, number, segment) == entries.push((number, segment)),
{
    if entries.len() == 0 {
        assert(seq![(number, segment)] =~= entries.push((number, segment)));
    }
}

/// What stands at a scan's position in the file.
pub open spec fn found_at(scan: ScanView, content: Seq<u8>) -> Result<Found> {
    let remaining = scan.end - scan.offset;
    let prefix = content.subrange(scan.offset as int, scan.offset + 4);
    if scan.offset >= scan.end {
        Ok(Found::End)
    } else if remaining < 4 || frame::frame_length(prefix) is Err || frame::frame_length(
        prefix,
    )->Ok_0 > remaining {
        if !scan.last || scan.evidence is Some {
            Err(frame::shared("incomplete frozen or middle record"))
        } else {
            Ok(Found::Torn)
        }
    } else {
        let length = frame::frame_length(prefix)->Ok_0;
        let bytes = content.subrange(scan.offset as int, scan.offset + length);
        if bytes::un32(bytes.subrange(4, 8)) != checksum::crc32(bytes.skip(8)) {
            if !scan.last || scan.evidence is Some || length != remaining {
                Err(frame::shared("nonterminal frame CRC"))
            } else {
                Ok(Found::Torn)
            }
        } else {
            Ok(Found::Frame(length))
        }
    }
}

impl SegmentScan {
    /// What stands at the position reached.
    pub fn find(&self, content: &[u8]) -> (r: Result<Found>)
        requires
            content@.len() == self.length,
            self.end <= self.length,
        ensures
            r == found_at(self@, content@),
    {
        if self.offset >= self.end {
            return Ok(Found::End);
        }
        let remaining: u64 = self.end - self.offset;
        let start: usize = self.offset as usize;
        assert(self.length == content.len());
        let mut possible: Option<usize> = None;
        if remaining >= 4 {
            let prefix = vstd::slice::slice_subrange(content, start, start + 4);
            match frame::frame_len(prefix) {
                Ok(length) => {
                    if length as u64 <= remaining {
                        possible = Some(length);
                    }
                },
                Err(_) => {},
            }
        }
        let length: usize = match possible {
            Some(length) => length,
            None => {
                if !self.last || self.evidence.is_some() {
                    return Err(frame::invalid("incomplete frozen or middle record"));
                }
                return Ok(Found::Torn);
            },
        };
        let record = vstd::slice::slice_subrange(content, start, start + length);
        let body = vstd::slice::slice_subrange(record, 8, length);
        assert(body@ =~= record@.skip(8));
        if bytes::u32_at(record, 4) != checksum::crc32_of(body) {
            if !self.last || self.evidence.is_some() || length as u64 != remaining {
                return Err(frame::invalid("nonterminal frame CRC"));
            }
            return Ok(Found::Torn);
        }
        Ok(Found::Frame(length))
    }
}

/// A member after recovery has seen one more of its frames, or why the frame is refused.
pub open spec fn member_replayed(
    member: MemberView,
    frame: FrameView,
    pointer: Pointer,
    length: int,
    digest: [u8; 32],
) -> Result<MemberView> {
    if member.retired && frame.seq > member.checkpoint {
        Err(frame::shared("record exceeds permanent retirement boundary"))
    } else if !member.initialized && !member.retired {
        Err(frame::shared("record before initial MANIFEST"))
    } else if member.latest == Pointer::spec_none() && member.checkpoint == u64::MAX {
        Err(frame::shared("position overflow"))
    } else if member.latest == Pointer::spec_none() && (frame.seq > member.checkpoint + 1 || (
    frame.previous != Pointer::spec_none() && !frame.previous.spec_before(pointer))) {
        Err(frame::shared("missing member prefix"))
    } else if member.latest != Pointer::spec_none() && member.seq == u64::MAX {
        Err(frame::shared("position overflow"))
    } else if member.latest != Pointer::spec_none() && (frame.seq != member.seq + 1
        || frame.previous != member.latest) {
        Err(frame::shared("member sequence or predecessor mismatch"))
    } else {
        match archive_replayed(member.archive, frame, digest) {
            Err(e) => Err(e),
            Ok(archive) => if frame.seq > member.checkpoint && member.bytes + length > u64::MAX {
                Err(frame::shared("position overflow"))
            } else {
                Ok(
                    MemberView {
                        latest: pointer,
                        seq: frame.seq,
                        lsn: frame.lsn,
                        bytes: if frame.seq > member.checkpoint {
                            (member.bytes + length) as u64
                        } else {
                            member.bytes
                        },
                        archive,
                        ..member
                    },
                )
            },
        }
    }
}

pub open spec fn archive_replayed(
    archive: Option<Protection>,
    frame: FrameView,
    digest: [u8; 32],
) -> Result<Option<Protection>> {
    match archive {
        None => Ok(None),
        Some(protection) => match protection.spec_replayed(
            frame.seq,
            frame.raw.len() as int,
            digest,
        ) {
            Ok(replayed) => Ok(Some(replayed)),
            Err(e) => Err(e),
        },
    }
}

/// What a frame does to the recovery: the member and the charge after it, or why it is refused.
pub open spec fn frame_outcome(
    recovery: RecoveryView,
    scan: ScanView,
    source: Seq<u8>,
    inner: Result<u64>,
    digest: [u8; 32],
) -> Result<(FrameView, MemberView, u64)> {
    match frame::inspected(source, inner) {
        Err(e) => Err(e),
        Ok(frame) => if frame.lsn != scan.next {
            Err(frame::shared("LSN discontinuity"))
        } else if !recovery.members.contains_key(frame.id) {
            Err(frame::shared("record for unregistered member"))
        } else {
            let pointer = Pointer { segment: scan.number, offset: scan.offset };
            match member_replayed(
                recovery.members[frame.id],
                frame,
                pointer,
                source.len() as int,
                digest,
            ) {
                Err(e) => Err(e),
                Ok(member) => {
                    let charged = recovery.charged + (if scan.members.contains_key(frame.id) {
                        0int
                    } else {
                        96
                    });
                    if charged > u64::MAX {
                        Err(frame::shared("position overflow"))
                    } else if charged > recovery.options.index_bytes {
                        Err(
                            error::limit(
                                "shared_wal_index_bytes",
                                charged as u64,
                                recovery.options.index_bytes,
                            ),
                        )
                    } else if scan.offset + source.len() > u64::MAX || scan.next == u64::MAX {
                        Err(frame::shared("position overflow"))
                    } else {
                        Ok((frame, member, charged as u64))
                    }
                },
            }
        },
    }
}

impl Recovery {
    /// Takes the frame at the scan's position. `inner` is the sequence that the record codec reads
    /// from the record in it, and `digest` the archive chain digest that covers the record.
    pub fn accept_frame(
        &mut self,
        scan: &mut SegmentScan,
        content: &[u8],
        length: usize,
        inner: Result<u64>,
        digest: [u8; 32],
    ) -> (r: Result<()>)
        requires
            old(self).scanning(&*old(scan)),
            content@.len() == old(scan)@.length,
            found_at(old(scan)@, content@) == Ok::<Found, Error>(Found::Frame(length)),
        ensures
            ({
                let source = content@.subrange(
                    old(scan)@.offset as int,
                    old(scan)@.offset + length,
                );
                match frame_outcome(old(self)@, old(scan)@, source, inner, digest) {
                    Err(e) => r == Err::<(), Error>(e) && *final(self) == *old(self)
                        && *final(scan) == *old(scan),
                    Ok((frame, member, charged)) => {
                        &&& r == Ok::<(), Error>(())
                        &&& final(self).scanning(&*final(scan))
                        &&& final(self)@ == (RecoveryView {
                            members: old(self)@.members.insert(frame.id, member),
                            charged,
                            ..old(self)@
                        })
                        &&& final(scan)@ == (ScanView {
                            offset: (old(scan)@.offset + length) as u64,
                            next: (old(scan)@.next + 1) as u64,
                            members: old(scan)@.members.insert(frame.id, frame.seq),
                            ..old(scan)@
                        })
                    },
                }
            }),
    {
        let ghost before = self@;
        let ghost scanned = scan@;
        let ghost table = self.members.entries@;
        let start: usize = scan.offset as usize;
        assert(scan.length == content.len());
        let source = vstd::slice::slice_subrange(content, start, start + length);
        let frame = match frame::inspect(source, inner) {
            Ok(frame) => frame,
            Err(e) => return Err(e),
        };
        if frame.lsn != scan.next {
            return Err(frame::invalid("LSN discontinuity"));
        }
        let pointer = Pointer { segment: scan.number, offset: scan.offset };
        let at: usize = match self.members.find(&frame.id) {
            Some(at) => at,
            None => return Err(frame::invalid("record for unregistered member")),
        };
        proof {
            state::member_view_at(self.members@, frame.id);
        }
        let archived: Option<Protection> = match check_replay(
            &self.members.entries[at].1,
            &frame,
            pointer,
            length,
            digest,
        ) {
            Ok(archived) => archived,
            Err(e) => return Err(e),
        };
        let known: bool = scan.members.contains_key(&frame.id);
        let charged: u64 = match frame::add(
            self.charged,
            if known {
                0
            } else {
                96
            },
        ) {
            Ok(charged) => charged,
            Err(e) => return Err(e),
        };
        if charged > self.options.index_bytes {
            return Err(Error::limit("shared_wal_index_bytes", charged, self.options.index_bytes));
        }
        let offset: u64 = match frame::add(scan.offset, length as u64) {
            Ok(offset) => offset,
            Err(e) => return Err(e),
        };
        let next: u64 = match frame::add(scan.next, 1) {
            Ok(next) => next,
            Err(e) => return Err(e),
        };
        let ghost map = self.members@;
        let ghost moved = table[at as int].1;
        let member = self.members.value_mut(at);
        member.latest = pointer;
        member.seq = frame.seq;
        member.lsn = frame.lsn;
        member.archive = state::boxed(archived);
        if frame.seq > member.checkpoint {
            member.bytes = member.bytes + length as u64;
        }
        proof {
            let after = self.members.entries@[at as int].1;
            assert(self.members.entries@ =~= table.update(at as int, (frame.id, after)));
            ordmap::update_is_insert(table, at as int, after);
            state::member_charge_update(table, at as int, (frame.id, after));
            state::member_view_insert(map, frame.id, after);
            assert(after@.root =~= moved@.root);
        }
        self.charged = charged;
        scan.members.insert(frame.id, frame.seq);
        scan.offset = offset;
        scan.next = next;
        Ok(())
    }
}

/// Checks a frame against its member and gives the member's archive protection after it.
fn check_replay(
    member: &Member,
    frame: &frame::Frame<'_>,
    pointer: Pointer,
    length: usize,
    digest: [u8; 32],
) -> (r: Result<Option<Protection>>)
    ensures
        match r {
            Ok(archive) => member_replayed(member@, frame@, pointer, length as int, digest) is Ok
                && archive_replayed(member@.archive, frame@, digest) == Ok::<
                Option<Protection>,
                Error,
            >(archive),
            Err(e) => member_replayed(member@, frame@, pointer, length as int, digest) == Err::<
                MemberView,
                Error,
            >(e),
        },
{
    if member.retired && frame.seq > member.checkpoint {
        return Err(frame::invalid("record exceeds permanent retirement boundary"));
    }
    if !member.initialized && !member.retired {
        return Err(frame::invalid("record before initial MANIFEST"));
    }
    if member.latest == Pointer::none() {
        let limit: u64 = match frame::add(member.checkpoint, 1) {
            Ok(limit) => limit,
            Err(e) => return Err(e),
        };
        if frame.seq > limit || (frame.previous != Pointer::none() && !frame.previous.before(
            pointer,
        )) {
            return Err(frame::invalid("missing member prefix"));
        }
    } else {
        let expected: u64 = match frame::add(member.seq, 1) {
            Ok(expected) => expected,
            Err(e) => return Err(e),
        };
        if frame.seq != expected || frame.previous != member.latest {
            return Err(frame::invalid("member sequence or predecessor mismatch"));
        }
    }
    let archived: Option<Protection> = match member.protection() {
        Some(protection) => match protection.replay(frame.seq, frame.raw.len(), digest) {
            Ok(replayed) => Some(replayed),
            Err(e) => return Err(e),
        },
        None => None,
    };
    if frame.seq > member.checkpoint && member.bytes > u64::MAX - length as u64 {
        return Err(frame::invalid("position overflow"));
    }
    Ok(archived)
}

impl Recovery {
    /// Gives up on the incomplete append at the scan's position: the prefix in front of it is what
    /// the segment holds, and the log continues in a fresh segment. The boundary that says so is
    /// to be published.
    pub fn tear(&mut self, scan: &mut SegmentScan, content: &[u8]) -> (boundary: Boundary)
        requires
            old(self).scanning(&*old(scan)),
            content@.len() == old(scan)@.length,
            found_at(old(scan)@, content@) == Ok::<Found, Error>(Found::Torn),
        ensures
            boundary == (Boundary { end: old(scan)@.offset, next: old(scan)@.next }),
            final(self).scanning(&*final(scan)),
            final(self)@ == (RecoveryView { rotate: true, ..old(self)@ }),
            final(scan)@ == (ScanView { end: old(scan)@.offset, ..old(scan)@ }),
    {
        scan.end = scan.offset;
        self.rotate = true;
        Boundary { end: scan.offset, next: scan.next }
    }

    /// Closes a segment whose frames were all taken.
    pub fn end_segment(&mut self, scan: SegmentScan) -> (r: Result<()>)
        requires
            old(self).scanning(&scan),
        ensures
            match segment_closing(scan@) {
                Some(e) => r == Err::<(), Error>(e) && *final(self) == *old(self),
                None => {
                    &&& r == Ok::<(), Error>(())
                    &&& final(self).wf()
                    &&& final(self)@ == (RecoveryView {
                        index: old(self)@.index + 1,
                        segments: old(self)@.segments.insert(
                            scan@.number,
                            SegmentView { length: scan@.length, members: scan@.members },
                        ),
                        next_lsn: Some(scan@.next),
                        rotate: old(self)@.rotate || (scan@.last && scan@.evidence is Some),
                        ..old(self)@
                    })
                },
            },
    {
        let mismatch: bool = match scan.evidence {
            Some(found) => found.next != scan.next,
            None => false,
        };
        if scan.offset != scan.end || mismatch {
            return Err(frame::invalid("boundary does not match valid prefix"));
        }
        let ghost entries = self.segments.entries@;
        let count: usize = self.paths.len();
        assert(self.index < count);
        let number: u64 = scan.number;
        self.next_lsn = Some(scan.next);
        self.rotate = self.rotate || (scan.last && scan.evidence.is_some());
        let closed = Segment { length: scan.length, members: scan.members };
        self.segments.insert(number, closed);
        self.index = self.index + 1;
        proof {
            pushed_last(entries, number, closed);
            state::totals_push(entries, (number, closed));
            state::segment_view_insert(old(self).segments@, number, closed);
        }
        Ok(())
    }
}

/// Why a scanned segment cannot be closed: its accepted prefix is not what was read.
pub open spec fn segment_closing(scan: ScanView) -> Option<Error> {
    if scan.offset != scan.end || (scan.evidence matches Some(found) && found.next != scan.next) {
        Some(frame::shared("boundary does not match valid prefix"))
    } else {
        None
    }
}

/// A member once all segments were read: nothing in front of its checkpoint counts, and all that
/// was read is durable.
pub open spec fn member_settled(member: MemberView) -> MemberView {
    let seq = if member.seq < member.checkpoint {
        member.checkpoint
    } else {
        member.seq
    };
    let latest = if member.seq < member.checkpoint {
        Pointer::spec_none()
    } else {
        member.latest
    };
    MemberView {
        seq,
        latest,
        durable_seq: seq,
        durable_pointer: latest,
        archive: match member.archive {
            None => None,
            Some(protection) => Some(Protection { durable: protection.latest, ..protection }),
        },
        ..member
    }
}

/// Whether a member's archive chain ends where its records do.
pub open spec fn member_anchored(member: MemberView) -> bool {
    member.archive matches Some(protection) ==> protection.latest.seq == member_settled(member).seq
}

pub open spec fn members_settled(members: Map<SharedDbId, MemberView>) -> Map<
    SharedDbId,
    MemberView,
> {
    members.map_values(|member: MemberView| member_settled(member))
}

/// Whether the log continues in a fresh segment.
pub open spec fn continues_fresh(recovery: RecoveryView) -> bool {
    recovery.paths.len() == 0 || recovery.paths.last() == 0 || recovery.rotate
}

pub open spec fn last_number(recovery: RecoveryView) -> u64 {
    if recovery.paths.len() == 0 {
        0
    } else {
        recovery.paths.last()
    }
}

/// Why a recovery that has read all segments does not yield a log.
pub open spec fn finish_refusal(recovery: RecoveryView) -> Option<Error> {
    let storage = recovery.storage + frame::SEGMENT_HEADER;
    let fresh = continues_fresh(recovery);
    let charged = recovery.charged + (if fresh {
        128int
    } else {
        0
    });
    if !(forall|id: SharedDbId| #[trigger]
        recovery.members.contains_key(id) ==> member_anchored(recovery.members[id])) {
        Some(frame::shared("archive anchor missing from recoverable data"))
    } else if fresh && last_number(recovery) == u64::MAX {
        Some(frame::shared("position overflow"))
    } else if fresh && storage > recovery.options.max_bytes {
        Some(
            error::limit(
                "shared_wal_storage_bytes",
                storage as u64,
                recovery.options.max_bytes,
            ),
        )
    } else if charged > u64::MAX {
        Some(frame::shared("position overflow"))
    } else if charged > recovery.options.index_bytes {
        Some(
            error::limit(
                "shared_wal_index_bytes",
                charged as u64,
                recovery.options.index_bytes,
            ),
        )
    } else {
        None
    }
}

/// The log that a recovery yields.
pub open spec fn recovered(recovery: RecoveryView) -> WalView {
    let fresh = continues_fresh(recovery);
    let number = if fresh {
        (last_number(recovery) + 1) as u64
    } else {
        last_number(recovery)
    };
    let lsn = (expected_lsn(recovery) - 1) as u64;
    WalView {
        identity: recovery.identity,
        options: recovery.options,
        segment: number,
        offset: if fresh {
            frame::SEGMENT_HEADER as u64
        } else {
            recovery.segments[number].length
        },
        lsn,
        durable: lsn,
        buffer: Seq::empty(),
        storage: if fresh {
            (recovery.storage + frame::SEGMENT_HEADER) as u64
        } else {
            recovery.storage
        },
        charged: if fresh {
            (recovery.charged + 128) as u64
        } else {
            recovery.charged
        },
        scratch_bytes: 0,
        members: members_settled(recovery.members),
        segments: if fresh {
            recovery.segments.insert(
                number,
                SegmentView { length: frame::SEGMENT_HEADER as u64, members: Map::empty() },
            )
        } else {
            recovery.segments
        },
        poison: false,
        writes: 0,
        syncs: 0,
    }
}

/// The file work that completes a recovery.
pub open spec fn finish_actions(recovery: RecoveryView) -> Seq<state::ActionView> {
    let number = (last_number(recovery) + 1) as u64;
    if continues_fresh(recovery) {
        seq![
            state::ActionView::CreateSegment {
                segment: number,
                header: frame::sealed(
                    frame::segment_header_body(
                        recovery.identity@,
                        number,
                        expected_lsn(recovery),
                    ),
                ),
            },
            state::ActionView::SyncData,
        ]
    } else {
        seq![state::ActionView::SyncData]
    }
}

/// Settles every member in place.
fn settle_members(members: &mut OrderedMap<SharedDbId, Member>) -> (r: Result<()>)
    requires
        old(members).wf(),
    ensures
        match r {
            Ok(_) => {
                &&& final(members).wf()
                &&& state::member_views(final(members)@) == members_settled(
                    state::member_views(old(members)@),
                )
                &&& state::total_member_charge(final(members).entries@)
                    == state::total_member_charge(old(members).entries@)
                &&& forall|id: SharedDbId| #[trigger]
                    state::member_views(old(members)@).contains_key(id) ==> member_anchored(
                        state::member_views(old(members)@)[id],
                    )
            },
            Err(e) => {
                &&& e == frame::shared("archive anchor missing from recoverable data")
                &&& !(forall|id: SharedDbId| #[trigger]
                    state::member_views(old(members)@).contains_key(id) ==> member_anchored(
                        state::member_views(old(members)@)[id],
                    ))
            },
        },
{
    let ghost start = members.entries@;
    let count: usize = members.len();
    let mut index: usize = 0;
    while index < count
        invariant
            index <= count,
            count == start.len(),
            start == old(members).entries@,
            members.wf(),
            old(members).wf(),
            members.entries@.len() == start.len(),
            state::total_member_charge(members.entries@) == state::total_member_charge(start),
            forall|k: int|
                0 <= k < start.len() ==> (#[trigger] members.entries@[k]).0 == start[k].0,
            forall|k: int|
                0 <= k < index ==> (#[trigger] members.entries@[k]).1@ == member_settled(
                    start[k].1@,
                ),
            forall|k: int| index <= k < start.len() ==> #[trigger] members.entries@[k] == start[k],
            forall|k: int| 0 <= k < index ==> member_anchored((#[trigger] start[k]).1@),
        decreases count - index,
    {
        let ghost table = members.entries@;
        let member = members.value_mut(index);
        if member.seq < member.checkpoint {
            member.seq = member.checkpoint;
            member.latest = Pointer::none();
        }
        member.durable_seq = member.seq;
        member.durable_pointer = member.latest;
        let seq: u64 = member.seq;
        let mut anchored: bool = true;
        match member.protection() {
            Some(protection) => {
                if protection.latest.seq != seq {
                    anchored = false;
                }
                member.archive = state::boxed(
                    Some(
                        Protection {
                            options: protection.options,
                            initial: protection.initial,
                            released: protection.released,
                            latest: protection.latest,
                            durable: protection.latest,
                        },
                    ),
                );
            },
            None => {},
        }
        proof {
            let after = members.entries@[index as int].1;
            assert(members.entries@ =~= table.update(index as int, (table[index as int].0, after)));
            ordmap::update_is_insert(table, index as int, after);
            state::member_charge_update(table, index as int, (table[index as int].0, after));
        }
        if !anchored {
            proof {
                ordmap::lookup_at(start, index as int);
                state::member_view_at(old(members)@, start[index as int].0);
                assert(!member_anchored(start[index as int].1@));
                assert(state::member_views(old(members)@).contains_key(start[index as int].0));
            }
            return Err(frame::invalid("archive anchor missing from recoverable data"));
        }
        index += 1;
    }
    proof {
        let before = state::member_views(old(members)@);
        let after = state::member_views(members@);
        assert forall|id: SharedDbId| #[trigger] before.contains_key(id) implies member_anchored(
            before[id],
        ) by {
            let k = ordmap::key_index(start, id);
            assert(start[k].0 == id);
            ordmap::lookup_at(start, k);
        }
        assert forall|id: SharedDbId| #[trigger]
            after.contains_key(id) == members_settled(before).contains_key(id) by {
            if ordmap::has_key(start, id) {
                let k = ordmap::key_index(start, id);
                assert(start[k].0 == id);
                assert(members.entries@[k].0 == id);
            }
            if ordmap::has_key(members.entries@, id) {
                let k = ordmap::key_index(members.entries@, id);
                assert(members.entries@[k].0 == id);
                assert(start[k].0 == id);
            }
        }
        assert forall|id: SharedDbId| #[trigger] after.contains_key(id) implies after[id]
            == members_settled(before)[id] by {
            let k = ordmap::key_index(members.entries@, id);
            assert(members.entries@[k].0 == id);
            ordmap::lookup_at(members.entries@, k);
            ordmap::lookup_at(start, k);
        }
        assert(after =~= members_settled(before));
    }
    Ok(())
}

impl Recovery {
    /// Turns a recovery that has read every segment into a log that can be appended to.
    pub fn finish(self) -> (r: Result<(SharedWal, Vec<Action>)>)
        requires
            self.wf(),
            self@.index == self@.paths.len(),
        ensures
            match finish_refusal(self@) {
                Some(e) => r matches Err(found) && found == e,
                None => {
                    &&& r matches Ok((wal, actions))
                    &&& wal.wf()
                    &&& wal@ == recovered(self@)
                    &&& state::action_views(actions@) == finish_actions(self@)
                },
            },
    {
        let ghost before = self@;
        let mut members = self.members;
        match settle_members(&mut members) {
            Ok(_) => {},
            Err(e) => {
                proof {
                    let id = choose|id: SharedDbId| #[trigger]
                        state::member_views(self.members@).contains_key(id) && !member_anchored(
                            state::member_views(self.members@)[id],
                        );
                    assert(before.members.contains_key(id) && !member_anchored(
                        before.members[id],
                    ));
                }
                return Err(e);
            },
        }
        let next: u64 = match self.next_lsn {
            Some(next) => next,
            None => 1,
        };
        let count: usize = self.paths.len();
        let last: u64 = if count == 0 {
            0
        } else {
            self.paths[count - 1]
        };
        let mut actions: Vec<Action> = Vec::new();
        let mut segments = self.segments;
        let ghost entries = segments.entries@;
        let mut storage: u64 = self.storage;
        let mut charged: u64 = self.charged;
        let mut number: u64 = last;
        let mut offset: u64 = frame::SEGMENT_HEADER as u64;
        if last == 0 || self.rotate {
            number = match frame::add(last, 1) {
                Ok(number) => number,
                Err(e) => return Err(e),
            };
            if storage + frame::SEGMENT_HEADER as u64 > self.options.max_bytes {
                return Err(
                    Error::limit(
                        "shared_wal_storage_bytes",
                        storage + frame::SEGMENT_HEADER as u64,
                        self.options.max_bytes,
                    ),
                );
            }
            charged = match frame::add(charged, 128) {
                Ok(charged) => charged,
                Err(e) => return Err(e),
            };
            let header = frame::segment_header(&self.identity, number, next);
            actions.push(Action::CreateSegment { segment: number, header });
            let fresh = Segment {
                length: frame::SEGMENT_HEADER as u64,
                members: OrderedMap::new(),
            };
            segments.insert(number, fresh);
            storage = storage + frame::SEGMENT_HEADER as u64;
            proof {
                pushed_last(entries, number, fresh);
                state::totals_push(entries, (number, fresh));
                state::segment_view_insert(self.segments@, number, fresh);
                assert(fresh@.members =~= Map::empty());
            }
        } else {
            offset = segments.entries[count - 1].1.length;
            proof {
                ordmap::lookup_at(entries, count - 1);
            }
        }
        if charged > self.options.index_bytes {
            return Err(Error::limit("shared_wal_index_bytes", charged, self.options.index_bytes));
        }
        actions.push(Action::SyncData);
        let wal = SharedWal {
            identity: self.identity,
            options: self.options,
            segment: number,
            offset,
            lsn: next - 1,
            durable: next - 1,
            buffer: Vec::new(),
            storage,
            charged,
            scratch_bytes: 0,
            members,
            segments,
            poison: false,
            writes: 0,
            syncs: 0,
        };
        proof {
            assert(wal@.buffer =~= Seq::<u8>::empty());
            assert(state::action_views(actions@) =~= finish_actions(before));
            assert(wal@ == recovered(before));
        }
        Ok((wal, actions))
    }
}

/// The number of a segment file, from its name.
pub open spec fn number_of(name: Seq<u8>) -> Result<u64> {
    if !vstd::utf8::valid_utf8(name) {
        Err(frame::shared("non UTF-8 segment filename"))
    } else {
        frame::segment_number(name)
    }
}

/// The numbers of segment files in the order in which their names came, within the budget.
pub open spec fn numbers_of(names: Seq<Seq<u8>>, options: SharedWalOptions) -> Result<Seq<u64>>
    decreases names.len(),
{
    if names.len() == 0 {
        Ok(Seq::empty())
    } else {
        match numbers_of(names.drop_last(), options) {
            Err(e) => Err(e),
            Ok(earlier) => match number_of(names.last()) {
                Err(e) => Err(e),
                Ok(number) => if names.len() > options.index_bytes / 128 {
                    Err(
                        error::limit(
                            "shared_wal_segments",
                            names.len() as u64,
                            options.index_bytes / 128,
                        ),
                    )
                } else {
                    Ok(earlier.push(number))
                },
            },
        }
    }
}

pub open spec fn name_views(names: Seq<Vec<u8>>) -> Seq<Seq<u8>> {
    names.map_values(|name: Vec<u8>| name@)
}

pub open spec fn ascending(numbers: Seq<u64>) -> bool {
    forall|i: int, j: int| 0 <= i < j < numbers.len() ==> numbers[i] <= numbers[j]
}

proof fn name_refusal_is_final(names: Seq<Seq<u8>>, options: SharedWalOptions, count: int)
    requires
        0 <= count <= names.len(),
    ensures
        numbers_of(names.take(count), options) is Err ==> numbers_of(names, options) == numbers_of(
            names.take(count),
            options,
        ),
    decreases names.len() - count,
{
    if count < names.len() {
        name_refusal_is_final(names, options, count + 1);
        assert(names.take(count + 1).drop_last() =~= names.take(count));
    } else {
        assert(names.take(count) =~= names);
    }
}

/// Puts a number into its place in an ascending vector.
fn insert_ascending(numbers: &mut Vec<u64>, number: u64)
    requires
        ascending(old(numbers)@),
    ensures
        ascending(final(numbers)@),
        final(numbers)@.to_multiset() == old(numbers)@.to_multiset().insert(number),
        final(numbers)@.len() == old(numbers)@.len() + 1,
{
    let mut at: usize = numbers.len();
    while at > 0 && numbers[at - 1] > number
        invariant
            at <= numbers@.len(),
            forall|j: int| at <= j < numbers@.len() ==> number < #[trigger] numbers@[j],
        decreases at,
    {
        at -= 1;
    }
    let ghost before = numbers@;
    numbers.insert(at, number);
    proof {
        let after = numbers@;
        assert(after.remove(at as int) =~= before);
        after.to_multiset_ensures();
        assert(after.contains(after[at as int]));
        assert(after.to_multiset().remove(number) == before.to_multiset());
        assert(after.to_multiset() =~= before.to_multiset().insert(number));
        assert(forall|j: int|
            0 <= j < after.len() ==> #[trigger] after[j] == (if j < at {
                before[j]
            } else if j == at {
                number
            } else {
                before[j - 1]
            }));
    }
}

/// The numbers of the segment files, ascending.
pub fn segment_numbers(file_names: &[Vec<u8>], options: SharedWalOptions) -> (r: Result<Vec<u64>>)
    ensures
        match (r, numbers_of(name_views(file_names@), options)) {
            (Ok(numbers), Ok(found)) => ascending(numbers@) && numbers@.to_multiset()
                == found.to_multiset(),
            (Err(e), Err(expected)) => e == expected,
            _ => false,
        },
{
    let ghost views = name_views(file_names@);
    let mut numbers: Vec<u64> = Vec::new();
    let mut index: usize = 0;
    assert(views.take(0) =~= Seq::<Seq<u8>>::empty());
    while index < file_names.len()
        invariant
            index <= file_names@.len(),
            views == name_views(file_names@),
            numbers@.len() == index,
            ascending(numbers@),
            numbers_of(views.take(index as int), options) matches Ok(found)
                && found.to_multiset() == numbers@.to_multiset(),
        decreases file_names@.len() - index,
    {
        proof {
            assert(views.take(index + 1).drop_last() =~= views.take(index as int));
            assert(views.take(index + 1).last() == file_names@[index as int]@);
            name_refusal_is_final(views, options, index + 1);
            numbers_of(views.take(index as int), options)->Ok_0.to_multiset_ensures();
        }
        if !text::is_utf8(file_names[index].as_slice()) {
            return Err(frame::invalid("non UTF-8 segment filename"));
        }
        let number: u64 = match frame::parse_segment(file_names[index].as_slice()) {
            Ok(number) => number,
            Err(e) => return Err(e),
        };
        if (index as u64) >= options.index_bytes / 128 {
            return Err(
                Error::limit(
                    "shared_wal_segments",
                    index as u64 + 1,
                    options.index_bytes / 128,
                ),
            );
        }
        insert_ascending(&mut numbers, number);
        index += 1;
    }
    assert(views.take(views.len() as int) =~= views);
    Ok(numbers)
}

/// Reading a segment back repeats what appending did: the frame of an accepted record is accepted
/// for its member in its place, and moves the member, its archive chain included, to where
/// appending moved it.
pub proof fn recovery_repeats_append(
    wal: WalView,
    id: SharedDbId,
    seq: u64,
    raw: Seq<u8>,
    digest: [u8; 32],
    member: MemberView,
)
    requires
        wal.options.valid(),
        store::append_denial(wal, id, seq, raw.len() as int, digest) is None,
        17 <= raw.len() <= frame::MAX_FRAME - frame::FRAME_HEADER,
        wal.members[id].initialized && !wal.members[id].retired,
        wal.members[id].latest == Pointer::spec_none() ==> wal.members[id].seq
            == wal.members[id].checkpoint,
        wal.members[id].archive matches Some(protection) ==> protection.released.seq < seq,
        member == (MemberView {
            durable_seq: member.durable_seq,
            durable_pointer: member.durable_pointer,
            archive: member.archive,
            bytes: member.bytes,
            ..wal.members[id]
        }),
        member.bytes <= wal.members[id].bytes,
        match (member.archive, wal.members[id].archive) {
            (Some(replayed), Some(protection)) => replayed == (Protection {
                durable: replayed.durable,
                ..protection
            }),
            (None, None) => true,
            _ => false,
        },
    ensures
        ({
            let after = store::appended(wal, id, seq, raw, digest);
            let base = store::positioned(wal, store::length_of(raw.len() as int));
            let pointer = Pointer { segment: base.segment, offset: base.offset };
            let source = frame::frame_bytes(store::frame_of(wal, id, seq, raw));
            &&& frame::inspected(source, Ok(seq)) == Ok::<FrameView, Error>(
                store::frame_of(wal, id, seq, raw),
            )
            &&& member_replayed(
                member,
                store::frame_of(wal, id, seq, raw),
                pointer,
                source.len() as int,
                digest,
            ) matches Ok(replayed)
            &&& replayed.latest == pointer
            &&& after.members[id].latest == pointer
            &&& replayed.seq == after.members[id].seq
            &&& replayed.lsn == after.members[id].lsn == after.lsn
            &&& match (replayed.archive, after.members[id].archive) {
                (Some(found), Some(expected)) => found.latest == expected.latest && found.released
                    == expected.released,
                (None, None) => true,
                _ => false,
            }
        }),
{
    let frame = store::frame_of(wal, id, seq, raw);
    frame::frame_round_trip(frame);
}

/// A listing is read as one number for each name, in their order, where every name is that of a
/// segment file; only the number of files that the index has room for is read.
pub proof fn listings_are_read(names: Seq<Seq<u8>>, options: SharedWalOptions)
    ensures
        numbers_of(names, options) matches Ok(found) ==> found.len() == names.len() && forall|i: int|
            0 <= i < names.len() ==> names[i] == frame::segment_file(#[trigger] found[i]),
        numbers_of(names, options) is Ok <==> (names.len() == 0 || names.len() <= options.index_bytes
            / 128) && forall|i: int|
            0 <= i < names.len() ==> vstd::utf8::valid_utf8(#[trigger] names[i]) && exists|number: u64|
                number != 0 && names[i] == #[trigger] frame::segment_file(number),
    decreases names.len(),
{
    if names.len() > 0 {
        let earlier = names.drop_last();
        listings_are_read(earlier, options);
        let last = names.last();
        assert(forall|i: int| 0 <= i < earlier.len() ==> earlier[i] == names[i]);
        if let Ok(number) = number_of(last) {
            assert(number != 0);
            frame::segment_name_round_trip(number, last);
            assert(last == frame::segment_file(number));
        }
        if vstd::utf8::valid_utf8(last) && exists|number: u64|
            number != 0 && last == #[trigger] frame::segment_file(number) {
            let number = choose|number: u64| number != 0 && last == #[trigger] frame::segment_file(number);
            frame::segment_name_round_trip(number, last);
        }
        assert(number_of(last) is Ok <==> vstd::utf8::valid_utf8(last) && exists|number: u64|
            number != 0 && last == #[trigger] frame::segment_file(number));
        assert(last == names[names.len() - 1]);
        if numbers_of(names, options) is Ok {
            assert forall|i: int| 0 <= i < names.len() implies vstd::utf8::valid_utf8(
                #[trigger] names[i],
            ) && exists|number: u64| number != 0 && names[i] == #[trigger] frame::segment_file(number) by {
                if i < earlier.len() {
                    assert(earlier[i] == names[i]);
                }
            }
        }
        if (names.len() <= options.index_bytes / 128) && forall|i: int|
            0 <= i < names.len() ==> vstd::utf8::valid_utf8(#[trigger] names[i]) && exists|number: u64|
                number != 0 && names[i] == #[trigger] frame::segment_file(number) {
            assert forall|i: int| 0 <= i < earlier.len() implies vstd::utf8::valid_utf8(
                #[trigger] earlier[i],
            ) && exists|number: u64| number != 0 && earlier[i] == #[trigger] frame::segment_file(number) by {
                assert(earlier[i] == names[i]);
            }
        }
    }
}

} // verus!
