//! A log that is read back from its files is the log that was written.
use vstd::prelude::*;

use super::archive::Protection;
use super::boundary::Boundary;
use super::frame::{self, Pointer};
use super::member::{self, ChainView};
use super::recover::{self, Found, RecoveryView, ScanView};
use super::state::{ActionView, MemberView, SegmentView, WalView};
use super::store;
use super::types::{SharedDbId, SharedWalOptions};
use crate::error::Error;

verus! {

/// A record on its way into the log, with the archive chain digest that covers it.
pub struct Entry {
    pub id: SharedDbId,
    pub seq: u64,
    pub raw: Seq<u8>,
    pub digest: [u8; 32],
}

/// Whether the log takes the record, and the record can be read back: its length is that of a
/// frame, its member is a live one, and a sequence number is left behind it.
pub open spec fn taken(wal: WalView, entry: Entry) -> bool {
    &&& store::append_denial(wal, entry.id, entry.seq, entry.raw.len() as int, entry.digest) is None
    &&& 17 <= entry.raw.len() <= frame::MAX_FRAME - frame::FRAME_HEADER
    &&& wal.members[entry.id].initialized
    &&& !wal.members[entry.id].retired
    &&& wal.lsn + 1 < u64::MAX
}

pub open spec fn logged(wal: WalView, entry: Entry) -> WalView {
    store::appended(wal, entry.id, entry.seq, entry.raw, entry.digest)
}

/// The log after the records, in order.
pub open spec fn logged_all(wal: WalView, entries: Seq<Entry>) -> WalView
    decreases entries.len(),
{
    if entries.len() == 0 {
        wal
    } else {
        logged_all(logged(wal, entries[0]), entries.skip(1))
    }
}

/// Whether the log takes all of the records, in order.
pub open spec fn all_taken(wal: WalView, entries: Seq<Entry>) -> bool
    decreases entries.len(),
{
    entries.len() > 0 ==> taken(wal, entries[0]) && all_taken(
        logged(wal, entries[0]),
        entries.skip(1),
    )
}

pub open spec fn frame_of(wal: WalView, entry: Entry) -> Seq<u8> {
    frame::frame_bytes(store::frame_of(wal, entry.id, entry.seq, entry.raw))
}

pub open spec fn header_of(wal: WalView, segment: u64, first: u64) -> Seq<u8> {
    frame::sealed(frame::segment_header_body(wal.identity@, segment, first))
}

/// The segment files with the record in them.
pub open spec fn grown(files: Map<u64, Seq<u8>>, wal: WalView, entry: Entry) -> Map<u64, Seq<u8>> {
    if store::rolls(wal, store::length_of(entry.raw.len() as int)) {
        let fresh = (wal.segment + 1) as u64;
        files.insert(fresh, header_of(wal, fresh, (wal.lsn + 1) as u64) + frame_of(wal, entry))
    } else {
        files.insert(wal.segment, files[wal.segment] + frame_of(wal, entry))
    }
}

pub open spec fn grown_all(
    files: Map<u64, Seq<u8>>,
    wal: WalView,
    entries: Seq<Entry>,
) -> Map<u64, Seq<u8>>
    decreases entries.len(),
{
    if entries.len() == 0 {
        files
    } else {
        grown_all(grown(files, wal, entries[0]), logged(wal, entries[0]), entries.skip(1))
    }
}

/// The bytes of the files from `low` to `high`.
pub open spec fn span(files: Map<u64, Seq<u8>>, low: int, high: int) -> int
    decreases high - low + 1,
{
    if high < low {
        0
    } else {
        span(files, low, high - 1) + files[high as u64].len()
    }
}

/// Whether the files are those of the log: one for each segment, as long as the log says.
pub open spec fn filed(files: Map<u64, Seq<u8>>, wal: WalView, low: u64) -> bool {
    &&& 1 <= low <= wal.segment
    &&& forall|s: u64| #[trigger] files.contains_key(s) <==> low <= s <= wal.segment
    &&& forall|s: u64| #[trigger] wal.segments.contains_key(s) <==> low <= s <= wal.segment
    &&& forall|s: u64|
        low <= s <= wal.segment ==> (#[trigger] wal.segments[s]).length == files[s].len()
    &&& wal.offset == files[wal.segment].len()
    &&& wal.offset >= frame::SEGMENT_HEADER
    &&& wal.storage == span(files, low as int, wal.segment as int)
    &&& wal.storage <= wal.options.max_bytes
    &&& wal.charged <= wal.options.index_bytes
}

pub(crate) proof fn span_same(left: Map<u64, Seq<u8>>, right: Map<u64, Seq<u8>>, low: int, high: int)
    requires
        0 <= low,
        high <= u64::MAX,
        forall|s: u64| low <= s <= high ==> #[trigger] left[s] == right[s],
    ensures
        span(left, low, high) == span(right, low, high),
    decreases high - low + 1,
{
    if low <= high {
        span_same(left, right, low, high - 1);
        assert(left[high as u64] == right[high as u64]);
    }
}

pub(crate) proof fn header_length(wal: WalView, segment: u64, first: u64)
    ensures
        header_of(wal, segment, first).len() == frame::SEGMENT_HEADER,
{
    crate::bytes::scalars_round_trip();
}

/// One more record keeps the files those of the log.
pub(crate) proof fn grown_filed(files: Map<u64, Seq<u8>>, wal: WalView, entry: Entry, low: u64)
    requires
        wal.options.valid(),
        filed(files, wal, low),
        taken(wal, entry),
    ensures
        filed(grown(files, wal, entry), logged(wal, entry), low),
        logged(wal, entry).options == wal.options,
        logged(wal, entry).identity == wal.identity,
{
    let length = store::length_of(entry.raw.len() as int);
    let after = grown(files, wal, entry);
    let next = logged(wal, entry);
    frame::frame_round_trip(store::frame_of(wal, entry.id, entry.seq, entry.raw));
    if store::rolls(wal, length) {
        let fresh = (wal.segment + 1) as u64;
        header_length(wal, fresh, (wal.lsn + 1) as u64);
        span_same(files, after, low as int, wal.segment as int);
        assert(next.segment == fresh);
        assert(span(after, low as int, fresh as int) == span(after, low as int, wal.segment as int)
            + after[fresh].len());
    } else {
        span_same(files, after, low as int, wal.segment - 1);
        assert(next.segment == wal.segment);
    }
}

/// A recovery in the middle of a segment.
pub struct Reading {
    pub recovery: RecoveryView,
    pub scan: ScanView,
}

/// The reading after the frame at its position, if there is one that is accepted. The record in it
/// carries the sequence `seq`, and `digest` is the archive chain digest that covers it.
pub open spec fn read_frame(
    reading: Reading,
    files: Map<u64, Seq<u8>>,
    seq: u64,
    digest: [u8; 32],
) -> Option<Reading> {
    let content = files[reading.scan.number];
    match recover::found_at(reading.scan, content) {
        Ok(Found::Frame(length)) => {
            let source = content.subrange(
                reading.scan.offset as int,
                reading.scan.offset + length,
            );
            match recover::frame_outcome(
                reading.recovery,
                reading.scan,
                source,
                Ok(seq),
                digest,
            ) {
                Ok((frame, member, charged)) => Some(
                    Reading {
                        recovery: RecoveryView {
                            members: reading.recovery.members.insert(frame.id, member),
                            charged,
                            ..reading.recovery
                        },
                        scan: ScanView {
                            offset: (reading.scan.offset + length) as u64,
                            next: (reading.scan.next + 1) as u64,
                            members: reading.scan.members.insert(frame.id, frame.seq),
                            ..reading.scan
                        },
                    },
                ),
                Err(_) => None,
            }
        },
        _ => None,
    }
}

/// The recovery after the segment that was read to its end.
pub open spec fn closed(reading: Reading) -> RecoveryView {
    let scan = reading.scan;
    RecoveryView {
        index: reading.recovery.index + 1,
        segments: reading.recovery.segments.insert(
            scan.number,
            SegmentView { length: scan.length, members: scan.members },
        ),
        next_lsn: Some(scan.next),
        rotate: reading.recovery.rotate || (scan.last && scan.evidence is Some),
        ..reading.recovery
    }
}

/// The reading of the next segment, which has no boundary file, if its header is accepted.
pub open spec fn begun(recovery: RecoveryView, files: Map<u64, Seq<u8>>) -> Option<Reading> {
    let number = recovery.paths[recovery.index];
    let content = files[number];
    if recovery.index >= recovery.paths.len() || recover::segment_refusal(
        recovery,
        content,
        None,
    ) is Some || recover::starts_empty(content, None) {
        None
    } else {
        match recover::header_first(recovery, content) {
            Ok(first) => Some(
                Reading {
                    recovery: RecoveryView {
                        storage: (recovery.storage + content.len()) as u64,
                        charged: (recovery.charged + 128) as u64,
                        ..recovery
                    },
                    scan: ScanView {
                        number,
                        length: content.len() as u64,
                        end: content.len() as u64,
                        offset: frame::SEGMENT_HEADER as u64,
                        next: first,
                        last: recovery.index + 1 == recovery.paths.len(),
                        evidence: None,
                        members: Map::empty(),
                    },
                },
            ),
            Err(_) => None,
        }
    }
}

/// Whether a segment was read to its end and can be closed.
pub open spec fn at_end(reading: Reading, files: Map<u64, Seq<u8>>) -> bool {
    &&& recover::found_at(reading.scan, files[reading.scan.number]) == Ok::<Found, Error>(Found::End)
    &&& recover::segment_closing(reading.scan) is None
}

/// The reading after the next frame, in this segment or in the one that follows.
pub open spec fn read_next(
    reading: Reading,
    files: Map<u64, Seq<u8>>,
    seq: u64,
    digest: [u8; 32],
) -> Option<Reading> {
    if at_end(reading, files) {
        match begun(closed(reading), files) {
            Some(next) => read_frame(next, files, seq, digest),
            None => None,
        }
    } else {
        read_frame(reading, files, seq, digest)
    }
}

/// The reading after as many frames as there are entries, which carry their sequences and digests.
pub open spec fn read_all(
    reading: Reading,
    files: Map<u64, Seq<u8>>,
    entries: Seq<Entry>,
) -> Option<Reading>
    decreases entries.len(),
{
    if entries.len() == 0 {
        Some(reading)
    } else {
        match read_next(reading, files, entries[0].seq, entries[0].digest) {
            Some(next) => read_all(next, files, entries.skip(1)),
            None => None,
        }
    }
}

/// Whether a member that was read stands where the member that was written stood.
pub open spec fn same_member(found: MemberView, member: MemberView) -> bool {
    &&& found == (MemberView {
        durable_seq: found.durable_seq,
        durable_pointer: found.durable_pointer,
        archive: found.archive,
        bytes: found.bytes,
        ..member
    })
    &&& found.bytes <= member.bytes
    &&& match (found.archive, member.archive) {
        (Some(replayed), Some(protection)) => replayed == (Protection {
            durable: replayed.durable,
            ..protection
        }),
        (None, None) => true,
        _ => false,
    }
}

/// Whether a member's records begin behind its checkpoint, and its archive chain ends with them.
pub open spec fn steady(member: MemberView) -> bool {
    &&& member.latest == Pointer::spec_none() ==> member.seq == member.checkpoint
    &&& member.checkpoint <= member.seq
    &&& member.archive matches Some(protection) ==> protection.latest.seq == member.seq
        && protection.released.seq <= member.seq
}

/// Whether a reading has reached the position at which the log stood.
pub open spec fn reached(
    reading: Reading,
    files: Map<u64, Seq<u8>>,
    wal: WalView,
    low: u64,
) -> bool {
    let recovery = reading.recovery;
    let scan = reading.scan;
    &&& recovery.identity == wal.identity
    &&& recovery.options == wal.options
    &&& scan.number == wal.segment
    &&& scan.offset == wal.offset
    &&& scan.next == wal.lsn + 1
    &&& scan.evidence is None
    &&& scan.end == scan.length == files[wal.segment].len()
    &&& scan.members == wal.segments[wal.segment].members
    &&& 0 <= recovery.index < recovery.paths.len()
    &&& recovery.index == wal.segment - low
    &&& forall|i: int| 0 <= i < recovery.paths.len() ==> #[trigger] recovery.paths[i] == low + i
    &&& scan.last == (recovery.index + 1 == recovery.paths.len())
    &&& recovery.charged == wal.charged
    &&& recovery.storage == span(files, low as int, wal.segment as int)
    &&& !recovery.rotate
    &&& recovery.members.dom() == wal.members.dom()
    &&& forall|id: SharedDbId| #[trigger]
        wal.members.contains_key(id) ==> same_member(recovery.members[id], wal.members[id])
            && steady(wal.members[id])
    &&& recovery.segments == wal.segments.remove(wal.segment)
}

/// A frame that lies at the position reached is read as it was written.
proof fn frame_read(
    reading: Reading,
    files: Map<u64, Seq<u8>>,
    wal: WalView,
    entry: Entry,
    low: u64,
)
    requires
        wal.options.valid(),
        reached(reading, files, wal, low),
        taken(wal, entry),
        !store::rolls(wal, store::length_of(entry.raw.len() as int)),
        wal.charged + store::index_growth(
            wal,
            entry.id,
            store::length_of(entry.raw.len() as int),
        ) <= wal.options.index_bytes,
        wal.offset >= frame::SEGMENT_HEADER,
        wal.segment >= 1,
        wal.segments.contains_key(wal.segment),
        files[wal.segment].len() <= u64::MAX,
        wal.offset + frame_of(wal, entry).len() <= files[wal.segment].len(),
        files[wal.segment].subrange(
            wal.offset as int,
            wal.offset + frame_of(wal, entry).len(),
        ) == frame_of(wal, entry),
    ensures
        !at_end(reading, files),
        read_frame(reading, files, entry.seq, entry.digest) matches Some(next) && reached(
            next,
            files,
            logged(wal, entry),
            low,
        ),
{
    let content = files[wal.segment];
    let written = store::frame_of(wal, entry.id, entry.seq, entry.raw);
    let bytes = frame_of(wal, entry);
    let length = store::length_of(entry.raw.len() as int);
    let member = reading.recovery.members[entry.id];
    assert(wal.members.contains_key(entry.id));
    assert(reading.recovery.members.contains_key(entry.id));
    frame::frame_round_trip(written);
    recover::recovery_repeats_append(
        wal,
        entry.id,
        entry.seq,
        entry.raw,
        entry.digest,
        member,
    );
    let prefix = content.subrange(wal.offset as int, wal.offset + 4);
    assert(prefix.take(4) =~= bytes.take(4));
    assert(content.subrange(wal.offset as int, wal.offset + length) == bytes);
    assert(recover::found_at(reading.scan, content) == Ok::<Found, Error>(
        Found::Frame(length as usize),
    ));
    let pointer = Pointer { segment: wal.segment, offset: wal.offset };
    let base = store::positioned(wal, length);
    assert(base.segment == wal.segment && base.offset == wal.offset);
    let after = logged(wal, entry);
    let next = read_frame(reading, files, entry.seq, entry.digest);
    assert(next is Some);
    let seen = next->Some_0;
    assert(seen.recovery.members.dom() =~= after.members.dom());
    assert forall|id: SharedDbId| #[trigger] after.members.contains_key(id) implies same_member(
        seen.recovery.members[id],
        after.members[id],
    ) && steady(after.members[id]) by {
        if id != entry.id {
            assert(wal.members.contains_key(id));
        }
    }
    assert(seen.recovery.segments =~= after.segments.remove(after.segment));
}

/// The log with a fresh segment in which nothing lies yet.
pub open spec fn turned(wal: WalView) -> WalView {
    WalView { charged: (wal.charged + 128) as u64, ..store::rolled(wal) }
}

/// A record that needs a fresh segment goes into the log as if the segment had been there.
pub(crate) proof fn turned_takes(wal: WalView, entry: Entry)
    requires
        wal.options.valid(),
        taken(wal, entry),
        store::rolls(wal, store::length_of(entry.raw.len() as int)),
    ensures
        taken(turned(wal), entry),
        !store::rolls(turned(wal), store::length_of(entry.raw.len() as int)),
        logged(turned(wal), entry) == logged(wal, entry),
        frame_of(turned(wal), entry) == frame_of(wal, entry),
{
    let length = store::length_of(entry.raw.len() as int);
    let ahead = turned(wal);
    assert(store::positioned(ahead, length).segments == store::positioned(wal, length).segments);
    assert(store::frame_of(ahead, entry.id, entry.seq, entry.raw) == store::frame_of(
        wal,
        entry.id,
        entry.seq,
        entry.raw,
    ));
    assert(ahead.segments[ahead.segment].members =~= Map::empty());
    assert(!ahead.segments[ahead.segment].members.contains_key(entry.id));
}

/// At the end of a segment the reading goes on in the next one.
proof fn segment_turned(
    reading: Reading,
    files: Map<u64, Seq<u8>>,
    wal: WalView,
    low: u64,
)
    requires
        wal.options.valid(),
        reached(reading, files, wal, low),
        wal.lsn + 1 < u64::MAX,
        wal.segment < u64::MAX,
        wal.charged + 128 <= wal.options.index_bytes,
        reading.recovery.index + 1 < reading.recovery.paths.len(),
        files[wal.segment].len() == wal.offset,
        wal.segments.contains_key(wal.segment),
        wal.segments[wal.segment].length == wal.offset,
        !wal.segments.contains_key((wal.segment + 1) as u64),
        files[(wal.segment + 1) as u64].len() >= frame::SEGMENT_HEADER,
        files[(wal.segment + 1) as u64].take(frame::SEGMENT_HEADER as int) == header_of(
            wal,
            (wal.segment + 1) as u64,
            (wal.lsn + 1) as u64,
        ),
        span(files, low as int, wal.segment + 1) <= wal.options.max_bytes,
    ensures
        at_end(reading, files),
        begun(closed(reading), files) matches Some(next) && reached(
            next,
            files,
            turned(wal),
            low,
        ),
{
    let fresh = (wal.segment + 1) as u64;
    let content = files[fresh];
    let recovery = closed(reading);
    assert(recovery.paths[recovery.index] == fresh);
    assert(recovery.paths[recovery.index - 1] == wal.segment);
    frame::segment_header_round_trip(wal.identity@, fresh, (wal.lsn + 1) as u64);
    assert(span(files, low as int, fresh as int) == span(files, low as int, wal.segment as int)
        + content.len());
    assert(recover::segment_refusal(recovery, content, None) is None);
    assert(recover::header_first(recovery, content) == Ok::<u64, Error>((wal.lsn + 1) as u64));
    let after = turned(wal);
    let next = begun(recovery, files)->Some_0;
    assert(next.scan.members =~= after.segments[after.segment].members);
    let last = SegmentView {
        length: reading.scan.length,
        members: wal.segments[wal.segment].members,
    };
    assert(wal.segments[wal.segment] == last);
    assert(next.recovery.segments =~= after.segments.remove(after.segment));
    assert(next.recovery.members.dom() =~= after.members.dom());
    assert forall|id: SharedDbId| #[trigger] after.members.contains_key(id) implies same_member(
        next.recovery.members[id],
        after.members[id],
    ) && steady(after.members[id]) by {
        assert(wal.members.contains_key(id));
    }
}

/// What more records leave of the files: complete segments stay as they are, and the active one is
/// only added to.
proof fn grown_keeps(files: Map<u64, Seq<u8>>, wal: WalView, entries: Seq<Entry>, low: u64)
    requires
        wal.options.valid(),
        filed(files, wal, low),
        all_taken(wal, entries),
    ensures
        ({
            let end = grown_all(files, wal, entries);
            let after = logged_all(wal, entries);
            &&& filed(end, after, low)
            &&& after.options == wal.options
            &&& after.identity == wal.identity
            &&& wal.segment <= after.segment
            &&& forall|s: u64| low <= s < wal.segment ==> #[trigger] end[s] == files[s]
            &&& files[wal.segment].len() <= end[wal.segment].len()
            &&& end[wal.segment].take(files[wal.segment].len() as int) == files[wal.segment]
        }),
    decreases entries.len(),
{
    if entries.len() > 0 {
        let next = grown(files, wal, entries[0]);
        let ahead = logged(wal, entries[0]);
        let end = grown_all(next, ahead, entries.skip(1));
        grown_filed(files, wal, entries[0], low);
        grown_keeps(next, ahead, entries.skip(1), low);
        if ahead.segment == wal.segment {
            let count = files[wal.segment].len() as int;
            assert(next[wal.segment].take(count) =~= files[wal.segment]);
            assert(end[wal.segment].take(count) =~= end[wal.segment].take(
                next[wal.segment].len() as int,
            ).take(count));
        } else {
            assert(end[wal.segment] == next[wal.segment]);
            assert(files[wal.segment].take(files[wal.segment].len() as int)
                =~= files[wal.segment]);
        }
    } else {
        assert(files[wal.segment].take(files[wal.segment].len() as int) =~= files[wal.segment]);
    }
}

pub(crate) proof fn span_grows(files: Map<u64, Seq<u8>>, low: int, middle: int, high: int)
    requires
        middle <= high,
    ensures
        0 <= span(files, low, middle) <= span(files, low, high),
    decreases high - middle, high - low + 1,
{
    span_nonnegative(files, low, middle);
    if middle < high {
        span_grows(files, low, middle, high - 1);
        span_nonnegative(files, low, high - 1);
        if high < low {
            assert(span(files, low, high) == 0);
        }
    }
}

pub(crate) proof fn span_nonnegative(files: Map<u64, Seq<u8>>, low: int, high: int)
    ensures
        span(files, low, high) >= 0,
    decreases high - low + 1,
{
    if low <= high {
        span_nonnegative(files, low, high - 1);
    }
}

/// Reading on from where the log stood leads to where the log stands after more records.
proof fn reading_follows(
    reading: Reading,
    files: Map<u64, Seq<u8>>,
    wal: WalView,
    entries: Seq<Entry>,
    low: u64,
)
    requires
        wal.options.valid(),
        filed(files, wal, low),
        all_taken(wal, entries),
        reached(reading, grown_all(files, wal, entries), wal, low),
        reading.recovery.paths.len() == logged_all(wal, entries).segment - low + 1,
    ensures
        read_all(reading, grown_all(files, wal, entries), entries) matches Some(last) && reached(
            last,
            grown_all(files, wal, entries),
            logged_all(wal, entries),
            low,
        ) && last.recovery.paths == reading.recovery.paths,
    decreases entries.len(),
{
    if entries.len() > 0 {
        let entry = entries[0];
        let rest = entries.skip(1);
        let next = grown(files, wal, entry);
        let ahead = logged(wal, entry);
        let end = grown_all(files, wal, entries);
        let length = store::length_of(entry.raw.len() as int);
        let bytes = frame_of(wal, entry);
        grown_filed(files, wal, entry, low);
        grown_keeps(files, wal, entries, low);
        grown_keeps(next, ahead, rest, low);
        frame::frame_round_trip(store::frame_of(wal, entry.id, entry.seq, entry.raw));
        let now = next[ahead.segment];
        assert(end[ahead.segment].take(now.len() as int) == now);
        span_grows(end, low as int, ahead.segment as int, logged_all(wal, entries).segment as int);
        single_length(end, low as int, ahead.segment as int);
        if store::rolls(wal, length) {
            let header = header_of(wal, ahead.segment, (wal.lsn + 1) as u64);
            header_length(wal, ahead.segment, (wal.lsn + 1) as u64);
            assert(end[wal.segment] == next[wal.segment]);
            assert(end[ahead.segment].take(64) =~= now.take(64));
            assert(now.take(64) =~= header);
            segment_turned(reading, end, wal, low);
            turned_takes(wal, entry);
            let onward = begun(closed(reading), end)->Some_0;
            let stop = 64 + bytes.len() as int;
            assert(end[ahead.segment].subrange(64, stop) =~= now.subrange(64, stop));
            assert(now.subrange(64, stop) =~= bytes);
            frame_read(onward, end, turned(wal), entry, low);
        } else {
            let start = wal.offset as int;
            assert(end[wal.segment].subrange(start, start + bytes.len()) =~= now.subrange(
                start,
                start + bytes.len(),
            ));
            assert(now.subrange(start, start + bytes.len()) =~= bytes);
            frame_read(reading, end, wal, entry, low);
        }
        let onward = read_next(reading, end, entry.seq, entry.digest)->Some_0;
        reading_follows(onward, next, ahead, rest, low);
    }
}

/// One file is no longer than the span that it is in.
pub(crate) proof fn single_length(files: Map<u64, Seq<u8>>, low: int, high: int)
    requires
        low <= high,
    ensures
        files[high as u64].len() <= span(files, low, high),
{
    span_nonnegative(files, low, high - 1);
}

/// The segment files as the embedder keeps them, and the one that is written to.
pub struct Disk {
    pub files: Map<u64, Seq<u8>>,
    pub active: u64,
}

pub open spec fn performed(disk: Disk, action: ActionView) -> Disk {
    match action {
        ActionView::Write(bytes) => Disk {
            files: disk.files.insert(disk.active, disk.files[disk.active] + bytes),
            ..disk
        },
        ActionView::SyncData => disk,
        ActionView::CreateSegment { segment, header } => Disk {
            files: disk.files.insert(segment, header),
            active: segment,
        },
        ActionView::RemoveSegment(number) => Disk { files: disk.files.remove(number), ..disk },
    }
}

/// The files after the actions, in order.
pub open spec fn performed_all(disk: Disk, actions: Seq<ActionView>) -> Disk
    decreases actions.len(),
{
    if actions.len() == 0 {
        disk
    } else {
        performed(performed_all(disk, actions.drop_last()), actions.last())
    }
}

/// The files after the records were appended, in order.
pub open spec fn disk_all(disk: Disk, wal: WalView, entries: Seq<Entry>) -> Disk
    decreases entries.len(),
{
    if entries.len() == 0 {
        disk
    } else {
        let length = store::length_of(entries[0].raw.len() as int);
        disk_all(
            performed_all(disk, store::append_actions(wal, length)),
            logged(wal, entries[0]),
            entries.skip(1),
        )
    }
}

/// What the files hold once the buffered bytes are written.
pub open spec fn contents(disk: Disk, wal: WalView) -> Map<u64, Seq<u8>> {
    disk.files.insert(wal.segment, disk.files[wal.segment] + wal.buffer)
}

/// Whether the embedder stands where the log stands.
pub open spec fn in_step(disk: Disk, wal: WalView) -> bool {
    &&& disk.active == wal.segment
    &&& disk.files.contains_key(wal.segment)
    &&& wal.durable <= wal.lsn
    &&& wal.durable == wal.lsn ==> wal.buffer.len() == 0
}

/// Flushing writes what was buffered.
proof fn flush_fills(disk: Disk, wal: WalView)
    requires
        disk.active == wal.segment,
        disk.files.contains_key(wal.segment),
    ensures
        performed_all(disk, store::flush_actions(wal)) == (Disk {
            files: contents(disk, wal),
            ..disk
        }),
{
    let actions = store::flush_actions(wal);
    if wal.buffer.len() == 0 {
        assert(disk.files[wal.segment] + wal.buffer =~= disk.files[wal.segment]);
        assert(contents(disk, wal) =~= disk.files);
    } else {
        reveal_with_fuel(performed_all, 2);
        assert(actions.drop_last() =~= Seq::empty());
    }
}

/// A sync leaves nothing in the buffer that is not in the files.
pub proof fn syncing_fills_the_files(disk: Disk, wal: WalView)
    requires
        in_step(disk, wal),
    ensures
        performed_all(disk, store::sync_actions(wal)) == (Disk {
            files: contents(disk, wal),
            ..disk
        }),
{
    if wal.durable == wal.lsn {
        assert(disk.files[wal.segment] + wal.buffer =~= disk.files[wal.segment]);
        assert(contents(disk, wal) =~= disk.files);
    } else {
        flush_fills(disk, wal);
        let actions = store::sync_actions(wal);
        assert(actions.drop_last() =~= store::flush_actions(wal));
    }
}

/// Appending adds the record to the files and the buffer together, and nothing else.
pub proof fn appending_fills_the_files(disk: Disk, wal: WalView, entry: Entry)
    requires
        in_step(disk, wal),
        taken(wal, entry),
    ensures
        ({
            let length = store::length_of(entry.raw.len() as int);
            let after = performed_all(disk, store::append_actions(wal, length));
            &&& in_step(after, logged(wal, entry))
            &&& contents(after, logged(wal, entry)) == grown(contents(disk, wal), wal, entry)
        }),
{
    let length = store::length_of(entry.raw.len() as int);
    let bytes = frame_of(wal, entry);
    let next = logged(wal, entry);
    if store::rolls(wal, length) {
        let base = store::rolled(wal);
        let actions = store::roll_actions(wal);
        let fresh = (wal.segment + 1) as u64;
        syncing_fills_the_files(disk, wal);
        assert(actions.drop_last() =~= store::sync_actions(wal));
        let turned = performed_all(disk, actions);
        assert(turned.files == contents(disk, wal).insert(
            fresh,
            header_of(wal, fresh, (wal.lsn + 1) as u64),
        ));
        assert(base.buffer.len() == 0);
        assert(actions + Seq::empty() =~= actions);
        assert(base.buffer + bytes =~= bytes);
        assert(contents(turned, next) =~= grown(contents(disk, wal), wal, entry));
    } else if wal.buffer.len() + length > wal.options.buffer_bytes {
        flush_fills(disk, wal);
        let actions = store::flush_actions(wal);
        assert(Seq::empty() + actions =~= actions);
        let after = performed_all(disk, actions);
        assert(Seq::<u8>::empty() + bytes =~= bytes);
        assert(contents(after, next) =~= grown(contents(disk, wal), wal, entry));
    } else {
        assert(disk.files[wal.segment] + (wal.buffer + bytes) =~= (disk.files[wal.segment]
            + wal.buffer) + bytes);
        assert(contents(disk, next) =~= grown(contents(disk, wal), wal, entry));
    }
}

proof fn appends_fill(disk: Disk, wal: WalView, entries: Seq<Entry>)
    requires
        in_step(disk, wal),
        all_taken(wal, entries),
    ensures
        in_step(disk_all(disk, wal, entries), logged_all(wal, entries)),
        contents(disk_all(disk, wal, entries), logged_all(wal, entries)) == grown_all(
            contents(disk, wal),
            wal,
            entries,
        ),
    decreases entries.len(),
{
    if entries.len() > 0 {
        let length = store::length_of(entries[0].raw.len() as int);
        appending_fills_the_files(disk, wal, entries[0]);
        appends_fill(
            performed_all(disk, store::append_actions(wal, length)),
            logged(wal, entries[0]),
            entries.skip(1),
        );
    }
}

/// A recovery that has read nothing yet.
pub open spec fn unread(
    identity: [u8; 16],
    options: SharedWalOptions,
    members: Map<SharedDbId, MemberView>,
    charged: u64,
    paths: Seq<u64>,
) -> RecoveryView {
    RecoveryView {
        identity,
        options,
        paths,
        index: 0,
        members,
        segments: Map::empty(),
        storage: 0,
        charged,
        next_lsn: None,
        rotate: false,
    }
}

/// Whether a log that was read is the log that was written, all of it durable.
pub open spec fn same_log(found: WalView, wal: WalView) -> bool {
    &&& found.identity == wal.identity
    &&& found.options == wal.options
    &&& found.segment == wal.segment
    &&& found.offset == wal.offset
    &&& found.lsn == wal.lsn
    &&& found.durable == wal.lsn
    &&& found.buffer.len() == 0
    &&& found.storage == wal.storage
    &&& found.charged == wal.charged
    &&& found.segments == wal.segments
    &&& found.members.dom() == wal.members.dom()
    &&& forall|id: SharedDbId| #[trigger]
        wal.members.contains_key(id) ==> same_member(found.members[id], wal.members[id])
            && found.members[id].durable_seq == wal.members[id].seq
            && found.members[id].durable_pointer == wal.members[id].latest
}

/// The numbers from one to `count`.
pub open spec fn numbers_to(count: u64) -> Seq<u64> {
    Seq::new(count as nat, |i: int| (i + 1) as u64)
}

/// A log that was opened in an empty directory has one segment file with its header.
proof fn fresh_log(
    identity: [u8; 16],
    options: SharedWalOptions,
    members: Map<SharedDbId, MemberView>,
    charged: u64,
)
    requires
        options.valid(),
        recover::finish_refusal(unread(identity, options, members, charged, Seq::empty())) is None,
    ensures
        ({
            let fresh = unread(identity, options, members, charged, Seq::empty());
            let begin = recover::recovered(fresh);
            let start = performed_all(
                Disk { files: Map::empty(), active: 0 },
                recover::finish_actions(fresh),
            );
            &&& in_step(start, begin)
            &&& contents(start, begin) == Map::<u64, Seq<u8>>::empty().insert(
                1,
                header_of(begin, 1, 1),
            )
            &&& filed(contents(start, begin), begin, 1)
        }),
{
    let fresh = unread(identity, options, members, charged, Seq::empty());
    let begin = recover::recovered(fresh);
    let actions = recover::finish_actions(fresh);
    let header = header_of(begin, 1, 1);
    reveal_with_fuel(performed_all, 3);
    assert(actions.drop_last().drop_last() =~= Seq::empty());
    let start = performed_all(Disk { files: Map::empty(), active: 0 }, actions);
    assert(start.files =~= Map::empty().insert(1u64, header));
    let files = contents(start, begin);
    assert(header + begin.buffer =~= header);
    assert(files =~= start.files);
    header_length(begin, 1, 1);
    assert(span(files, 1, 0) == 0);
}

/// What was written to a log and synced comes back when the log is opened again: every segment is
/// found and accepted to its last frame, and each member stands at its last record, whatever was
/// appended by others in between.
pub proof fn reopening_gives_back_the_log(
    identity: [u8; 16],
    options: SharedWalOptions,
    members: Map<SharedDbId, MemberView>,
    charged: u64,
    entries: Seq<Entry>,
)
    requires
        options.valid(),
        recover::finish_refusal(unread(identity, options, members, charged, Seq::empty())) is None,
        forall|id: SharedDbId| #[trigger]
            members.contains_key(id) ==> steady(members[id]) && members[id].latest
                == Pointer::spec_none(),
        all_taken(
            recover::recovered(unread(identity, options, members, charged, Seq::empty())),
            entries,
        ),
    ensures
        ({
            let fresh = unread(identity, options, members, charged, Seq::empty());
            let begin = recover::recovered(fresh);
            let wal = logged_all(begin, entries);
            let disk = performed_all(
                disk_all(
                    performed_all(
                        Disk { files: Map::empty(), active: 0 },
                        recover::finish_actions(fresh),
                    ),
                    begin,
                    entries,
                ),
                store::sync_actions(wal),
            );
            let again = unread(identity, options, members, charged, numbers_to(wal.segment));
            &&& forall|s: u64| #[trigger] disk.files.contains_key(s) <==> 1 <= s <= wal.segment
            &&& begun(again, disk.files) matches Some(reading)
            &&& read_all(reading, disk.files, entries) matches Some(last)
            &&& at_end(last, disk.files)
            &&& last.scan.last
            &&& recover::finish_refusal(closed(last)) is None
            &&& same_log(recover::recovered(closed(last)), wal)
        }),
{
    let fresh = unread(identity, options, members, charged, Seq::empty());
    let begin = recover::recovered(fresh);
    let header = header_of(begin, 1, 1);
    let start = performed_all(
        Disk { files: Map::empty(), active: 0 },
        recover::finish_actions(fresh),
    );
    let files = contents(start, begin);
    header_length(begin, 1, 1);
    fresh_log(identity, options, members, charged);
    appends_fill(start, begin, entries);
    let wal = logged_all(begin, entries);
    syncing_fills_the_files(disk_all(start, begin, entries), wal);
    let end = grown_all(files, begin, entries);
    grown_keeps(files, begin, entries, 1);
    let paths = numbers_to(wal.segment);
    let again = unread(identity, options, members, charged, paths);
    assert(paths[0] == 1);
    frame::segment_header_round_trip(identity@, 1, 1);
    assert(files[1u64].take(64) =~= header);
    assert(end[1u64].take(64) =~= header);
    span_grows(end, 1, 1, wal.segment as int);
    assert(span(end, 1, 0) == 0);
    assert(span(end, 1, 1) == end[1u64].len());
    assert(recover::segment_refusal(again, end[1u64], None) is None);
    assert(recover::header_first(again, end[1u64]) == Ok::<u64, Error>(1));
    let reading = begun(again, end)->Some_0;
    assert(reading.recovery.members.dom() =~= begin.members.dom());
    assert forall|id: SharedDbId| #[trigger] begin.members.contains_key(id) implies same_member(
        reading.recovery.members[id],
        begin.members[id],
    ) && steady(begin.members[id]) by {
        assert(members.contains_key(id));
    }
    assert(reading.recovery.segments =~= begin.segments.remove(begin.segment));
    assert(reached(reading, end, begin, 1));
    reading_follows(reading, files, begin, entries, 1);
    let last = read_all(reading, end, entries)->Some_0;
    let done = closed(last);
    assert(done.segments =~= wal.segments) by {
        assert(wal.segments[wal.segment] == SegmentView {
            length: last.scan.length,
            members: last.scan.members,
        });
    }
    assert forall|id: SharedDbId| #[trigger]
        done.members.contains_key(id) implies recover::member_anchored(done.members[id]) by {
        assert(wal.members.contains_key(id));
    }
    assert(done.paths.last() == wal.segment);
    let found = recover::recovered(done);
    assert(found.members.dom() =~= wal.members.dom());
    assert forall|id: SharedDbId| #[trigger] wal.members.contains_key(id) implies same_member(
        found.members[id],
        wal.members[id],
    ) && found.members[id].durable_seq == wal.members[id].seq && found.members[id].durable_pointer
        == wal.members[id].latest by {
        assert(done.members.contains_key(id));
    }
}

/// The records of one member among all, in order.
pub open spec fn own(entries: Seq<Entry>, id: SharedDbId) -> Seq<Entry>
    decreases entries.len(),
{
    if entries.len() == 0 {
        Seq::empty()
    } else if entries[0].id == id {
        seq![entries[0]] + own(entries.skip(1), id)
    } else {
        own(entries.skip(1), id)
    }
}

/// The bytes of a frame around a record, at a position in the files.
pub open spec fn frame_at(files: Map<u64, Seq<u8>>, pointer: Pointer, entry: Entry) -> Seq<u8> {
    files[pointer.segment].subrange(
        pointer.offset as int,
        pointer.offset + store::length_of(entry.raw.len() as int),
    )
}

/// Whether the frame of a member's record lies at a position in the files.
pub open spec fn holds_record(
    files: Map<u64, Seq<u8>>,
    pointer: Pointer,
    id: SharedDbId,
    entry: Entry,
) -> bool {
    &&& files.contains_key(pointer.segment)
    &&& pointer.segment >= 1
    &&& frame::SEGMENT_HEADER <= pointer.offset
    &&& pointer.offset + store::length_of(entry.raw.len() as int) <= files[pointer.segment].len()
    &&& frame::inspected(frame_at(files, pointer, entry), Ok(entry.seq)) matches Ok(frame)
    &&& frame.id == id
    &&& frame.seq == entry.seq
    &&& frame.raw == entry.raw
    &&& frame.previous == Pointer::spec_none() || frame.previous.spec_before(pointer)
}

/// Where the record in front of the one at a position lies.
pub open spec fn previous_of(
    files: Map<u64, Seq<u8>>,
    pointer: Pointer,
    entry: Entry,
) -> Pointer {
    frame::inspected(frame_at(files, pointer, entry), Ok(entry.seq))->Ok_0.previous
}

/// Whether a member's records form a chain in the files that ends at a position.
pub open spec fn chained(
    files: Map<u64, Seq<u8>>,
    pointer: Pointer,
    id: SharedDbId,
    records: Seq<Entry>,
    floor: u64,
) -> bool
    decreases records.len(),
{
    if records.len() == 0 {
        pointer == Pointer::spec_none()
    } else {
        &&& records.last().seq == floor + records.len()
        &&& holds_record(files, pointer, id, records.last())
        &&& chained(
            files,
            previous_of(files, pointer, records.last()),
            id,
            records.drop_last(),
            floor,
        )
    }
}

/// Whether the chain of a member is the one that the log knows.
spec fn linked(
    files: Map<u64, Seq<u8>>,
    wal: WalView,
    id: SharedDbId,
    records: Seq<Entry>,
    floor: u64,
) -> bool {
    let member = wal.members[id];
    &&& wal.members.contains_key(id)
    &&& member.checkpoint == floor
    &&& member.seq == floor + records.len()
    &&& chained(files, member.latest, id, records, floor)
    &&& member.latest == Pointer::spec_none() || member.latest.spec_before(
        Pointer { segment: wal.segment, offset: wal.offset },
    )
}

/// A chain stays where it is when files are only added to.
proof fn chain_stays(
    before: Map<u64, Seq<u8>>,
    after: Map<u64, Seq<u8>>,
    pointer: Pointer,
    id: SharedDbId,
    records: Seq<Entry>,
    floor: u64,
)
    requires
        chained(before, pointer, id, records, floor),
        forall|s: u64| #[trigger]
            before.contains_key(s) ==> after.contains_key(s) && before[s].len() <= after[s].len()
                && after[s].take(before[s].len() as int) == before[s],
    ensures
        chained(after, pointer, id, records, floor),
    decreases records.len(),
{
    if records.len() > 0 {
        let entry = records.last();
        let s = pointer.segment;
        assert(before.contains_key(s));
        assert(frame_at(after, pointer, entry) =~= frame_at(before, pointer, entry)) by {
            let count = before[s].len() as int;
            assert(before[s] == after[s].take(count));
        }
        chain_stays(
            before,
            after,
            previous_of(before, pointer, entry),
            id,
            records.drop_last(),
            floor,
        );
    }
}

/// One more record keeps every chain, and joins that of its member.
proof fn link_grows(
    files: Map<u64, Seq<u8>>,
    wal: WalView,
    entry: Entry,
    id: SharedDbId,
    records: Seq<Entry>,
    floor: u64,
    low: u64,
)
    requires
        wal.options.valid(),
        filed(files, wal, low),
        taken(wal, entry),
        linked(files, wal, id, records, floor),
    ensures
        linked(
            grown(files, wal, entry),
            logged(wal, entry),
            id,
            if entry.id == id {
                records.push(entry)
            } else {
                records
            },
            floor,
        ),
{
    let after = grown(files, wal, entry);
    let next = logged(wal, entry);
    let bytes = frame_of(wal, entry);
    let length = store::length_of(entry.raw.len() as int);
    let written = store::frame_of(wal, entry.id, entry.seq, entry.raw);
    frame::frame_round_trip(written);
    grown_filed(files, wal, entry, low);
    assert forall|s: u64| #[trigger] files.contains_key(s) implies after.contains_key(s)
        && files[s].len() <= after[s].len() && after[s].take(files[s].len() as int)
        == files[s] by {
        assert(after[s].take(files[s].len() as int) =~= files[s]);
    }
    chain_stays(files, after, wal.members[id].latest, id, records, floor);
    if entry.id == id {
        let pointer = next.members[id].latest;
        let longer = records.push(entry);
        assert(longer.drop_last() =~= records);
        if store::rolls(wal, length) {
            header_length(wal, (wal.segment + 1) as u64, (wal.lsn + 1) as u64);
        }
        assert(frame_at(after, pointer, entry) =~= bytes);
        assert(holds_record(after, pointer, id, entry));
        assert(previous_of(after, pointer, entry) == wal.members[id].latest);
    }
}

proof fn links_grow(
    files: Map<u64, Seq<u8>>,
    wal: WalView,
    entries: Seq<Entry>,
    id: SharedDbId,
    records: Seq<Entry>,
    floor: u64,
    low: u64,
)
    requires
        wal.options.valid(),
        filed(files, wal, low),
        all_taken(wal, entries),
        linked(files, wal, id, records, floor),
    ensures
        linked(
            grown_all(files, wal, entries),
            logged_all(wal, entries),
            id,
            records + own(entries, id),
            floor,
        ),
    decreases entries.len(),
{
    if entries.len() > 0 {
        let entry = entries[0];
        let longer = if entry.id == id {
            records.push(entry)
        } else {
            records
        };
        grown_filed(files, wal, entry, low);
        link_grows(files, wal, entry, id, records, floor, low);
        links_grow(
            grown(files, wal, entry),
            logged(wal, entry),
            entries.skip(1),
            id,
            longer,
            floor,
            low,
        );
        assert(longer + own(entries.skip(1), id) =~= records + own(entries, id));
    } else {
        assert(records + own(entries, id) =~= records);
    }
}

/// The walk after it has taken a frame for each record, from the last to the first.
pub open spec fn walked(walk: ChainView, files: Map<u64, Seq<u8>>, records: Seq<Entry>) -> Option<
    ChainView,
>
    decreases records.len(),
{
    if records.len() == 0 {
        Some(walk)
    } else {
        match member::chain_next(walk) {
            Ok(Some(pointer)) => match member::chain_step(
                walk,
                frame_at(files, pointer, records.last()),
                Ok(records.last().seq),
            ) {
                Ok(next) => walked(next, files, records.drop_last()),
                Err(_) => None,
            },
            _ => None,
        }
    }
}

/// A walk along a chain finds its records, the last one first.
proof fn chain_walked(
    walk: ChainView,
    files: Map<u64, Seq<u8>>,
    records: Seq<Entry>,
)
    requires
        chained(files, walk.pointer, walk.id, records, walk.floor),
        walk.seq == walk.floor + records.len(),
    ensures
        walked(walk, files, records) matches Some(done) && member::chain_next(done) == Ok::<
            Option<Pointer>,
            Error,
        >(None) && done.found.len() == walk.found.len() + records.len() && done.found.take(
            walk.found.len() as int,
        ) == walk.found && (forall|i: int|
            0 <= i < records.len() ==> holds_record(
                files,
                #[trigger] done.found[walk.found.len() + i],
                walk.id,
                records[records.len() - 1 - i],
            )),
    decreases records.len(),
{
    if records.len() == 0 {
        assert(walk.found.take(walk.found.len() as int) =~= walk.found);
    } else {
        let entry = records.last();
        let source = frame_at(files, walk.pointer, entry);
        let next = member::chain_step(walk, source, Ok(entry.seq))->Ok_0;
        assert(holds_record(files, walk.pointer, walk.id, entry));
        chain_walked(next, files, records.drop_last());
        let done = walked(walk, files, records)->Some_0;
        let count = walk.found.len() as int;
        assert(done.found.take(count) =~= done.found.take(count + 1).take(count));
        assert(next.found.take(count) =~= walk.found);
        assert(done.found[count] == done.found.take(count + 1)[count]);
        assert forall|i: int| 0 <= i < records.len() implies holds_record(
            files,
            #[trigger] done.found[count + i],
            walk.id,
            records[records.len() - 1 - i],
        ) by {
            if i > 0 {
                let shorter = records.drop_last();
                assert(done.found[next.found.len() + (i - 1)] == done.found[count + i]);
                assert(shorter[shorter.len() - 1 - (i - 1)] == records[records.len() - 1 - i]);
            }
        }
    }
}

/// A member replays its own records, all of them and in the order in which they were appended,
/// whatever others appended in between: a walk along its chain finds in the files one frame for
/// each of them.
pub proof fn members_replay_their_own_records(
    identity: [u8; 16],
    options: SharedWalOptions,
    members: Map<SharedDbId, MemberView>,
    charged: u64,
    entries: Seq<Entry>,
    id: SharedDbId,
)
    requires
        options.valid(),
        recover::finish_refusal(unread(identity, options, members, charged, Seq::empty())) is None,
        forall|other: SharedDbId| #[trigger]
            members.contains_key(other) ==> steady(members[other]) && members[other].latest
                == Pointer::spec_none(),
        members.contains_key(id),
        all_taken(
            recover::recovered(unread(identity, options, members, charged, Seq::empty())),
            entries,
        ),
    ensures
        ({
            let fresh = unread(identity, options, members, charged, Seq::empty());
            let begin = recover::recovered(fresh);
            let wal = logged_all(begin, entries);
            let disk = performed_all(
                disk_all(
                    performed_all(
                        Disk { files: Map::empty(), active: 0 },
                        recover::finish_actions(fresh),
                    ),
                    begin,
                    entries,
                ),
                store::sync_actions(wal),
            );
            let records = own(entries, id);
            let walk = ChainView {
                id,
                pointer: wal.members[id].latest,
                seq: wal.members[id].seq,
                floor: wal.members[id].checkpoint,
                found: Seq::empty(),
                charged: 0,
                export: false,
            };
            &&& wal.members[id].seq == members[id].checkpoint + records.len()
            &&& walked(walk, disk.files, records) matches Some(done)
            &&& member::chain_next(done) == Ok::<Option<Pointer>, Error>(None)
            &&& done.found.len() == records.len()
            &&& forall|i: int|
                0 <= i < records.len() ==> holds_record(
                    disk.files,
                    #[trigger] done.found.reverse()[i],
                    id,
                    records[i],
                )
        }),
{
    let fresh = unread(identity, options, members, charged, Seq::empty());
    let begin = recover::recovered(fresh);
    let start = performed_all(
        Disk { files: Map::empty(), active: 0 },
        recover::finish_actions(fresh),
    );
    let files = contents(start, begin);
    fresh_log(identity, options, members, charged);
    appends_fill(start, begin, entries);
    let wal = logged_all(begin, entries);
    syncing_fills_the_files(disk_all(start, begin, entries), wal);
    let end = grown_all(files, begin, entries);
    let records = own(entries, id);
    let floor = members[id].checkpoint;
    assert(begin.members.contains_key(id));
    assert(linked(files, begin, id, Seq::empty(), floor));
    links_grow(files, begin, entries, id, Seq::empty(), floor, 1);
    assert(Seq::<Entry>::empty() + records =~= records);
    let walk = ChainView {
        id,
        pointer: wal.members[id].latest,
        seq: wal.members[id].seq,
        floor: wal.members[id].checkpoint,
        found: Seq::empty(),
        charged: 0,
        export: false,
    };
    chain_walked(walk, end, records);
    let done = walked(walk, end, records)->Some_0;
    assert forall|i: int| 0 <= i < records.len() implies holds_record(
        end,
        #[trigger] done.found.reverse()[i],
        id,
        records[i],
    ) by {
        let k = records.len() - 1 - i;
        assert(done.found.reverse()[i] == done.found[walk.found.len() + k]);
    }
}

/// An append that did not complete is cut off. Behind the records that were written, the file ends
/// in less than a frame, or in a whole frame with the wrong checksum: the reading finds it torn at
/// exactly that position. With the boundary that is then published the same prefix is accepted
/// again, and the damaged bytes are not looked at.
pub proof fn torn_append_is_cut_off(
    reading: Reading,
    files: Map<u64, Seq<u8>>,
    wal: WalView,
    low: u64,
    entry: Entry,
    rest: Seq<u8>,
)
    requires
        reached(reading, files, wal, low),
        reading.scan.last,
        wal.offset <= files[wal.segment].len() <= u64::MAX,
        files[wal.segment].skip(wal.offset as int) == rest,
        17 <= entry.raw.len() <= frame::MAX_FRAME - frame::FRAME_HEADER,
        entry.seq != 0,
        0 < rest.len() <= frame_of(wal, entry).len(),
        rest.len() >= 4 ==> rest.take(4) == frame_of(wal, entry).take(4),
        rest.len() == frame_of(wal, entry).len() ==> crate::bytes::un32(rest.subrange(4, 8))
            != crate::checksum::crc32(rest.skip(8)),
    ensures
        recover::found_at(reading.scan, files[wal.segment]) == Ok::<Found, Error>(Found::Torn),
        ({
            let boundary = Boundary { end: wal.offset, next: (wal.lsn + 1) as u64 };
            let again = ScanView { end: wal.offset, evidence: Some(boundary), ..reading.scan };
            recover::found_at(again, files[wal.segment]) == Ok::<Found, Error>(Found::End)
                && recover::segment_closing(again) is None
        }),
{
    let content = files[wal.segment];
    let start = wal.offset as int;
    let bytes = frame_of(wal, entry);
    frame::frame_round_trip(store::frame_of(wal, entry.id, entry.seq, entry.raw));
    if rest.len() >= 4 {
        let prefix = content.subrange(start, start + 4);
        assert(prefix.take(4) =~= rest.take(4));
        assert(frame::frame_length(prefix) == frame::frame_length(bytes));
        if rest.len() == bytes.len() {
            assert(content.subrange(start, start + rest.len()) =~= rest);
        }
    }
}

} // verus!
