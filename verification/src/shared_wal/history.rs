//! What is kept of a log through everything that happens to it.
//!
//! An image is what a log's files say: it is built up step by step from the frames that lie in them.
//! A log stands by an image as long as reading the files would lead back to it. Appending,
//! reclaiming, checkpointing and registering each take a log with its image to the next log with
//! the next image, and reading an image gives back the log.
use vstd::prelude::*;

use super::archive::Protection;
use super::frame::{self, FrameView, Pointer};
use super::gc;
use super::member;
use super::membership;
use super::recover::{self, Found};
use super::reopen::{self, Entry, Reading};
use super::state::{self, MemberView, SegmentView, WalView};
use super::store;
use super::types::{SharedDbId, SharedWalOptions};
use crate::error::{Error, Result};

verus! {

/// A record as it lies in the log: with the position of the member's record in front of it.
pub struct Record {
    pub id: SharedDbId,
    pub seq: u64,
    pub previous: Pointer,
    pub raw: Seq<u8>,
    pub digest: [u8; 32],
}

pub enum Step {
    /// A fresh segment follows.
    Turn,
    /// A frame follows.
    Frame(Record),
}

/// Where the files of a log begin: its first segment with its first sequence number, and its
/// members as their registrations and catalogs have them.
pub struct Base {
    pub identity: [u8; 16],
    pub low: u64,
    pub first: u64,
    pub members: Map<SharedDbId, MemberView>,
    pub charged: u64,
}

/// What files say so far.
pub struct Image {
    pub files: Map<u64, Seq<u8>>,
    pub segment: u64,
    pub next: u64,
    pub members: Map<SharedDbId, MemberView>,
    pub segments: Map<u64, SegmentView>,
    pub charged: int,
}

pub open spec fn header(identity: [u8; 16], segment: u64, first: u64) -> Seq<u8> {
    frame::sealed(frame::segment_header_body(identity@, segment, first))
}

pub open spec fn bare_segment() -> SegmentView {
    SegmentView { length: frame::SEGMENT_HEADER as u64, members: Map::empty() }
}

pub open spec fn start(base: Base) -> Image {
    Image {
        files: Map::empty().insert(base.low, header(base.identity, base.low, base.first)),
        segment: base.low,
        next: base.first,
        members: base.members,
        segments: Map::empty().insert(base.low, bare_segment()),
        charged: base.charged + 128,
    }
}

pub open spec fn position(image: Image) -> Pointer {
    Pointer { segment: image.segment, offset: image.files[image.segment].len() as u64 }
}

pub open spec fn frame_view(image: Image, record: Record) -> FrameView {
    FrameView {
        id: record.id,
        lsn: image.next,
        seq: record.seq,
        previous: record.previous,
        raw: record.raw,
    }
}

/// What the frame of a record does to its member, where the frame lies at the end of an image.
pub open spec fn replay(image: Image, record: Record) -> Result<MemberView> {
    recover::member_replayed(
        image.members[record.id],
        frame_view(image, record),
        position(image),
        store::length_of(record.raw.len() as int),
        record.digest,
    )
}

/// The image after one more step, if the step can be read.
pub open spec fn stepped(identity: [u8; 16], image: Image, step: Step) -> Option<Image> {
    match step {
        Step::Turn => if image.segment == u64::MAX {
            None
        } else {
            let fresh = (image.segment + 1) as u64;
            Some(
                Image {
                    files: image.files.insert(fresh, header(identity, fresh, image.next)),
                    segment: fresh,
                    segments: image.segments.insert(fresh, bare_segment()),
                    charged: image.charged + 128,
                    ..image
                },
            )
        },
        Step::Frame(record) => {
            let length = store::length_of(record.raw.len() as int);
            let held = image.segments[image.segment];
            if record.seq == 0 || image.next == u64::MAX || !(17 <= record.raw.len()
                <= frame::MAX_FRAME - frame::FRAME_HEADER) || !image.members.contains_key(record.id)
                || image.files[image.segment].len() + length > u64::MAX || replay(
                image,
                record,
            ) is Err {
                None
            } else {
                Some(
                    Image {
                        files: image.files.insert(
                            image.segment,
                            image.files[image.segment] + frame::frame_bytes(
                                frame_view(image, record),
                            ),
                        ),
                        next: (image.next + 1) as u64,
                        members: image.members.insert(record.id, replay(image, record)->Ok_0),
                        segments: image.segments.insert(
                            image.segment,
                            SegmentView {
                                length: (held.length + length) as u64,
                                members: held.members.insert(record.id, record.seq),
                            },
                        ),
                        charged: image.charged + (if held.members.contains_key(record.id) {
                            0int
                        } else {
                            96
                        }),
                        ..image
                    },
                )
            }
        },
    }
}

pub open spec fn stepped_all(identity: [u8; 16], image: Image, steps: Seq<Step>) -> Option<Image>
    decreases steps.len(),
{
    if steps.len() == 0 {
        Some(image)
    } else {
        match stepped_all(identity, image, steps.drop_last()) {
            Some(before) => stepped(identity, before, steps.last()),
            None => None,
        }
    }
}

/// The image that steps lead to.
pub open spec fn image_of(base: Base, steps: Seq<Step>) -> Option<Image> {
    stepped_all(base.identity, start(base), steps)
}

/// Whether members are as their registrations have them, without records.
pub open spec fn registered(members: Map<SharedDbId, MemberView>) -> bool {
    forall|id: SharedDbId| #[trigger]
        members.contains_key(id) ==> members[id].latest == Pointer::spec_none() && members[id].seq
            == members[id].checkpoint && members[id].bytes == 0
}

/// What holds of every image: its files are those of its segments, and records lie in front of its
/// end.
pub open spec fn orderly(base: Base, image: Image) -> bool {
    &&& 1 <= base.low <= image.segment
    &&& image.next >= 1
    &&& forall|s: u64| #[trigger] image.files.contains_key(s) <==> base.low <= s <= image.segment
    &&& forall|s: u64| #[trigger] image.segments.contains_key(s) <==> base.low <= s <= image.segment
    &&& forall|s: u64|
        base.low <= s <= image.segment ==> (#[trigger] image.segments[s]).length
            == image.files[s].len() && image.files[s].len() >= frame::SEGMENT_HEADER
    &&& image.members.dom() == base.members.dom()
    &&& forall|id: SharedDbId| #[trigger]
        image.members.contains_key(id) ==> (image.members[id].latest == Pointer::spec_none() ==>
            image.members[id] == base.members[id] && image.members[id].seq
            == image.members[id].checkpoint) && (image.members[id].latest
            == Pointer::spec_none() || image.members[id].latest.spec_before(position(image))) && (
        image.members[id].seq <= image.members[id].checkpoint ==> image.members[id].bytes == 0)
}

proof fn start_orderly(base: Base)
    requires
        base.low >= 1,
        base.first >= 1,
        registered(base.members),
    ensures
        orderly(base, start(base)),
{
    crate::bytes::scalars_round_trip();
    let image = start(base);
    assert(image.files[base.low].len() == frame::SEGMENT_HEADER);
}

proof fn step_orderly(base: Base, image: Image, step: Step)
    requires
        orderly(base, image),
        stepped(base.identity, image, step) is Some,
    ensures
        orderly(base, stepped(base.identity, image, step)->Some_0),
{
    crate::bytes::scalars_round_trip();
    let next = stepped(base.identity, image, step)->Some_0;
    assert(next.members.dom() =~= base.members.dom());
    if let Step::Frame(record) = step {
        frame::frame_round_trip(frame_view(image, record));
    }
    assert forall|id: SharedDbId| #[trigger] next.members.contains_key(id) implies (
    next.members[id].latest == Pointer::spec_none() ==> next.members[id] == base.members[id]
        && next.members[id].seq == next.members[id].checkpoint) && (
    next.members[id].latest == Pointer::spec_none() || next.members[id].latest.spec_before(
        position(next),
    )) && (next.members[id].seq <= next.members[id].checkpoint ==> next.members[id].bytes
        == 0) by {
        assert(image.members.contains_key(id));
    }
}

proof fn steps_orderly(base: Base, image: Image, steps: Seq<Step>)
    requires
        orderly(base, image),
        stepped_all(base.identity, image, steps) is Some,
    ensures
        orderly(base, stepped_all(base.identity, image, steps)->Some_0),
    decreases steps.len(),
{
    if steps.len() > 0 {
        steps_orderly(base, image, steps.drop_last());
        let before = stepped_all(base.identity, image, steps.drop_last())->Some_0;
        step_orderly(base, before, steps.last());
    }
}

/// The reading after one more step of the files.
pub open spec fn read_step(reading: Reading, files: Map<u64, Seq<u8>>, step: Step) -> Option<
    Reading,
> {
    match step {
        Step::Turn => if reopen::at_end(reading, files) {
            reopen::begun(reopen::closed(reading), files)
        } else {
            None
        },
        Step::Frame(record) => reopen::read_frame(reading, files, record.seq, record.digest),
    }
}

pub open spec fn read_steps(
    reading: Reading,
    files: Map<u64, Seq<u8>>,
    steps: Seq<Step>,
) -> Option<Reading>
    decreases steps.len(),
{
    if steps.len() == 0 {
        Some(reading)
    } else {
        match read_steps(reading, files, steps.drop_last()) {
            Some(before) => read_step(before, files, steps.last()),
            None => None,
        }
    }
}

/// Whether files are those of an image, or were only added to since.
spec fn extends(files: Map<u64, Seq<u8>>, image: Image, low: u64) -> bool {
    &&& forall|s: u64| low <= s < image.segment ==> #[trigger] files[s] == image.files[s]
    &&& image.files[image.segment].len() <= files[image.segment].len()
    &&& files[image.segment].take(image.files[image.segment].len() as int)
        == image.files[image.segment]
}

/// Whether a reading of the files has come as far as an image.
spec fn shows(
    reading: Reading,
    files: Map<u64, Seq<u8>>,
    image: Image,
    base: Base,
    options: SharedWalOptions,
) -> bool {
    let recovery = reading.recovery;
    let scan = reading.scan;
    &&& recovery.identity == base.identity
    &&& recovery.options == options
    &&& scan.number == image.segment
    &&& scan.offset == image.files[image.segment].len()
    &&& scan.next == image.next
    &&& scan.evidence is None
    &&& scan.end == scan.length == files[image.segment].len()
    &&& scan.members == image.segments[image.segment].members
    &&& 0 <= recovery.index < recovery.paths.len()
    &&& recovery.index == image.segment - base.low
    &&& forall|i: int|
        0 <= i < recovery.paths.len() ==> #[trigger] recovery.paths[i] == base.low + i
    &&& scan.last == (recovery.index + 1 == recovery.paths.len())
    &&& recovery.charged == image.charged
    &&& recovery.storage == reopen::span(files, base.low as int, image.segment as int)
    &&& !recovery.rotate
    &&& recovery.members == image.members
    &&& recovery.segments == image.segments.remove(image.segment)
}

/// What extends the image after a step extends the one before it.
proof fn extends_back(
    files: Map<u64, Seq<u8>>,
    base: Base,
    image: Image,
    step: Step,
)
    requires
        orderly(base, image),
        stepped(base.identity, image, step) is Some,
        extends(files, stepped(base.identity, image, step)->Some_0, base.low),
    ensures
        extends(files, image, base.low),
{
    let next = stepped(base.identity, image, step)->Some_0;
    match step {
        Step::Turn => {
            assert(files[image.segment] == image.files[image.segment]);
            assert(files[image.segment].take(image.files[image.segment].len() as int)
                =~= image.files[image.segment]);
        },
        Step::Frame(record) => {
            let count = image.files[image.segment].len() as int;
            let longer = next.files[image.segment];
            assert(longer.take(count) =~= image.files[image.segment]);
            assert(files[image.segment].take(count) =~= files[image.segment].take(
                longer.len() as int,
            ).take(count));
            assert forall|s: u64| base.low <= s < image.segment implies #[trigger] files[s]
                == image.files[s] by {
                assert(next.files[s] == image.files[s]);
            }
        },
    }
}

/// At the end of a segment the reading goes on in the next one.
proof fn turn_read(
    reading: Reading,
    files: Map<u64, Seq<u8>>,
    image: Image,
    base: Base,
    options: SharedWalOptions,
)
    requires
        options.valid(),
        orderly(base, image),
        shows(reading, files, image, base, options),
        stepped(base.identity, image, Step::Turn) is Some,
        extends(files, stepped(base.identity, image, Step::Turn)->Some_0, base.low),
        stepped(base.identity, image, Step::Turn)->Some_0.charged <= options.index_bytes,
        reopen::span(
            files,
            base.low as int,
            stepped(base.identity, image, Step::Turn)->Some_0.segment as int,
        ) <= options.max_bytes,
        stepped(base.identity, image, Step::Turn)->Some_0.segment - base.low
            < reading.recovery.paths.len(),
    ensures
        read_step(reading, files, Step::Turn) matches Some(after) && shows(
            after,
            files,
            stepped(base.identity, image, Step::Turn)->Some_0,
            base,
            options,
        ) && after.recovery.paths == reading.recovery.paths,
{
    let next = stepped(base.identity, image, Step::Turn)->Some_0;
    let low = base.low as int;
    let content = files[image.segment];
    reopen::single_length(files, low, next.segment as int);
    reopen::span_nonnegative(files, low, next.segment - 1);
    let fresh = next.segment;
    let opened = files[fresh];
    let recovery = reopen::closed(reading);
    assert(content == image.files[image.segment]);
    assert(recovery.paths[recovery.index] == fresh);
    assert(recovery.paths[recovery.index - 1] == image.segment);
    crate::bytes::scalars_round_trip();
    assert(header(base.identity, fresh, image.next).len() == frame::SEGMENT_HEADER);
    assert(next.files[fresh] == header(base.identity, fresh, image.next));
    assert(opened.take(frame::SEGMENT_HEADER as int) == header(
        base.identity,
        fresh,
        image.next,
    ));
    frame::segment_header_round_trip(base.identity@, fresh, image.next);
    assert(reopen::span(files, low, fresh as int) == reopen::span(
        files,
        low,
        image.segment as int,
    ) + opened.len());
    assert(recover::segment_refusal(recovery, opened, None) is None);
    assert(recover::header_first(recovery, opened) == Ok::<u64, Error>(image.next));
    let after = reopen::begun(recovery, files)->Some_0;
    assert(after.scan.members =~= next.segments[next.segment].members);
    assert(image.segments[image.segment] == SegmentView {
        length: reading.scan.length,
        members: reading.scan.members,
    });
    assert(after.recovery.segments =~= next.segments.remove(next.segment));
}

/// A frame of the image is a frame of the reading.
proof fn frame_read(
    reading: Reading,
    files: Map<u64, Seq<u8>>,
    image: Image,
    record: Record,
    base: Base,
    options: SharedWalOptions,
)
    requires
        options.valid(),
        orderly(base, image),
        shows(reading, files, image, base, options),
        stepped(base.identity, image, Step::Frame(record)) is Some,
        extends(files, stepped(base.identity, image, Step::Frame(record))->Some_0, base.low),
        stepped(base.identity, image, Step::Frame(record))->Some_0.charged <= options.index_bytes,
        reopen::span(
            files,
            base.low as int,
            stepped(base.identity, image, Step::Frame(record))->Some_0.segment as int,
        ) <= options.max_bytes,
    ensures
        read_step(reading, files, Step::Frame(record)) matches Some(after) && shows(
            after,
            files,
            stepped(base.identity, image, Step::Frame(record))->Some_0,
            base,
            options,
        ) && after.recovery.paths == reading.recovery.paths,
{
    let next = stepped(base.identity, image, Step::Frame(record))->Some_0;
    let low = base.low as int;
    let content = files[image.segment];
    let begin = image.files[image.segment].len() as int;
    reopen::single_length(files, low, next.segment as int);
    let written = frame_view(image, record);
    let bytes = frame::frame_bytes(written);
    let length = store::length_of(record.raw.len() as int);
    frame::frame_round_trip(written);
    let longer = next.files[image.segment];
    assert(content.take(longer.len() as int) == longer);
    assert(content.subrange(begin, begin + length) =~= longer.subrange(
        begin,
        begin + length,
    ));
    assert(longer.subrange(begin, begin + length) =~= bytes);
    let prefix = content.subrange(begin, begin + 4);
    assert(prefix.take(4) =~= bytes.take(4));
    assert(recover::found_at(reading.scan, content) == Ok::<Found, Error>(
        Found::Frame(length as usize),
    ));
    let after = reopen::read_frame(reading, files, record.seq, record.digest);
    assert(after is Some);
    assert(after->Some_0.recovery.segments =~= next.segments.remove(next.segment));
}

/// A step of the image is a step of the reading.
proof fn step_read(
    reading: Reading,
    files: Map<u64, Seq<u8>>,
    image: Image,
    step: Step,
    base: Base,
    options: SharedWalOptions,
)
    requires
        options.valid(),
        orderly(base, image),
        shows(reading, files, image, base, options),
        stepped(base.identity, image, step) is Some,
        extends(files, stepped(base.identity, image, step)->Some_0, base.low),
        stepped(base.identity, image, step)->Some_0.charged <= options.index_bytes,
        reopen::span(
            files,
            base.low as int,
            stepped(base.identity, image, step)->Some_0.segment as int,
        ) <= options.max_bytes,
        stepped(base.identity, image, step)->Some_0.segment - base.low
            < reading.recovery.paths.len(),
    ensures
        read_step(reading, files, step) matches Some(after) && shows(
            after,
            files,
            stepped(base.identity, image, step)->Some_0,
            base,
            options,
        ) && after.recovery.paths == reading.recovery.paths,
{
    match step {
        Step::Turn => turn_read(reading, files, image, base, options),
        Step::Frame(record) => frame_read(reading, files, image, record, base, options),
    }
}

/// Steps only add to the index bytes and lead to later segments.
proof fn steps_grow(identity: [u8; 16], image: Image, steps: Seq<Step>)
    requires
        stepped_all(identity, image, steps) is Some,
    ensures
        image.charged <= stepped_all(identity, image, steps)->Some_0.charged,
        image.segment <= stepped_all(identity, image, steps)->Some_0.segment,
    decreases steps.len(),
{
    if steps.len() > 0 {
        steps_grow(identity, image, steps.drop_last());
    }
}

/// Steps of the image are steps of the reading.
proof fn steps_read(
    reading: Reading,
    files: Map<u64, Seq<u8>>,
    image: Image,
    steps: Seq<Step>,
    base: Base,
    options: SharedWalOptions,
)
    requires
        options.valid(),
        orderly(base, image),
        shows(reading, files, image, base, options),
        stepped_all(base.identity, image, steps) is Some,
        extends(files, stepped_all(base.identity, image, steps)->Some_0, base.low),
        stepped_all(base.identity, image, steps)->Some_0.charged <= options.index_bytes,
        reopen::span(
            files,
            base.low as int,
            stepped_all(base.identity, image, steps)->Some_0.segment as int,
        ) <= options.max_bytes,
        stepped_all(base.identity, image, steps)->Some_0.segment - base.low
            < reading.recovery.paths.len(),
    ensures
        read_steps(reading, files, steps) matches Some(after) && shows(
            after,
            files,
            stepped_all(base.identity, image, steps)->Some_0,
            base,
            options,
        ) && after.recovery.paths == reading.recovery.paths,
    decreases steps.len(),
{
    if steps.len() > 0 {
        let front = steps.drop_last();
        let before = stepped_all(base.identity, image, front)->Some_0;
        let last = stepped_all(base.identity, image, steps)->Some_0;
        steps_orderly(base, image, front);
        extends_back(files, base, before, steps.last());
        reopen::span_grows(files, base.low as int, before.segment as int, last.segment as int);
        steps_read(reading, files, image, front, base, options);
        let middle = read_steps(reading, files, front)->Some_0;
        step_read(middle, files, before, steps.last(), base, options);
    }
}

/// Whether a member that was read is the member of the log. Its catalog may have come further than
/// the log knows; a member none of whose records are left is fully covered by its catalog.
pub open spec fn stands(found: MemberView, member: MemberView) -> bool {
    &&& found.root == member.root
    &&& found.retired == member.retired
    &&& !member.retired ==> found.initialized == member.initialized
    &&& member.checkpoint <= found.checkpoint <= member.seq
    &&& found.bytes <= member.bytes
    &&& if found.latest == Pointer::spec_none() {
        found.seq == found.checkpoint == member.seq
    } else {
        found.seq == member.seq && found.latest == member.latest && found.lsn == member.lsn
    }
    &&& match (found.archive, member.archive) {
        (Some(replayed), Some(protection)) => replayed == (Protection {
            durable: replayed.durable,
            ..protection
        }) && protection.latest.seq == member.seq && protection.released.seq <= member.seq
            && !member.retired,
        (None, None) => true,
        _ => false,
    }
}

/// Whether a log stands by an image: reading the image's files leads to it.
pub open spec fn agrees(wal: WalView, image: Image, base: Base) -> bool {
    &&& wal.identity == base.identity
    &&& wal.segment == image.segment
    &&& wal.offset == image.files[image.segment].len()
    &&& wal.lsn + 1 == image.next
    &&& wal.segments == image.segments
    &&& wal.storage == reopen::span(image.files, base.low as int, image.segment as int)
    &&& wal.storage <= wal.options.max_bytes
    &&& image.charged <= wal.charged <= wal.options.index_bytes
    &&& wal.members.dom() == image.members.dom()
    &&& forall|id: SharedDbId| #[trigger]
        wal.members.contains_key(id) ==> stands(image.members[id], wal.members[id]) && (
        wal.members[id].latest == Pointer::spec_none() || wal.members[id].latest.spec_before(
            position(image),
        ))
}

/// The numbers of the segment files.
pub open spec fn numbers(low: u64, high: u64) -> Seq<u64> {
    Seq::new((high - low + 1) as nat, |i: int| (low + i) as u64)
}

/// A log that stands by an image is given back by the image's files: they are read to their end, and
/// the log that is then opened has every record of every member, and stands by the same image.
pub proof fn a_kept_log_reads_back(wal: WalView, image: Image, base: Base, steps: Seq<Step>)
    requires
        wal.options.valid(),
        base.low >= 1,
        base.first >= 1,
        registered(base.members),
        image_of(base, steps) == Some(image),
        agrees(wal, image, base),
    ensures
        ({
            let again = reopen::unread(
                base.identity,
                wal.options,
                base.members,
                base.charged,
                numbers(base.low, wal.segment),
            );
            &&& reopen::begun(again, image.files) matches Some(reading)
            &&& read_steps(reading, image.files, steps) matches Some(last)
            &&& reopen::at_end(last, image.files)
            &&& last.scan.last
            &&& recover::finish_refusal(reopen::closed(last)) is None
            &&& {
                let found = recover::recovered(reopen::closed(last));
                &&& agrees(found, image, base)
                &&& found.options == wal.options
                &&& found.segment == wal.segment
                &&& found.offset == wal.offset
                &&& found.lsn == found.durable == wal.lsn
                &&& found.storage == wal.storage
                &&& found.segments == wal.segments
                &&& found.members.dom() == wal.members.dom()
                &&& forall|id: SharedDbId| #[trigger]
                    wal.members.contains_key(id) ==> found.members[id].seq == wal.members[id].seq
                        && found.members[id].durable_seq == wal.members[id].seq
            }
        }),
{
    let options = wal.options;
    let files = image.files;
    let paths = numbers(base.low, wal.segment);
    let again = reopen::unread(base.identity, options, base.members, base.charged, paths);
    let low = base.low as int;
    let bare = start(base);
    start_orderly(base);
    steps_orderly(base, bare, steps);
    steps_grow(base.identity, bare, steps);
    assert(extends(files, image, base.low)) by {
        assert(files[image.segment].take(files[image.segment].len() as int)
            =~= files[image.segment]);
    }
    steps_extend(files, base, bare, steps);
    let content = files[base.low];
    let head = header(base.identity, base.low, base.first);
    crate::bytes::scalars_round_trip();
    assert(head.len() == frame::SEGMENT_HEADER);
    assert(bare.files[base.low] == head);
    assert(content.take(frame::SEGMENT_HEADER as int) == head);
    frame::segment_header_round_trip(base.identity@, base.low, base.first);
    assert(paths[0] == base.low);
    reopen::span_grows(files, low, low, image.segment as int);
    assert(reopen::span(files, low, low - 1) == 0);
    assert(reopen::span(files, low, low) == content.len());
    assert(recover::segment_refusal(again, content, None) is None);
    assert(recover::header_first(again, content) == Ok::<u64, Error>(base.first));
    let reading = reopen::begun(again, files)->Some_0;
    assert(reading.recovery.segments =~= bare.segments.remove(bare.segment));
    assert(reading.scan.members =~= bare.segments[bare.segment].members);
    steps_read(reading, files, bare, steps, base, options);
    let last = read_steps(reading, files, steps)->Some_0;
    let done = reopen::closed(last);
    assert(image.segments[image.segment] == SegmentView {
        length: last.scan.length,
        members: last.scan.members,
    });
    assert(done.segments =~= image.segments);
    assert forall|id: SharedDbId| #[trigger]
        done.members.contains_key(id) implies recover::member_anchored(done.members[id]) by {
        assert(wal.members.contains_key(id));
    }
    assert(done.paths.last() == wal.segment);
    let found = recover::recovered(done);
    assert(found.members.dom() =~= wal.members.dom());
    assert forall|id: SharedDbId| #[trigger] found.members.contains_key(id) implies stands(
        image.members[id],
        found.members[id],
    ) && (found.members[id].latest == Pointer::spec_none()
        || found.members[id].latest.spec_before(position(image))) by {
        assert(wal.members.contains_key(id));
        assert(image.members.contains_key(id));
    }
    assert forall|id: SharedDbId| #[trigger]
        wal.members.contains_key(id) implies found.members[id].seq == wal.members[id].seq
        && found.members[id].durable_seq == wal.members[id].seq by {
        assert(found.members.contains_key(id));
    }
}

/// What extends the last image extends the first.
proof fn steps_extend(files: Map<u64, Seq<u8>>, base: Base, image: Image, steps: Seq<Step>)
    requires
        orderly(base, image),
        stepped_all(base.identity, image, steps) is Some,
        extends(files, stepped_all(base.identity, image, steps)->Some_0, base.low),
    ensures
        extends(files, image, base.low),
    decreases steps.len(),
{
    if steps.len() > 0 {
        let front = steps.drop_last();
        let before = stepped_all(base.identity, image, front)->Some_0;
        steps_orderly(base, image, front);
        extends_back(files, base, before, steps.last());
        steps_extend(files, base, image, front);
    }
}

/// A log that was just opened in an empty directory stands by the image of its one segment.
pub proof fn a_fresh_log_is_kept(base: Base, options: SharedWalOptions)
    requires
        options.valid(),
        base.low == 1,
        base.first == 1,
        registered(base.members),
        recover::finish_refusal(
            reopen::unread(base.identity, options, base.members, base.charged, Seq::empty()),
        ) is None,
        forall|id: SharedDbId| #[trigger]
            base.members.contains_key(id) ==> reopen::steady(base.members[id]) && (
            base.members[id].retired ==> base.members[id].archive is None),
    ensures
        agrees(
            recover::recovered(
                reopen::unread(base.identity, options, base.members, base.charged, Seq::empty()),
            ),
            start(base),
            base,
        ),
{
    let wal = recover::recovered(
        reopen::unread(base.identity, options, base.members, base.charged, Seq::empty()),
    );
    let image = start(base);
    start_orderly(base);
    assert(image.segments[1u64].length == image.files[1u64].len());
    assert(wal.segments =~= image.segments);
    assert(reopen::span(image.files, 1, 0) == 0);
    assert(reopen::span(image.files, 1, 1) == image.files[1u64].len());
    assert(wal.members.dom() =~= image.members.dom());
    assert forall|id: SharedDbId| #[trigger] wal.members.contains_key(id) implies stands(
        image.members[id],
        wal.members[id],
    ) && (wal.members[id].latest == Pointer::spec_none()
        || wal.members[id].latest.spec_before(position(image))) by {
        assert(base.members.contains_key(id));
    }
}

/// How a record of the log lies in its files.
pub open spec fn record_of(wal: WalView, entry: Entry) -> Record {
    Record {
        id: entry.id,
        seq: entry.seq,
        previous: wal.members[entry.id].latest,
        raw: entry.raw,
        digest: entry.digest,
    }
}

/// The steps that an append adds.
pub open spec fn append_steps(wal: WalView, entry: Entry) -> Seq<Step> {
    if store::rolls(wal, store::length_of(entry.raw.len() as int)) {
        seq![Step::Turn, Step::Frame(record_of(wal, entry))]
    } else {
        seq![Step::Frame(record_of(wal, entry))]
    }
}

/// A frame in the active segment keeps the log by its image.
proof fn frame_kept(wal: WalView, image: Image, base: Base, entry: Entry)
    requires
        wal.options.valid(),
        orderly(base, image),
        agrees(wal, image, base),
        reopen::taken(wal, entry),
        !store::rolls(wal, store::length_of(entry.raw.len() as int)),
    ensures
        stepped(base.identity, image, Step::Frame(record_of(wal, entry))) matches Some(next)
            && agrees(reopen::logged(wal, entry), next, base) && next.files == reopen::grown(
            image.files,
            wal,
            entry,
        ),
{
    let record = record_of(wal, entry);
    let length = store::length_of(entry.raw.len() as int);
    let found = image.members[entry.id];
    let member = wal.members[entry.id];
    assert(wal.members.contains_key(entry.id));
    assert(image.members.contains_key(entry.id));
    frame::frame_round_trip(frame_view(image, record));
    assert(frame_view(image, record) == store::frame_of(wal, entry.id, entry.seq, entry.raw));
    assert(replay(image, record) is Ok);
    let step = Step::Frame(record);
    let next = stepped(base.identity, image, step)->Some_0;
    let after = reopen::logged(wal, entry);
    reopen::span_same(image.files, next.files, base.low as int, image.segment - 1);
    assert(next.segments =~= after.segments);
    assert(next.files =~= reopen::grown(image.files, wal, entry));
    assert(after.members.dom() =~= next.members.dom());
    assert forall|id: SharedDbId| #[trigger] after.members.contains_key(id) implies stands(
        next.members[id],
        after.members[id],
    ) && (after.members[id].latest == Pointer::spec_none()
        || after.members[id].latest.spec_before(position(next))) by {
        if id != entry.id {
            assert(wal.members.contains_key(id));
        }
    }
}

/// A fresh segment keeps the log by its image.
proof fn turn_kept(wal: WalView, image: Image, base: Base)
    requires
        orderly(base, image),
        agrees(wal, image, base),
        wal.segment < u64::MAX,
        wal.storage + frame::SEGMENT_HEADER <= wal.options.max_bytes,
        wal.charged + 128 <= wal.options.index_bytes,
    ensures
        stepped(base.identity, image, Step::Turn) matches Some(next) && agrees(
            reopen::turned(wal),
            next,
            base,
        ),
{
    let next = stepped(base.identity, image, Step::Turn)->Some_0;
    let after = reopen::turned(wal);
    let low = base.low as int;
    crate::bytes::scalars_round_trip();
    reopen::span_same(image.files, next.files, low, image.segment as int);
    assert(reopen::span(next.files, low, next.segment as int) == reopen::span(
        next.files,
        low,
        image.segment as int,
    ) + next.files[next.segment].len());
    assert(next.segments =~= after.segments);
    assert(after.members.dom() =~= next.members.dom());
    assert forall|id: SharedDbId| #[trigger] after.members.contains_key(id) implies stands(
        next.members[id],
        after.members[id],
    ) && (after.members[id].latest == Pointer::spec_none()
        || after.members[id].latest.spec_before(position(next))) by {
        assert(wal.members.contains_key(id));
    }
}

/// Appending keeps a log by its image: what the record adds to the files is what it adds to the log.
pub proof fn appending_is_kept(wal: WalView, image: Image, base: Base, steps: Seq<Step>, entry: Entry)
    requires
        wal.options.valid(),
        base.low >= 1,
        base.first >= 1,
        registered(base.members),
        image_of(base, steps) == Some(image),
        agrees(wal, image, base),
        reopen::taken(wal, entry),
    ensures
        image_of(base, steps + append_steps(wal, entry)) matches Some(next) && agrees(
            reopen::logged(wal, entry),
            next,
            base,
        ) && next.files == reopen::grown(image.files, wal, entry),
{
    let length = store::length_of(entry.raw.len() as int);
    let record = record_of(wal, entry);
    let longer = steps + append_steps(wal, entry);
    start_orderly(base);
    steps_orderly(base, start(base), steps);
    if store::rolls(wal, length) {
        let turned = steps.push(Step::Turn);
        assert(turned.drop_last() =~= steps);
        assert(longer.drop_last() =~= turned);
        turn_kept(wal, image, base);
        let middle = stepped(base.identity, image, Step::Turn)->Some_0;
        step_orderly(base, image, Step::Turn);
        reopen::turned_takes(wal, entry);
        assert(record_of(reopen::turned(wal), entry) == record);
        frame_kept(reopen::turned(wal), middle, base, entry);
        let next = stepped(base.identity, middle, Step::Frame(record))->Some_0;
        assert(next.files =~= reopen::grown(image.files, wal, entry));
        assert(image_of(base, turned) == Some(middle));
        assert(longer.last() == Step::Frame(record));
        assert(image_of(base, longer) == Some(next));
    } else {
        assert(longer.drop_last() =~= steps);
        assert(longer.last() == Step::Frame(record));
        frame_kept(wal, image, base, entry);
        assert(image_of(base, longer) == stepped(base.identity, image, Step::Frame(record)));
    }
}

/// Whether one member has read at least as much as another, which starts later or behind a later
/// checkpoint: they stand at the same record, or the second has none and needs none of the first.
/// Where `whole` is set, both have read the same records.
spec fn level(first: MemberView, second: MemberView, whole: bool) -> bool {
    &&& first.root == second.root
    &&& first.initialized == second.initialized
    &&& first.retired == second.retired
    &&& first.archive == second.archive
    &&& first.checkpoint <= second.checkpoint < u64::MAX
    &&& second.bytes <= first.bytes
    &&& {
        ||| first.latest == second.latest && first.seq == second.seq && first.lsn == second.lsn
        ||| second.latest == Pointer::spec_none() && second.seq == second.checkpoint && first.seq
            <= second.checkpoint && (whole ==> first.latest == Pointer::spec_none())
    }
}

/// A frame that one of two level members takes is taken by the other, and leaves them level.
proof fn level_takes(
    first: MemberView,
    second: MemberView,
    whole: bool,
    frame: FrameView,
    pointer: Pointer,
    length: int,
    digest: [u8; 32],
)
    requires
        level(first, second, whole),
        first.latest == Pointer::spec_none() || first.latest.spec_before(pointer),
        pointer != Pointer::spec_none(),
        length >= 0,
        recover::member_replayed(first, frame, pointer, length, digest) is Ok,
    ensures
        recover::member_replayed(second, frame, pointer, length, digest) matches Ok(after)
            && level(
            recover::member_replayed(first, frame, pointer, length, digest)->Ok_0,
            after,
            whole,
        ),
{
}

/// Whether two images run in parallel: from segment `cut` on they say the same.
spec fn parallel(first: Image, second: Image, cut: u64, gap: int, whole: bool) -> bool {
    &&& first.segment == second.segment
    &&& first.next == second.next
    &&& first.charged == second.charged + gap
    &&& cut <= first.segment
    &&& forall|s: u64| #[trigger]
        second.files.contains_key(s) <==> first.files.contains_key(s) && cut <= s
    &&& forall|s: u64| cut <= s <= first.segment ==> #[trigger] second.files[s] == first.files[s]
    &&& forall|s: u64| #[trigger]
        second.segments.contains_key(s) <==> first.segments.contains_key(s) && cut <= s
    &&& forall|s: u64|
        cut <= s <= first.segment ==> #[trigger] second.segments[s] == first.segments[s]
    &&& first.members.dom() == second.members.dom()
    &&& forall|id: SharedDbId| #[trigger]
        first.members.contains_key(id) ==> level(first.members[id], second.members[id], whole)
}

proof fn parallel_step(
    base: Base,
    first: Image,
    second: Image,
    step: Step,
    cut: u64,
    gap: int,
    whole: bool,
)
    requires
        orderly(base, first),
        parallel(first, second, cut, gap, whole),
        stepped(base.identity, first, step) is Some,
    ensures
        stepped(base.identity, second, step) matches Some(after) && parallel(
            stepped(base.identity, first, step)->Some_0,
            after,
            cut,
            gap,
            whole,
        ),
{
    let next = stepped(base.identity, first, step)->Some_0;
    if let Step::Frame(record) = step {
        let id = record.id;
        assert(first.members.contains_key(id) && second.members.contains_key(id));
        assert(second.files[first.segment] == first.files[first.segment]);
        assert(second.segments[first.segment] == first.segments[first.segment]);
        level_takes(
            first.members[id],
            second.members[id],
            whole,
            frame_view(first, record),
            position(first),
            store::length_of(record.raw.len() as int),
            record.digest,
        );
        let after = stepped(base.identity, second, step)->Some_0;
        assert(next.members.dom() =~= after.members.dom());
        assert forall|other: SharedDbId| #[trigger] next.members.contains_key(other) implies level(
            next.members[other],
            after.members[other],
            whole,
        ) by {
            if other != id {
                assert(first.members.contains_key(other));
            }
        }
    }
}

proof fn parallel_steps(
    base: Base,
    first: Image,
    second: Image,
    steps: Seq<Step>,
    cut: u64,
    gap: int,
    whole: bool,
)
    requires
        orderly(base, first),
        parallel(first, second, cut, gap, whole),
        stepped_all(base.identity, first, steps) is Some,
    ensures
        stepped_all(base.identity, second, steps) matches Some(after) && parallel(
            stepped_all(base.identity, first, steps)->Some_0,
            after,
            cut,
            gap,
            whole,
        ),
    decreases steps.len(),
{
    if steps.len() > 0 {
        let front = steps.drop_last();
        parallel_steps(base, first, second, front, cut, gap, whole);
        steps_orderly(base, first, front);
        parallel_step(
            base,
            stepped_all(base.identity, first, front)->Some_0,
            stepped_all(base.identity, second, front)->Some_0,
            steps.last(),
            cut,
            gap,
            whole,
        );
    }
}

/// The same files behind a member whose catalog has come further.
pub open spec fn with_catalog(base: Base, id: SharedDbId, checkpoint: u64) -> Base {
    Base {
        members: base.members.insert(
            id,
            MemberView { checkpoint, seq: checkpoint, ..base.members[id] },
        ),
        ..base
    }
}

/// Publishing a catalog keeps the log, before the log has heard of it: whether the old or the new
/// catalog is found afterwards, reading the same files leads to the log.
pub proof fn publishing_a_catalog_is_kept(
    wal: WalView,
    image: Image,
    base: Base,
    steps: Seq<Step>,
    id: SharedDbId,
    checkpoint: u64,
)
    requires
        base.low >= 1,
        base.first >= 1,
        registered(base.members),
        image_of(base, steps) == Some(image),
        agrees(wal, image, base),
        wal.members.contains_key(id),
        base.members[id].checkpoint <= checkpoint <= wal.members[id].seq,
        forall|other: SharedDbId| #[trigger]
            wal.members.contains_key(other) ==> wal.members[other].seq < u64::MAX,
    ensures
        registered(with_catalog(base, id, checkpoint).members),
        image_of(with_catalog(base, id, checkpoint), steps) matches Some(next) && agrees(
            wal,
            next,
            with_catalog(base, id, checkpoint),
        ) && next.files == image.files,
{
    let moved = with_catalog(base, id, checkpoint);
    start_orderly(base);
    steps_orderly(base, start(base), steps);
    image_members(base, steps);
    assert(start(base).members.dom() =~= start(moved).members.dom());
    assert forall|other: SharedDbId| #[trigger]
        start(base).members.contains_key(other) implies level(
        start(base).members[other],
        start(moved).members[other],
        true,
    ) by {
        assert(wal.members.contains_key(other));
        assert(image.members[other].checkpoint == base.members[other].checkpoint);
    }
    assert(parallel(start(base), start(moved), base.low, 0, true));
    parallel_steps(base, start(base), start(moved), steps, base.low, 0, true);
    let next = image_of(moved, steps)->Some_0;
    start_orderly(moved);
    steps_orderly(moved, start(moved), steps);
    assert(next.files =~= image.files);
    assert(next.segments =~= image.segments);
    assert(next.members.dom() =~= image.members.dom());
    image_members(moved, steps);
    assert forall|other: SharedDbId| #[trigger] wal.members.contains_key(other) implies stands(
        next.members[other],
        wal.members[other],
    ) && (wal.members[other].latest == Pointer::spec_none()
        || wal.members[other].latest.spec_before(position(next))) by {
        assert(image.members.contains_key(other));
        assert(next.members.contains_key(other));
    }
}

/// Frames neither move the checkpoint of a member nor retire it.
proof fn image_members(base: Base, steps: Seq<Step>)
    requires
        image_of(base, steps) is Some,
    ensures
        image_of(base, steps)->Some_0.members.dom() == base.members.dom(),
        forall|id: SharedDbId| #[trigger]
            base.members.contains_key(id) ==> image_of(base, steps)->Some_0.members[id].checkpoint
                == base.members[id].checkpoint && image_of(base, steps)->Some_0.members[id].retired
                == base.members[id].retired,
    decreases steps.len(),
{
    if steps.len() > 0 {
        image_members(base, steps.drop_last());
        let before = image_of(base, steps.drop_last())->Some_0;
        let after = image_of(base, steps)->Some_0;
        assert(after.members.dom() =~= before.members.dom());
        assert forall|id: SharedDbId| #[trigger]
            base.members.contains_key(id) implies after.members[id].checkpoint
            == base.members[id].checkpoint && after.members[id].retired
            == base.members[id].retired by {
            assert(before.members.contains_key(id));
        }
    }
}

/// A checkpoint of the log keeps it, where the member's catalog has come to its last record.
pub proof fn checkpointing_is_kept(
    wal: WalView,
    image: Image,
    base: Base,
    steps: Seq<Step>,
    id: SharedDbId,
)
    requires
        base.low >= 1,
        base.first >= 1,
        registered(base.members),
        image_of(base, steps) == Some(image),
        agrees(wal, image, base),
        !wal.poison,
        wal.members.contains_key(id),
        base.members[id].checkpoint == wal.members[id].seq,
    ensures
        member::checkpoint_outcome(wal, id, wal.members[id].seq) matches Ok(after) && agrees(
            after,
            image,
            base,
        ),
{
    start_orderly(base);
    steps_orderly(base, start(base), steps);
    image_members(base, steps);
    let after = member::checkpoint_outcome(wal, id, wal.members[id].seq)->Ok_0;
    assert(after.members.dom() =~= wal.members.dom());
    assert(image.members.contains_key(id));
    assert forall|other: SharedDbId| #[trigger] after.members.contains_key(other) implies stands(
        image.members[other],
        after.members[other],
    ) && (after.members[other].latest == Pointer::spec_none()
        || after.members[other].latest.spec_before(position(image))) by {
        assert(wal.members.contains_key(other));
    }
}

/// How many frames lie in the first segment.
pub open spec fn first_frames(steps: Seq<Step>) -> int
    decreases steps.len(),
{
    if steps.len() == 0 || steps[0] is Turn {
        0
    } else {
        1 + first_frames(steps.skip(1))
    }
}

proof fn first_frames_facts(steps: Seq<Step>)
    ensures
        0 <= first_frames(steps) <= steps.len(),
        forall|i: int| 0 <= i < first_frames(steps) ==> #[trigger] steps[i] is Frame,
        first_frames(steps) < steps.len() ==> steps[first_frames(steps)] is Turn,
    decreases steps.len(),
{
    if steps.len() > 0 && !(steps[0] is Turn) {
        let rest = steps.skip(1);
        first_frames_facts(rest);
        assert forall|i: int| 0 <= i < first_frames(steps) implies #[trigger] steps[i] is Frame by {
            if i > 0 {
                assert(rest[i - 1] == steps[i]);
            }
        }
        if first_frames(steps) < steps.len() {
            assert(rest[first_frames(rest)] == steps[first_frames(steps)]);
        }
    }
}

proof fn stepped_concat(identity: [u8; 16], image: Image, front: Seq<Step>, back: Seq<Step>)
    ensures
        stepped_all(identity, image, front + back) == (match stepped_all(identity, image, front) {
            Some(middle) => stepped_all(identity, middle, back),
            None => None,
        }),
    decreases back.len(),
{
    if back.len() == 0 {
        assert(front + back =~= front);
    } else {
        assert((front + back).drop_last() =~= front + back.drop_last());
        stepped_concat(identity, image, front, back.drop_last());
    }
}

/// What the frames of the first segment do: the segment lists the last record of each member in
/// it, and touches no other member.
proof fn first_segment(base: Base, steps: Seq<Step>)
    requires
        base.low >= 1,
        base.first >= 1,
        registered(base.members),
        forall|i: int| 0 <= i < steps.len() ==> #[trigger] steps[i] is Frame,
        image_of(base, steps) is Some,
    ensures
        ({
            let image = image_of(base, steps)->Some_0;
            let listed = image.segments[base.low].members;
            &&& image.segment == base.low
            &&& listed.dom().finite()
            &&& image.charged == base.charged + 128 + 96 * listed.len()
            &&& forall|id: SharedDbId| #[trigger]
                image.members.contains_key(id) ==> if listed.contains_key(id) {
                    &&& listed[id] == image.members[id].seq
                    &&& image.members[id].latest != Pointer::spec_none()
                } else {
                    image.members[id] == base.members[id]
                }
            &&& forall|id: SharedDbId| #[trigger]
                image.members.contains_key(id) ==> frames_passed(base.members[id], image.members[id])
            &&& forall|id: SharedDbId| #[trigger]
                listed.contains_key(id) ==> image.members.contains_key(id)
        }),
    decreases steps.len(),
{
    start_orderly(base);
    if steps.len() > 0 {
        let front = steps.drop_last();
        assert forall|i: int| 0 <= i < front.len() implies #[trigger] front[i] is Frame by {
            assert(steps[i] is Frame);
        }
        first_segment(base, front);
        let before = image_of(base, front)->Some_0;
        let image = image_of(base, steps)->Some_0;
        assert(steps[steps.len() - 1] is Frame);
        steps_orderly(base, start(base), front);
        image_members(base, front);
        let listed = image.segments[base.low].members;
        assert forall|id: SharedDbId| #[trigger]
            image.members.contains_key(id) implies frames_passed(
            base.members[id],
            image.members[id],
        ) by {
            assert(before.members.contains_key(id));
        }
        assert forall|id: SharedDbId| #[trigger] image.members.contains_key(id) implies (
        if listed.contains_key(id) {
            &&& listed[id] == image.members[id].seq
            &&& image.members[id].latest != Pointer::spec_none()
        } else {
            image.members[id] == base.members[id]
        }) by {
            assert(before.members.contains_key(id));
        }
    } else {
        assert(image_of(base, steps)->Some_0.segments[base.low].members.len() == 0);
    }
}

/// What frames leave of a member: a retired one has none behind its checkpoint, and an archive
/// that has released all of them stands where it stood.
spec fn frames_passed(before: MemberView, after: MemberView) -> bool {
    &&& after.root == before.root
    &&& after.initialized == before.initialized
    &&& after.retired == before.retired
    &&& after.checkpoint == before.checkpoint
    &&& after.retired ==> after.seq <= after.checkpoint
    &&& before.bytes <= after.bytes
    &&& match (before.archive, after.archive) {
        (Some(old_one), Some(new_one)) => new_one.released == old_one.released && (after.seq
            <= new_one.released.seq ==> new_one == old_one),
        (None, None) => true,
        _ => false,
    }
}

/// Segments behind the active one stay as they are.
proof fn older_stays(base: Base, image: Image, steps: Seq<Step>, s: u64)
    requires
        orderly(base, image),
        stepped_all(base.identity, image, steps) is Some,
        s < image.segment,
    ensures
        stepped_all(base.identity, image, steps)->Some_0.segments[s] == image.segments[s],
    decreases steps.len(),
{
    if steps.len() > 0 {
        older_stays(base, image, steps.drop_last(), s);
        steps_grow(base.identity, image, steps.drop_last());
    }
}

proof fn span_head(files: Map<u64, Seq<u8>>, low: int, high: int)
    requires
        0 <= low <= high,
    ensures
        reopen::span(files, low, high) == files[low as u64].len() + reopen::span(
            files,
            low + 1,
            high,
        ),
    decreases high - low,
{
    if low < high {
        span_head(files, low, high - 1);
    } else {
        assert(reopen::span(files, low, low - 1) == 0);
        assert(reopen::span(files, low + 1, low) == 0);
    }
}

/// Where the files begin once the first segment is gone.
pub open spec fn without_first(base: Base, steps: Seq<Step>) -> Base {
    Base {
        low: (base.low + 1) as u64,
        first: image_of(base, steps.take(first_frames(steps)))->Some_0.next,
        ..base
    }
}

/// The steps behind the first segment.
pub open spec fn later_steps(steps: Seq<Step>) -> Seq<Step> {
    steps.skip(first_frames(steps) + 1)
}

/// The steps of an image with more than one segment, up to and behind its first turn.
proof fn first_split(base: Base, steps: Seq<Step>)
    requires
        base.low >= 1,
        base.first >= 1,
        registered(base.members),
        image_of(base, steps) is Some,
        image_of(base, steps)->Some_0.segment > base.low,
    ensures
        ({
            let front = steps.take(first_frames(steps));
            &&& forall|i: int| 0 <= i < front.len() ==> #[trigger] front[i] is Frame
            &&& image_of(base, front) matches Some(before)
            &&& orderly(base, before)
            &&& stepped(base.identity, before, Step::Turn) matches Some(turned)
            &&& orderly(base, turned)
            &&& stepped_all(base.identity, turned, later_steps(steps)) == image_of(base, steps)
        }),
{
    let identity = base.identity;
    let count = first_frames(steps);
    let front = steps.take(count);
    let rest = later_steps(steps);
    let bare = start(base);
    start_orderly(base);
    first_frames_facts(steps);
    assert forall|i: int| 0 <= i < front.len() implies #[trigger] front[i] is Frame by {
        assert(steps[i] is Frame);
    }
    if count == steps.len() {
        assert(front =~= steps);
        first_segment(base, steps);
    }
    assert(steps =~= front + (seq![Step::Turn] + rest));
    stepped_concat(identity, bare, front, seq![Step::Turn] + rest);
    let before = stepped_all(identity, bare, front)->Some_0;
    stepped_concat(identity, before, seq![Step::Turn], rest);
    assert(seq![Step::Turn].drop_last() =~= Seq::<Step>::empty());
    reveal_with_fuel(stepped_all, 2);
    assert(stepped_all(identity, before, seq![Step::Turn]) == stepped(
        identity,
        before,
        Step::Turn,
    ));
    steps_orderly(base, bare, front);
    step_orderly(base, before, Step::Turn);
}

/// A member whose records in a segment are not needed any more can do without them.
proof fn pass_level(before: MemberView, last: MemberView, found: MemberView, member: MemberView)
    requires
        before.latest == Pointer::spec_none(),
        before.seq == before.checkpoint,
        frames_passed(before, last),
        found.checkpoint == before.checkpoint,
        found.retired == before.retired,
        match (last.archive, found.archive) {
            (Some(left), Some(right)) => left.released == right.released,
            (None, None) => true,
            _ => false,
        },
        stands(found, member),
        !member.needs(last.seq),
        member.seq < u64::MAX,
    ensures
        level(last, before, false),
{
}

/// The image behind the first segment runs in parallel to one that begins there.
proof fn pass_parallel(
    wal: WalView,
    image: Image,
    base: Base,
    steps: Seq<Step>,
    before: Image,
    turned: Image,
)
    requires
        base.low >= 1,
        base.first >= 1,
        registered(base.members),
        image_of(base, steps) == Some(image),
        agrees(wal, image, base),
        gc::reclaimable(wal, base.low),
        forall|id: SharedDbId| #[trigger]
            wal.members.contains_key(id) ==> wal.members[id].seq < u64::MAX,
        image_of(base, steps.take(first_frames(steps))) == Some(before),
        forall|i: int|
            0 <= i < first_frames(steps) ==> #[trigger] steps.take(
                first_frames(steps),
            )[i] is Frame,
        0 <= first_frames(steps) <= steps.len(),
        orderly(base, before),
        stepped(base.identity, before, Step::Turn) == Some(turned),
        orderly(base, turned),
        stepped_all(base.identity, turned, later_steps(steps)) == Some(image),
    ensures
        parallel(
            turned,
            start(without_first(base, steps)),
            (base.low + 1) as u64,
            128 + 96 * wal.segments[base.low].members.len() as int,
            false,
        ),
{
    let rest = later_steps(steps);
    let front = steps.take(first_frames(steps));
    let moved = without_first(base, steps);
    let fresh = start(moved);
    first_segment(base, front);
    older_stays(base, turned, rest, base.low);
    image_members(base, steps);
    let listed = before.segments[base.low].members;
    assert(wal.segments[base.low].members == listed);
    assert(turned.members.dom() =~= fresh.members.dom());
    assert forall|id: SharedDbId| #[trigger] turned.members.contains_key(id) implies level(
        turned.members[id],
        fresh.members[id],
        false,
    ) by {
        assert(before.members.contains_key(id));
        assert(base.members.contains_key(id));
        assert(image.members.contains_key(id));
        assert(wal.members.contains_key(id));
        released_stays(base, turned, rest, id);
        if listed.contains_key(id) {
            assert(!gc::held(wal, id, listed[id]));
            pass_level(
                base.members[id],
                before.members[id],
                image.members[id],
                wal.members[id],
            );
        }
    }
}

/// Reclaiming keeps a log: the files that are left, read behind the same catalogs, lead to the log
/// without the segment that nobody needs.
pub proof fn reclaiming_is_kept(
    wal: WalView,
    image: Image,
    base: Base,
    steps: Seq<Step>,
    number: u64,
)
    requires
        base.low >= 1,
        base.first >= 1,
        registered(base.members),
        image_of(base, steps) == Some(image),
        agrees(wal, image, base),
        gc::reclaimable(wal, number),
        forall|id: SharedDbId| #[trigger]
            wal.members.contains_key(id) ==> wal.members[id].seq < u64::MAX,
    ensures
        number == base.low,
        without_first(base, steps).first >= 1,
        image_of(without_first(base, steps), later_steps(steps)) matches Some(next) && agrees(
            gc::without(wal, number),
            next,
            without_first(base, steps),
        ) && next.files == image.files.remove(number),
{
    let identity = base.identity;
    let rest = later_steps(steps);
    start_orderly(base);
    steps_orderly(base, start(base), steps);
    assert(wal.segments.contains_key(base.low));
    assert(wal.segments.contains_key(number));
    assert(number == base.low);
    first_split(base, steps);
    first_frames_facts(steps);
    let before = image_of(base, steps.take(first_frames(steps)))->Some_0;
    let turned = stepped(identity, before, Step::Turn)->Some_0;
    let moved = without_first(base, steps);
    let fresh = start(moved);
    let gap = 128 + 96 * wal.segments[base.low].members.len() as int;
    pass_parallel(wal, image, base, steps, before, turned);
    parallel_steps(base, turned, fresh, rest, moved.low, gap, false);
    let next = stepped_all(identity, fresh, rest)->Some_0;
    start_orderly(moved);
    steps_orderly(moved, fresh, rest);
    image_members(moved, rest);
    image_members(base, steps);
    let after = gc::without(wal, number);
    assert(next.files =~= image.files.remove(number));
    assert(next.segments =~= after.segments);
    span_head(image.files, base.low as int, image.segment as int);
    reopen::span_same(image.files, next.files, moved.low as int, image.segment as int);
    reopen::span_nonnegative(next.files, moved.low as int, image.segment as int);
    steps_grow(identity, fresh, rest);
    assert(image.segments[base.low].length == image.files[base.low].len());
    assert(next.members.dom() =~= after.members.dom());
    assert forall|id: SharedDbId| #[trigger] after.members.contains_key(id) implies stands(
        next.members[id],
        after.members[id],
    ) && (after.members[id].latest == Pointer::spec_none()
        || after.members[id].latest.spec_before(position(next))) by {
        assert(wal.members.contains_key(id));
        assert(image.members.contains_key(id));
        assert(next.members.contains_key(id));
    }
}

/// Whether steps leave the released boundary of a member's archive.
spec fn released_alike(base: Base, image: Image, steps: Seq<Step>, id: SharedDbId) -> bool {
    match (
        image.members[id].archive,
        stepped_all(base.identity, image, steps)->Some_0.members[id].archive,
    ) {
        (Some(before), Some(after)) => before.released == after.released,
        (None, None) => true,
        _ => false,
    }
}

proof fn released_stays(base: Base, image: Image, steps: Seq<Step>, id: SharedDbId)
    requires
        image.members.contains_key(id),
        stepped_all(base.identity, image, steps) is Some,
    ensures
        released_alike(base, image, steps, id),
        stepped_all(base.identity, image, steps)->Some_0.members.contains_key(id),
    decreases steps.len(),
{
    if steps.len() > 0 {
        released_stays(base, image, steps.drop_last(), id);
    }
}

/// Whether no frame of a member can be read: it is not known, or not initialized.
spec fn silent(image: Image, id: SharedDbId) -> bool {
    image.members.contains_key(id) ==> !image.members[id].initialized
        && !image.members[id].retired
}

/// An image with a member in place of one that has no frames.
spec fn beside(image: Image, id: SharedDbId, member: MemberView, gap: int) -> Image {
    Image {
        members: image.members.insert(id, member),
        charged: image.charged + gap,
        ..image
    }
}

/// Frames of others do not touch a member that has none.
proof fn beside_steps(
    identity: [u8; 16],
    image: Image,
    steps: Seq<Step>,
    id: SharedDbId,
    member: MemberView,
    gap: int,
)
    requires
        silent(image, id),
        stepped_all(identity, image, steps) is Some,
    ensures
        silent(stepped_all(identity, image, steps)->Some_0, id),
        image.members.contains_key(id) ==> stepped_all(identity, image, steps)->Some_0.members[id]
            == image.members[id],
        stepped_all(identity, image, steps)->Some_0.members.contains_key(id)
            == image.members.contains_key(id),
        stepped_all(identity, beside(image, id, member, gap), steps) == Some(
            beside(stepped_all(identity, image, steps)->Some_0, id, member, gap),
        ),
    decreases steps.len(),
{
    if steps.len() > 0 {
        let front = steps.drop_last();
        beside_steps(identity, image, front, id, member, gap);
        let before = stepped_all(identity, image, front)->Some_0;
        let after = stepped_all(identity, image, steps)->Some_0;
        let other = beside(before, id, member, gap);
        match steps.last() {
            Step::Turn => {},
            Step::Frame(record) => {
                assert(record.id != id);
                assert(other.members[record.id] == before.members[record.id]);
                assert(stepped(identity, other, steps.last())->Some_0.members
                    =~= after.members.insert(id, member));
            },
        }
    }
}

/// The same files with a member that was registered, or whose registration changed.
pub open spec fn with_member(base: Base, id: SharedDbId, member: MemberView, charge: u64) -> Base {
    Base {
        members: base.members.insert(id, member),
        charged: (base.charged + charge) as u64,
        ..base
    }
}

/// Registering keeps a log: nothing in the files changes, and the new member has no records.
pub proof fn registering_is_kept(
    wal: WalView,
    after: WalView,
    root: Seq<u8>,
    id: SharedDbId,
    bound: bool,
    cataloged: bool,
    imported: bool,
    embedded: bool,
    registration: membership::Registration,
    image: Image,
    base: Base,
    steps: Seq<Step>,
)
    requires
        base.low >= 1,
        base.first >= 1,
        registered(base.members),
        image_of(base, steps) == Some(image),
        agrees(wal, image, base),
        membership::register_refusal(
            wal,
            root,
            id,
            bound,
            cataloged,
            imported,
            embedded,
        ) is None,
        membership::register_done(wal, after, root, id, bound, embedded, registration),
        !wal.members.contains_key(id),
    ensures
        ({
            let moved = with_member(
                base,
                id,
                membership::fresh_member(root, false, false, 0, None),
                state::spec_member_charge(root.len() as int),
            );
            &&& registered(moved.members)
            &&& image_of(moved, steps) matches Some(next)
            &&& agrees(after, next, moved)
            &&& next.files == image.files
        }),
{
    let member = membership::fresh_member(root, false, false, 0, None);
    let charge = state::spec_member_charge(root.len() as int);
    let moved = with_member(base, id, member, charge);
    start_orderly(base);
    steps_orderly(base, start(base), steps);
    steps_grow(base.identity, start(base), steps);
    beside_steps(base.identity, start(base), steps, id, member, charge as int);
    assert(start(moved) == beside(start(base), id, member, charge as int));
    let next = beside(image, id, member, charge as int);
    assert(after.members.dom() =~= next.members.dom());
    assert forall|other: SharedDbId| #[trigger] after.members.contains_key(other) implies stands(
        next.members[other],
        after.members[other],
    ) && (after.members[other].latest == Pointer::spec_none()
        || after.members[other].latest.spec_before(position(next))) by {
        if other != id {
            assert(wal.members.contains_key(other));
        }
    }
}

/// Noting the first catalog of a member keeps a log, where the catalog is there.
pub proof fn initializing_is_kept(
    wal: WalView,
    image: Image,
    base: Base,
    steps: Seq<Step>,
    id: SharedDbId,
    checkpoint: u64,
)
    requires
        base.low >= 1,
        base.first >= 1,
        registered(base.members),
        image_of(base, steps) == Some(image),
        agrees(wal, image, base),
        wal.members.contains_key(id),
        !wal.members[id].initialized,
        !wal.members[id].retired,
        wal.members[id].archive is None,
        membership::initialized_outcome(wal, id, checkpoint) is Ok,
    ensures
        ({
            let member = MemberView {
                initialized: true,
                checkpoint,
                seq: checkpoint,
                ..base.members[id]
            };
            let moved = with_member(base, id, member, 0);
            &&& registered(moved.members)
            &&& image_of(moved, steps) matches Some(next)
            &&& agrees(
                membership::initialized_outcome(wal, id, checkpoint)->Ok_0,
                next,
                moved,
            )
            &&& next.files == image.files
        }),
{
    let member = MemberView { initialized: true, checkpoint, seq: checkpoint, ..base.members[id] };
    let moved = with_member(base, id, member, 0);
    let after = membership::initialized_outcome(wal, id, checkpoint)->Ok_0;
    start_orderly(base);
    steps_orderly(base, start(base), steps);
    assert(image.members.contains_key(id));
    silence(base, start(base), steps, id);
    beside_steps(base.identity, start(base), steps, id, member, 0);
    assert(start(moved) == beside(start(base), id, member, 0));
    let next = beside(image, id, member, 0);
    assert(after.members.dom() =~= next.members.dom());
    assert forall|other: SharedDbId| #[trigger] after.members.contains_key(other) implies stands(
        next.members[other],
        after.members[other],
    ) && (after.members[other].latest == Pointer::spec_none()
        || after.members[other].latest.spec_before(position(next))) by {
        assert(wal.members.contains_key(other));
    }
}

/// A member that is not initialized at the end was not so before.
proof fn silence(base: Base, image: Image, steps: Seq<Step>, id: SharedDbId)
    requires
        stepped_all(base.identity, image, steps) is Some,
        stepped_all(base.identity, image, steps)->Some_0.members.contains_key(id),
        silent(stepped_all(base.identity, image, steps)->Some_0, id),
    ensures
        silent(image, id),
        image.members.contains_key(id),
    decreases steps.len(),
{
    if steps.len() > 0 {
        silence(base, image, steps.drop_last(), id);
    }
}

/// A retired member in the place of a member that read the same frames.
spec fn in_place(fresh: MemberView, member: MemberView) -> MemberView {
    if member.latest == Pointer::spec_none() {
        fresh
    } else {
        MemberView { latest: member.latest, seq: member.seq, lsn: member.lsn, ..fresh }
    }
}

spec fn retired_image(image: Image, id: SharedDbId, fresh: MemberView, gap: int) -> Image {
    beside(image, id, in_place(fresh, image.members[id]), gap)
}

/// A retired member takes the frames that lie in front of its retirement.
proof fn retired_steps(
    base: Base,
    image: Image,
    steps: Seq<Step>,
    id: SharedDbId,
    fresh: MemberView,
    gap: int,
)
    requires
        orderly(base, image),
        image.members.contains_key(id),
        fresh.retired,
        fresh.latest == Pointer::spec_none(),
        fresh.archive is None,
        fresh.seq == fresh.checkpoint < u64::MAX,
        stepped_all(base.identity, image, steps) is Some,
        stepped_all(base.identity, image, steps)->Some_0.members[id].latest != Pointer::spec_none()
            ==> stepped_all(base.identity, image, steps)->Some_0.members[id].seq
            <= fresh.checkpoint,
    ensures
        stepped_all(base.identity, image, steps)->Some_0.members.contains_key(id),
        stepped_all(base.identity, retired_image(image, id, fresh, gap), steps) == Some(
            retired_image(stepped_all(base.identity, image, steps)->Some_0, id, fresh, gap),
        ),
    decreases steps.len(),
{
    if steps.len() > 0 {
        let front = steps.drop_last();
        let before = stepped_all(base.identity, image, front)->Some_0;
        let after = stepped_all(base.identity, image, steps)->Some_0;
        steps_orderly(base, image, front);
        released_stays(base, image, front, id);
        retired_steps(base, image, front, id, fresh, gap);
        let other = retired_image(before, id, fresh, gap);
        let next = stepped(base.identity, other, steps.last());
        match steps.last() {
            Step::Turn => {},
            Step::Frame(record) => {
                if record.id != id {
                    assert(other.members[record.id] == before.members[record.id]);
                } else {
                    assert(replay(other, record) is Ok);
                }
                assert(next is Some);
                assert(next->Some_0.members =~= retired_image(after, id, fresh, gap).members);
            },
        }
    }
}

/// Retiring a member keeps a log, once the file that says so is there: all its frames lie in front
/// of its retirement.
pub proof fn retiring_is_kept(
    wal: WalView,
    image: Image,
    base: Base,
    steps: Seq<Step>,
    id: SharedDbId,
    root: Seq<u8>,
    lock: Result<()>,
    binding: Option<Seq<u8>>,
    pinned: bool,
    charged: u64,
)
    requires
        base.low >= 1,
        base.first >= 1,
        registered(base.members),
        image_of(base, steps) == Some(image),
        agrees(wal, image, base),
        member::discard_outcome(wal, root, id, lock, binding, pinned) matches Ok(Some(_)),
        wal.members[id].seq < u64::MAX,
        charged <= base.charged,
    ensures
        ({
            let after = member::discard_outcome(wal, root, id, lock, binding, pinned)->Ok_0->Some_0;
            let retired = membership::fresh_member(root, false, true, wal.members[id].seq, None);
            let moved = Base { members: base.members.insert(id, retired), charged, ..base };
            &&& registered(moved.members)
            &&& image_of(moved, steps) matches Some(next)
            &&& agrees(after, next, moved)
            &&& next.files == image.files
        }),
{
    let after = member::discard_outcome(wal, root, id, lock, binding, pinned)->Ok_0->Some_0;
    let retired = membership::fresh_member(root, false, true, wal.members[id].seq, None);
    let moved = Base { members: base.members.insert(id, retired), charged, ..base };
    let gap = charged - base.charged;
    start_orderly(base);
    steps_orderly(base, start(base), steps);
    image_members(base, steps);
    assert(wal.members.contains_key(id));
    assert(image.members.contains_key(id));
    retired_steps(base, start(base), steps, id, retired, gap);
    assert(start(moved) == retired_image(start(base), id, retired, gap));
    let next = retired_image(image, id, retired, gap);
    assert(after.members.dom() =~= next.members.dom());
    assert forall|other: SharedDbId| #[trigger] after.members.contains_key(other) implies stands(
        next.members[other],
        after.members[other],
    ) && (after.members[other].latest == Pointer::spec_none()
        || after.members[other].latest.spec_before(position(next))) by {
        assert(wal.members.contains_key(other));
    }
}

/// A sync keeps a log: it moves bytes from the buffer to the files, and nothing else.
pub proof fn syncing_is_kept(wal: WalView, image: Image, base: Base)
    requires
        agrees(wal, image, base),
    ensures
        agrees(store::synced(wal), image, base),
{
}

} // verus!
