//! Reading a log a second time.
//!
//! A whole recovery is here one function of the segment files, of the boundary files and of what the
//! record codec says of the frames. A first recovery may find the last segment damaged: it then
//! leaves the segment as it is, publishes how much of it was accepted, and lets the log continue in
//! a fresh segment. A second recovery of what the first one left comes to the same log.
use vstd::prelude::*;

use super::boundary::{self, Boundary};
use super::frame::{self, Pointer};
use super::gc;
use super::member;
use super::membership;
use super::recover::{self, Found, RecoveryView, ScanView};
use super::registry;
use super::reopen::{self, Reading};
use super::state::{MemberView, SegmentView, WalView};
use super::types::{SharedDbId, SharedWalOptions};
use crate::error::{self, Error, Result};

verus! {

/// What a record codec says of the frame at a place: the sequence in its record, and the archive
/// chain digest that covers it.
pub type Codec = spec_fn(Pointer) -> (Result<u64>, [u8; 32]);

/// The reading after the frame at its position, which has this length.
pub open spec fn after_frame(reading: Reading, content: Seq<u8>, length: usize, codec: Codec)
    -> Result<Reading> {
    let scan = reading.scan;
    let source = content.subrange(scan.offset as int, scan.offset + length);
    let said = codec(Pointer { segment: scan.number, offset: scan.offset });
    match recover::frame_outcome(reading.recovery, scan, source, said.0, said.1) {
        Err(e) => Err(e),
        Ok((frame, member, charged)) => Ok(
            Reading {
                recovery: RecoveryView {
                    members: reading.recovery.members.insert(frame.id, member),
                    charged,
                    ..reading.recovery
                },
                scan: ScanView {
                    offset: (scan.offset + length) as u64,
                    next: (scan.next + 1) as u64,
                    members: scan.members.insert(frame.id, frame.seq),
                    ..scan
                },
            },
        ),
    }
}

/// The reading of a segment after all its frames, and the boundary to publish if it is torn.
pub open spec fn frames_read(reading: Reading, content: Seq<u8>, codec: Codec) -> Result<
    (Reading, Option<Boundary>),
>
    decreases reading.scan.end - reading.scan.offset,
{
    let scan = reading.scan;
    match recover::found_at(scan, content) {
        Err(e) => Err(e),
        Ok(Found::End) => Ok((reading, None)),
        Ok(Found::Torn) => Ok(
            (
                Reading {
                    recovery: RecoveryView { rotate: true, ..reading.recovery },
                    scan: ScanView { end: scan.offset, ..scan },
                },
                Some(Boundary { end: scan.offset, next: scan.next }),
            ),
        ),
        Ok(Found::Frame(length)) => match after_frame(reading, content, length, codec) {
            Err(e) => Err(e),
            Ok(next) => frames_read(next, content, codec),
        },
    }
}

/// The reading of a segment whose header is accepted.
pub open spec fn opened(
    recovery: RecoveryView,
    content: Seq<u8>,
    evidence: Option<Boundary>,
    first: u64,
) -> Reading {
    Reading {
        recovery: RecoveryView {
            storage: (recovery.storage + content.len()) as u64,
            charged: (recovery.charged + 128) as u64,
            ..recovery
        },
        scan: ScanView {
            number: recovery.paths[recovery.index],
            length: content.len() as u64,
            end: recover::accepted_end(content, evidence),
            offset: frame::SEGMENT_HEADER as u64,
            next: first,
            last: recovery.index + 1 == recovery.paths.len(),
            evidence,
            members: Map::empty(),
        },
    }
}

/// The recovery after the next segment, and the boundary to publish for it, if there is one.
pub open spec fn segment_read(
    recovery: RecoveryView,
    content: Seq<u8>,
    file: Option<Seq<u8>>,
    codec: Codec,
) -> Result<(RecoveryView, Option<Boundary>)> {
    match recover::segment_refusal(recovery, content, file) {
        Some(e) => Err(e),
        None => {
            let evidence = recover::evidence_of(recovery, content, file)->Ok_0;
            if recover::starts_empty(content, evidence) {
                match recover::empty_refusal(recovery, evidence) {
                    Some(e) => Err(e),
                    None => Ok(
                        (
                            recover::after_empty(recovery, content),
                            match evidence {
                                Some(_) => None,
                                None => Some(
                                    Boundary { end: 0, next: recover::expected_lsn(recovery) },
                                ),
                            },
                        ),
                    ),
                }
            } else {
                match recover::header_first(recovery, content) {
                    Err(e) => Err(e),
                    Ok(first) => match frames_read(
                        opened(recovery, content, evidence, first),
                        content,
                        codec,
                    ) {
                        Err(e) => Err(e),
                        Ok((reading, publish)) => match recover::segment_closing(reading.scan) {
                            Some(e) => Err(e),
                            None => Ok((reopen::closed(reading), publish)),
                        },
                    },
                }
            }
        },
    }
}

/// Reading frames moves on, and changes nothing but members, charge and rotation.
proof fn frames_move_on(reading: Reading, content: Seq<u8>, codec: Codec)
    requires
        frames_read(reading, content, codec) is Ok,
    ensures
        ({
            let (after, publish) = frames_read(reading, content, codec)->Ok_0;
            &&& after.recovery == (RecoveryView {
                members: after.recovery.members,
                charged: after.recovery.charged,
                rotate: after.recovery.rotate,
                ..reading.recovery
            })
            &&& after.scan == (ScanView {
                end: after.scan.end,
                offset: after.scan.offset,
                next: after.scan.next,
                members: after.scan.members,
                ..reading.scan
            })
            &&& reading.scan.offset <= after.scan.offset
            &&& reading.scan.next >= 1 ==> after.scan.next >= 1
            &&& match publish {
                None => after.scan.end == reading.scan.end && after.recovery.rotate
                    == reading.recovery.rotate,
                Some(found) => after.recovery.rotate && after.scan.end == after.scan.offset
                    && after.scan.offset <= reading.scan.end && found == (Boundary {
                    end: after.scan.offset,
                    next: after.scan.next,
                }) && reading.scan.last && reading.scan.evidence is None,
            }
        }),
    decreases reading.scan.end - reading.scan.offset,
{
    if let Ok(Found::Frame(length)) = recover::found_at(reading.scan, content) {
        frames_move_on(after_frame(reading, content, length, codec)->Ok_0, content, codec);
    }
}

/// Reading a segment goes on to the next one.
pub proof fn segment_moves_on(
    recovery: RecoveryView,
    content: Seq<u8>,
    file: Option<Seq<u8>>,
    codec: Codec,
)
    requires
        segment_read(recovery, content, file, codec) is Ok,
    ensures
        ({
            let (after, publish) = segment_read(recovery, content, file, codec)->Ok_0;
            &&& after.index == recovery.index + 1
            &&& after.paths == recovery.paths
            &&& after.identity == recovery.identity
            &&& after.options == recovery.options
            &&& publish is Some ==> after.rotate && after.index == recovery.paths.len()
                && file is None
            &&& recover::expected_lsn(recovery) >= 1 ==> recover::expected_lsn(after) >= 1
        }),
{
    let evidence = recover::evidence_of(recovery, content, file)->Ok_0;
    if !recover::starts_empty(content, evidence) {
        let first = recover::header_first(recovery, content)->Ok_0;
        frames_move_on(opened(recovery, content, evidence, first), content, codec);
    }
}

/// The files of a log: its segments and the boundaries of damaged ones.
#[verifier::ext_equal]
pub struct Files {
    pub segments: Map<u64, Seq<u8>>,
    pub boundaries: Map<u64, Seq<u8>>,
}

impl Files {
    /// The boundary file of a segment, if it has one.
    pub open spec fn boundary(self, number: u64) -> Option<Seq<u8>> {
        if self.boundaries.contains_key(number) {
            Some(self.boundaries[number])
        } else {
            None
        }
    }

    /// The files once a boundary was published for a segment.
    pub open spec fn published(self, owner: Seq<u8>, number: u64, found: Option<Boundary>) -> Files {
        match found {
            None => self,
            Some(boundary) => Files {
                boundaries: self.boundaries.insert(
                    number,
                    frame::sealed(
                        boundary::boundary_body(
                            owner,
                            number,
                            self.segments[number],
                            boundary,
                        ),
                    ),
                ),
                ..self
            },
        }
    }
}

/// The recovery after all segments that are left, and the files with the boundaries that were
/// published.
pub open spec fn all_read(recovery: RecoveryView, files: Files, codec: Codec) -> Result<
    (RecoveryView, Files),
>
    decreases recovery.paths.len() - recovery.index,
{
    if recovery.index < 0 || recovery.index >= recovery.paths.len() {
        Ok((recovery, files))
    } else {
        let number = recovery.paths[recovery.index];
        match segment_read(recovery, files.segments[number], files.boundary(number), codec) {
            Err(e) => Err(e),
            Ok((next, publish)) => {
                proof {
                    segment_moves_on(
                        recovery,
                        files.segments[number],
                        files.boundary(number),
                        codec,
                    );
                }
                all_read(next, files.published(recovery.identity@, number, publish), codec)
            },
        }
    }
}

/// A recovery of which more segment files are known.
pub open spec fn carried(recovery: RecoveryView, paths: Seq<u64>) -> RecoveryView {
    RecoveryView { paths, rotate: false, ..recovery }
}

spec fn scanned_again(
    reading: Reading,
    paths: Seq<u64>,
    end: u64,
    evidence: Option<Boundary>,
) -> Reading {
    Reading {
        recovery: carried(reading.recovery, paths),
        scan: ScanView { end, last: false, evidence, ..reading.scan },
    }
}

/// Frames that were accepted are accepted again, up to where they ended.
proof fn frames_again(
    reading: Reading,
    content: Seq<u8>,
    codec: Codec,
    paths: Seq<u64>,
    evidence: Option<Boundary>,
)
    requires
        frames_read(reading, content, codec) is Ok,
    ensures
        ({
            let after = frames_read(reading, content, codec)->Ok_0.0;
            let end = after.scan.end;
            frames_read(scanned_again(reading, paths, end, evidence), content, codec) == Ok::<
                (Reading, Option<Boundary>),
                Error,
            >((scanned_again(after, paths, end, evidence), None))
        }),
    decreases reading.scan.end - reading.scan.offset,
{
    let after = frames_read(reading, content, codec)->Ok_0.0;
    let end = after.scan.end;
    let again = scanned_again(reading, paths, end, evidence);
    frames_move_on(reading, content, codec);
    if let Ok(Found::Frame(length)) = recover::found_at(reading.scan, content) {
        let next = after_frame(reading, content, length, codec)->Ok_0;
        frames_move_on(next, content, codec);
        assert(next.scan.offset == reading.scan.offset + length);
        assert(next.scan.offset <= end);
        assert(recover::found_at(again.scan, content) == Ok::<Found, Error>(
            Found::Frame(length),
        ));
        assert(after_frame(again, content, length, codec) == Ok::<Reading, Error>(
            scanned_again(next, paths, end, evidence),
        ));
        frames_again(next, content, codec, paths, evidence);
    }
}

/// What a boundary file is after a segment was read.
spec fn note_after(
    recovery: RecoveryView,
    content: Seq<u8>,
    file: Option<Seq<u8>>,
    publish: Option<Boundary>,
) -> Option<Seq<u8>> {
    match publish {
        None => file,
        Some(found) => Some(
            frame::sealed(
                boundary::boundary_body(
                    recovery.identity@,
                    recovery.paths[recovery.index],
                    content,
                    found,
                ),
            ),
        ),
    }
}

/// A segment that is no longer the last is read as it was when it was the last.
proof fn segment_again(
    recovery: RecoveryView,
    content: Seq<u8>,
    file: Option<Seq<u8>>,
    codec: Codec,
    paths: Seq<u64>,
)
    requires
        segment_read(recovery, content, file, codec) is Ok,
        0 <= recovery.index < recovery.paths.len() < paths.len(),
        paths.take(recovery.paths.len() as int) == recovery.paths,
        recover::expected_lsn(recovery) >= 1,
    ensures
        ({
            let (after, publish) = segment_read(recovery, content, file, codec)->Ok_0;
            segment_read(
                carried(recovery, paths),
                content,
                note_after(recovery, content, file, publish),
                codec,
            ) == Ok::<(RecoveryView, Option<Boundary>), Error>((carried(after, paths), None))
        }),
{
    let (after, publish) = segment_read(recovery, content, file, codec)->Ok_0;
    let again = carried(recovery, paths);
    let note = note_after(recovery, content, file, publish);
    let evidence = recover::evidence_of(recovery, content, file)->Ok_0;
    let number = recovery.paths[recovery.index];
    let known = recovery.paths.len() as int;
    assert(paths.take(known)[recovery.index] == paths[recovery.index]);
    if recovery.index > 0 {
        assert(paths.take(known)[recovery.index - 1] == paths[recovery.index - 1]);
    }
    segment_moves_on(recovery, content, file, codec);
    if recover::starts_empty(content, evidence) {
        if let Some(found) = publish {
            boundary::boundary_round_trip(recovery.identity@, number, content, found);
            assert(recover::evidence_of(again, content, note) == Ok::<Option<Boundary>, Error>(
                Some(found),
            ));
        }
        assert(recover::after_empty(again, content) == carried(after, paths));
    } else {
        let first = recover::header_first(recovery, content)->Ok_0;
        let reading = opened(recovery, content, evidence, first);
        let end = frames_read(reading, content, codec)->Ok_0.0;
        frames_move_on(reading, content, codec);
        if let Some(found) = publish {
            boundary::boundary_round_trip(recovery.identity@, number, content, found);
            assert(recover::evidence_of(again, content, note) == Ok::<Option<Boundary>, Error>(
                Some(found),
            ));
        }
        let shown = recover::evidence_of(again, content, note)->Ok_0;
        assert(recover::segment_refusal(again, content, note) is None);
        assert(!recover::starts_empty(content, shown));
        assert(recover::header_first(again, content) == Ok::<u64, Error>(first));
        frames_again(reading, content, codec, paths, shown);
        let repeated = scanned_again(reading, paths, end.scan.end, shown);
        assert(opened(again, content, shown, first) == repeated);
        let finished = scanned_again(end, paths, end.scan.end, shown);
        assert(recover::segment_closing(finished.scan) is None);
        assert(reopen::closed(finished) == carried(after, paths));
    }
}

/// Whether numbers strictly increase.
pub open spec fn increasing(paths: Seq<u64>) -> bool {
    forall|i: int, j: int| 0 <= i < j < paths.len() ==> #[trigger] paths[i] < #[trigger] paths[j]
}

/// Segments that are read later do not touch the boundary of an earlier one, and no segment file
/// ever changes.
proof fn files_stay(recovery: RecoveryView, files: Files, codec: Codec, number: u64)
    requires
        all_read(recovery, files, codec) is Ok,
        0 <= recovery.index <= recovery.paths.len(),
    ensures
        ({
            let (last, done) = all_read(recovery, files, codec)->Ok_0;
            &&& done.segments == files.segments
            &&& files.boundaries.contains_key(number) ==> done.boundaries.contains_key(number)
                && done.boundaries[number] == files.boundaries[number]
            &&& (forall|i: int|
                recovery.index <= i < recovery.paths.len() ==> #[trigger] recovery.paths[i]
                    != number) ==> done.boundary(number) == files.boundary(number)
            &&& !last.rotate ==> done == files
            &&& last.index == recovery.paths.len()
            &&& last.paths == recovery.paths
            &&& last.identity == recovery.identity
            &&& last.options == recovery.options
            &&& recover::expected_lsn(recovery) >= 1 ==> recover::expected_lsn(last) >= 1
        }),
    decreases recovery.paths.len() - recovery.index,
{
    if recovery.index < recovery.paths.len() {
        let here = recovery.paths[recovery.index];
        let content = files.segments[here];
        let (next, publish) = segment_read(
            recovery,
            content,
            files.boundary(here),
            codec,
        )->Ok_0;
        segment_moves_on(recovery, content, files.boundary(here), codec);
        files_stay(next, files.published(recovery.identity@, here, publish), codec, number);
    }
}

/// All segments of a first recovery are read again as they were.
proof fn all_again(
    recovery: RecoveryView,
    files: Files,
    codec: Codec,
    paths: Seq<u64>,
    kept: Files,
)
    requires
        all_read(recovery, files, codec) is Ok,
        0 <= recovery.index <= recovery.paths.len() < paths.len(),
        paths.take(recovery.paths.len() as int) == recovery.paths,
        increasing(recovery.paths),
        recover::expected_lsn(recovery) >= 1,
        forall|i: int|
            0 <= i < recovery.paths.len() ==> {
                let number = #[trigger] recovery.paths[i];
                &&& kept.segments[number] == files.segments[number]
                &&& kept.boundary(number) == all_read(recovery, files, codec)->Ok_0.1.boundary(
                    number,
                )
            },
    ensures
        all_read(carried(recovery, paths), kept, codec) == all_read(
            carried(all_read(recovery, files, codec)->Ok_0.0, paths),
            kept,
            codec,
        ),
    decreases recovery.paths.len() - recovery.index,
{
    if recovery.index < recovery.paths.len() {
        let number = recovery.paths[recovery.index];
        let content = files.segments[number];
        let file = files.boundary(number);
        let (next, publish) = segment_read(recovery, content, file, codec)->Ok_0;
        let published = files.published(recovery.identity@, number, publish);
        let done = all_read(recovery, files, codec)->Ok_0.1;
        segment_moves_on(recovery, content, file, codec);
        segment_again(recovery, content, file, codec, paths);
        files_stay(next, published, codec, number);
        assert forall|i: int| next.index <= i < next.paths.len() implies #[trigger] next.paths[i]
            != number by {
            assert(recovery.paths[recovery.index] < recovery.paths[i]);
        }
        assert(published.boundary(number) == note_after(recovery, content, file, publish));
        assert(paths.take(recovery.paths.len() as int)[recovery.index] == paths[recovery.index]);
        assert(kept.boundary(number) == done.boundary(number));
        assert(kept.published(recovery.identity@, number, None) == kept);
        all_again(next, published, codec, paths, kept);
    }
}

/// Where a recovery starts: from the registered members and the numbers of the segment files.
pub open spec fn beginning(
    identity: [u8; 16],
    options: SharedWalOptions,
    members: Map<SharedDbId, MemberView>,
    charged: u64,
    paths: Seq<u64>,
) -> RecoveryView {
    RecoveryView {
        identity,
        options,
        paths,
        index: 0,
        members,
        segments: Map::empty(),
        storage: 0,
        charged,
        next_lsn: None,
        rotate: false,
    }
}

/// The files once the work that completes a recovery was done.
pub open spec fn completed(recovery: RecoveryView, files: Files) -> Files {
    if recover::continues_fresh(recovery) {
        let number = (recover::last_number(recovery) + 1) as u64;
        Files {
            segments: files.segments.insert(
                number,
                frame::sealed(
                    frame::segment_header_body(
                        recovery.identity@,
                        number,
                        recover::expected_lsn(recovery),
                    ),
                ),
            ),
            ..files
        }
    } else {
        files
    }
}

/// A whole recovery: the log that it yields and the files that it leaves.
pub open spec fn resumed(start: RecoveryView, files: Files, codec: Codec) -> Result<
    (WalView, Files),
> {
    match all_read(start, files, codec) {
        Err(e) => Err(e),
        Ok((recovery, published)) => match recover::finish_refusal(recovery) {
            Some(e) => Err(e),
            None => Ok((recover::recovered(recovery), completed(recovery, published))),
        },
    }
}

/// The segment files that a log has, given those before it was recovered.
pub open spec fn known_paths(paths: Seq<u64>, wal: WalView) -> Seq<u64> {
    if paths.len() > 0 && paths.last() == wal.segment {
        paths
    } else {
        paths.push(wal.segment)
    }
}

/// A fresh segment is read as one without frames.
proof fn fresh_is_read(recovery: RecoveryView, files: Files, codec: Codec)
    requires
        0 <= recovery.index,
        recovery.index + 1 == recovery.paths.len(),
        recovery.index > 0 ==> recovery.paths[recovery.index - 1] + 1 == recovery.paths.last(),
        recovery.storage + frame::SEGMENT_HEADER <= recovery.options.max_bytes,
        recovery.charged + 128 <= u64::MAX,
        recover::expected_lsn(recovery) >= 1,
        files.boundary(recovery.paths.last()) is None,
        files.segments[recovery.paths.last()] == frame::sealed(
            frame::segment_header_body(
                recovery.identity@,
                recovery.paths.last(),
                recover::expected_lsn(recovery),
            ),
        ),
    ensures
        all_read(recovery, files, codec) == Ok::<(RecoveryView, Files), Error>(
            (
                RecoveryView {
                    index: recovery.index + 1,
                    segments: recovery.segments.insert(
                        recovery.paths.last(),
                        SegmentView {
                            length: frame::SEGMENT_HEADER as u64,
                            members: Map::empty(),
                        },
                    ),
                    storage: (recovery.storage + frame::SEGMENT_HEADER) as u64,
                    charged: (recovery.charged + 128) as u64,
                    next_lsn: Some(recover::expected_lsn(recovery)),
                    ..recovery
                },
                files,
            ),
        ),
{
    let number = recovery.paths.last();
    let first = recover::expected_lsn(recovery);
    let content = files.segments[number];
    assert(content.len() == frame::SEGMENT_HEADER) by {
        crate::bytes::scalars_round_trip();
    }
    assert(content.take(frame::SEGMENT_HEADER as int) =~= content);
    frame::segment_header_round_trip(recovery.identity@, number, first);
    assert(recover::segment_refusal(recovery, content, None) is None);
    assert(!recover::starts_empty(content, None));
    assert(recover::header_first(recovery, content) == Ok::<u64, Error>(first));
    let reading = opened(recovery, content, None, first);
    assert(recover::found_at(reading.scan, content) == Ok::<Found, Error>(Found::End));
    assert(frames_read(reading, content, codec) == Ok::<(Reading, Option<Boundary>), Error>(
        (reading, None),
    ));
    let next = reopen::closed(reading);
    assert(segment_read(recovery, content, files.boundary(number), codec) == Ok::<
        (RecoveryView, Option<Boundary>),
        Error,
    >((next, None)));
    assert(all_read(next, files, codec) == Ok::<(RecoveryView, Files), Error>((next, files)));
}

/// A second recovery of what a first one left yields the same log, with the same positions, storage,
/// charge and members, and leaves the same files. The first one changes no segment file and no
/// boundary file that there was: a damaged segment stays as it is.
pub proof fn second_recovery_comes_to_the_same_log(
    identity: [u8; 16],
    options: SharedWalOptions,
    members: Map<SharedDbId, MemberView>,
    charged: u64,
    paths: Seq<u64>,
    files: Files,
    codec: Codec,
)
    requires
        resumed(beginning(identity, options, members, charged, paths), files, codec) is Ok,
        increasing(paths),
        forall|number: u64| #[trigger]
            files.boundaries.contains_key(number) ==> paths.contains(number),
    ensures
        ({
            let (wal, left) = resumed(
                beginning(identity, options, members, charged, paths),
                files,
                codec,
            )->Ok_0;
            &&& resumed(
                beginning(identity, options, members, charged, known_paths(paths, wal)),
                left,
                codec,
            ) == Ok::<(WalView, Files), Error>((wal, left))
            &&& forall|i: int|
                0 <= i < paths.len() ==> left.segments[#[trigger] paths[i]]
                    == files.segments[paths[i]]
            &&& forall|number: u64| #[trigger]
                files.boundaries.contains_key(number) ==> left.boundaries.contains_key(number)
                    && left.boundaries[number] == files.boundaries[number]
        }),
{
    let start = beginning(identity, options, members, charged, paths);
    let (wal, left) = resumed(start, files, codec)->Ok_0;
    let (last, published) = all_read(start, files, codec)->Ok_0;
    files_stay(start, files, codec, 0);
    assert forall|number: u64| #[trigger]
        files.boundaries.contains_key(number) implies left.boundaries.contains_key(number)
        && left.boundaries[number] == files.boundaries[number] by {
        files_stay(start, files, codec, number);
    }
    if recover::continues_fresh(last) {
        let number = wal.segment;
        let more = paths.push(number);
        assert(number == recover::last_number(last) + 1);
        assert forall|i: int| 0 <= i < paths.len() implies #[trigger] paths[i] < number by {
            if i < paths.len() - 1 {
                assert(paths[i] < paths[paths.len() - 1]);
            }
        }
        assert(known_paths(paths, wal) == more);
        assert(more.take(paths.len() as int) =~= paths);
        assert forall|i: int| 0 <= i < paths.len() implies {
            let here = #[trigger] paths[i];
            &&& left.segments[here] == files.segments[here]
            &&& left.boundary(here) == published.boundary(here)
        } by {
            assert(paths[i] < number);
        }
        all_again(start, files, codec, more, left);
        files_stay(start, files, codec, number);
        if files.boundaries.contains_key(number) {
            assert(paths.contains(number));
            let i = choose|i: int| 0 <= i < paths.len() && paths[i] == number;
            assert(paths[i] < number);
        }
        assert forall|i: int| start.index <= i < start.paths.len() implies #[trigger] start.paths[i]
            != number by {
            assert(paths[i] < number);
        }
        assert(left.boundary(number) is None);
        let again = carried(last, more);
        assert(carried(start, more) == beginning(identity, options, members, charged, more));
        if paths.len() > 0 {
            assert(more[paths.len() - 1] == paths.last());
        }
        fresh_is_read(again, left, codec);
        let end = all_read(again, left, codec)->Ok_0.0;
        assert(recover::finish_refusal(end) is None);
        assert(recover::recovered(end) == wal);
        assert(completed(end, left) == left);
    } else {
        assert(published == files);
        assert(left == files);
        assert(known_paths(paths, wal) == paths);
    }
}

proof fn frames_keep_retired(reading: Reading, content: Seq<u8>, codec: Codec, id: SharedDbId)
    requires
        frames_read(reading, content, codec) is Ok,
        reading.recovery.members.contains_key(id),
        reading.recovery.members[id].retired,
    ensures
        ({
            let after = frames_read(reading, content, codec)->Ok_0.0;
            after.recovery.members.contains_key(id) && after.recovery.members[id].retired
        }),
    decreases reading.scan.end - reading.scan.offset,
{
    if let Ok(Found::Frame(length)) = recover::found_at(reading.scan, content) {
        frames_keep_retired(
            after_frame(reading, content, length, codec)->Ok_0,
            content,
            codec,
            id,
        );
    }
}

/// A recovery never takes a retirement back.
proof fn recovery_keeps_retired(recovery: RecoveryView, files: Files, codec: Codec, id: SharedDbId)
    requires
        all_read(recovery, files, codec) is Ok,
        recovery.members.contains_key(id),
        recovery.members[id].retired,
    ensures
        ({
            let last = all_read(recovery, files, codec)->Ok_0.0;
            last.members.contains_key(id) && last.members[id].retired
        }),
    decreases recovery.paths.len() - recovery.index,
{
    if 0 <= recovery.index < recovery.paths.len() {
        let number = recovery.paths[recovery.index];
        let content = files.segments[number];
        let file = files.boundary(number);
        let (next, publish) = segment_read(recovery, content, file, codec)->Ok_0;
        let evidence = recover::evidence_of(recovery, content, file)->Ok_0;
        segment_moves_on(recovery, content, file, codec);
        if !recover::starts_empty(content, evidence) {
            let first = recover::header_first(recovery, content)->Ok_0;
            frames_keep_retired(opened(recovery, content, evidence, first), content, codec, id);
        }
        recovery_keeps_retired(
            next,
            files.published(recovery.identity@, number, publish),
            codec,
            id,
        );
    }
}

/// Whether a log refuses an identity for good: it is not opened or registered, and to discard it
/// again does nothing, wherever its directory is and whether it still has one.
pub open spec fn refused_for_good(wal: WalView, id: SharedDbId) -> bool {
    &&& forall|root: Seq<u8>| #[trigger]
        membership::open_refusal(wal, root, id) == Some(
            error::invalid("database identity", "retired identity cannot be reused"),
        )
    &&& forall|root: Seq<u8>, bound: bool, cataloged: bool, embedded: bool| #[trigger]
        membership::register_refusal(wal, root, id, bound, cataloged, true, embedded) == Some(
            error::invalid("database identity", "retired identity cannot be reused"),
        )
    &&& forall|root: Seq<u8>, lock: Result<()>, binding: Option<Seq<u8>>, pinned: bool| #[trigger]
        member::discard_outcome(wal, root, id, lock, binding, pinned) == Ok::<
            Option<WalView>,
            Error,
        >(None)
}

/// The log after a discard.
pub open spec fn discarded(wal: WalView, outcome: Result<Option<WalView>>) -> WalView {
    match outcome {
        Ok(Some(after)) => gc::reclaimed(after),
        _ => wal,
    }
}

/// A database that is open is not discarded: while a handle holds the lock of its directory, a
/// discard is answered why the lock was not taken, and the log stays as it is.
pub proof fn open_members_are_not_discarded(
    wal: WalView,
    id: SharedDbId,
    refusal: Error,
    binding: Option<Seq<u8>>,
    pinned: bool,
)
    requires
        !wal.poison,
        wal.members.contains_key(id),
        !wal.members[id].retired,
    ensures
        member::discard_outcome(
            wal,
            wal.members[id].root,
            id,
            Err(refusal),
            binding,
            pinned,
        ) == Err::<Option<WalView>, Error>(refusal),
        discarded(
            wal,
            member::discard_outcome(
                wal,
                wal.members[id].root,
                id,
                Err(refusal),
                binding,
                pinned,
            ),
        ) == wal,
{
}

/// Discarding an identity that is not registered changes nothing. Once a registered one was
/// discarded, the log refuses it for good.
pub proof fn discarded_members_never_return(
    wal: WalView,
    root: Seq<u8>,
    id: SharedDbId,
    lock: Result<()>,
    binding: Option<Seq<u8>>,
    pinned: bool,
)
    requires
        member::discard_outcome(wal, root, id, lock, binding, pinned) is Ok,
    ensures
        !wal.members.contains_key(id) ==> member::discard_outcome(
            wal,
            root,
            id,
            lock,
            binding,
            pinned,
        ) == Ok::<Option<WalView>, Error>(None),
        wal.members.contains_key(id) ==> refused_for_good(
            discarded(wal, member::discard_outcome(wal, root, id, lock, binding, pinned)),
            id,
        ),
{
    if let Ok(Some(after)) = member::discard_outcome(wal, root, id, lock, binding, pinned) {
        gc::reclaiming_keeps_the_rest(after, after.segments.len());
    }
}

/// What a discard published is read back when the log is opened again: the registry admits the
/// identity as retired, and the log that is recovered refuses it for good.
pub proof fn discarded_members_stay_away_after_reopening(
    wal: WalView,
    root: Seq<u8>,
    id: SharedDbId,
    lock: Result<()>,
    binding: Option<Seq<u8>>,
    pinned: bool,
    options: SharedWalOptions,
    members: Map<SharedDbId, MemberView>,
    charged: u64,
    paths: Seq<u64>,
    files: Files,
    codec: Codec,
)
    requires
        member::discard_outcome(wal, root, id, lock, binding, pinned) matches Ok(Some(_)),
        members.contains_key(id),
        members[id] == membership::fresh_member(
            wal.members[id].root,
            false,
            true,
            registry::retirement_read(
                Some(
                    frame::sealed(
                        registry::retirement_body(wal.identity@, id, wal.members[id].seq),
                    ),
                ),
                wal.identity@,
                id,
            )->Ok_0->Some_0,
            None,
        ),
        resumed(beginning(wal.identity, options, members, charged, paths), files, codec) is Ok,
    ensures
        registry::retirement_read(
            Some(
                frame::sealed(registry::retirement_body(wal.identity@, id, wal.members[id].seq)),
            ),
            wal.identity@,
            id,
        ) == Ok::<Option<u64>, Error>(Some(wal.members[id].seq)),
        refused_for_good(
            resumed(
                beginning(wal.identity, options, members, charged, paths),
                files,
                codec,
            )->Ok_0.0,
            id,
        ),
{
    let start = beginning(wal.identity, options, members, charged, paths);
    registry::retirement_round_trip(wal.identity@, id, wal.members[id].seq);
    recovery_keeps_retired(start, files, codec, id);
}

} // verus!
