//! What recovery accepts of a log, and what it makes of it.
use vstd::prelude::*;

use super::boundary::{self, Boundary};
use super::frame::{self, FrameView, Pointer};
use super::recover::{self, Found, RecoveryView, ScanView};
use super::state::{ActionView, MemberView, WalView};
use super::types::SharedDbId;
use crate::bytes;
use crate::checksum;
use crate::error::{Error, Result};

verus! {

/// At its position a scan finds the end, a whole frame with the right checksum, or an append that
/// was cut off. Only the end of the last segment can be cut off, and only where no boundary was
/// published for it: anywhere else the log is refused.
pub proof fn only_the_end_of_the_log_is_cut_off(
    scan: ScanView,
    content: Seq<u8>,
    length: int,
    r: Result<Found>,
)
    requires
        r == recover::found_at(scan, content),
        scan.end <= content.len(),
        scan.offset + 4 <= scan.end ==> length == bytes::un32(
            content.subrange(scan.offset as int, scan.offset + 4),
        ),
    ensures
        ({
            let whole = scan.offset + 4 <= scan.end && 97 <= length <= 65_632 && scan.offset + length
                <= scan.end;
            let sound = bytes::un32(content.subrange(scan.offset + 4, scan.offset + 8))
                == checksum::crc32(content.subrange(scan.offset + 8, scan.offset + length));
            let open = scan.last && scan.evidence is None;
            &&& scan.offset >= scan.end <==> r == Ok::<Found, Error>(Found::End)
            &&& scan.offset < scan.end && whole && sound ==> r == Ok::<Found, Error>(
                Found::Frame(length as usize),
            )
            &&& scan.offset < scan.end && whole && !sound ==> (if open && scan.offset + length
                == scan.end {
                r == Ok::<Found, Error>(Found::Torn)
            } else {
                r is Err
            })
            &&& scan.offset < scan.end && !whole ==> (if open {
                r == Ok::<Found, Error>(Found::Torn)
            } else {
                r is Err
            })
        }),
{
    if scan.offset + 4 <= scan.end {
        let prefix = content.subrange(scan.offset as int, scan.offset + 4);
        assert(prefix.take(4) =~= prefix);
        if 97 <= length <= 65_632 && scan.offset + length <= scan.end {
            let found = content.subrange(scan.offset as int, scan.offset + length);
            assert(found.subrange(4, 8) =~= content.subrange(scan.offset + 4, scan.offset + 8));
            assert(found.skip(8) =~= content.subrange(scan.offset + 8, scan.offset + length));
        }
    }
}

/// A record is replayed exactly if its member is initialized and the record not behind its
/// retirement, and it continues the member: the first record found lies at or before the one behind
/// the checkpoint, and each later one follows its predecessor. The member ends with the record
/// then; the record counts as pending exactly if it lies behind the checkpoint.
pub proof fn records_continue_their_member(
    member: MemberView,
    found: FrameView,
    pointer: Pointer,
    length: int,
    digest: [u8; 32],
    r: Result<MemberView>,
)
    requires
        0 <= length,
        member.archive is None,
        r == recover::member_replayed(member, found, pointer, length, digest),
    ensures
        ({
            let first = member.latest.segment == 0 && member.latest.offset == 0;
            let before = found.previous.segment < pointer.segment || (found.previous.segment
                == pointer.segment && found.previous.offset < pointer.offset);
            &&& r is Ok <==> {
                &&& member.retired ==> found.seq <= member.checkpoint
                &&& member.retired || member.initialized
                &&& first ==> member.checkpoint < u64::MAX && found.seq <= member.checkpoint + 1 && (
                (found.previous.segment == 0 && found.previous.offset == 0) || before)
                &&& !first ==> found.seq == member.seq + 1 && found.previous == member.latest
                &&& found.seq > member.checkpoint ==> member.bytes + length <= u64::MAX
            }
            &&& r matches Ok(after) ==> {
                &&& after.latest == pointer
                &&& after.seq == found.seq
                &&& after.lsn == found.lsn
                &&& after.bytes == member.bytes + (if found.seq > member.checkpoint {
                    length
                } else {
                    0
                })
                &&& after.checkpoint == member.checkpoint
                &&& after.root == member.root
                &&& after.retired == member.retired
                &&& after.initialized == member.initialized
                &&& after.archive is None
            }
        }),
{
}

/// A frame is taken exactly if it is sound, has the position that follows, belongs to a known member
/// that it continues, and the index has room for it.
pub proof fn frames_are_taken_in_order(
    recovery: RecoveryView,
    scan: ScanView,
    source: Seq<u8>,
    inner: Result<u64>,
    digest: [u8; 32],
    replayed: Result<MemberView>,
    r: Result<(FrameView, MemberView, u64)>,
)
    requires
        r == recover::frame_outcome(recovery, scan, source, inner, digest),
        frame::inspected(source, inner) matches Ok(found) ==> replayed == recover::member_replayed(
            recovery.members[found.id],
            found,
            Pointer { segment: scan.number, offset: scan.offset },
            source.len() as int,
            digest,
        ),
        scan.offset + source.len() <= u64::MAX,
        scan.next < u64::MAX,
    ensures
        r is Ok <==> (frame::inspected(source, inner) matches Ok(found) && found.lsn == scan.next
            && recovery.members.contains_key(found.id) && replayed is Ok && recovery.charged + (
        if scan.members.contains_key(found.id) {
            0int
        } else {
            96
        }) <= recovery.options.index_bytes),
        r matches Ok((found, member, charged)) ==> {
            &&& frame::inspected(source, inner) == Ok::<FrameView, Error>(found)
            &&& replayed == Ok::<MemberView, Error>(member)
            &&& charged == recovery.charged + (if scan.members.contains_key(found.id) {
                0int
            } else {
                96
            })
        },
{
}

/// A segment file is looked at exactly if it follows the one before it, the storage has room for it,
/// and a boundary file beside it is the one that was published for it.
pub proof fn segments_follow_each_other(
    recovery: RecoveryView,
    content: Seq<u8>,
    file: Option<Seq<u8>>,
)
    requires
        recovery.charged + 128 <= u64::MAX,
        0 <= recovery.index < recovery.paths.len(),
    ensures
        recover::segment_refusal(recovery, content, file) is None <==> {
            &&& recovery.index > 0 ==> recovery.paths[recovery.index]
                == recovery.paths[recovery.index - 1] + 1
            &&& recovery.storage + content.len() <= recovery.options.max_bytes
            &&& file matches Some(shown) ==> boundary::boundary_of(
                shown,
                recovery.identity@,
                recovery.paths[recovery.index],
                content,
            ) is Ok
        },
        recover::evidence_of(recovery, content, None) == Ok::<Option<Boundary>, Error>(None),
{
}

/// Nothing is accepted of a segment whose header is not whole or whose boundary says so. That is in
/// order for the last segment, and for one whose boundary continues with the position that follows.
/// Of any other segment the header is accepted exactly if it starts with that position.
pub proof fn segments_continue_the_log(
    recovery: RecoveryView,
    content: Seq<u8>,
    evidence: Option<Boundary>,
    follows: u64,
)
    requires
        content.len() <= u64::MAX,
        0 <= recovery.index < recovery.paths.len(),
        recovery.next_lsn is Some ==> follows == recovery.next_lsn->Some_0,
        recovery.next_lsn is None ==> follows == 1,
    ensures
        recover::starts_empty(content, evidence) <==> content.len() < 64 || (evidence matches Some(
            shown,
        ) && shown.end == 0),
        recover::empty_refusal(recovery, evidence) is None <==> match evidence {
            None => recovery.index + 1 == recovery.paths.len(),
            Some(shown) => shown.end == 0 && shown.next == follows,
        },
        recover::header_first(recovery, content) matches Ok(first) ==> frame::segment_first(
            content.take(64),
            recovery.identity@,
            recovery.paths[recovery.index],
        ) == Ok::<u64, Error>(first) && (recovery.next_lsn is Some ==> first == follows),
        recovery.next_lsn is None && frame::segment_first(
            content.take(64),
            recovery.identity@,
            recovery.paths[recovery.index],
        ) is Ok ==> recover::header_first(recovery, content) is Ok,
        frame::segment_first(
            content.take(64),
            recovery.identity@,
            recovery.paths[recovery.index],
        ) == Ok::<u64, Error>(follows) ==> recover::header_first(recovery, content) == Ok::<
            u64,
            Error,
        >(follows),
{
}

/// A segment is closed exactly if its frames reach its accepted end and, where a boundary was
/// published, continue with the position that it says.
pub proof fn segments_close_at_their_end(scan: ScanView)
    ensures
        recover::segment_closing(scan) is None <==> scan.offset == scan.end && (scan.evidence matches
            Some(shown) ==> shown.next == scan.next),
{
}

/// Once everything was read, a member without a record behind its checkpoint goes on from the
/// checkpoint, every other from its last record; all of it is durable.
pub proof fn members_settle_at_their_end(member: MemberView, after: MemberView)
    requires
        after == recover::member_settled(member),
    ensures
        member.seq < member.checkpoint ==> after.seq == member.checkpoint && after.latest.segment
            == 0 && after.latest.offset == 0,
        member.seq >= member.checkpoint ==> after.seq == member.seq && after.latest
            == member.latest,
        after.durable_seq == after.seq,
        after.durable_pointer == after.latest,
        after.checkpoint == member.checkpoint,
        after.bytes == member.bytes,
        after.lsn == member.lsn,
        after.root == member.root,
        after.retired == member.retired,
        after.initialized == member.initialized,
        member.archive is None ==> after.archive is None,
        member.archive matches Some(held) ==> (after.archive matches Some(kept) && kept.latest
            == held.latest && kept.durable == held.latest && kept.released == held.released
            && kept.initial == held.initial && kept.options == held.options),
{
}

/// The log that was read goes on exactly if every archived member's chain ends where its records do
/// and there is room for a fresh segment, where one is needed. It goes on behind the last position
/// that was read, all of it durable, with nothing buffered.
pub proof fn read_logs_go_on(
    recovery: RecoveryView,
    fresh: bool,
    last: u64,
    after: WalView,
    work: Seq<ActionView>,
)
    requires
        fresh == recover::continues_fresh(recovery),
        last == recover::last_number(recovery),
        after == recover::recovered(recovery),
        work == recover::finish_actions(recovery),
        recovery.charged + 128 <= u64::MAX,
        recovery.storage + 64 <= u64::MAX,
        recovery.next_lsn matches Some(next) ==> next >= 1,
    ensures
        fresh <==> recovery.rotate || recovery.paths.len() == 0 || recovery.paths.last() == 0,
        recovery.paths.len() > 0 ==> last == recovery.paths.last(),
        recovery.paths.len() == 0 ==> last == 0,
        recover::finish_refusal(recovery) is None <==> {
            &&& forall|id: SharedDbId| #[trigger]
                recovery.members.contains_key(id) ==> (recovery.members[id].archive matches Some(
                    held,
                ) ==> held.latest.seq == (if recovery.members[id].seq
                    < recovery.members[id].checkpoint {
                    recovery.members[id].checkpoint
                } else {
                    recovery.members[id].seq
                }))
            &&& fresh ==> last < u64::MAX && recovery.storage + 64 <= recovery.options.max_bytes
                && recovery.charged + 128 <= recovery.options.index_bytes
            &&& !fresh ==> recovery.charged <= recovery.options.index_bytes
        },
        after.lsn == (match recovery.next_lsn {
            Some(next) => next - 1,
            None => 0,
        }),
        after.durable == after.lsn,
        after.buffer.len() == 0,
        after.scratch_bytes == 0,
        !after.poison,
        after.identity == recovery.identity,
        after.options == recovery.options,
        fresh && last < u64::MAX ==> after.segment == last + 1 && after.offset == 64
            && after.storage == recovery.storage + 64 && after.charged == recovery.charged + 128,
        !fresh ==> after.segment == last && after.offset == recovery.segments[last].length
            && after.storage == recovery.storage && after.charged == recovery.charged
            && after.segments == recovery.segments,
        after.members.dom() =~= recovery.members.dom(),
        work.len() > 0 && work.last() == ActionView::SyncData,
        fresh && last < u64::MAX ==> work.len() == 2 && (work[0] matches ActionView::CreateSegment {
            segment,
            ..
        } && segment == last + 1),
        !fresh ==> work.len() == 1,
{
    assert(after.members.dom() =~= recovery.members.dom());
    if recover::finish_refusal(recovery) is None {
        assert forall|id: SharedDbId| #[trigger]
            recovery.members.contains_key(id) implies (recovery.members[id].archive matches Some(
            held,
        ) ==> held.latest.seq == (if recovery.members[id].seq < recovery.members[id].checkpoint {
            recovery.members[id].checkpoint
        } else {
            recovery.members[id].seq
        })) by {
            assert(recover::member_anchored(recovery.members[id]));
        }
    } else if forall|id: SharedDbId| #[trigger]
        recovery.members.contains_key(id) ==> (recovery.members[id].archive matches Some(held)
            ==> held.latest.seq == (if recovery.members[id].seq < recovery.members[id].checkpoint {
            recovery.members[id].checkpoint
        } else {
            recovery.members[id].seq
        })) {
        assert forall|id: SharedDbId| #[trigger]
            recovery.members.contains_key(id) implies recover::member_anchored(
            recovery.members[id],
        ) by {}
    }
}

} // verus!
