//! What the operations of a shared log do to its records, its members and its files.
use vstd::prelude::*;

use super::archive::{self, Protection};
use super::batch;
use super::frame::{self, FrameView};
use super::gc;
use super::member;
use super::state::{self, ActionView, Member, MemberView, WalView};
use super::store;
use super::types::{SharedDbId, SharedWalOptions};
use crate::error::{Error, Result};
use crate::wal::DurablePosition;

verus! {

/// The options of a shared log are accepted exactly if a segment has at least 256 bytes, two of
/// them fit into a storage of at most one tebibyte, and the buffer, the number of databases and the
/// index keep their bounds.
pub proof fn bounded_policies_are_accepted(options: SharedWalOptions)
    ensures
        options.valid() <==> options.segment_bytes >= 256 && options.segment_bytes
            + options.segment_bytes <= options.max_bytes && options.max_bytes <= 1_099_511_627_776
            && options.buffer_bytes >= 128 && options.buffer_bytes <= 67_108_864
            && options.max_databases >= 1 && options.max_databases <= 1_000_000
            && options.index_bytes >= 1024 && options.index_bytes <= 1_073_741_824,
{
}

/// Whether an archive has room for one more record of so many bytes: the reserve, what is not
/// released yet, the record, and a frame header for each of them stay within its bound.
pub open spec fn archive_has_room(archive: Option<Protection>, length: int) -> bool {
    archive matches Some(protection) ==> {
        let unreleased = protection.latest.offset - protection.released.offset;
        let records = protection.latest.seq - protection.released.seq;
        &&& 8192 + unreleased + records * 80 + length + 80 <= protection.options.max_bytes
        &&& protection.latest.offset + length <= u64::MAX
        &&& protection.latest.seq < u64::MAX
    }
}

proof fn archive_room(member: MemberView, length: int, digest: [u8; 32])
    requires
        0 <= length,
        member.archive matches Some(protection) ==> protection.released.offset
            <= protection.latest.offset && protection.released.seq <= protection.latest.seq
            && protection.options.max_bytes < u64::MAX,
    ensures
        store::archive_next(member, length, digest) is Ok <==> archive_has_room(
            member.archive,
            length,
        ),
        store::archive_next(member, length, digest) matches Ok(next) ==> match member.archive {
            None => next is None,
            Some(protection) => next matches Some(cursor) && cursor.seq == protection.latest.seq + 1
                && cursor.offset == protection.latest.offset + length && cursor.digest == digest
                && cursor.database == protection.latest.database && cursor.generation
                == protection.latest.generation && cursor.branch == protection.latest.branch
                && cursor.epoch == protection.latest.epoch && cursor.segment
                == protection.latest.segment,
        },
{
    if member.archive is Some {
        let protection = member.archive->Some_0;
        let records = protection.latest.seq - protection.released.seq;
        assert(records * 80 >= 0);
    }
}

/// Whether a record of so many bytes is the next one of a live chain and small enough for a frame,
/// the buffer, a segment and the archive of its member.
pub open spec fn record_is_next(wal: WalView, id: SharedDbId, seq: u64, length: int) -> bool {
    &&& wal.members.contains_key(id)
    &&& seq == wal.members[id].seq + 1
    &&& archive_has_room(wal.members[id].archive, length)
    &&& wal.lsn < u64::MAX
    &&& length + 80 <= u32::MAX
    &&& length + 80 <= wal.options.buffer_bytes
    &&& 64 + length + 80 <= wal.options.segment_bytes
    &&& wal.members[id].bytes + length + 80 <= u64::MAX
}

/// Whether the storage has room for the frame of a record, and for a segment header where the
/// active segment has no room left.
pub open spec fn storage_has_room(wal: WalView, length: int) -> bool {
    wal.storage + length + 80 + (if wal.offset + length + 80 > wal.options.segment_bytes {
        64int
    } else {
        0
    }) <= wal.options.max_bytes
}

/// Whether the index has room for the record: nothing more where the member already has a record
/// in the active segment, one entry where it has none, and one more where a segment is started.
pub open spec fn index_has_room(wal: WalView, id: SharedDbId, length: int) -> bool {
    wal.charged + (if wal.offset + length + 80 > wal.options.segment_bytes {
        224int
    } else if wal.segments[wal.segment].members.contains_key(id) {
        0
    } else {
        96
    }) <= wal.options.index_bytes
}

/// A record is accepted exactly if it is the next one of its member and storage, index and segment
/// numbers have room for it.
pub proof fn next_records_are_accepted(
    wal: WalView,
    id: SharedDbId,
    seq: u64,
    length: int,
    digest: [u8; 32],
)
    requires
        0 <= length,
        wal.members.contains_key(id) ==> (wal.members[id].archive matches Some(protection) ==> (
        protection.released.offset <= protection.latest.offset && protection.released.seq
            <= protection.latest.seq && protection.options.max_bytes < u64::MAX)),
    ensures
        store::append_denial(wal, id, seq, length, digest) is None <==> record_is_next(
            wal,
            id,
            seq,
            length,
        ) && storage_has_room(wal, length) && index_has_room(wal, id, length) && (wal.offset
            + length + 80 > wal.options.segment_bytes ==> wal.segment < u64::MAX),
{
    if wal.members.contains_key(id) {
        archive_room(wal.members[id], length, digest);
    }
}

/// Segments are reclaimed for a record exactly if the record is the next one of a healthy log and
/// the storage has no room for it; then everything that can go goes.
pub proof fn room_is_made_for_records(
    wal: WalView,
    id: SharedDbId,
    seq: u64,
    length: int,
    digest: [u8; 32],
)
    requires
        0 <= length,
        wal.members.contains_key(id) ==> (wal.members[id].archive matches Some(protection) ==> (
        protection.released.offset <= protection.latest.offset && protection.released.seq
            <= protection.latest.seq && protection.options.max_bytes < u64::MAX)),
    ensures
        !wal.poison && record_is_next(wal, id, seq, length) && !storage_has_room(wal, length)
            ==> store::append_run(wal, id, seq, length, digest) == gc::reclaim_all(wal),
        wal.poison || !record_is_next(wal, id, seq, length) || storage_has_room(wal, length)
            ==> store::append_run(wal, id, seq, length, digest).len() == 0,
{
    if wal.members.contains_key(id) {
        archive_room(wal.members[id], length, digest);
    }
}

/// An accepted record gets the next position of the log. Its frame, which names its member, its
/// sequence, that position and the member's record before it, ends the buffer. The member ends
/// with the record, which is noted for its segment; its path, its checkpoint and its retirement
/// stay, and so does every other member. Where a segment is started, everything before it is
/// durable; else what is durable stays. No buffered byte is lost: it stays in the buffer in front
/// of the frame, or it is written before.
pub proof fn accepted_records_end_their_chain(
    wal: WalView,
    id: SharedDbId,
    seq: u64,
    raw: Seq<u8>,
    digest: [u8; 32],
    after: WalView,
    work: Seq<ActionView>,
)
    requires
        wal.durable <= wal.lsn,
        wal.durable == wal.lsn ==> wal.buffer.len() == 0,
        wal.segments.contains_key(wal.segment),
        wal.segments[wal.segment].length == wal.offset,
        wal.members.contains_key(id) ==> (wal.members[id].archive matches Some(protection) ==> (
        protection.released.offset <= protection.latest.offset && protection.released.seq
            <= protection.latest.seq && protection.options.max_bytes < u64::MAX)),
        store::append_denial(wal, id, seq, raw.len() as int, digest) is None,
        after == store::appended(wal, id, seq, raw, digest),
        work == store::append_actions(wal, store::length_of(raw.len() as int)),
    ensures
        ({
            let length = raw.len() + 80;
            let starts = wal.offset + length > wal.options.segment_bytes;
            let bytes = frame::frame_bytes(
                FrameView {
                    id,
                    lsn: (wal.lsn + 1) as u64,
                    seq,
                    previous: wal.members[id].latest,
                    raw,
                },
            );
            let old_member = wal.members[id];
            let new_member = after.members[id];
            &&& after.lsn == wal.lsn + 1
            &&& after.identity == wal.identity
            &&& after.options == wal.options
            &&& after.poison == wal.poison
            &&& after.scratch_bytes == wal.scratch_bytes
            &&& after.segment == (if starts {
                wal.segment + 1
            } else {
                wal.segment as int
            })
            &&& after.offset == (if starts {
                64 + length as int
            } else {
                wal.offset + length
            })
            &&& after.storage == wal.storage + length + (if starts {
                64int
            } else {
                0
            })
            &&& after.durable == (if starts {
                wal.lsn
            } else {
                wal.durable
            })
            &&& !starts && wal.buffer.len() + length <= wal.options.buffer_bytes ==> after.buffer
                == wal.buffer + bytes && work.len() == 0
            &&& !starts && wal.buffer.len() + length > wal.options.buffer_bytes ==> after.buffer
                == bytes && (if wal.buffer.len() > 0 {
                work == seq![ActionView::Write(wal.buffer)]
            } else {
                work.len() == 0
            })
            &&& starts ==> after.buffer == bytes && work.len() > 0 && (work.last() matches
                ActionView::CreateSegment { segment, .. } && segment == after.segment)
            &&& starts && wal.buffer.len() > 0 ==> work.len() == 3 && work[0] == ActionView::Write(
                wal.buffer,
            ) && work[1] == ActionView::SyncData
            &&& starts && wal.buffer.len() == 0 ==> (if wal.durable < wal.lsn {
                work.len() == 2 && work[0] == ActionView::SyncData
            } else {
                work.len() == 1
            })
            &&& new_member.seq == seq
            &&& new_member.lsn == wal.lsn + 1
            &&& new_member.latest.segment == after.segment
            &&& new_member.latest.offset == after.offset - length
            &&& new_member.bytes == old_member.bytes + length
            &&& new_member.root == old_member.root
            &&& new_member.checkpoint == old_member.checkpoint
            &&& new_member.retired == old_member.retired
            &&& new_member.initialized == old_member.initialized
            &&& old_member.lsn <= after.durable ==> new_member.durable_seq == old_member.seq
                && new_member.durable_pointer == old_member.latest
            &&& old_member.lsn > after.durable ==> new_member.durable_seq == old_member.durable_seq
                && new_member.durable_pointer == old_member.durable_pointer
            &&& old_member.archive is None ==> new_member.archive is None
            &&& old_member.archive matches Some(before) ==> (new_member.archive matches Some(now)
                && now.options == before.options && now.initial == before.initial && now.released
                == before.released && now.latest.seq == before.latest.seq + 1
                && now.latest.offset == before.latest.offset + raw.len() && now.latest.digest
                == digest && now.durable == (if old_member.lsn <= after.durable {
                before.latest
            } else {
                before.durable
            }))
            &&& after.members.dom() =~= wal.members.dom()
            &&& forall|other: SharedDbId|
                other != id && #[trigger] wal.members.contains_key(other) ==> after.members[other]
                    == wal.members[other]
            &&& after.segments.dom() =~= wal.segments.dom().insert(after.segment)
            &&& forall|number: u64|
                number != after.segment && #[trigger] wal.segments.contains_key(number)
                    ==> after.segments[number] == wal.segments[number]
            &&& after.segments[after.segment].length == after.offset
            &&& after.segments[after.segment].members == (if starts {
                Map::<SharedDbId, u64>::empty().insert(id, seq)
            } else {
                wal.segments[wal.segment].members.insert(id, seq)
            })
        }),
{
    let length = raw.len() + 80;
    archive_room(wal.members[id], raw.len() as int, digest);
    let base = store::positioned(wal, length as int);
    let bytes = frame::frame_bytes(store::frame_of(wal, id, seq, raw));
    assert(after.members.dom() =~= wal.members.dom());
    assert(after.segments.dom() =~= wal.segments.dom().insert(after.segment));
    assert(Seq::<u8>::empty() + bytes =~= bytes);
    if base.buffer.len() == 0 {
        assert(base.buffer =~= Seq::<u8>::empty());
        assert(after.buffer =~= bytes);
    }
    assert(Seq::<ActionView>::empty() + Seq::<ActionView>::empty() =~= Seq::<
        ActionView,
    >::empty());
    assert(Seq::<ActionView>::empty() + store::flush_actions(wal) =~= store::flush_actions(wal));
    assert(store::roll_actions(wal) + Seq::<ActionView>::empty() =~= store::roll_actions(wal));
}

/// Syncing makes everything that was appended durable: what is buffered is written first, and then
/// the file is made durable. Where everything already is durable, nothing is done.
pub proof fn syncs_write_and_settle(wal: WalView, after: WalView, work: Seq<ActionView>)
    requires
        wal.durable <= wal.lsn,
        wal.durable == wal.lsn ==> wal.buffer.len() == 0,
        after == store::synced(wal),
        work == store::sync_actions(wal),
    ensures
        after.durable == wal.lsn,
        after.lsn == wal.lsn,
        after.buffer.len() == 0,
        after.members == wal.members,
        after.segments == wal.segments,
        after.segment == wal.segment,
        after.offset == wal.offset,
        after.storage == wal.storage,
        after.charged == wal.charged,
        after.poison == wal.poison,
        wal.durable == wal.lsn ==> after == wal && work.len() == 0,
        wal.durable < wal.lsn ==> work.len() > 0 && work.last() == ActionView::SyncData,
        wal.durable < wal.lsn && wal.buffer.len() > 0 ==> work.len() == 2 && work[0]
            == ActionView::Write(wal.buffer),
        wal.durable < wal.lsn && wal.buffer.len() == 0 ==> work.len() == 1,
{
}

/// A member of a healthy log can always sync: its last record is durable then, and known to be. The
/// log is synced where it was not durable that far, and else left alone.
pub proof fn members_can_sync(wal: WalView, id: SharedDbId, r: Result<WalView>)
    requires
        wal.durable <= wal.lsn,
        wal.members.contains_key(id) ==> wal.members[id].lsn <= wal.lsn,
        r == member::sync_outcome(wal, id),
    ensures
        r is Ok <==> !wal.poison && wal.members.contains_key(id),
        wal.poison ==> r == Err::<WalView, Error>(Error::Poisoned),
        r matches Ok(after) ==> {
            let old_member = wal.members[id];
            let new_member = after.members[id];
            &&& old_member.lsn <= after.durable
            &&& old_member.lsn > wal.durable ==> after.durable == wal.lsn
            &&& old_member.lsn <= wal.durable ==> after.durable == wal.durable && after.buffer
                == wal.buffer && after.writes == wal.writes && after.syncs == wal.syncs
            &&& new_member.durable_seq == old_member.seq
            &&& new_member.durable_pointer == old_member.latest
            &&& new_member.seq == old_member.seq
            &&& new_member.latest == old_member.latest
            &&& new_member.lsn == old_member.lsn
            &&& new_member.bytes == old_member.bytes
            &&& new_member.root == old_member.root
            &&& new_member.checkpoint == old_member.checkpoint
            &&& new_member.archive == old_member.archive
            &&& new_member.retired == old_member.retired
            &&& forall|other: SharedDbId|
                other != id && #[trigger] wal.members.contains_key(other) ==> after.members[other]
                    == wal.members[other]
            &&& after.segments == wal.segments
            &&& after.lsn == wal.lsn
        },
{
}

/// The position that a member knows to be durable is its last record where the log is durable that
/// far, and the one noted before where it is not.
pub proof fn durable_positions_are_durable(wal: WalView, id: SharedDbId, r: DurablePosition)
    requires
        r == member::durable_of(wal, id),
    ensures
        wal.poison || !wal.members.contains_key(id) ==> r.seq == 0 && r.segment == 0 && r.offset
            == 0,
        !wal.poison && wal.members.contains_key(id) && wal.members[id].lsn <= wal.durable ==> r.seq
            == wal.members[id].seq && r.segment == wal.members[id].latest.segment && r.offset
            == wal.members[id].latest.offset,
        !wal.poison && wal.members.contains_key(id) && wal.members[id].lsn > wal.durable ==> r.seq
            == wal.members[id].durable_seq && r.segment == wal.members[id].durable_pointer.segment
            && r.offset == wal.members[id].durable_pointer.offset,
{
}

/// A member of a healthy log can always note that its catalog covers its records up to a sequence:
/// that is its checkpoint then, and it has no bytes behind it.
pub proof fn members_can_checkpoint(wal: WalView, id: SharedDbId, seq: u64, r: Result<WalView>)
    requires
        r == member::checkpoint_outcome(wal, id, seq),
    ensures
        r is Ok <==> !wal.poison && wal.members.contains_key(id),
        wal.poison ==> r == Err::<WalView, Error>(Error::Poisoned),
        r matches Ok(after) ==> {
            let old_member = wal.members[id];
            let new_member = after.members[id];
            &&& new_member.checkpoint == seq
            &&& new_member.bytes == 0
            &&& new_member.seq == old_member.seq
            &&& new_member.latest == old_member.latest
            &&& new_member.lsn == old_member.lsn
            &&& new_member.durable_seq == old_member.durable_seq
            &&& new_member.durable_pointer == old_member.durable_pointer
            &&& new_member.root == old_member.root
            &&& new_member.archive == old_member.archive
            &&& new_member.retired == old_member.retired
            &&& new_member.initialized == old_member.initialized
            &&& forall|other: SharedDbId|
                other != id && #[trigger] wal.members.contains_key(other) ==> after.members[other]
                    == wal.members[other]
            &&& after.segments == wal.segments
            &&& after.storage == wal.storage
            &&& after.durable == wal.durable
            &&& after.lsn == wal.lsn
            &&& after.buffer == wal.buffer
        },
{
}

/// Whether some member keeps a segment: one that is not known, or one that is not retired and whose
/// last record in the segment lies behind its checkpoint or behind what its archive released.
pub open spec fn kept(wal: WalView, number: u64) -> bool {
    exists|id: SharedDbId| #[trigger]
        wal.segments[number].members.contains_key(id) && keeps(
            wal,
            id,
            wal.segments[number].members[id],
        )
}

/// Whether a member keeps a record.
pub open spec fn keeps(wal: WalView, id: SharedDbId, seq: u64) -> bool {
    !wal.members.contains_key(id) || (!wal.members[id].retired && (wal.members[id].checkpoint < seq
        || (wal.members[id].archive matches Some(protection) && protection.released.seq < seq)))
}

proof fn kept_is_held(wal: WalView, number: u64)
    ensures
        kept(wal, number) <==> exists|id: SharedDbId| #[trigger]
            wal.segments[number].members.contains_key(id) && gc::held(
                wal,
                id,
                wal.segments[number].members[id],
            ),
{
    assert forall|id: SharedDbId, seq: u64| #[trigger] keeps(wal, id, seq) == gc::held(
        wal,
        id,
        seq,
    ) by {}
    if kept(wal, number) {
        let id = choose|id: SharedDbId| #[trigger]
            wal.segments[number].members.contains_key(id) && keeps(
                wal,
                id,
                wal.segments[number].members[id],
            );
        assert(gc::held(wal, id, wal.segments[number].members[id]));
    }
    if exists|id: SharedDbId| #[trigger]
        wal.segments[number].members.contains_key(id) && gc::held(
            wal,
            id,
            wal.segments[number].members[id],
        ) {
        let id = choose|id: SharedDbId| #[trigger]
            wal.segments[number].members.contains_key(id) && gc::held(
                wal,
                id,
                wal.segments[number].members[id],
            );
        assert(keeps(wal, id, wal.segments[number].members[id]));
    }
}

proof fn reclaiming_steps(wal: WalView, limit: nat)
    requires
        wal.segments.dom().finite(),
        wal.segments.len() <= limit,
        wal.segments.contains_key(wal.segment),
    ensures
        ({
            let after = gc::without_all(wal, gc::reclaim_run(wal, limit));
            &&& after.members == wal.members
            &&& after.segment == wal.segment
            &&& after.segments.contains_key(wal.segment)
            &&& forall|number: u64| #[trigger]
                after.segments.contains_key(number) ==> wal.segments.contains_key(number)
                    && after.segments[number] == wal.segments[number]
            &&& forall|number: u64, other: u64|
                #![trigger wal.segments.contains_key(number), after.segments.contains_key(other)]
                wal.segments.contains_key(number) && !after.segments.contains_key(number) ==> number
                    != wal.segment && !kept(wal, number) && (after.segments.contains_key(other)
                    ==> number < other)
            &&& forall|number: u64|
                #[trigger] after.segments.contains_key(number) && number != wal.segment && (
                forall|other: u64| #[trigger]
                    after.segments.contains_key(other) ==> number <= other) ==> kept(wal, number)
        }),
    decreases limit,
{
    let run = gc::reclaim_run(wal, limit);
    let after = gc::without_all(wal, run);
    if limit > 0 && exists|number: u64| gc::reclaimable(wal, number) {
        let number = choose|number: u64| gc::reclaimable(wal, number);
        let next = gc::without(wal, number);
        let rest = gc::reclaim_run(next, (limit - 1) as nat);
        assert((seq![number] + rest).skip(1) =~= rest);
        assert(next.segments.dom() =~= wal.segments.dom().remove(number));
        reclaiming_steps(next, (limit - 1) as nat);
        kept_is_held(wal, number);
        assert(!kept(wal, number));
        assert forall|other: u64| #[trigger] next.segments.contains_key(other) implies kept(
            next,
            other,
        ) == kept(wal, other) by {
            kept_is_held(wal, other);
            kept_is_held(next, other);
            assert(next.segments[other] == wal.segments[other]);
            assert forall|id: SharedDbId, seq: u64| #[trigger] keeps(wal, id, seq) == keeps(
                next,
                id,
                seq,
            ) by {}
            if kept(wal, other) {
                let id = choose|id: SharedDbId| #[trigger]
                    wal.segments[other].members.contains_key(id) && keeps(
                        wal,
                        id,
                        wal.segments[other].members[id],
                    );
                assert(next.segments[other].members.contains_key(id));
                assert(keeps(next, id, next.segments[other].members[id]));
            }
            if kept(next, other) {
                let id = choose|id: SharedDbId| #[trigger]
                    next.segments[other].members.contains_key(id) && keeps(
                        next,
                        id,
                        next.segments[other].members[id],
                    );
                assert(wal.segments[other].members.contains_key(id));
                assert(keeps(wal, id, wal.segments[other].members[id]));
            }
        }
        assert forall|gone: u64, other: u64|
            #![trigger wal.segments.contains_key(gone), after.segments.contains_key(other)]
            wal.segments.contains_key(gone) && !after.segments.contains_key(gone) implies gone
            != wal.segment && !kept(wal, gone) && (after.segments.contains_key(other) ==> gone
            < other) by {
            if gone != number {
                assert(next.segments.contains_key(gone));
            } else {
                if after.segments.contains_key(other) {
                    assert(next.segments.contains_key(other));
                    assert(wal.segments.contains_key(other));
                }
            }
        }
    } else {
        assert forall|number: u64|
            #[trigger] after.segments.contains_key(number) && number != wal.segment && (forall|
                other: u64,
            | #[trigger]
                after.segments.contains_key(other) ==> number <= other) implies kept(
            wal,
            number,
        ) by {
            kept_is_held(wal, number);
            if limit == 0 {
                assert(wal.segments.dom().len() == 0);
                assert(wal.segments.dom() =~= Set::empty());
            }
            assert(!gc::reclaimable(wal, number));
        }
    }
}

/// Reclaiming takes exactly the segments in front of the first one that is active or that some
/// member keeps: each that went was kept by nobody, was not the active one and lay in front of all
/// that stayed, and the first that stayed is the active one or is kept. What stayed is as it was.
pub proof fn only_needed_segments_stay(wal: WalView, after: WalView, number: u64, other: u64)
    requires
        wal.segments.dom().finite(),
        wal.segments.contains_key(wal.segment),
        after == gc::reclaimed(wal),
    ensures
        after.segments.contains_key(wal.segment),
        after.segments.contains_key(number) ==> wal.segments.contains_key(number)
            && after.segments[number] == wal.segments[number],
        wal.segments.contains_key(number) && !after.segments.contains_key(number) ==> number
            != wal.segment && !kept(wal, number) && (after.segments.contains_key(other) ==> number
            < other),
        after.segments.contains_key(number) && number != wal.segment && (forall|later: u64|
            #[trigger] after.segments.contains_key(later) ==> number <= later) ==> kept(
            wal,
            number,
        ),
{
    reclaiming_steps(wal, wal.segments.len());
    if wal.segments.contains_key(number) && after.segments.contains_key(other) {
    }
    assert(wal.segments.contains_key(number) || !wal.segments.contains_key(number));
    assert(after.segments.contains_key(other) || !after.segments.contains_key(other));
}

/// Whether a member is among those with a record in a segment and keeps that record.
pub open spec fn blocks(wal: WalView, members: Seq<(SharedDbId, u64)>, id: SharedDbId) -> bool {
    exists|i: int|
        0 <= i < members.len() && (#[trigger] members[i]).0 == id && keeps(wal, id, members[i].1)
}

/// The members that keep the oldest segment are listed: everyone listed keeps it, and where the
/// list is not full, everyone who keeps it is listed. Nobody keeps the active segment from going.
pub proof fn blockers_keep_the_oldest(
    wal: WalView,
    oldest: u64,
    members: Seq<(SharedDbId, u64)>,
    limit: int,
    r: Seq<SharedDbId>,
    id: SharedDbId,
)
    requires
        0 <= limit,
        r == gc::blockers(wal, oldest, members, limit),
    ensures
        r.len() <= limit,
        oldest == wal.segment ==> r.len() == 0,
        r.contains(id) ==> blocks(wal, members, id),
        oldest != wal.segment && r.len() < limit && blocks(wal, members, id) ==> r.contains(id),
{
    if oldest != wal.segment {
        holders_listed(wal, members, limit, id);
    }
}

proof fn holders_listed(
    wal: WalView,
    members: Seq<(SharedDbId, u64)>,
    limit: int,
    id: SharedDbId,
)
    requires
        0 <= limit,
    ensures
        gc::holders(wal, members, limit).len() <= limit,
        gc::holders(wal, members, limit).contains(id) ==> blocks(wal, members, id),
        gc::holders(wal, members, limit).len() < limit && blocks(wal, members, id) ==> gc::holders(
            wal,
            members,
            limit,
        ).contains(id),
    decreases members.len(),
{
    if members.len() > 0 {
        let front = members.drop_last();
        holders_listed(wal, front, limit, id);
        let earlier = gc::holders(wal, front, limit);
        let r = gc::holders(wal, members, limit);
        let last = members.len() - 1;
        assert(keeps(wal, members[last].0, members[last].1) == gc::held(
            wal,
            members[last].0,
            members[last].1,
        ));
        if r.contains(id) {
            let k = choose|k: int| 0 <= k < r.len() && r[k] == id;
            if k < earlier.len() {
                assert(earlier[k] == id);
                let i = choose|i: int|
                    0 <= i < front.len() && (#[trigger] front[i]).0 == id && keeps(
                        wal,
                        id,
                        front[i].1,
                    );
                assert(members[i] == front[i]);
            } else {
                assert(members[last].0 == id);
            }
        }
        if r.len() < limit && blocks(wal, members, id) {
            let i = choose|i: int|
                0 <= i < members.len() && (#[trigger] members[i]).0 == id && keeps(
                    wal,
                    id,
                    members[i].1,
                );
            if i < last {
                assert(front[i] == members[i]);
                assert(blocks(wal, front, id));
                let k = choose|k: int| 0 <= k < earlier.len() && earlier[k] == id;
                assert(r[k] == id);
            } else {
                assert(r[r.len() - 1] == id);
            }
        }
    }
}

/// Index bytes are charged exactly up to the budget of the index.
pub proof fn charges_keep_the_budget(wal: WalView, growth: u64, r: Result<()>)
    requires
        r == state::charge_result(wal, growth),
    ensures
        r is Ok <==> wal.charged + growth <= wal.options.index_bytes,
{
}

/// The bytes of the frames of some records.
pub open spec fn frames_length(raws: Seq<Seq<u8>>) -> int
    decreases raws.len(),
{
    if raws.len() == 0 {
        0
    } else {
        frames_length(raws.drop_last()) + raws.last().len() + 80
    }
}

/// Whether every record fits into a frame of the buffer and of a fresh segment.
pub open spec fn frames_fit(options: SharedWalOptions, raws: Seq<Seq<u8>>) -> bool {
    forall|i: int|
        0 <= i < raws.len() ==> (#[trigger] raws[i]).len() + 80 <= options.buffer_bytes
            && raws[i].len() + 80 + 64 <= options.segment_bytes
}

proof fn plans_are_bounded(wal: WalView, id: SharedDbId, raws: Seq<Seq<u8>>)
    requires
        wal.offset <= wal.options.segment_bytes,
        frames_length(raws) + 64 * raws.len() <= u64::MAX,
        224 * raws.len() <= u64::MAX,
    ensures
        batch::batch_plan(wal, id, raws) is Ok <==> frames_fit(wal.options, raws),
        batch::batch_plan(wal, id, raws) matches Ok(plan) ==> {
            &&& frames_length(raws) <= plan.growth <= frames_length(raws) + 64 * raws.len()
            &&& plan.raw_growth == frames_length(raws)
            &&& plan.index_growth <= 224 * raws.len()
            &&& plan.offset <= wal.options.segment_bytes
        },
        frames_length(raws) >= 0,
    decreases raws.len(),
{
    if raws.len() > 0 {
        let front = raws.drop_last();
        let last = raws.len() - 1;
        plans_are_bounded_front(raws);
        plans_are_bounded(wal, id, front);
        if frames_fit(wal.options, raws) {
            assert forall|i: int| 0 <= i < front.len() implies (#[trigger] front[i]).len() + 80
                <= wal.options.buffer_bytes && front[i].len() + 80 + 64
                <= wal.options.segment_bytes by {
                assert(front[i] == raws[i]);
            }
            assert(raws[last].len() + 80 <= wal.options.buffer_bytes);
        }
        if batch::batch_plan(wal, id, raws) is Ok {
            assert forall|i: int| 0 <= i < raws.len() implies (#[trigger] raws[i]).len() + 80
                <= wal.options.buffer_bytes && raws[i].len() + 80 + 64
                <= wal.options.segment_bytes by {
                if i < last {
                    assert(front[i] == raws[i]);
                }
            }
        }
    }
}

proof fn plans_are_bounded_front(raws: Seq<Seq<u8>>)
    requires
        raws.len() > 0,
        frames_length(raws) + 64 * raws.len() <= u64::MAX,
        224 * raws.len() <= u64::MAX,
    ensures
        frames_length(raws.drop_last()) + 64 * raws.drop_last().len() <= u64::MAX,
        224 * raws.drop_last().len() <= u64::MAX,
{
}

/// A batch of a healthy log is admitted where its records are the next ones of an unarchived member
/// and each of them fits, and where storage and index have room for all of them, each in a segment
/// of its own at worst. A batch with a record that does not fit, or that does not continue its
/// member, is refused.
pub proof fn batches_with_room_are_admitted(
    wal: WalView,
    id: SharedDbId,
    first: u64,
    raws: Seq<Seq<u8>>,
)
    requires
        wal.offset <= wal.options.segment_bytes,
        frames_length(raws) + 64 * raws.len() <= u64::MAX,
        224 * raws.len() <= u64::MAX,
    ensures
        !wal.poison && wal.members.contains_key(id) && first == wal.members[id].seq + 1 && first
            + raws.len() <= u64::MAX && wal.lsn + raws.len() <= u64::MAX
            && wal.members[id].archive is None && frames_fit(wal.options, raws) && wal.storage
            + frames_length(raws) + 64 * raws.len() <= wal.options.max_bytes && wal.charged + 224
            * raws.len() <= wal.options.index_bytes ==> batch::batch_outcome(
            wal,
            id,
            first,
            raws,
        ) is Ok,
        batch::batch_outcome(wal, id, first, raws) matches Ok(plan) ==> {
            &&& !wal.poison
            &&& wal.members.contains_key(id)
            &&& first == wal.members[id].seq + 1
            &&& first + raws.len() <= u64::MAX
            &&& wal.lsn + raws.len() <= u64::MAX
            &&& frames_fit(wal.options, raws)
            &&& wal.storage + frames_length(raws) <= wal.options.max_bytes
            &&& wal.members[id].archive matches Some(protection) ==> protection.spec_bytes()
                + frames_length(raws) <= protection.options.max_bytes
        },
{
    plans_are_bounded(wal, id, raws);
}

/// An accepted batch moves the log on by as many positions as it has records, and its member to the
/// last of their sequences; no other member changes, and neither do paths, checkpoints and
/// retirements.
pub proof fn accepted_batches_end_their_chain(
    wal: WalView,
    id: SharedDbId,
    first: u64,
    raws: Seq<Seq<u8>>,
    digests: Seq<[u8; 32]>,
    count: nat,
)
    requires
        count <= raws.len(),
        wal.members.contains_key(id),
        first == wal.members[id].seq + 1,
        batch::batch_accepted(wal, id, first, raws, digests),
    ensures
        ({
            let after = batch::batch_appended(wal, id, first, raws, digests, count);
            &&& after.lsn == wal.lsn + count
            &&& after.members.contains_key(id)
            &&& after.members[id].seq == wal.members[id].seq + count
            &&& after.members[id].root == wal.members[id].root
            &&& after.members[id].checkpoint == wal.members[id].checkpoint
            &&& after.members[id].retired == wal.members[id].retired
            &&& count > 0 ==> after.members[id].lsn == after.lsn
            &&& after.members[id].bytes == wal.members[id].bytes + frames_length(
                raws.take(count as int),
            )
            &&& forall|other: SharedDbId|
                other != id && #[trigger] wal.members.contains_key(other)
                    ==> after.members.contains_key(other) && after.members[other]
                    == wal.members[other]
        }),
    decreases count,
{
    if count > 0 {
        let earlier = (count - 1) as nat;
        accepted_batches_end_their_chain(wal, id, first, raws, digests, earlier);
        let before = batch::batch_appended(wal, id, first, raws, digests, earlier);
        assert(store::append_denial(
            before,
            id,
            (first + (count - 1)) as u64,
            raws[count - 1].len() as int,
            digests[count - 1],
        ) is None);
        assert(raws.take(count as int).drop_last() =~= raws.take(earlier as int));
    } else {
        assert(raws.take(0) =~= Seq::<Seq<u8>>::empty());
    }
}

/// A member is charged twice for its entries in the tables, twice for its path, and 256 bytes; a
/// protection is charged for itself and 32 bytes.
pub proof fn charges_cover_the_tables(length: int)
    requires
        0 <= length <= 0xffff_ffff,
        vstd::layout::size_of::<Member>() <= 0xffff,
        vstd::layout::size_of::<SharedDbId>() <= 0xffff,
        vstd::layout::size_of::<Vec<u8>>() <= 0xffff,
        vstd::layout::size_of::<Protection>() <= 0xffff,
    ensures
        state::spec_member_charge(length) == 2 * (vstd::layout::size_of::<Member>() + 2
            * vstd::layout::size_of::<SharedDbId>() + vstd::layout::size_of::<Vec<u8>>()) + 256 + 2
            * length,
        archive::spec_protection_charge() == vstd::layout::size_of::<Protection>() + 32,
{
}

/// Flushing writes exactly what is buffered, and nothing where nothing is; it makes nothing durable.
pub proof fn flushes_write_the_buffer(wal: WalView, after: WalView, work: Seq<ActionView>)
    requires
        after == store::flushed(wal),
        work == store::flush_actions(wal),
    ensures
        wal.buffer.len() == 0 ==> after == wal && work.len() == 0,
        wal.buffer.len() > 0 ==> work == seq![ActionView::Write(wal.buffer)] && after.buffer.len()
            == 0,
        after.durable == wal.durable,
        after.lsn == wal.lsn,
        after.segment == wal.segment,
        after.offset == wal.offset,
        after.storage == wal.storage,
        after.members == wal.members,
        after.segments == wal.segments,
{
}

proof fn memory_adds_up(last: u64, raws: Seq<Seq<u8>>, count: int)
    requires
        0 <= count <= raws.len(),
        vstd::layout::size_of::<Vec<u8>>() <= 0xffff,
    ensures
        member::record_memory(raws.take(count)) >= 0,
        count > 0 ==> member::record_memory(raws.take(count)) >= raws[count - 1].len()
            + vstd::layout::size_of::<Vec<u8>>(),
        member::memory_refusal(last, raws, count) is None <==> count == 0 || (member::record_memory(
            raws.take(count),
        ) <= 16_777_216 && last + 1 + count <= u64::MAX),
    decreases count,
{
    if count > 0 {
        memory_adds_up(last, raws, count - 1);
        assert(raws.take(count).drop_last() =~= raws.take(count - 1));
        assert(raws.take(count).last() == raws[count - 1]);
    }
}

/// A batch is handed to the log exactly if its records take at most sixteen mebibytes and there are
/// sequences left for all of them.
pub proof fn batches_hold_sixteen_mebibytes(last: u64, raws: Seq<Seq<u8>>)
    requires
        vstd::layout::size_of::<Vec<u8>>() <= 0xffff,
    ensures
        member::batch_memory(last, raws) is None <==> last < u64::MAX && (raws.len() == 0 || (
        member::record_memory(raws) <= 16_777_216 && last + 1 + raws.len() <= u64::MAX)),
{
    memory_adds_up(last, raws, raws.len() as int);
    assert(raws.take(raws.len() as int) =~= raws);
}

/// The memory of some records is what the last of them takes on top of the others.
pub proof fn records_take_their_length(raws: Seq<Seq<u8>>, raw: Seq<u8>)
    ensures
        member::record_memory(Seq::empty()) == 0,
        member::record_memory(raws.push(raw)) == member::record_memory(raws) + raw.len()
            + vstd::layout::size_of::<Vec<u8>>(),
{
    assert(raws.push(raw).drop_last() =~= raws);
}

} // verus!
