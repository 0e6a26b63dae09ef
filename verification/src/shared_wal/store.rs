//! Appending to the log, flushing it and making it durable.
use vstd::prelude::*;

use super::archive::{self, ArchiveCursor, Protection};
use super::frame::{self, FrameView, Pointer};
use super::gc;
use super::state::{self, Action, ActionView, MemberView, Segment, SegmentView, SharedWal, WalView};
use super::types::{SharedDbId, SharedDurablePosition};
use crate::error::{self, Error, Result};
use crate::ordmap::{self, OrderedMap};

verus! {

/// The log after its buffered bytes went to the active segment file.
pub open spec fn flushed(wal: WalView) -> WalView {
    if wal.buffer.len() == 0 {
        wal
    } else {
        WalView {
            buffer: Seq::empty(),
            writes: archive::saturated(wal.writes + 1),
            ..wal
        }
    }
}

pub open spec fn flush_actions(wal: WalView) -> Seq<ActionView> {
    if wal.buffer.len() == 0 {
        Seq::empty()
    } else {
        seq![ActionView::Write(wal.buffer)]
    }
}

/// The log after everything appended so far became durable.
pub open spec fn synced(wal: WalView) -> WalView {
    if wal.durable == wal.lsn {
        wal
    } else {
        WalView {
            syncs: archive::saturated(wal.syncs + 1),
            durable: wal.lsn,
            ..flushed(wal)
        }
    }
}

pub open spec fn sync_actions(wal: WalView) -> Seq<ActionView> {
    if wal.durable == wal.lsn {
        Seq::empty()
    } else {
        flush_actions(wal).push(ActionView::SyncData)
    }
}

/// The log after its active segment was made durable and a fresh one took its place.
pub open spec fn rolled(wal: WalView) -> WalView {
    let next = (wal.segment + 1) as u64;
    let empty = SegmentView { length: frame::SEGMENT_HEADER as u64, members: Map::empty() };
    WalView {
        segment: next,
        offset: frame::SEGMENT_HEADER as u64,
        storage: (wal.storage + frame::SEGMENT_HEADER) as u64,
        segments: wal.segments.insert(next, empty),
        ..synced(wal)
    }
}

pub open spec fn roll_actions(wal: WalView) -> Seq<ActionView> {
    sync_actions(wal).push(
        ActionView::CreateSegment {
            segment: (wal.segment + 1) as u64,
            header: frame::sealed(
                frame::segment_header_body(
                    wal.identity@,
                    (wal.segment + 1) as u64,
                    (wal.lsn + 1) as u64,
                ),
            ),
        },
    )
}

/// The length of the frame around a record of `raw_length` bytes.
pub open spec fn length_of(raw_length: int) -> int {
    raw_length + frame::FRAME_HEADER
}

/// Whether a frame of this length needs a fresh segment.
pub open spec fn rolls(wal: WalView, length: int) -> bool {
    wal.offset + length > wal.options.segment_bytes
}

/// The storage that a frame of this length takes.
pub open spec fn storage_growth(wal: WalView, length: int) -> int {
    if rolls(wal, length) {
        length + frame::SEGMENT_HEADER
    } else {
        length
    }
}

/// The index bytes that a frame takes: a fresh segment, and a member's first record in it.
pub open spec fn index_growth(wal: WalView, id: SharedDbId, length: int) -> int {
    if rolls(wal, length) {
        224
    } else if wal.segments[wal.segment].members.contains_key(id) {
        0
    } else {
        96
    }
}

/// The archive boundary that the record moves its member to, if the member is archived.
pub open spec fn archive_next(member: MemberView, raw_length: int, digest: [u8; 32]) -> Result<
    Option<ArchiveCursor>,
> {
    match member.archive {
        None => Ok(None),
        Some(protection) => match protection.spec_next(raw_length, digest) {
            Ok(cursor) => Ok(Some(cursor)),
            Err(e) => Err(e),
        },
    }
}

/// Why a record is refused before any budget is looked at, in the order of the checks.
pub open spec fn append_refusal(
    wal: WalView,
    id: SharedDbId,
    seq: u64,
    raw_length: int,
    digest: [u8; 32],
) -> Option<Error> {
    let length = length_of(raw_length);
    if !wal.members.contains_key(id) {
        Some(frame::shared("unregistered member"))
    } else {
        let member = wal.members[id];
        if member.seq == u64::MAX {
            Some(frame::shared("position overflow"))
        } else if seq != member.seq + 1 {
            Some(frame::shared("member sequence discontinuity"))
        } else if archive_next(member, raw_length, digest) is Err {
            Some(archive_next(member, raw_length, digest)->Err_0)
        } else if wal.lsn == u64::MAX {
            Some(frame::shared("position overflow"))
        } else if length > u32::MAX {
            Some(frame::shared("frame overflow"))
        } else if length > wal.options.buffer_bytes {
            Some(
                error::limit(
                    "shared_wal_buffer_bytes",
                    length as u64,
                    wal.options.buffer_bytes as u64,
                ),
            )
        } else if frame::SEGMENT_HEADER + length > wal.options.segment_bytes {
            Some(
                error::limit(
                    "shared_wal_record_bytes",
                    length as u64,
                    (wal.options.segment_bytes - frame::SEGMENT_HEADER) as u64,
                ),
            )
        } else if member.bytes + length > u64::MAX {
            Some(frame::shared("position overflow"))
        } else {
            None
        }
    }
}

/// Why a record is refused, where no further segment can be reclaimed.
pub open spec fn append_denial(
    wal: WalView,
    id: SharedDbId,
    seq: u64,
    raw_length: int,
    digest: [u8; 32],
) -> Option<Error> {
    let length = length_of(raw_length);
    if append_refusal(wal, id, seq, raw_length, digest) is Some {
        append_refusal(wal, id, seq, raw_length, digest)
    } else if wal.storage + storage_growth(wal, length) > wal.options.max_bytes {
        Some(
            error::limit(
                "shared_wal_storage_bytes",
                (wal.storage + storage_growth(wal, length)) as u64,
                wal.options.max_bytes,
            ),
        )
    } else if wal.charged + index_growth(wal, id, length) > wal.options.index_bytes {
        Some(
            error::limit(
                "shared_wal_index_bytes",
                (wal.charged + index_growth(wal, id, length)) as u64,
                wal.options.index_bytes,
            ),
        )
    } else if rolls(wal, length) && wal.segment == u64::MAX {
        Some(frame::shared("position overflow"))
    } else {
        None
    }
}

/// The segment and the buffer that take the frame.
pub open spec fn positioned(wal: WalView, length: int) -> WalView {
    let base = if rolls(wal, length) {
        rolled(wal)
    } else {
        wal
    };
    if base.buffer.len() + length > base.options.buffer_bytes {
        flushed(base)
    } else {
        base
    }
}

pub open spec fn append_actions(wal: WalView, length: int) -> Seq<ActionView> {
    let base = if rolls(wal, length) {
        rolled(wal)
    } else {
        wal
    };
    let first = if rolls(wal, length) {
        roll_actions(wal)
    } else {
        Seq::empty()
    };
    if base.buffer.len() + length > base.options.buffer_bytes {
        first + flush_actions(base)
    } else {
        first
    }
}

/// The frame of a record.
pub open spec fn frame_of(wal: WalView, id: SharedDbId, seq: u64, raw: Seq<u8>) -> FrameView {
    FrameView {
        id,
        lsn: (wal.lsn + 1) as u64,
        seq,
        previous: wal.members[id].latest,
        raw,
    }
}

/// A member after one of its records took its place. What had become durable before is noted.
pub open spec fn member_appended(
    member: MemberView,
    durable: u64,
    pointer: Pointer,
    seq: u64,
    lsn: u64,
    raw_length: int,
    digest: [u8; 32],
) -> MemberView {
    let settled = member.lsn <= durable;
    MemberView {
        latest: pointer,
        seq,
        lsn,
        bytes: (member.bytes + length_of(raw_length)) as u64,
        durable_seq: if settled {
            member.seq
        } else {
            member.durable_seq
        },
        durable_pointer: if settled {
            member.latest
        } else {
            member.durable_pointer
        },
        archive: match member.archive {
            None => None,
            Some(protection) => Some(
                Protection {
                    durable: if settled {
                        protection.latest
                    } else {
                        protection.durable
                    },
                    latest: protection.latest.spec_after(raw_length, digest),
                    ..protection
                },
            ),
        },
        ..member
    }
}

/// The log after a record was accepted.
pub open spec fn appended(
    wal: WalView,
    id: SharedDbId,
    seq: u64,
    raw: Seq<u8>,
    digest: [u8; 32],
) -> WalView {
    let length = length_of(raw.len() as int);
    let base = positioned(wal, length);
    let pointer = Pointer { segment: base.segment, offset: base.offset };
    let segment = base.segments[base.segment];
    let lsn = (wal.lsn + 1) as u64;
    WalView {
        buffer: base.buffer + frame::frame_bytes(frame_of(wal, id, seq, raw)),
        offset: (base.offset + length) as u64,
        storage: (base.storage + length) as u64,
        charged: (wal.charged + index_growth(wal, id, length)) as u64,
        lsn,
        segments: base.segments.insert(
            base.segment,
            SegmentView {
                length: (segment.length + length) as u64,
                members: segment.members.insert(id, seq),
            },
        ),
        members: base.members.insert(
            id,
            member_appended(
                wal.members[id],
                base.durable,
                pointer,
                seq,
                lsn,
                raw.len() as int,
                digest,
            ),
        ),
        ..base
    }
}

proof fn action_views_push(actions: Seq<Action>, action: Action)
    ensures
        state::action_views(actions.push(action)) == state::action_views(actions).push(action@),
{
    assert(state::action_views(actions.push(action)) =~= state::action_views(actions).push(
        action@,
    ));
}

impl SharedWal {
    /// Empties the buffer into the active segment file.
    pub fn flush_locked(&mut self, actions: &mut Vec<Action>)
        requires
            old(self).wf(),
        ensures
            final(self).wf(),
            final(self)@ == flushed(old(self)@),
            final(self).members == old(self).members,
            final(self).segments == old(self).segments,
            state::action_views(final(actions)@) == state::action_views(old(actions)@)
                + flush_actions(old(self)@),
    {
        if self.buffer.len() == 0 {
            assert(state::action_views(actions@) + flush_actions(self@) =~= state::action_views(
                actions@,
            ));
            return ;
        }
        let mut pending: Vec<u8> = Vec::new();
        core::mem::swap(&mut pending, &mut self.buffer);
        self.writes = self.writes.saturating_add(1);
        let action = Action::Write(pending);
        proof {
            action_views_push(actions@, action);
            assert(state::action_views(old(actions)@).push(action@) =~= state::action_views(
                old(actions)@,
            ) + flush_actions(old(self)@));
        }
        actions.push(action);
        assert(self@.buffer =~= Seq::<u8>::empty());
    }

    /// Makes everything appended so far durable.
    pub fn sync_locked(&mut self, actions: &mut Vec<Action>)
        requires
            old(self).wf(),
        ensures
            final(self).wf(),
            final(self)@ == synced(old(self)@),
            final(self).members == old(self).members,
            final(self).segments == old(self).segments,
            final(self).durable == final(self).lsn,
            state::action_views(final(actions)@) == state::action_views(old(actions)@)
                + sync_actions(old(self)@),
    {
        if self.durable == self.lsn {
            assert(state::action_views(actions@) + sync_actions(self@) =~= state::action_views(
                actions@,
            ));
            return ;
        }
        self.flush_locked(actions);
        proof {
            action_views_push(actions@, Action::SyncData);
            assert(state::action_views(old(actions)@) + flush_actions(old(self)@).push(
                ActionView::SyncData,
            ) =~= (state::action_views(old(actions)@) + flush_actions(old(self)@)).push(
                ActionView::SyncData,
            ));
        }
        actions.push(Action::SyncData);
        self.syncs = self.syncs.saturating_add(1);
        self.durable = self.lsn;
    }

    /// Makes everything appended so far durable and names the position reached.
    pub fn sync(&mut self, actions: &mut Vec<Action>) -> (r: Result<SharedDurablePosition>)
        requires
            old(self).wf(),
        ensures
            final(self).wf(),
            match r {
                Ok(position) => !old(self)@.poison && final(self)@ == synced(old(self)@)
                    && position.lsn == old(self)@.lsn && state::action_views(final(actions)@)
                    == state::action_views(old(actions)@) + sync_actions(old(self)@),
                Err(e) => old(self)@.poison && e == Error::Poisoned && *final(self) == *old(self)
                    && *final(actions) == *old(actions),
            },
    {
        if self.poison {
            return Err(Error::Poisoned);
        }
        self.sync_locked(actions);
        Ok(SharedDurablePosition { lsn: self.durable })
    }

    /// Starts a fresh segment once the active one is durable. The caller has budgeted for it.
    fn roll_locked(&mut self, actions: &mut Vec<Action>)
        requires
            old(self).wf(),
            old(self).segment < u64::MAX,
            old(self).lsn < u64::MAX,
            old(self).storage + frame::SEGMENT_HEADER <= old(self).options.max_bytes,
            state::total_charge(old(self).segments.entries@) + state::total_member_charge(
                old(self).members.entries@,
            ) + 128 <= old(self).charged,
        ensures
            final(self).wf(),
            final(self)@ == rolled(old(self)@),
            final(self).members == old(self).members,
            final(self).buffer@.len() == 0,
            final(self).segments.entries@.len() == old(self).segments.entries@.len() + 1,
            final(self).segments.entries@.last().1.members.entries@.len() == 0,
            state::total_charge(final(self).segments.entries@) == state::total_charge(
                old(self).segments.entries@,
            ) + 128,
            state::action_views(final(actions)@) == state::action_views(old(actions)@)
                + roll_actions(old(self)@),
    {
        self.sync_locked(actions);
        let segment: u64 = self.segment + 1;
        let header = frame::segment_header(&self.identity, segment, self.lsn + 1);
        let action = Action::CreateSegment { segment, header };
        proof {
            action_views_push(actions@, action);
            assert(state::action_views(old(actions)@) + sync_actions(old(self)@).push(action@)
                =~= (state::action_views(old(actions)@) + sync_actions(old(self)@)).push(action@));
        }
        actions.push(action);
        let ghost before = self.segments.entries@;
        let fresh = Segment {
            length: frame::SEGMENT_HEADER as u64,
            members: OrderedMap::new(),
        };
        self.segment = segment;
        self.offset = frame::SEGMENT_HEADER as u64;
        self.storage = self.storage + frame::SEGMENT_HEADER as u64;
        self.segments.insert(segment, fresh);
        proof {
            assert(before.last().0 < segment);
            assert(self.segments.entries@ == before.push((segment, fresh)));
            state::totals_push(before, (segment, fresh));
            state::segment_view_insert(old(self).segments@, segment, fresh);
            assert(fresh@.members =~= Map::empty());
        }
    }

    /// Whether accepting the record takes more storage than is left, so that segments have to be
    /// reclaimed first. Refuses what no reclaiming can help.
    pub fn append_needs_reclaim(
        &self,
        id: SharedDbId,
        seq: u64,
        raw: &[u8],
        digest: [u8; 32],
    ) -> (r: Result<bool>)
        requires
            self.wf(),
        ensures
            match append_refusal(self@, id, seq, raw@.len() as int, digest) {
                Some(e) => r == Err::<bool, Error>(e),
                None => r == Ok::<bool, Error>(
                    self.storage + storage_growth(self@, length_of(raw@.len() as int))
                        > self.options.max_bytes,
                ),
            },
    {
        let at: usize = match self.members.find(&id) {
            Some(at) => at,
            None => return Err(frame::invalid("unregistered member")),
        };
        let member = &self.members.entries[at].1;
        proof {
            state::member_view_at(self.members@, id);
        }
        let expected: u64 = match frame::add(member.seq, 1) {
            Ok(expected) => expected,
            Err(e) => return Err(e),
        };
        if seq != expected {
            return Err(frame::invalid("member sequence discontinuity"));
        }
        match &member.archive {
            Some(protection) => match protection.next(raw.len(), digest) {
                Ok(_) => {},
                Err(e) => return Err(e),
            },
            None => {},
        }
        if self.lsn == u64::MAX {
            return Err(frame::invalid("position overflow"));
        }
        if raw.len() > 4_294_967_215 {
            return Err(frame::invalid("frame overflow"));
        }
        let length: u64 = raw.len() as u64 + frame::FRAME_HEADER as u64;
        if length > self.options.buffer_bytes as u64 {
            return Err(
                Error::limit("shared_wal_buffer_bytes", length, self.options.buffer_bytes as u64),
            );
        }
        let segment_limit: u64 = self.options.segment_bytes as u64;
        if frame::SEGMENT_HEADER as u64 + length > segment_limit {
            return Err(
                Error::limit(
                    "shared_wal_record_bytes",
                    length,
                    segment_limit - frame::SEGMENT_HEADER as u64,
                ),
            );
        }
        if member.bytes > u64::MAX - length {
            return Err(frame::invalid("position overflow"));
        }
        proof {
            state::totals_nonnegative(self.segments.entries@.drop_last());
        }
        let growth: u64 = if self.offset + length > segment_limit {
            length + frame::SEGMENT_HEADER as u64
        } else {
            length
        };
        Ok(self.storage + growth > self.options.max_bytes)
    }
}

/// The segments that are reclaimed to make room for a record: none, unless a record that is not
/// refused anyway takes more storage than is left.
pub open spec fn append_run(
    wal: WalView,
    id: SharedDbId,
    seq: u64,
    raw_length: int,
    digest: [u8; 32],
) -> Seq<u64> {
    if !wal.poison && append_refusal(wal, id, seq, raw_length, digest) is None && wal.storage
        + storage_growth(wal, length_of(raw_length)) > wal.options.max_bytes {
        gc::reclaim_all(wal)
    } else {
        Seq::empty()
    }
}

/// Whether the refusal leaves the log poisoned: no number is left for a fresh segment.
pub open spec fn append_poisons(
    wal: WalView,
    id: SharedDbId,
    seq: u64,
    raw_length: int,
    digest: [u8; 32],
) -> bool {
    let length = length_of(raw_length);
    &&& append_refusal(wal, id, seq, raw_length, digest) is None
    &&& wal.storage + storage_growth(wal, length) <= wal.options.max_bytes
    &&& wal.charged + index_growth(wal, id, length) <= wal.options.index_bytes
    &&& rolls(wal, length)
    &&& wal.segment == u64::MAX
}

/// The last segment is the active one.
pub(crate) proof fn active_segment(wal: &SharedWal)
    requires
        wal.wf(),
    ensures
        wal.segments@.contains_key(wal.segment),
        wal.segments@[wal.segment] == wal.segments.entries@.last().1,
        wal@.segments.contains_key(wal.segment),
        wal@.segments[wal.segment] == wal.segments.entries@.last().1@,
{
    ordmap::lookup_at(wal.segments.entries@, wal.segments.entries@.len() - 1);
}

impl SharedWal {
    /// Puts an accepted frame into the active segment and moves its member.
    fn place_frame(&mut self, id: SharedDbId, seq: u64, frame_length: u64, archived: Option<
        ArchiveCursor,
    >)
        requires
            old(self).wf(),
            old(self).lsn < u64::MAX,
            old(self).members@.contains_key(id),
            old(self).members@[id].bytes + frame_length <= u64::MAX,
            old(self).storage + frame_length <= old(self).options.max_bytes,
            old(self).members@[id].archive is Some <==> archived is Some,
            state::total_charge(old(self).segments.entries@) + state::total_member_charge(
                old(self).members.entries@,
            ) + (if old(self).segments.entries@.last().1.members@.contains_key(id) {
                0int
            } else {
                96
            }) <= old(self).charged,
        ensures
            final(self).buffer == old(self).buffer,
            final(self).lsn == old(self).lsn,
            final(self)@ == placed_frame(old(self)@, id, seq, frame_length as int, archived),
            final(self).members.wf(),
            final(self).segments.wf(),
            forall|i: int|
                0 <= i < final(self).segments.entries@.len() ==> (
                #[trigger] final(self).segments.entries@[i]).1.members.wf(),
            final(self).segments.entries@.len() > 0,
            final(self).segments.entries@.last().0 == final(self).segment,
            final(self).segments.entries@.last().1.length == final(self).offset,
            state::total_length(final(self).segments.entries@) == final(self).storage,
            state::total_charge(final(self).segments.entries@) + state::total_member_charge(
                final(self).members.entries@,
            ) <= final(self).charged,
    {
        proof {
            active_segment(self);
            state::totals_nonnegative(self.segments.entries@.drop_last());
        }
        let ghost start = self@;
        let ghost segments = self.segments.entries@;
        let ghost segment_map = self.segments@;
        let pointer = Pointer { segment: self.segment, offset: self.offset };
        self.offset = self.offset + frame_length;
        self.storage = self.storage + frame_length;
        let last: usize = self.segments.len() - 1;
        let ghost active = segments[last as int].1;
        let segment = self.segments.value_mut(last);
        segment.length = segment.length + frame_length;
        segment.members.insert(id, seq);
        proof {
            let grown = self.segments.entries@[last as int].1;
            assert(self.segments.entries@ =~= segments.update(last as int, (segments[last as int].0, grown)));
            ordmap::update_is_insert(segments, last as int, grown);
            state::totals_update_last(segments, (segments[last as int].0, grown));
            state::segment_view_insert(segment_map, self.segment, grown);
        }
        let durable: u64 = self.durable;
        let lsn: u64 = self.lsn + 1;
        let ghost members = self.members.entries@;
        let ghost member_map = self.members@;
        let at: usize = match self.members.find(&id) {
            Some(at) => at,
            None => {
                assert(false);
                return ;
            },
        };
        let ghost moved = members[at as int].1;
        proof {
            state::member_view_at(member_map, id);
        }
        let member = self.members.value_mut(at);
        let settled: bool = member.lsn <= durable;
        if settled {
            member.durable_seq = member.seq;
            member.durable_pointer = member.latest;
        }
        match (member.protection(), archived) {
            (Some(protection), Some(next)) => {
                member.archive = state::boxed(
                    Some(
                        Protection {
                            options: protection.options,
                            initial: protection.initial,
                            released: protection.released,
                            latest: next,
                            durable: if settled {
                                protection.latest
                            } else {
                                protection.durable
                            },
                        },
                    ),
                );
            },
            _ => {},
        }
        member.latest = pointer;
        member.seq = seq;
        member.lsn = lsn;
        member.bytes = member.bytes + frame_length;
        proof {
            let after = self.members.entries@[at as int].1;
            assert(self.members.entries@ =~= members.update(at as int, (id, after)));
            ordmap::update_is_insert(members, at as int, after);
            state::member_charge_update(members, at as int, (id, after));
            state::member_view_insert(member_map, id, after);
            assert(after@.root =~= moved@.root);
            assert(self@ == placed_frame(start, id, seq, frame_length as int, archived));
        }
    }
}

/// The log with a frame placed in its active segment.
pub open spec fn placed_frame(
    wal: WalView,
    id: SharedDbId,
    seq: u64,
    length: int,
    archived: Option<ArchiveCursor>,
) -> WalView {
    let pointer = Pointer { segment: wal.segment, offset: wal.offset };
    let segment = wal.segments[wal.segment];
    let member = wal.members[id];
    let settled = member.lsn <= wal.durable;
    WalView {
        offset: (wal.offset + length) as u64,
        storage: (wal.storage + length) as u64,
        segments: wal.segments.insert(
            wal.segment,
            SegmentView {
                length: (segment.length + length) as u64,
                members: segment.members.insert(id, seq),
            },
        ),
        members: wal.members.insert(
            id,
            MemberView {
                latest: pointer,
                seq,
                lsn: (wal.lsn + 1) as u64,
                bytes: (member.bytes + length) as u64,
                durable_seq: if settled {
                    member.seq
                } else {
                    member.durable_seq
                },
                durable_pointer: if settled {
                    member.latest
                } else {
                    member.durable_pointer
                },
                archive: match (member.archive, archived) {
                    (Some(protection), Some(next)) => Some(
                        Protection {
                            durable: if settled {
                                protection.latest
                            } else {
                                protection.durable
                            },
                            latest: next,
                            ..protection
                        },
                    ),
                    _ => member.archive,
                },
                ..member
            },
        ),
        ..wal
    }
}

impl SharedWal {
    /// Accepts one record of a member: the frame joins the buffer and the member's chain. A
    /// refused record changes nothing. `digest` is the archive chain digest that covers the
    /// record; it matters only to an archived member.
    pub fn append_locked(
        &mut self,
        id: SharedDbId,
        seq: u64,
        raw: &[u8],
        digest: [u8; 32],
        actions: &mut Vec<Action>,
    ) -> (r: Result<()>)
        requires
            old(self).wf(),
        ensures
            final(self).wf(),
            match append_denial(old(self)@, id, seq, raw@.len() as int, digest) {
                Some(e) => r == Err::<(), Error>(e) && final(self)@ == (WalView {
                    poison: old(self)@.poison || append_poisons(
                        old(self)@,
                        id,
                        seq,
                        raw@.len() as int,
                        digest,
                    ),
                    ..old(self)@
                }) && *final(actions) == *old(actions),
                None => r == Ok::<(), Error>(()) && final(self)@ == appended(
                    old(self)@,
                    id,
                    seq,
                    raw@,
                    digest,
                ) && state::action_views(final(actions)@) == state::action_views(old(actions)@)
                    + append_actions(old(self)@, length_of(raw@.len() as int)),
            },
    {
        let ghost start = self@;
        match self.append_needs_reclaim(id, seq, raw, digest) {
            Err(e) => return Err(e),
            Ok(_) => {},
        }
        let at: usize = match self.members.find(&id) {
            Some(at) => at,
            None => return Err(frame::invalid("unregistered member")),
        };
        proof {
            state::member_view_at(self.members@, id);
            state::totals_nonnegative(self.segments.entries@.drop_last());
            active_segment(self);
        }
        let previous: Pointer = self.members.entries[at].1.latest;
        let archived: Option<ArchiveCursor> = match &self.members.entries[at].1.archive {
            Some(protection) => match protection.next(raw.len(), digest) {
                Ok(next) => Some(next),
                Err(e) => return Err(e),
            },
            None => None,
        };
        let lsn: u64 = self.lsn + 1;
        let bytes: Vec<u8> = match frame::encode(id, lsn, seq, previous, raw) {
            Ok(bytes) => bytes,
            Err(e) => return Err(e),
        };
        let length: u64 = bytes.len() as u64;
        let segment_limit: u64 = self.options.segment_bytes as u64;
        let rolling: bool = self.offset + length > segment_limit;
        let growth: u64 = if rolling {
            length + frame::SEGMENT_HEADER as u64
        } else {
            length
        };
        if self.storage + growth > self.options.max_bytes {
            return Err(
                Error::limit(
                    "shared_wal_storage_bytes",
                    self.storage + growth,
                    self.options.max_bytes,
                ),
            );
        }
        let last: usize = self.segments.len() - 1;
        let represented: bool = self.segments.entries[last].1.members.contains_key(&id);
        let index_bytes: u64 = if rolling {
            224
        } else if represented {
            0
        } else {
            96
        };
        if self.charged + index_bytes > self.options.index_bytes {
            return Err(
                Error::limit(
                    "shared_wal_index_bytes",
                    self.charged + index_bytes,
                    self.options.index_bytes,
                ),
            );
        }
        if rolling && self.segment == u64::MAX {
            self.poison = true;
            return Err(frame::invalid("position overflow"));
        }
        let ghost charge_before = state::total_charge(self.segments.entries@);
        let ghost listed = state::action_views(actions@);
        self.charged = self.charged + index_bytes;
        let ghost charged = self@;
        if rolling {
            self.roll_locked(actions);
        }
        let ghost base = self@;
        if self.buffer.len() + bytes.len() > self.options.buffer_bytes as usize {
            self.flush_locked(actions);
        }
        let ghost ready = self@;
        proof {
            active_segment(self);
            assert(listed + Seq::<ActionView>::empty() =~= listed);
            assert(state::action_views(actions@) =~= listed + append_actions(
                start,
                length as int,
            ));
        }
        self.place_frame(id, seq, length, archived);
        self.lsn = lsn;
        crate::bytes::put_slice(&mut self.buffer, bytes.as_slice());
        proof {
            assert(self@.members == appended(start, id, seq, raw@, digest).members);
            assert(self@ == appended(start, id, seq, raw@, digest));
        }
        Ok(())
    }
}

} // verus!
