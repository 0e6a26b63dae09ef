//! The state of a shared log and what every operation keeps of it.
use vstd::prelude::*;

use super::archive::Protection;
use super::frame::{self, Pointer};
use super::types::{SharedDbId, SharedWalOptions};
use crate::error::{self, Error, Result};
use crate::ordmap::OrderedMap;

verus! {

/// One logical database that writes to the log.
pub struct Member {
    pub root: Vec<u8>,
    pub initialized: bool,
    pub retired: bool,
    pub checkpoint: u64,
    pub latest: Pointer,
    pub seq: u64,
    pub lsn: u64,
    pub bytes: u64,
    pub durable_seq: u64,
    pub durable_pointer: Pointer,
    pub archive: Option<Box<Protection>>,
}

pub struct MemberView {
    pub root: Seq<u8>,
    pub initialized: bool,
    pub retired: bool,
    pub checkpoint: u64,
    pub latest: Pointer,
    pub seq: u64,
    pub lsn: u64,
    pub bytes: u64,
    pub durable_seq: u64,
    pub durable_pointer: Pointer,
    pub archive: Option<Protection>,
}

/// What a member holds on the heap, taken by value.
pub open spec fn unboxed(held: Option<Box<Protection>>) -> Option<Protection> {
    match held {
        Some(protection) => Some(*protection),
        None => None,
    }
}

/// Moves a protection to the heap: few members are archived, and the others stay small.
pub(crate) fn boxed(archive: Option<Protection>) -> (held: Option<Box<Protection>>)
    ensures
        unboxed(held) == archive,
{
    match archive {
        Some(protection) => Some(Box::new(protection)),
        None => None,
    }
}

impl View for Member {
    type V = MemberView;

    open spec fn view(&self) -> MemberView {
        MemberView {
            root: self.root@,
            initialized: self.initialized,
            retired: self.retired,
            checkpoint: self.checkpoint,
            latest: self.latest,
            seq: self.seq,
            lsn: self.lsn,
            bytes: self.bytes,
            durable_seq: self.durable_seq,
            durable_pointer: self.durable_pointer,
            archive: unboxed(self.archive),
        }
    }
}

impl MemberView {
    /// The last sequence that an archive no longer needs from the log.
    pub open spec fn archive_limit(self) -> u64 {
        match self.archive {
            Some(protection) => protection.released.seq,
            None => u64::MAX,
        }
    }

    /// Whether the record `seq` must stay in the log for this member.
    pub open spec fn needs(self, seq: u64) -> bool {
        !self.retired && (self.checkpoint < seq || self.archive_limit() < seq)
    }
}

impl Member {
    /// The archive protection, if the member is archived.
    pub fn protection(&self) -> (archive: Option<Protection>)
        ensures
            archive == self@.archive,
    {
        match &self.archive {
            Some(protection) => Some(**protection),
            None => None,
        }
    }

    pub fn archive_limit(&self) -> (limit: u64)
        ensures
            limit == self@.archive_limit(),
    {
        match &self.archive {
            Some(protection) => protection.released.seq,
            None => u64::MAX,
        }
    }

    pub fn needs(&self, seq: u64) -> (needed: bool)
        ensures
            needed == self@.needs(seq),
    {
        !self.retired && (self.checkpoint < seq || self.archive_limit() < seq)
    }
}

/// One segment file: its length and the last sequence of each member in it.
pub struct Segment {
    pub length: u64,
    pub members: OrderedMap<SharedDbId, u64>,
}

pub struct SegmentView {
    pub length: u64,
    pub members: Map<SharedDbId, u64>,
}

impl View for Segment {
    type V = SegmentView;

    open spec fn view(&self) -> SegmentView {
        SegmentView { length: self.length, members: self.members@ }
    }
}

/// File work that an operation asks its embedder for, to be done in order.
pub enum Action {
    /// Append these bytes to the active segment file.
    Write(Vec<u8>),
    /// Make the active segment file durable.
    SyncData,
    /// Create this segment file with its header, durably, and make it the active one.
    CreateSegment { segment: u64, header: Vec<u8> },
    /// Remove this segment file durably, and its boundary file if there is one.
    RemoveSegment(u64),
}

pub enum ActionView {
    Write(Seq<u8>),
    SyncData,
    CreateSegment { segment: u64, header: Seq<u8> },
    RemoveSegment(u64),
}

impl View for Action {
    type V = ActionView;

    open spec fn view(&self) -> ActionView {
        match self {
            Action::Write(bytes) => ActionView::Write(bytes@),
            Action::SyncData => ActionView::SyncData,
            Action::CreateSegment { segment, header } => ActionView::CreateSegment {
                segment: *segment,
                header: header@,
            },
            Action::RemoveSegment(number) => ActionView::RemoveSegment(*number),
        }
    }
}

pub open spec fn action_views(actions: Seq<Action>) -> Seq<ActionView> {
    actions.map_values(|action: Action| action@)
}

/// A log that many databases append to, with its segments and its budgets.
pub struct SharedWal {
    pub identity: [u8; 16],
    pub options: SharedWalOptions,
    pub segment: u64,
    pub offset: u64,
    pub lsn: u64,
    pub durable: u64,
    pub buffer: Vec<u8>,
    pub storage: u64,
    pub charged: u64,
    pub scratch_bytes: u64,
    pub members: OrderedMap<SharedDbId, Member>,
    pub segments: OrderedMap<u64, Segment>,
    pub poison: bool,
    pub writes: u64,
    pub syncs: u64,
}

pub struct WalView {
    pub identity: [u8; 16],
    pub options: SharedWalOptions,
    pub segment: u64,
    pub offset: u64,
    pub lsn: u64,
    pub durable: u64,
    pub buffer: Seq<u8>,
    pub storage: u64,
    pub charged: u64,
    pub scratch_bytes: u64,
    pub members: Map<SharedDbId, MemberView>,
    pub segments: Map<u64, SegmentView>,
    pub poison: bool,
    pub writes: u64,
    pub syncs: u64,
}

pub open spec fn member_views(members: Map<SharedDbId, Member>) -> Map<SharedDbId, MemberView> {
    members.map_values(|member: Member| member@)
}

pub open spec fn segment_views(segments: Map<u64, Segment>) -> Map<u64, SegmentView> {
    segments.map_values(|segment: Segment| segment@)
}

impl View for SharedWal {
    type V = WalView;

    open spec fn view(&self) -> WalView {
        WalView {
            identity: self.identity,
            options: self.options,
            segment: self.segment,
            offset: self.offset,
            lsn: self.lsn,
            durable: self.durable,
            buffer: self.buffer@,
            storage: self.storage,
            charged: self.charged,
            scratch_bytes: self.scratch_bytes,
            members: member_views(self.members@),
            segments: segment_views(self.segments@),
            poison: self.poison,
            writes: self.writes,
            syncs: self.syncs,
        }
    }
}

/// The bytes of all segment files together.
pub open spec fn total_length(segments: Seq<(u64, Segment)>) -> int
    decreases segments.len(),
{
    if segments.len() == 0 {
        0
    } else {
        total_length(segments.drop_last()) + segments.last().1.length
    }
}

/// The index bytes of one segment: a base and a share for each member in it.
pub open spec fn segment_charge(segment: Segment) -> int {
    128 + 96 * (segment.members.entries@.len() as int)
}

pub open spec fn total_charge(segments: Seq<(u64, Segment)>) -> int
    decreases segments.len(),
{
    if segments.len() == 0 {
        0
    } else {
        total_charge(segments.drop_last()) + segment_charge(segments.last().1)
    }
}

/// The index bytes of one member that is registered under a path of `length` bytes.
pub open spec fn spec_member_charge(length: int) -> u64 {
    super::archive::saturated(
        super::archive::saturated(
            super::archive::saturated(
                super::archive::saturated(member_entry_bytes()) * 2,
            ) + 256,
        ) + super::archive::saturated(length * 2),
    )
}

/// The bytes of one member's table entries, held at the largest machine word.
pub open spec fn member_entry_bytes() -> int {
    word(
        word(
            word(vstd::layout::size_of::<Member>() as int + vstd::layout::size_of::<SharedDbId>())
                + vstd::layout::size_of::<Vec<u8>>(),
        ) + vstd::layout::size_of::<SharedDbId>(),
    )
}

pub open spec fn word(value: int) -> int {
    if value > usize::MAX {
        usize::MAX as int
    } else {
        value
    }
}

pub fn member_charge(root: &Vec<u8>) -> (charge: u64)
    ensures
        charge == spec_member_charge(root@.len() as int),
{
    let entries: usize = core::mem::size_of::<Member>().saturating_add(
        core::mem::size_of::<SharedDbId>(),
    ).saturating_add(core::mem::size_of::<Vec<u8>>()).saturating_add(
        core::mem::size_of::<SharedDbId>(),
    );
    super::archive::saturating_mul(entries as u64, 2).saturating_add(256).saturating_add(
        super::archive::saturating_mul(root.len() as u64, 2),
    )
}

pub open spec fn total_member_charge(members: Seq<(SharedDbId, Member)>) -> int
    decreases members.len(),
{
    if members.len() == 0 {
        0
    } else {
        total_member_charge(members.drop_last()) + spec_member_charge(
            members.last().1.root@.len() as int,
        )
    }
}

impl SharedWal {
    /// What holds of a log between operations: the active segment is the last one, storage and
    /// index are within their budgets and account for every segment, and unwritten bytes belong
    /// to the active segment and are not durable.
    pub open spec fn wf(&self) -> bool {
        &&& self.options.valid()
        &&& self.members.wf()
        &&& self.segments.wf()
        &&& forall|i: int|
            0 <= i < self.segments.entries@.len() ==> (
            #[trigger] self.segments.entries@[i]).1.members.wf()
        &&& self.segments.entries@.len() > 0
        &&& self.segments.entries@.last().0 == self.segment
        &&& self.segments.entries@.last().1.length == self.offset
        &&& total_length(self.segments.entries@) == self.storage
        &&& self.storage <= self.options.max_bytes
        &&& total_charge(self.segments.entries@) + total_member_charge(self.members.entries@)
            <= self.charged
        &&& self.charged <= self.options.index_bytes
        &&& self.durable <= self.lsn
        &&& self.durable == self.lsn ==> self.buffer@.len() == 0
        &&& self.buffer@.len() <= self.options.buffer_bytes
        &&& self.buffer@.len() + frame::SEGMENT_HEADER <= self.offset
    }
}

/// Looking a member up commutes with taking views.
pub(crate) proof fn member_view_at(members: Map<SharedDbId, Member>, id: SharedDbId)
    ensures
        member_views(members).contains_key(id) == members.contains_key(id),
        members.contains_key(id) ==> member_views(members)[id] == members[id]@,
{
}

pub(crate) proof fn member_view_insert(members: Map<SharedDbId, Member>, id: SharedDbId, member: Member)
    ensures
        member_views(members.insert(id, member)) == member_views(members).insert(id, member@),
{
    assert(member_views(members.insert(id, member)) =~= member_views(members).insert(id, member@));
}

pub(crate) proof fn segment_view_insert(segments: Map<u64, Segment>, number: u64, segment: Segment)
    ensures
        segment_views(segments.insert(number, segment)) == segment_views(segments).insert(
            number,
            segment@,
        ),
{
    assert(segment_views(segments.insert(number, segment)) =~= segment_views(segments).insert(
        number,
        segment@,
    ));
}

pub(crate) proof fn segment_view_remove(segments: Map<u64, Segment>, number: u64)
    ensures
        segment_views(segments.remove(number)) == segment_views(segments).remove(number),
{
    assert(segment_views(segments.remove(number)) =~= segment_views(segments).remove(number));
}

pub(crate) proof fn totals_update_last(segments: Seq<(u64, Segment)>, entry: (u64, Segment))
    requires
        segments.len() > 0,
    ensures
        total_length(segments.update(segments.len() - 1, entry)) == total_length(segments)
            - segments.last().1.length + entry.1.length,
        total_charge(segments.update(segments.len() - 1, entry)) == total_charge(segments)
            - segment_charge(segments.last().1) + segment_charge(entry.1),
{
    let next = segments.update(segments.len() - 1, entry);
    assert(next.drop_last() =~= segments.drop_last());
}

pub(crate) proof fn totals_push(segments: Seq<(u64, Segment)>, entry: (u64, Segment))
    ensures
        total_length(segments.push(entry)) == total_length(segments) + entry.1.length,
        total_charge(segments.push(entry)) == total_charge(segments) + segment_charge(entry.1),
{
    assert(segments.push(entry).drop_last() =~= segments);
}

pub(crate) proof fn totals_remove_first(segments: Seq<(u64, Segment)>)
    requires
        segments.len() > 0,
    ensures
        total_length(segments.remove(0)) == total_length(segments) - segments[0].1.length,
        total_charge(segments.remove(0)) == total_charge(segments) - segment_charge(segments[0].1),
    decreases segments.len(),
{
    if segments.len() == 1 {
        assert(segments.remove(0) =~= Seq::<(u64, Segment)>::empty());
        assert(segments.drop_last() =~= Seq::<(u64, Segment)>::empty());
    } else {
        totals_remove_first(segments.drop_last());
        assert(segments.remove(0).drop_last() =~= segments.drop_last().remove(0));
    }
}

pub(crate) proof fn totals_nonnegative(segments: Seq<(u64, Segment)>)
    ensures
        total_length(segments) >= 0,
        total_charge(segments) >= 0,
    decreases segments.len(),
{
    if segments.len() > 0 {
        totals_nonnegative(segments.drop_last());
    }
}

pub(crate) proof fn member_charge_nonnegative(members: Seq<(SharedDbId, Member)>)
    ensures
        total_member_charge(members) >= 0,
    decreases members.len(),
{
    if members.len() > 0 {
        member_charge_nonnegative(members.drop_last());
    }
}

/// Replacing a member replaces its share of the index.
pub(crate) proof fn member_charge_update(
    members: Seq<(SharedDbId, Member)>,
    at: int,
    entry: (SharedDbId, Member),
)
    requires
        0 <= at < members.len(),
    ensures
        total_member_charge(members.update(at, entry)) == total_member_charge(members)
            - spec_member_charge(members[at].1.root@.len() as int) + spec_member_charge(
            entry.1.root@.len() as int,
        ),
    decreases members.len(),
{
    let next = members.update(at, entry);
    if at == members.len() - 1 {
        assert(next.drop_last() =~= members.drop_last());
    } else {
        member_charge_update(members.drop_last(), at, entry);
        assert(next.drop_last() =~= members.drop_last().update(at, entry));
    }
}

/// A fresh member adds its own share.
pub(crate) proof fn member_charge_place(
    members: Seq<(SharedDbId, Member)>,
    at: int,
    entry: (SharedDbId, Member),
)
    requires
        0 <= at <= members.len(),
    ensures
        total_member_charge(members.insert(at, entry)) == total_member_charge(members)
            + spec_member_charge(entry.1.root@.len() as int),
    decreases members.len(),
{
    let next = members.insert(at, entry);
    if at == members.len() {
        assert(next.drop_last() =~= members);
    } else {
        member_charge_place(members.drop_last(), at, entry);
        assert(next.drop_last() =~= members.drop_last().insert(at, entry));
        assert(next.last() == members.last());
    }
}

/// A healthy log, or the answer that a poisoned one gives to everything.
pub open spec fn healthy(wal: WalView) -> Result<()> {
    if wal.poison {
        Err(Error::Poisoned)
    } else {
        Ok(())
    }
}

impl SharedWal {
    pub fn ensure_healthy(&self) -> (r: Result<()>)
        ensures
            r == healthy(self@),
    {
        if self.poison {
            Err(Error::Poisoned)
        } else {
            Ok(())
        }
    }

    /// Marks the log unusable. An embedder does so when file work fails.
    pub fn mark_poisoned(&mut self)
        requires
            old(self).wf(),
        ensures
            final(self).wf(),
            final(self)@ == (WalView { poison: true, ..old(self)@ }),
    {
        self.poison = true;
    }

    /// Charges index bytes within the budget.
    pub fn charge(&mut self, growth: u64) -> (r: Result<()>)
        requires
            old(self).wf(),
        ensures
            final(self).wf(),
            r == charge_result(old(self)@, growth),
            final(self)@ == (if r is Ok {
                WalView { charged: (old(self)@.charged + growth) as u64, ..old(self)@ }
            } else {
                old(self)@
            }),
            final(self).members == old(self).members,
            final(self).segments == old(self).segments,
    {
        let next: u64 = match frame::add(self.charged, growth) {
            Ok(next) => next,
            Err(e) => return Err(e),
        };
        if next > self.options.index_bytes {
            return Err(Error::limit("shared_wal_index_bytes", next, self.options.index_bytes));
        }
        self.charged = next;
        Ok(())
    }
}

pub open spec fn charge_result(wal: WalView, growth: u64) -> Result<()> {
    if wal.charged + growth > u64::MAX {
        Err(frame::shared("position overflow"))
    } else if wal.charged + growth > wal.options.index_bytes {
        Err(
            error::limit(
                "shared_wal_index_bytes",
                (wal.charged + growth) as u64,
                wal.options.index_bytes,
            ),
        )
    } else {
        Ok(())
    }
}

} // verus!
