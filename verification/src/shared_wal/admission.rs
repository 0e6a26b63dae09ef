//! Who may write to a shared log, and what an archive keeps of it.
use vstd::prelude::*;

use super::archive::{self, ArchiveCursor, ArchiveOptions, Protection};
use super::export::{self, ArchiveStatus, ExportIndex, ExportPlan, Pin};
use super::frame::{self, Pointer};
use super::member::{self, ChainView};
use super::membership::{self, LiveFactsView, Registration, RegistryView};
use super::registry;
use super::state::{self, MemberView, WalView};
use super::types::SharedDbId;
use crate::error::{Error, Result};

verus! {

/// A healthy log lets a database be opened under a path exactly if its identity is new to the log,
/// or is not retired and registered under just that path.
pub proof fn known_databases_are_opened(
    wal: WalView,
    root: Seq<u8>,
    id: SharedDbId,
    r: Result<()>,
)
    requires
        r == (match membership::open_refusal(wal, root, id) {
            Some(e) => Err::<(), Error>(e),
            None => Ok(()),
        }),
    ensures
        r is Ok <==> !wal.poison && (wal.members.contains_key(id) ==> !wal.members[id].retired
            && wal.members[id].root == root),
{
}

/// A registered database is confirmed exactly if it is not retired and asks for its own path. A new
/// one joins exactly if it has no binding yet, its path is free, readable and not too long, and
/// neither the number of databases nor the index is used up. A database with a catalog but without
/// a binding joins only as an import.
pub proof fn databases_are_registered(
    wal: WalView,
    root: Seq<u8>,
    id: SharedDbId,
    bound: bool,
    cataloged: bool,
    imported: bool,
    embedded: bool,
)
    ensures
        membership::register_refusal(wal, root, id, bound, cataloged, imported, embedded) is None
            <==> {
            &&& !wal.poison
            &&& cataloged ==> bound || imported
            &&& wal.members.contains_key(id) ==> !wal.members[id].retired && wal.members[id].root
                == root
            &&& !wal.members.contains_key(id) ==> {
                &&& !bound
                &&& forall|other: SharedDbId| #[trigger]
                    wal.members.contains_key(other) ==> wal.members[other].retired
                        || wal.members[other].root != root
                &&& wal.members.len() < wal.options.max_databases
                &&& embedded || (vstd::utf8::valid_utf8(root) && root.len() <= 4096)
                &&& wal.charged + state::spec_member_charge(root.len() as int)
                    <= wal.options.index_bytes
            }
        },
{
}

/// An accepted registration changes nothing for a member that is already there. A new member joins
/// live, without catalog, checkpoint, records or archive; every other member stays. The file that
/// names it is published exactly for a new member, the one that binds it exactly where it has none.
pub proof fn registered_databases_start_empty(
    wal: WalView,
    after: WalView,
    root: Seq<u8>,
    id: SharedDbId,
    bound: bool,
    embedded: bool,
    registration: Registration,
)
    requires
        !wal.members.contains_key(id) ==> wal.charged + state::spec_member_charge(
            root.len() as int,
        ) <= u64::MAX,
        membership::register_done(wal, after, root, id, bound, embedded, registration),
    ensures
        wal.members.contains_key(id) ==> after == wal && registration.member is None,
        !wal.members.contains_key(id) ==> {
            let joined = after.members[id];
            &&& registration.member is Some
            &&& after.members.contains_key(id)
            &&& joined.root == root
            &&& !joined.initialized
            &&& !joined.retired
            &&& joined.checkpoint == 0
            &&& joined.seq == 0
            &&& joined.lsn == 0
            &&& joined.bytes == 0
            &&& joined.durable_seq == 0
            &&& joined.latest == Pointer { segment: 0, offset: 0 }
            &&& joined.archive is None
            &&& after.charged == wal.charged + state::spec_member_charge(root.len() as int)
            &&& after.segments == wal.segments
            &&& after.lsn == wal.lsn
            &&& after.durable == wal.durable
            &&& after.storage == wal.storage
            &&& forall|other: SharedDbId|
                other != id && #[trigger] wal.members.contains_key(other) ==> after.members[other]
                    == wal.members[other]
        },
        registration.binding is Some <==> !bound,
{
}

/// The catalog of a member is noted exactly if the log is healthy, the member known, and either the
/// same checkpoint was noted before or the member has no record yet. The member then goes on behind
/// that checkpoint.
pub proof fn catalogs_are_noted(wal: WalView, id: SharedDbId, checkpoint: u64, r: Result<WalView>)
    requires
        r == membership::initialized_outcome(wal, id, checkpoint),
    ensures
        r is Ok <==> !wal.poison && wal.members.contains_key(id) && (if wal.members[id].initialized {
            wal.members[id].checkpoint == checkpoint
        } else {
            wal.members[id].seq == 0 && wal.members[id].latest.segment == 0
                && wal.members[id].latest.offset == 0
        }),
        r matches Ok(after) ==> {
            let member = after.members[id];
            &&& wal.members[id].initialized ==> after == wal
            &&& member.initialized
            &&& member.checkpoint == checkpoint
            &&& !wal.members[id].initialized ==> member.seq == checkpoint && member.durable_seq
                == checkpoint && member.root == wal.members[id].root && member.retired
                == wal.members[id].retired && member.archive == wal.members[id].archive
                && member.bytes == wal.members[id].bytes && member.latest == wal.members[id].latest
            &&& forall|other: SharedDbId|
                other != id && #[trigger] wal.members.contains_key(other) ==> after.members[other]
                    == wal.members[other]
            &&& after.segments == wal.segments
            &&& after.lsn == wal.lsn
        },
{
}

/// A member is discarded exactly if the log is healthy, the member is live and has just that path,
/// its directory can be locked, a binding that it has is the one to this log, and no pin protects
/// it. Then it is retired and has no archive; everything else of it, and every other member, stays.
/// Where there is nothing to discard, nothing happens.
pub proof fn live_members_are_discarded(
    wal: WalView,
    root: Seq<u8>,
    id: SharedDbId,
    lock: Result<()>,
    binding: Option<Seq<u8>>,
    pinned: bool,
    r: Result<Option<WalView>>,
)
    requires
        r == member::discard_outcome(wal, root, id, lock, binding, pinned),
    ensures
        r matches Ok(None) <==> !wal.poison && (!wal.members.contains_key(id)
            || wal.members[id].retired),
        r matches Ok(Some(_)) <==> !wal.poison && wal.members.contains_key(id)
            && !wal.members[id].retired && wal.members[id].root == root && lock is Ok
            && registry::binding_verified(binding, wal.identity@, id) is Ok && !pinned,
        r matches Ok(Some(after)) ==> {
            let old_member = wal.members[id];
            let new_member = after.members[id];
            &&& new_member.retired
            &&& new_member.archive is None
            &&& new_member.root == old_member.root
            &&& new_member.seq == old_member.seq
            &&& new_member.checkpoint == old_member.checkpoint
            &&& new_member.latest == old_member.latest
            &&& new_member.lsn == old_member.lsn
            &&& new_member.bytes == old_member.bytes
            &&& forall|other: SharedDbId|
                other != id && #[trigger] wal.members.contains_key(other) ==> after.members[other]
                    == wal.members[other]
            &&& after.segments == wal.segments
        },
{
}

/// A binding is verified exactly if there is none, which does not bind, or if it is, byte for byte,
/// the one to this log and identity, which does.
pub proof fn bindings_bind(file: Option<Seq<u8>>, owner: Seq<u8>, id: SharedDbId, r: Result<bool>)
    requires
        r == registry::binding_verified(file, owner, id),
    ensures
        r == Ok::<bool, Error>(false) <==> file is None,
        r == Ok::<bool, Error>(true) ==> file == Some(
            frame::sealed(registry::binding_body(owner, id)),
        ),
        file is Some && file != Some(frame::sealed(registry::binding_body(owner, id))) ==> r is Err,
{
}

/// A registration file of a live database is admitted exactly if its directory is there, its
/// binding and its archive can be read, its catalog agrees with them, the budgets have room and no
/// other live database has its path. The member starts at the checkpoint of its catalog.
pub proof fn live_registrations_are_admitted(
    registry: RegistryView,
    id: SharedDbId,
    root: Seq<u8>,
    facts: LiveFactsView,
    bound: Result<bool>,
    checkpoint: Result<u64>,
    r: Result<(MemberView, u64)>,
)
    requires
        r == membership::live_outcome(registry, id, root, facts),
        bound == registry::binding_verified(facts.binding, registry.identity@, id),
        bound is Ok ==> checkpoint == membership::live_checkpoint(id, bound->Ok_0, facts),
    ensures
        r is Ok <==> {
            &&& facts.present
            &&& bound is Ok
            &&& facts.archive is Ok
            &&& checkpoint is Ok
            &&& registry.charged + state::spec_member_charge(root.len() as int) + (
            if facts.archive->Ok_0 is Some {
                archive::spec_protection_charge() as int
            } else {
                0
            }) <= registry.options.index_bytes
            &&& registry.members.len() < registry.options.max_databases
            &&& forall|other: SharedDbId| #[trigger]
                registry.members.contains_key(other) ==> registry.members[other].retired
                    || registry.members[other].root != root
        },
        bound is Ok && facts.manifest is None ==> checkpoint == Ok::<u64, Error>(0),
        bound == Ok::<bool, Error>(true) && facts.manifest is Some ==> checkpoint
            == facts.manifest->Some_0,
        bound == Ok::<bool, Error>(false) && facts.manifest is Some ==> (if facts.sealed == Some(
            Ok::<SharedDbId, Error>(id),
        ) {
            checkpoint == facts.manifest->Some_0
        } else {
            checkpoint is Err
        }),
        r matches Ok((joined, charged)) ==> {
            &&& joined.root == root
            &&& joined.initialized == facts.manifest is Some
            &&& !joined.retired
            &&& joined.checkpoint == checkpoint->Ok_0
            &&& joined.seq == checkpoint->Ok_0
            &&& joined.durable_seq == checkpoint->Ok_0
            &&& joined.lsn == 0
            &&& joined.bytes == 0
            &&& joined.latest == Pointer { segment: 0, offset: 0 }
            &&& joined.archive == facts.archive->Ok_0
            &&& charged == registry.charged + state::spec_member_charge(root.len() as int) + (
            if facts.archive->Ok_0 is Some {
                archive::spec_protection_charge() as int
            } else {
                0
            })
        },
{
}

/// A member is recovered exactly if the log is healthy, the member known, its catalog still at its
/// checkpoint, and there is scratch for each of the records behind it. The walk starts at the last
/// record and ends at the checkpoint, and the scratch is sixteen bytes for each record between.
pub proof fn members_are_recovered(
    wal: WalView,
    id: SharedDbId,
    tail_seq: u64,
    r: Result<(WalView, ChainView)>,
)
    requires
        wal.members.contains_key(id) ==> wal.members[id].checkpoint <= wal.members[id].seq,
        wal.options.max_bytes < u64::MAX,
        wal.scratch_bytes <= wal.options.max_bytes,
        r == member::recover_outcome(wal, id, tail_seq),
    ensures
        r is Ok <==> !wal.poison && wal.members.contains_key(id) && tail_seq
            == wal.members[id].checkpoint && wal.scratch_bytes + (wal.members[id].seq
            - wal.members[id].checkpoint) * 16 <= wal.options.max_bytes,
        r matches Ok((after, walk)) ==> {
            let member = wal.members[id];
            &&& walk.id == id
            &&& walk.pointer == member.latest
            &&& walk.seq == member.seq
            &&& walk.floor == member.checkpoint
            &&& walk.found.len() == 0
            &&& !walk.export
            &&& walk.charged == (member.seq - member.checkpoint) * 16
            &&& after.scratch_bytes == wal.scratch_bytes + walk.charged
            &&& after.members == wal.members
            &&& after.segments == wal.segments
            &&& after.lsn == wal.lsn
            &&& member.lsn > wal.durable ==> after.durable == wal.lsn
            &&& member.lsn <= wal.durable ==> after.durable == wal.durable
        },
{
}

/// A walk asks for a record exactly while it is above its floor; the record must lie in a segment,
/// behind the header.
pub proof fn walks_go_down_to_their_floor(walk: ChainView, r: Result<Option<Pointer>>)
    requires
        r == member::chain_next(walk),
    ensures
        r matches Ok(None) <==> walk.seq <= walk.floor,
        r matches Ok(Some(_)) <==> walk.seq > walk.floor && walk.pointer.segment >= 1
            && walk.pointer.offset >= 64,
        r matches Ok(Some(pointer)) ==> pointer == walk.pointer,
{
}

/// A frame continues a walk exactly if it is sound, of the walk's member, of the expected sequence,
/// and names as its predecessor nothing or a record in front of it. The walk then goes on one
/// sequence below, at that predecessor, and has noted where the record lies.
pub proof fn walks_follow_the_chain(
    walk: ChainView,
    source: Seq<u8>,
    inner: Result<u64>,
    r: Result<ChainView>,
)
    requires
        walk.seq > 0,
        r == member::chain_step(walk, source, inner),
    ensures
        r is Ok <==> (frame::inspected(source, inner) matches Ok(found) && found.id == walk.id
            && found.seq == walk.seq && ((found.previous.segment == 0 && found.previous.offset == 0)
            || found.previous.segment < walk.pointer.segment || (found.previous.segment
            == walk.pointer.segment && found.previous.offset < walk.pointer.offset))),
        r matches Ok(after) ==> {
            let found = frame::inspected(source, inner)->Ok_0;
            &&& after.pointer == found.previous
            &&& after.seq == walk.seq - 1
            &&& after.found == walk.found.push(walk.pointer)
            &&& after.floor == walk.floor
            &&& after.id == walk.id
            &&& after.charged == walk.charged
            &&& after.export == walk.export
        },
{
}

/// A boundary moves on by one record: the sequence by one, the offset by the bytes of the record,
/// and the digest is the one that covers it.
pub proof fn boundaries_move_by_records(
    cursor: ArchiveCursor,
    length: int,
    digest: [u8; 32],
    r: Result<ArchiveCursor>,
)
    requires
        0 <= length,
        r == archive::advanced(cursor, length, digest),
    ensures
        r is Ok <==> cursor.offset + length <= u64::MAX && cursor.seq < u64::MAX,
        r matches Ok(next) ==> next.seq == cursor.seq + 1 && next.offset == cursor.offset + length
            && next.digest == digest && next.database == cursor.database && next.generation
            == cursor.generation && next.branch == cursor.branch && next.epoch == cursor.epoch
            && next.segment == cursor.segment,
{
}

/// An archive holds its reserve, the record bytes that were not released, and a frame header for
/// each such record.
pub proof fn archives_hold_what_is_unreleased(protection: Protection)
    requires
        protection.released.offset <= protection.latest.offset,
        protection.released.seq <= protection.latest.seq,
        8192 + (protection.latest.offset - protection.released.offset) + (protection.latest.seq
            - protection.released.seq) * 80 <= u64::MAX,
    ensures
        protection.spec_bytes() == 8192 + (protection.latest.offset - protection.released.offset)
            + (protection.latest.seq - protection.released.seq) * 80,
{
}

/// Replaying moves the latest boundary by every record behind the released one, and by no other.
pub proof fn replay_moves_unreleased_records(
    protection: Protection,
    seq: u64,
    length: int,
    digest: [u8; 32],
    r: Result<Protection>,
)
    requires
        0 <= length,
        r == protection.spec_replayed(seq, length, digest),
    ensures
        seq <= protection.released.seq ==> r == Ok::<Protection, Error>(protection),
        seq > protection.released.seq ==> (r is Ok <==> protection.latest.offset + length
            <= u64::MAX && protection.latest.seq < u64::MAX),
        seq > protection.released.seq && r is Ok ==> {
            let after = r->Ok_0;
            &&& after.latest.seq == protection.latest.seq + 1
            &&& after.latest.offset == protection.latest.offset + length
            &&& after.latest.digest == digest
            &&& after.released == protection.released
            &&& after.durable == protection.durable
            &&& after.initial == protection.initial
            &&& after.options == protection.options
        },
{
}

/// A stored protection is restored exactly if its budget is one that an archive may have, it is
/// that of the member, it released nothing in front of its start, and every pin lies on its history
/// at or behind what it released. It starts with nothing unreleased.
pub proof fn protections_are_restored(
    options: ArchiveOptions,
    initial: ArchiveCursor,
    released: ArchiveCursor,
    id: SharedDbId,
    accepted: Result<()>,
    covers: Result<bool>,
    pins: Seq<Pin>,
    r: Result<Protection>,
)
    requires
        r == export::protection_restored(options, initial, released, id, accepted, covers, pins),
    ensures
        r is Ok <==> accepted is Ok && initial.database == id.database && initial.generation
            == id.generation && covers == Ok::<bool, Error>(true) && (forall|i: int|
            0 <= i < pins.len() ==> (#[trigger] pins[i]).same_history && released.seq
                <= pins[i].seq),
        r matches Ok(protection) ==> protection.options == options && protection.initial == initial
            && protection.released == released && protection.latest == released
            && protection.durable == released,
{
}

/// A member without an archive gets one exactly if the index has room for it and sequences are not
/// used up: it starts behind the last record, on the given branch. A member with one gets another
/// budget exactly if what it holds fits into it, and keeps its boundaries.
pub proof fn archives_are_enabled(
    wal: WalView,
    id: SharedDbId,
    options: ArchiveOptions,
    branch: [u8; 16],
    digest: [u8; 32],
    after: WalView,
    r: Result<Option<Protection>>,
)
    requires
        (after, r) == export::enable_outcome(wal, id, options, branch, digest),
        wal.members.contains_key(id),
    ensures
        wal.members[id].archive is None ==> (r is Ok <==> wal.charged
            + archive::spec_protection_charge() <= wal.options.index_bytes && wal.members[id].seq
            < u64::MAX),
        wal.members[id].archive is None && r is Ok ==> {
            &&& r->Ok_0 matches Some(fresh)
            &&& after.members[id].archive == Some(fresh)
            &&& fresh.options == options
            &&& fresh.initial.database == id.database
            &&& fresh.initial.generation == id.generation
            &&& fresh.initial.branch == branch
            &&& fresh.initial.epoch == 0
            &&& fresh.initial.seq == wal.members[id].seq
            &&& fresh.initial.segment == wal.members[id].seq + 1
            &&& fresh.initial.offset == 32
            &&& fresh.initial.digest == digest
            &&& fresh.released == fresh.initial
            &&& fresh.latest == fresh.initial
            &&& fresh.durable == fresh.initial
            &&& after.charged == wal.charged + archive::spec_protection_charge()
        },
        wal.members[id].archive matches Some(before) ==> {
            &&& r is Ok <==> before.spec_bytes() <= options.max_bytes
            &&& r is Ok && before.options == options ==> r->Ok_0 is None && after == wal
            &&& r is Ok && before.options != options ==> (r->Ok_0 matches Some(changed)
                && after.members[id].archive == Some(changed) && changed.options == options
                && changed.initial == before.initial && changed.released == before.released
                && changed.latest == before.latest && changed.durable == before.durable)
        },
        forall|other: SharedDbId|
            other != id && #[trigger] wal.members.contains_key(other) ==> after.members[other]
                == wal.members[other],
        after.members[id].seq == wal.members[id].seq,
        after.members[id].checkpoint == wal.members[id].checkpoint,
        after.members[id].retired == wal.members[id].retired,
        after.members[id].root == wal.members[id].root,
        after.segments == wal.segments,
{
}

/// The status of an archive shows what was released and how far its records are durable.
pub proof fn archive_status_is_durable(wal: WalView, id: SharedDbId, r: Result<ArchiveStatus>)
    requires
        r == export::status_of(wal, id),
    ensures
        r is Ok <==> !wal.poison && wal.members.contains_key(id) && wal.members[id].archive is Some,
        r matches Ok(status) ==> {
            let protection = wal.members[id].archive->Some_0;
            &&& status.earliest == protection.released
            &&& wal.members[id].lsn <= wal.durable ==> status.durable_end == protection.latest
            &&& wal.members[id].lsn > wal.durable ==> status.durable_end == protection.durable
            &&& status.bytes == protection.spec_bytes()
            &&& status.healthy
        },
{
}

/// A release goes ahead exactly if the log is healthy, the member archived, the boundary known or
/// verified and not in front of what was released, and every pin lies at or behind it. It moves the
/// released boundary there and nothing else.
pub proof fn releases_go_ahead(
    wal: WalView,
    id: SharedDbId,
    through: ArchiveCursor,
    verified: Result<()>,
    covers: Result<bool>,
    pins: Seq<Pin>,
    after: WalView,
    r: Result<Option<Protection>>,
)
    requires
        (after, r) == export::release_outcome(wal, id, through, verified, covers, pins),
    ensures
        r is Ok <==> {
            &&& !wal.poison
            &&& wal.members.contains_key(id)
            &&& wal.members[id].archive matches Some(protection)
            &&& verified is Ok || through == protection.released || through == (
            if wal.members[id].lsn <= wal.durable {
                protection.latest
            } else {
                protection.durable
            })
            &&& covers == Ok::<bool, Error>(true)
            &&& forall|i: int|
                0 <= i < pins.len() ==> (#[trigger] pins[i]).same_history && through.seq
                    <= pins[i].seq
        },
        r is Err ==> after == wal,
        r is Ok ==> {
            let before = wal.members[id].archive->Some_0;
            &&& through == before.released ==> r->Ok_0 is None && after == wal
            &&& through != before.released ==> (r->Ok_0 matches Some(moved)
                && after.members[id].archive == Some(moved) && moved.released == through
                && moved.options == before.options && moved.initial == before.initial
                && moved.latest == before.latest && moved.durable == before.durable)
            &&& after.members[id].seq == wal.members[id].seq
            &&& after.members[id].checkpoint == wal.members[id].checkpoint
            &&& after.members[id].retired == wal.members[id].retired
            &&& forall|other: SharedDbId|
                other != id && #[trigger] wal.members.contains_key(other) ==> after.members[other]
                    == wal.members[other]
            &&& after.segments == wal.segments
        },
{
}

/// An export behind a boundary starts exactly if the log is healthy, the member archived, the
/// boundary not behind the durable end, and there is scratch for each record between. It ends at
/// the durable end, and has just the records between the two before it.
pub proof fn exports_reach_the_durable_end(
    wal: WalView,
    id: SharedDbId,
    baseline: ArchiveCursor,
    covers: Result<bool>,
    end: ArchiveCursor,
    r: Result<(WalView, ExportIndex, ChainView)>,
)
    requires
        r == export::build_outcome(wal, id, baseline, covers),
        wal.options.max_bytes < u64::MAX,
        wal.members.contains_key(id) && wal.members[id].archive is Some ==> end == (
        if wal.members[id].lsn <= wal.durable {
            wal.members[id].archive->Some_0.latest
        } else {
            wal.members[id].archive->Some_0.durable
        }) && baseline.seq <= end.seq,
    ensures
        r is Ok <==> !wal.poison && wal.members.contains_key(id) && wal.members[id].archive is Some
            && covers == Ok::<bool, Error>(true) && wal.scratch_bytes + (end.seq - baseline.seq)
            * 16 <= wal.options.max_bytes,
        r matches Ok((after, index, walk)) ==> {
            &&& index.cursor == baseline
            &&& index.end == end
            &&& index.remaining == end.seq - baseline.seq
            &&& index.charged == (end.seq - baseline.seq) * 16
            &&& walk.id == id
            &&& walk.seq == end.seq
            &&& walk.floor == baseline.seq
            &&& walk.pointer == (if wal.members[id].lsn <= wal.durable {
                wal.members[id].latest
            } else {
                wal.members[id].durable_pointer
            })
            &&& walk.found.len() == 0
            &&& walk.export
            &&& after.scratch_bytes == wal.scratch_bytes + index.charged
            &&& after.members == wal.members
            &&& after.segments == wal.segments
        },
{
}

/// An index behind a cursor catches up with it; one that stands there waits; one that is past it
/// never will.
pub proof fn indexes_catch_up(cursor: ArchiveCursor, after: ArchiveCursor, r: Result<bool>)
    requires
        r == export::catching_up(cursor, after),
    ensures
        r == Ok::<bool, Error>(false) <==> cursor == after,
        r == Ok::<bool, Error>(true) <==> cursor != after && cursor.seq < after.seq,
        r is Err <==> cursor != after && cursor.seq >= after.seq,
{
}

/// An export is planned exactly for a cursor between the earliest boundary and the durable end. The
/// index at hand is used where it stands at the cursor and has records left or ends at the durable
/// end; else one is built, behind the cursor where an index stands there, and from the earliest
/// boundary on where none does.
pub proof fn exports_are_planned(
    status: ArchiveStatus,
    index: Option<ExportIndex>,
    after: ArchiveCursor,
    covers_earliest: Result<bool>,
    covered_by_end: Result<bool>,
    r: Result<ExportPlan>,
)
    requires
        r == export::export_planned(status, index, after, covers_earliest, covered_by_end),
    ensures
        r is Ok <==> covers_earliest == Ok::<bool, Error>(true) && covered_by_end == Ok::<
            bool,
            Error,
        >(true),
        r is Ok ==> (r->Ok_0 is Reuse <==> (index matches Some(found) && found.cursor == after && (
        found.remaining > 0 || found.end == status.durable_end))),
        r matches Ok(ExportPlan::Build(start)) ==> (if index matches Some(found) && found.cursor
            == after {
            start == after
        } else {
            start == status.earliest
        }),
{
}

/// A chunk takes a record exactly if header, record bytes so far and the record with its 28 bytes
/// of framing fit into its budget; a record that would not even fit alone is an error.
pub proof fn chunks_take_what_fits(
    header: int,
    written: int,
    raw_length: int,
    max_bytes: u32,
    r: Result<bool>,
)
    requires
        0 <= header,
        0 <= written,
        0 <= raw_length,
        header + written + raw_length + 28 <= usize::MAX,
        r == export::chunk_admits(header, written, raw_length, max_bytes),
    ensures
        r == Ok::<bool, Error>(true) <==> header + written + raw_length + 28 <= max_bytes,
        r == Ok::<bool, Error>(false) <==> header + written + raw_length + 28 > max_bytes && written
            > 0,
{
}

/// A chunk can have any budget from its header up to four mebibytes.
pub proof fn budgets_hold_the_header(header: int, max_bytes: u32)
    ensures
        export::budget_refusal(header, max_bytes) is None <==> header <= max_bytes <= 4_194_304,
{
}

} // verus!
