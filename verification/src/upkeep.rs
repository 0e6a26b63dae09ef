//! What a whole seal, compaction, retention or round of maintenance leaves behind.
//!
//! An operation is a few calls with file work between them. Here each is one step from the database
//! as it was to the database as it is installed, and what a reader may rely on is stated of that
//! step: which units there are, which generation, what is reported, and that no stream changes.
use vstd::prelude::*;

use crate::db::Db;
use crate::error::{Error, Result};
use crate::limits::{self, Limit};
use crate::maintenance::{
    self, CompactLevel, CompactOrder, CompactReport, RetentionReport, RetentionView, SealReport,
};
use crate::manifest::catalog::{self, ManifestView, RetentionState, UnitMeta};
use crate::manifest::replay;
use crate::manifest::transition;
use crate::query::batch;
use crate::query::cursor;
use crate::query::facts::{self, Fact};
use crate::query::meaning;
use crate::query::plan::{self, PlannedSection};
use crate::query::primitives::{self, Slot};
use crate::query::recall;
use crate::query::resample;
use crate::query::sample;
use crate::retention::carry;
use crate::retention::head::HeadsView;
use crate::scheduler::{
    self, MaintenanceEvent, MaintenanceReport, MaintenanceRun, MaintenanceStage, StepView,
};
use crate::tail::{self, Stream, TailView};
use crate::types::{StreamKey, TableId, VersionView};
use crate::unit::{self, SectionView, TableDirectoryEntry, UnitSource};
use crate::wal::DurablePosition;

verus! {

/// Whether a source still gives what another one gave of some units.
pub open spec fn keeps<S: UnitSource>(old_source: &S, new_source: &S, units: Seq<UnitMeta>) -> bool {
    &&& forall|i: int, table: TableId|
        0 <= i < units.len() ==> #[trigger] new_source.directory(units[i], table)
            == old_source.directory(units[i], table)
    &&& forall|i: int, section: TableDirectoryEntry, version: VersionView|
        0 <= i < units.len() ==> #[trigger] new_source.rows_of(units[i], section, version)
            == old_source.rows_of(units[i], section, version)
    &&& forall|i: int, section: TableDirectoryEntry, version: VersionView, streams: Seq<Stream>|
        0 <= i < units.len() ==> #[trigger] new_source.streams_of(
            units[i],
            section,
            version,
            streams,
        ) == old_source.streams_of(units[i], section, version, streams)
}

/// Every value of a stream that a database holds.
pub open spec fn held<S: UnitSource>(db: &Db<S>, key: StreamKey) -> Seq<Fact> {
    meaning::stream_facts(&db.source, db.manifest@.units, db.tail@, key)
}

/// Whether a database tells one history of a table that a plan of all its sections fits.
pub open spec fn in_order<S: UnitSource>(db: &Db<S>, table: TableId) -> bool {
    &&& meaning::sound(&db.source, db.manifest@.units, db.tail@, table)
    &&& meaning::plan_fits(&db.source, db.manifest@.units, table)
}

/// What a walk over a stream of a database delivers.
pub open spec fn scanned<S: UnitSource>(db: &Db<S>, key: StreamKey, start: i64, end: i64)
    -> Result<cursor::FactFlow> {
    cursor::stream_flow(&db.source, db.manifest@.units, db.tail@, key, start, end)
}

/// Whether a unit is one of the first `count`.
spec fn among(units: Seq<UnitMeta>, unit: UnitMeta, count: int) -> bool {
    exists|i: int| 0 <= i < count && unit == #[trigger] units[i]
}

/// Every section belongs to one of the units.
proof fn section_units<S: UnitSource>(
    source: &S,
    units: Seq<UnitMeta>,
    table: TableId,
    count: int,
)
    requires
        0 <= count <= units.len(),
    ensures
        forall|s: int|
            0 <= s < meaning::all_sections(source, units, table, count).len() ==> among(
                units,
                (#[trigger] meaning::all_sections(source, units, table, count)[s]).unit,
                count,
            ),
    decreases count,
{
    if count > 0 {
        section_units(source, units, table, count - 1);
        let earlier = meaning::all_sections(source, units, table, count - 1);
        let all = meaning::all_sections(source, units, table, count);
        assert forall|s: int| 0 <= s < all.len() implies among(
            units,
            (#[trigger] all[s]).unit,
            count,
        ) by {
            if s < earlier.len() {
                assert(all[s] == earlier[s]);
                assert(among(units, earlier[s].unit, count - 1));
            } else {
                assert(all[s].unit == units[count - 1]);
            }
        }
    }
}

proof fn sections_kept<S: UnitSource>(
    old_source: &S,
    new_source: &S,
    units: Seq<UnitMeta>,
    table: TableId,
    count: int,
)
    requires
        keeps(old_source, new_source, units),
        0 <= count <= units.len(),
    ensures
        meaning::all_sections(new_source, units, table, count) == meaning::all_sections(
            old_source,
            units,
            table,
            count,
        ),
    decreases count,
{
    if count > 0 {
        sections_kept(old_source, new_source, units, table, count - 1);
        assert(new_source.directory(units[count - 1], table) == old_source.directory(
            units[count - 1],
            table,
        ));
    }
}

proof fn sealed_kept<S: UnitSource>(
    old_source: &S,
    new_source: &S,
    units: Seq<UnitMeta>,
    versions: Seq<VersionView>,
    sections: Seq<PlannedSection>,
    stream: Stream,
    count: int,
)
    requires
        keeps(old_source, new_source, units),
        0 <= count <= sections.len(),
        forall|s: int|
            0 <= s < sections.len() ==> among(
                units,
                (#[trigger] sections[s]).unit,
                units.len() as int,
            ),
    ensures
        meaning::sealed_facts(new_source, versions, sections, stream, count)
            == meaning::sealed_facts(old_source, versions, sections, stream, count),
    decreases count,
{
    if count > 0 {
        sealed_kept(old_source, new_source, units, versions, sections, stream, count - 1);
        let here = sections[count - 1];
        assert(among(units, here.unit, units.len() as int));
        let i = choose|i: int| 0 <= i < units.len() && here.unit == #[trigger] units[i];
        let version = facts::version_numbered(versions, here.section.version_no)->Some_0;
        assert(new_source.rows_of(units[i], here.section, version) == old_source.rows_of(
            units[i],
            here.section,
            version,
        ));
    }
}

/// What is kept of units is kept of some of them.
proof fn keeps_part<S: UnitSource>(
    old_source: &S,
    new_source: &S,
    units: Seq<UnitMeta>,
    from: int,
    to: int,
)
    requires
        keeps(old_source, new_source, units),
        0 <= from <= to <= units.len(),
    ensures
        keeps(old_source, new_source, units.subrange(from, to)),
{
    let part = units.subrange(from, to);
    assert forall|i: int, table: TableId| 0 <= i < part.len() implies #[trigger]
    new_source.directory(part[i], table) == old_source.directory(part[i], table) by {
        assert(part[i] == units[from + i]);
    }
    assert forall|i: int, section: TableDirectoryEntry, version: VersionView|
        0 <= i < part.len() implies #[trigger] new_source.rows_of(part[i], section, version)
        == old_source.rows_of(part[i], section, version) by {
        assert(part[i] == units[from + i]);
    }
    assert forall|i: int, section: TableDirectoryEntry, version: VersionView, streams: Seq<Stream>|
        0 <= i < part.len() implies #[trigger] new_source.streams_of(
        part[i],
        section,
        version,
        streams,
    ) == old_source.streams_of(part[i], section, version, streams) by {
        assert(part[i] == units[from + i]);
    }
}

/// Units of which the same is given hold the same values.
proof fn units_kept<S: UnitSource>(
    old_source: &S,
    new_source: &S,
    units: Seq<UnitMeta>,
    versions: Seq<VersionView>,
    table: TableId,
    stream: Stream,
)
    requires
        keeps(old_source, new_source, units),
    ensures
        meaning::units_facts(new_source, versions, units, table, stream) == meaning::units_facts(
            old_source,
            versions,
            units,
            table,
            stream,
        ),
{
    let all = meaning::all_sections(old_source, units, table, units.len() as int);
    sections_kept(old_source, new_source, units, table, units.len() as int);
    section_units(old_source, units, table, units.len() as int);
    sealed_kept(old_source, new_source, units, versions, all, stream, all.len() as int);
}

/// Where a unit is placed among units.
pub open spec fn place(units: Seq<UnitMeta>, unit: UnitMeta) -> int
    decreases units.len(),
{
    if units.len() == 0 || units.last().spec_before(unit) {
        units.len() as int
    } else {
        place(units.drop_last(), unit)
    }
}

proof fn placed(units: Seq<UnitMeta>, unit: UnitMeta)
    ensures
        0 <= place(units, unit) <= units.len(),
        maintenance::with_unit(units, unit) == units.take(place(units, unit)) + seq![unit]
            + units.skip(place(units, unit)),
    decreases units.len(),
{
    let at = place(units, unit);
    if units.len() == 0 || units.last().spec_before(unit) {
        assert(units.push(unit) =~= units.take(at) + seq![unit] + units.skip(at));
    } else {
        let front = units.drop_last();
        placed(front, unit);
        assert((front.take(at) + seq![unit] + front.skip(at)).push(units.last()) =~= units.take(at)
            + seq![unit] + units.skip(at));
    }
}

/// Placing a unit adds its values before those of the units that it is placed before.
proof fn placed_facts<S: UnitSource>(
    source: &S,
    versions: Seq<VersionView>,
    units: Seq<UnitMeta>,
    unit: UnitMeta,
    table: TableId,
    stream: Stream,
)
    ensures
        ({
            let at = place(units, unit);
            meaning::units_facts(
                source,
                versions,
                maintenance::with_unit(units, unit),
                table,
                stream,
            ) == meaning::units_facts(source, versions, units.take(at), table, stream)
                + meaning::units_facts(source, versions, seq![unit], table, stream)
                + meaning::units_facts(source, versions, units.skip(at), table, stream)
        }),
{
    let at = place(units, unit);
    placed(units, unit);
    meaning::units_facts_join(
        source,
        versions,
        units.take(at) + seq![unit],
        units.skip(at),
        table,
        stream,
    );
    meaning::units_facts_join(source, versions, units.take(at), seq![unit], table, stream);
}

/// Two databases in order that hold the same values of a stream deliver the same on every walk.
pub proof fn equal_streams_are_walked_alike<S: UnitSource>(
    first: &Db<S>,
    second: &Db<S>,
    key: StreamKey,
    start: i64,
    end: i64,
)
    requires
        in_order(first, key.table),
        in_order(second, key.table),
        facts::key_refusal(first.tail@, key) is None,
        facts::key_refusal(second.tail@, key) is None,
        held(first, key) == held(second, key),
        start <= end,
    ensures
        scanned(first, key, start, end) == scanned(second, key, start, end),
        scanned(first, key, start, end) is Ok,
{
    meaning::scan_delivers_the_stream(
        &first.source,
        first.manifest@.units,
        first.tail@,
        key,
        start,
        end,
    );
    meaning::scan_delivers_the_stream(
        &second.source,
        second.manifest@.units,
        second.tail@,
        key,
        start,
        end,
    );
}

/// Whether the tail stands behind the catalog: it goes on from the checkpoint, and without a record
/// since it holds no row.
pub open spec fn behind_catalog<S: UnitSource>(db: &Db<S>) -> bool {
    let checkpoint = db.manifest@.checkpoint.next_seq;
    &&& checkpoint <= db.tail@.next_seq
    &&& checkpoint == db.tail@.next_seq ==> !maintenance::has_rows(db.tail@)
}

/// A whole seal: from a database to the one with the sealed catalog installed, with the unit that
/// was written between, if one was ordered, and the place up to which the log was made durable.
pub open spec fn seal_done<S: UnitSource>(
    before: &Db<S>,
    durable: DurablePosition,
    written: Option<UnitMeta>,
    after: &Db<S>,
    report: SealReport,
) -> bool {
    match maintenance::seal_range(before.manifest@, before.tail@, before.writer.unsynced_bytes) {
        None => *after == *before && report == (SealReport {
            unit_id: None,
            checkpointed_records: 0,
        }),
        Some(range) => match maintenance::seal_order(
            before.manifest@,
            before.tail@,
            range,
            durable,
        ) {
            Err(_) => false,
            Ok(order) => {
                &&& order.unit == (match written {
                    Some(unit) => Some(unit.unit_id),
                    None => None,
                })
                &&& maintenance::sealed_catalog(
                    before.manifest@,
                    replay::cataloged_tables(&before.tail),
                    before.tail@.table_high_water,
                    order,
                    written,
                ) == Ok::<ManifestView, Error>(after.manifest@)
                &&& after.tail@ == replay::unreplayed_tail(after.manifest@)
                &&& after.heads == before.heads
                &&& report == (SealReport {
                    unit_id: order.unit,
                    checkpointed_records: if range.end_seq >= range.start_seq {
                        (range.end_seq - range.start_seq) as u64
                    } else {
                        0
                    },
                })
            },
        },
    }
}

/// Whether a sealed unit holds what the tail held of a stream, and no unit that it was placed before
/// holds any of it.
pub open spec fn seals_stream<S: UnitSource>(
    before: &Db<S>,
    written: Option<UnitMeta>,
    after: &Db<S>,
    key: StreamKey,
) -> bool {
    let state = before.tail@.tables[key.table];
    let stream = facts::spec_stream(key);
    let units = before.manifest@.units;
    &&& keeps(&before.source, &after.source, units)
    &&& written matches Some(unit) ==> {
        &&& meaning::units_facts(&after.source, state.versions, seq![unit], key.table, stream)
            == facts::tail_facts(state.rows, stream)
        &&& meaning::units_facts(
            &after.source,
            state.versions,
            units.skip(place(units, unit)),
            key.table,
            stream,
        ) == Seq::<Fact>::empty()
    }
}

/// Sealing leaves no record pending. It writes a unit exactly if the tail has rows, under the next
/// identifier, and reports the records since the checkpoint. The new checkpoint is where the log was
/// made durable. To seal again at once does nothing.
pub proof fn sealing_covers_every_record<S: UnitSource>(
    before: &Db<S>,
    durable: DurablePosition,
    written: Option<UnitMeta>,
    after: &Db<S>,
    report: SealReport,
    again: &Db<S>,
    second: SealReport,
    later: DurablePosition,
    unit: Option<UnitMeta>,
)
    requires
        before.wf(),
        behind_catalog(before),
        seal_done(before, durable, written, after, report),
        seal_done(after, later, unit, again, second),
    ensures
        ({
            let pending = before.tail@.next_seq - before.manifest@.checkpoint.next_seq;
            let high_water = before.manifest@.identity.unit_high_water;
            &&& after.manifest@.checkpoint.next_seq == after.tail@.next_seq
            &&& after.tail@.next_seq == before.tail@.next_seq
            &&& pending > 0 ==> after.manifest@.checkpoint.segment_first_seq
                == durable.segment
                && after.manifest@.checkpoint.offset == durable.offset
            &&& !maintenance::has_rows(after.tail@)
            &&& report.checkpointed_records == pending
            &&& report.unit_id is Some <==> maintenance::has_rows(before.tail@)
            &&& report.unit_id matches Some(unit_id) ==> unit_id == high_water + 1
            &&& after.manifest@.identity.unit_high_water == (match report.unit_id {
                Some(unit_id) => unit_id,
                None => high_water,
            })
            &&& after.manifest@.identity.generation == before.manifest@.identity.generation + (
            if pending > 0 {
                1int
            } else {
                0
            })
            &&& behind_catalog(after)
        }),
        *again == *after,
        second == (SealReport { unit_id: None, checkpointed_records: 0 }),
{
    let units = before.manifest@.units;
    match maintenance::seal_range(before.manifest@, before.tail@, before.writer.unsynced_bytes) {
        None => {},
        Some(range) => {
            let order = maintenance::seal_order(
                before.manifest@,
                before.tail@,
                range,
                durable,
            )->Ok_0;
            maintenance::sealing_keeps_tables(
                before.manifest@,
                &before.tail,
                order,
                written,
                arbitrary(),
            );
        },
    }
}

/// Sealing changes no stream.
pub proof fn sealing_keeps_every_stream<S: UnitSource>(
    before: &Db<S>,
    durable: DurablePosition,
    written: Option<UnitMeta>,
    after: &Db<S>,
    report: SealReport,
    key: StreamKey,
    start: i64,
    end: i64,
)
    requires
        before.wf(),
        seal_done(before, durable, written, after, report),
        seals_stream(before, written, after, key),
        facts::key_refusal(before.tail@, key) is None,
        start <= end,
    ensures
        held(after, key) == held(before, key),
        facts::key_refusal(after.tail@, key) is None,
        in_order(before, key.table) && in_order(after, key.table) ==> scanned(
            after,
            key,
            start,
            end,
        ) == scanned(before, key, start, end),
{
    let units = before.manifest@.units;
    let state = before.tail@.tables[key.table];
    let stream = facts::spec_stream(key);
    match maintenance::seal_range(before.manifest@, before.tail@, before.writer.unsynced_bytes) {
        None => {},
        Some(range) => {
            let order = maintenance::seal_order(
                before.manifest@,
                before.tail@,
                range,
                durable,
            )->Ok_0;
            maintenance::sealing_keeps_tables(
                before.manifest@,
                &before.tail,
                order,
                written,
                key.table,
            );
            let emptied = after.tail@.tables[key.table];
            tail::row_indices_facts(emptied.rows, stream);
            assert(facts::tail_facts(emptied.rows, stream) =~= Seq::<Fact>::empty());
            units_kept(&before.source, &after.source, units, state.versions, key.table, stream);
            match written {
                None => {
                    assert(state.rows.len() == 0) by {
                        assert(before.tail@.tables.contains_key(key.table));
                        assert(!maintenance::has_rows(before.tail@));
                    }
                    tail::row_indices_facts(state.rows, stream);
                    assert(facts::tail_facts(state.rows, stream) =~= Seq::<Fact>::empty());
                },
                Some(unit) => {
                    let at = place(units, unit);
                    placed(units, unit);
                    placed_facts(
                        &after.source,
                        state.versions,
                        units,
                        unit,
                        key.table,
                        stream,
                    );
                    assert(units.take(at) + units.skip(at) =~= units);
                    meaning::units_facts_join(
                        &after.source,
                        state.versions,
                        units.take(at),
                        units.skip(at),
                        key.table,
                        stream,
                    );
                    let front = meaning::units_facts(
                        &after.source,
                        state.versions,
                        units.take(at),
                        key.table,
                        stream,
                    );
                    let sealed = facts::tail_facts(state.rows, stream);
                    let none = Seq::<Fact>::empty();
                    assert(front + sealed + none + none =~= front + none + sealed);
                },
            }
            assert(held(after, key) =~= held(before, key));
        },
    }
    if in_order(before, key.table) && in_order(after, key.table) {
        equal_streams_are_walked_alike(after, before, key, start, end);
    }
}

/// Whether an order is for the first longest stretch of at least two neighbours of the level, or
/// there is no such stretch.
pub open spec fn first_stretch(
    catalog: ManifestView,
    level: CompactLevel,
    order: Option<CompactOrder>,
) -> bool {
    let units = catalog.units;
    let source = level.spec_source();
    match order {
        None => forall|i: int| !#[trigger] maintenance::pair_at(units, source, i),
        Some(found) => {
            &&& maintenance::is_run(units, source, found.start as int, found.end as int)
            &&& found.end - found.start >= 2
            &&& forall|i: int|
                i < found.start ==> !#[trigger] maintenance::pair_at(units, source, i)
            &&& found.unit_id == catalog.identity.unit_high_water + 1
        },
    }
}

/// A whole merge: from a database to the one with the merged catalog installed, with the unit that
/// was written between.
pub open spec fn merge_done<S: UnitSource>(
    before: &Db<S>,
    order: CompactOrder,
    written: UnitMeta,
    after: &Db<S>,
    report: CompactReport,
) -> bool {
    &&& written.unit_id == order.unit_id
    &&& transition::catalog_after(
        before.manifest@,
        before.manifest@.retention,
        maintenance::compacted_units(
            before.manifest@.units,
            order.start as int,
            order.end as int,
            written,
        ),
        order.unit_id,
    ) == Ok::<ManifestView, Error>(after.manifest@)
    &&& after.tail == before.tail
    &&& after.heads == before.heads
    &&& report.output_unit == Some(order.unit_id)
    &&& report.input_units == (if order.end - order.start > u32::MAX {
        u32::MAX as int
    } else {
        order.end - order.start
    })
}

/// A whole compaction of a level.
pub open spec fn compact_done<S: UnitSource>(
    before: &Db<S>,
    level: CompactLevel,
    order: Option<CompactOrder>,
    written: UnitMeta,
    after: &Db<S>,
    report: CompactReport,
) -> bool {
    &&& first_stretch(before.manifest@, level, order)
    &&& match order {
        None => *after == *before && report == (CompactReport {
            input_units: 0,
            output_unit: None,
        }),
        Some(found) => merge_done(before, found, written, after, report),
    }
}

/// The units that a merge leaves in place.
pub open spec fn left_in_place(units: Seq<UnitMeta>, order: CompactOrder) -> Seq<UnitMeta> {
    units.take(order.start as int) + units.skip(order.end as int)
}

/// Whether a merged unit holds what its inputs held of a stream, and no unit between its place and
/// theirs holds any of it.
pub open spec fn merges_stream<S: UnitSource>(
    before: &Db<S>,
    order: CompactOrder,
    written: UnitMeta,
    after: &Db<S>,
    key: StreamKey,
) -> bool {
    let versions = before.tail@.tables[key.table].versions;
    let stream = facts::spec_stream(key);
    let units = before.manifest@.units;
    let kept = left_in_place(units, order);
    let at = place(kept, written);
    let start = order.start as int;
    &&& keeps(&before.source, &after.source, kept)
    &&& meaning::units_facts(&after.source, versions, seq![written], key.table, stream)
        == meaning::units_facts(
        &before.source,
        versions,
        units.subrange(start, order.end as int),
        key.table,
        stream,
    )
    &&& meaning::units_facts(
        &after.source,
        versions,
        if at < start {
            kept.subrange(at, start)
        } else {
            kept.subrange(start, at)
        },
        key.table,
        stream,
    ) == Seq::<Fact>::empty()
}

/// Merging changes no stream.
pub proof fn merging_keeps_every_stream<S: UnitSource>(
    before: &Db<S>,
    order: CompactOrder,
    written: UnitMeta,
    after: &Db<S>,
    report: CompactReport,
    key: StreamKey,
    start: i64,
    end: i64,
)
    requires
        order.start <= order.end <= before.manifest@.units.len(),
        merge_done(before, order, written, after, report),
        merges_stream(before, order, written, after, key),
        facts::key_refusal(before.tail@, key) is None,
        start <= end,
    ensures
        held(after, key) == held(before, key),
        facts::key_refusal(after.tail@, key) is None,
        in_order(before, key.table) && in_order(after, key.table) ==> scanned(
            after,
            key,
            start,
            end,
        ) == scanned(before, key, start, end),
{
    merging_keeps_what_is_held(before, order, written, after, report, key);
    if in_order(before, key.table) && in_order(after, key.table) {
        equal_streams_are_walked_alike(after, before, key, start, end);
    }
}

/// Merging keeps what is held of a stream.
#[verifier::spinoff_prover]
#[verifier::rlimit(40)]
proof fn merging_keeps_what_is_held<S: UnitSource>(
    before: &Db<S>,
    order: CompactOrder,
    written: UnitMeta,
    after: &Db<S>,
    report: CompactReport,
    key: StreamKey,
)
    requires
        order.start <= order.end <= before.manifest@.units.len(),
        merge_done(before, order, written, after, report),
        merges_stream(before, order, written, after, key),
        facts::key_refusal(before.tail@, key) is None,
    ensures
        held(after, key) == held(before, key),
        facts::key_refusal(after.tail@, key) is None,
{
    let units = before.manifest@.units;
    let versions = before.tail@.tables[key.table].versions;
    let stream = facts::spec_stream(key);
    let table = key.table;
    let kept = left_in_place(units, order);
    let left = units.take(order.start as int);
    let middle = units.subrange(order.start as int, order.end as int);
    let right = units.skip(order.end as int);
    let at = place(kept, written);
    let source = &after.source;
    placed(kept, written);
    placed_facts(source, versions, kept, written, table, stream);
    keeps_part(&before.source, source, kept, 0, order.start as int);
    keeps_part(&before.source, source, kept, order.start as int, kept.len() as int);
    assert(kept.subrange(0, order.start as int) =~= left);
    assert(kept.subrange(order.start as int, kept.len() as int) =~= right);
    units_kept(&before.source, source, left, versions, table, stream);
    units_kept(&before.source, source, right, versions, table, stream);
    assert(units =~= (left + middle) + right);
    meaning::units_facts_join(&before.source, versions, left + middle, right, table, stream);
    meaning::units_facts_join(&before.source, versions, left, middle, table, stream);
    let a = meaning::units_facts(source, versions, left, table, stream);
    let c = meaning::units_facts(source, versions, right, table, stream);
    let front = meaning::units_facts(source, versions, kept.take(at), table, stream);
    let back = meaning::units_facts(source, versions, kept.skip(at), table, stream);
    if at < order.start {
        let over = kept.subrange(at, order.start as int);
        assert(left =~= kept.take(at) + over);
        assert(kept.skip(at) =~= over + right);
        meaning::units_facts_join(source, versions, kept.take(at), over, table, stream);
        meaning::units_facts_join(source, versions, over, right, table, stream);
        assert(a =~= front);
        assert(back =~= c);
    } else {
        let over = kept.subrange(order.start as int, at);
        assert(kept.take(at) =~= left + over);
        assert(right =~= over + kept.skip(at));
        meaning::units_facts_join(source, versions, left, over, table, stream);
        meaning::units_facts_join(source, versions, over, kept.skip(at), table, stream);
        assert(a =~= front);
        assert(back =~= c);
    }
    assert(held(after, key) =~= held(before, key));
}

/// Compaction of a level without two neighbours does nothing. Else the first longest stretch of them
/// becomes one unit under the next identifier, every other unit stays, and only the units and the
/// generation of the catalog change.
pub proof fn compaction_merges_the_first_stretch<S: UnitSource>(
    before: &Db<S>,
    level: CompactLevel,
    order: Option<CompactOrder>,
    written: UnitMeta,
    after: &Db<S>,
    report: CompactReport,
)
    requires
        before.wf(),
        compact_done(before, level, order, written, after, report),
    ensures
        order is None <==> forall|i: int|
            !#[trigger] maintenance::pair_at(before.manifest@.units, level.spec_source(), i),
        order is None ==> *after == *before && report == (CompactReport {
            input_units: 0,
            output_unit: None,
        }),
        order matches Some(found) ==> {
            let old_units = before.manifest@.units;
            let run = old_units.subrange(found.start as int, found.end as int);
            let new_units = after.manifest@.units;
            let unit_id = before.manifest@.identity.unit_high_water + 1;
            &&& written.unit_id == unit_id
            &&& report.output_unit == Some(written.unit_id)
            &&& report.input_units == run.len()
            &&& new_units.len() == old_units.len() - run.len() + 1
            &&& new_units.to_multiset() == old_units.to_multiset().sub(
                run.to_multiset(),
            ).insert(written)
            &&& catalog::units_ordered(new_units)
            &&& after.manifest@.identity.generation == before.manifest@.identity.generation + 1
            &&& after.manifest@.identity.unit_high_water == unit_id
            &&& after.manifest@.checkpoint == before.manifest@.checkpoint
            &&& after.manifest@.retention == before.manifest@.retention
            &&& after.manifest@.tables == before.manifest@.tables
            &&& after.tail == before.tail
        },
{
    let units = before.manifest@.units;
    if let Some(found) = order {
        assert(maintenance::pair_at(units, level.spec_source(), found.start as int));
        assert forall|i: int| 0 <= i < units.len() implies (#[trigger] units[i]).unit_id
            != written.unit_id by {
            assert(units[i].unit_id <= before.manifest@.identity.unit_high_water);
        }
        maintenance::compaction_replaces_its_inputs(
            units,
            found.start as int,
            found.end as int,
            written,
        );
        placed(left_in_place(units, found), written);
        assert(units.len() <= limits::MAX_LIVE_UNITS);
    }
}

/// A whole retention: from a database to the one with the catalog and the heads installed.
pub open spec fn retain_done<S: UnitSource>(
    before: &Db<S>,
    cutoff: i64,
    after: &Db<S>,
    report: RetentionReport,
) -> bool {
    match maintenance::retention_step(before, cutoff) {
        Err(_) => false,
        Ok(RetentionView::Unchanged(same)) => *after == *before && report == same,
        Ok(RetentionView::Advance { expired, floor, generation, heads }) => {
            &&& transition::catalog_after(
                before.manifest@,
                RetentionState { floor: Some(floor), heads_generation: Some(generation) },
                before.manifest@.units.skip(expired),
                before.manifest@.identity.unit_high_water,
            ) == Ok::<ManifestView, Error>(after.manifest@)
            &&& after.tail == before.tail
            &&& after.heads matches Some(list) && list@ == heads
            &&& report.floor == Some(floor)
            &&& report.removed_units == (if expired > u32::MAX {
                u32::MAX as int
            } else {
                expired
            })
        },
    }
}

/// The heads of a database.
pub open spec fn heads_of<S: UnitSource>(db: &Db<S>) -> Option<HeadsView> {
    match db.heads {
        Some(heads) => Some(heads@),
        None => None,
    }
}

pub(crate) proof fn expired_prefix(units: Seq<UnitMeta>, cutoff: i64, from: int)
    requires
        0 <= from <= units.len(),
    ensures
        ({
            let count = maintenance::expired_count(units, cutoff, from);
            &&& from <= count <= units.len()
            &&& forall|i: int| from <= i < count ==> (#[trigger] units[i]).max_ts < cutoff
            &&& count < units.len() ==> units[count].max_ts >= cutoff
        }),
    decreases units.len() - from,
{
    if from < units.len() && units[from].max_ts < cutoff {
        expired_prefix(units, cutoff, from + 1);
    }
}

pub(crate) proof fn latest_is_attained(units: Seq<UnitMeta>, count: int)
    requires
        1 <= count <= units.len(),
    ensures
        exists|i: int|
            0 <= i < count && (#[trigger] units[i]).max_ts == maintenance::latest_end(units, count),
        forall|i: int|
            0 <= i < count ==> (#[trigger] units[i]).max_ts <= maintenance::latest_end(
                units,
                count,
            ),
    decreases count,
{
    if count > 1 {
        latest_is_attained(units, count - 1);
        let i = choose|i: int|
            0 <= i < count - 1 && (#[trigger] units[i]).max_ts == maintenance::latest_end(
                units,
                count - 1,
            );
        if units[count - 1].max_ts > maintenance::latest_end(units, count - 1) {
            assert(units[count - 1].max_ts == maintenance::latest_end(units, count));
        } else {
            assert(units[i].max_ts == maintenance::latest_end(units, count));
        }
    } else {
        assert(units[0].max_ts == maintenance::latest_end(units, count));
    }
}

/// Retention removes exactly the longest run of leading units that end before the cutoff. Without
/// one, nothing changes. Else the floor is one past the greatest time that was removed, the
/// generation rises by one, and the other units, the tables and the checkpoint stay.
pub proof fn retention_removes_the_leading_units<S: UnitSource>(
    before: &Db<S>,
    cutoff: i64,
    after: &Db<S>,
    report: RetentionReport,
)
    requires
        before.wf(),
        retain_done(before, cutoff, after, report),
    ensures
        ({
            let units = before.manifest@.units;
            let removed = report.removed_units as int;
            &&& 0 <= removed <= units.len()
            &&& forall|i: int| 0 <= i < removed ==> (#[trigger] units[i]).max_ts < cutoff
            &&& removed < units.len() ==> units[removed].max_ts >= cutoff
            &&& after.manifest@.units == units.skip(removed)
            &&& report.floor == after.manifest@.retention.floor
            &&& removed == 0 ==> *after == *before
            &&& removed > 0 ==> {
                &&& report.floor matches Some(floor) && {
                    &&& exists|i: int|
                        0 <= i < removed && (#[trigger] units[i]).max_ts + 1 == floor
                    &&& forall|i: int| 0 <= i < removed ==> (#[trigger] units[i]).max_ts < floor
                    &&& before.manifest@.retention.floor matches Some(old_floor) ==> old_floor
                        < floor
                }
                &&& after.manifest@.identity.generation == before.manifest@.identity.generation + 1
                &&& after.manifest@.identity.unit_high_water
                    == before.manifest@.identity.unit_high_water
                &&& after.manifest@.checkpoint == before.manifest@.checkpoint
                &&& after.manifest@.tables == before.manifest@.tables
                &&& after.tail == before.tail
            }
        }),
{
    let units = before.manifest@.units;
    let count = maintenance::expired_count(units, cutoff, 0);
    expired_prefix(units, cutoff, 0);
    assert(units.len() <= limits::MAX_LIVE_UNITS);
    if count > 0 {
        latest_is_attained(units, count);
        let i = choose|i: int|
            0 <= i < count && (#[trigger] units[i]).max_ts == maintenance::latest_end(
                units,
                count,
            );
        assert(units[i].max_ts < cutoff);
        assert(units[i].max_ts + 1 == report.floor->Some_0);
    } else {
        assert(units.skip(0) =~= units);
    }
}

/// A history without its first units is one, read from any source that keeps the others.
proof fn later_units_sound<S: UnitSource>(
    old_source: &S,
    new_source: &S,
    gone: Seq<UnitMeta>,
    kept: Seq<UnitMeta>,
    schemas: TailView,
    table: TableId,
)
    requires
        meaning::sound(old_source, gone + kept, schemas, table),
        keeps(old_source, new_source, kept),
    ensures
        meaning::sound(new_source, kept, schemas, table),
        meaning::plan_fits(old_source, gone + kept, table) ==> meaning::plan_fits(
            new_source,
            kept,
            table,
        ),
{
    let units = gone + kept;
    let state = schemas.tables[table];
    let all = meaning::all_sections(old_source, units, table, units.len() as int);
    let first = meaning::all_sections(old_source, units, table, gone.len() as int);
    let rest = meaning::all_sections(new_source, kept, table, kept.len() as int);
    sections_kept(old_source, new_source, kept, table, kept.len() as int);
    section_units(old_source, kept, table, kept.len() as int);
    meaning::sections_join(old_source, gone, kept, table, kept.len() as int);
    assert(all == first + rest);
    assert forall|i: int, j: int| 0 <= i < j < kept.len() implies (
    #[trigger] kept[i]).spec_before(#[trigger] kept[j]) by {
        assert(units[gone.len() + i].spec_before(units[gone.len() + j]));
    }
    assert forall|i: int, j: int| 0 <= i < j < kept.len() implies (#[trigger] kept[i]).unit_id != (
    #[trigger] kept[j]).unit_id by {
        assert(units[gone.len() + i].unit_id != units[gone.len() + j].unit_id);
    }
    assert forall|i: int| 0 <= i < kept.len() implies new_source.directory(
        #[trigger] kept[i],
        table,
    ) is Ok by {
        assert(old_source.directory(units[gone.len() + i], table) is Ok);
        assert(new_source.directory(kept[i], table) == old_source.directory(kept[i], table));
    }
    assert forall|i: int| 0 <= i < rest.len() implies plan::loaded_refusal(
        (#[trigger] rest[i]).unit,
        table,
        rest[i].section,
    ) is None && meaning::section_sound(new_source, state.versions, rest[i]) by {
        let here = rest[i];
        assert(all[first.len() + i] == here);
        assert(among(kept, here.unit, kept.len() as int));
        let u = choose|u: int| 0 <= u < kept.len() && here.unit == #[trigger] kept[u];
        assert(meaning::section_sound(old_source, state.versions, here));
        let version = facts::version_numbered(
            state.versions,
            here.section.version_no,
        )->Some_0;
        assert(new_source.rows_of(kept[u], here.section, version) == old_source.rows_of(
            kept[u],
            here.section,
            version,
        ));
        let rows = meaning::section_rows(old_source, state.versions, here);
        assert forall|streams: Seq<Stream>| #[trigger]
            new_source.streams_of(here.unit, here.section, version, streams) == Ok::<
                SectionView,
                Error,
            >(
                SectionView {
                    timestamps: rows.timestamps,
                    columns: unit::columns_of(rows.columns, streams, rows.columns.len() as int),
                },
            ) by {
            assert(new_source.streams_of(kept[u], here.section, version, streams)
                == old_source.streams_of(kept[u], here.section, version, streams));
        }
    }
    assert forall|i: int, j: int| 0 <= i < j < rest.len() implies (
    #[trigger] rest[i]).section.max_ts < (#[trigger] rest[j]).section.min_ts by {
        assert(all[first.len() + i].section.max_ts < all[first.len() + j].section.min_ts);
    }
    assert forall|i: int| 0 <= i < rest.len() && state.rows.len() > 0 implies (
    #[trigger] rest[i]).section.max_ts < state.rows[0].timestamp by {
        assert(all[first.len() + i].section.max_ts < state.rows[0].timestamp);
    }
    let size = vstd::layout::size_of::<PlannedSection>() as int;
    assert(rest.len() * size <= all.len() * size) by (nonlinear_arith)
        requires
            rest.len() <= all.len(),
            size >= 0,
    ;
}

/// Retention of a sound store changes no lookup at or above the floor, and no value of a stream there.
/// Lookups that were refused are refused alike.
pub proof fn retention_keeps_later_answers<S: UnitSource>(
    before: &Db<S>,
    cutoff: i64,
    after: &Db<S>,
    report: RetentionReport,
    keys: Seq<StreamKey>,
    time: i64,
    end: i64,
)
    requires
        before.wf(),
        retain_done(before, cutoff, after, report),
        keeps(&before.source, &after.source, after.manifest@.units),
        forall|i: int|
            0 <= i < keys.len() ==> meaning::sound(
                &before.source,
                before.manifest@.units,
                before.tail@,
                (#[trigger] keys[i]).table,
            ),
        batch::keys_refusal(before.tail@, keys, keys.len() as int) is None,
        report.floor matches Some(floor) ==> floor <= time,
        time <= end,
    ensures
        primitives::lookups(
            &after.source,
            after.manifest@.units,
            after.tail@,
            heads_of(after),
            keys,
            Some(time),
        ) == primitives::lookups(
            &before.source,
            before.manifest@.units,
            before.tail@,
            heads_of(before),
            keys,
            Some(time),
        ),
        forall|i: int|
            0 <= i < keys.len() ==> facts::facts_within(held(after, #[trigger] keys[i]), time, end)
                == facts::facts_within(held(before, keys[i]), time, end),
{
    let units = before.manifest@.units;
    retention_removes_the_leading_units(before, cutoff, after, report);
    let removed = report.removed_units as int;
    if removed > 0 {
        let gone = units.take(removed);
        let kept = units.skip(removed);
        let floor = report.floor->Some_0;
        let state = before.tail@;
        assert(units =~= gone + kept);
        expired_prefix(units, cutoff, 0);
        assert(maintenance::expired_count(units, cutoff, 0) == removed);
        assert forall|i: int| 0 <= i < keys.len() implies {
            let key = #[trigger] keys[i];
            &&& meaning::sound(&before.source, units, state, key.table)
            &&& meaning::sound(&after.source, kept, state, key.table)
            &&& recall::recalled(&after.source, kept, state, heads_of(after), key, Some(time))
                == recall::recalled(
                &before.source,
                units,
                state,
                heads_of(before),
                key,
                Some(time),
            )
            &&& facts::facts_within(held(after, key), time, end) == facts::facts_within(
                held(before, key),
                time,
                end,
            )
        } by {
            let key = keys[i];
            primitives::accepted_keys(state, keys, i);
            assert(meaning::sound(&before.source, units, state, keys[i].table));
            later_units_sound(&before.source, &after.source, gone, kept, state, key.table);
            carry::retention_changes_no_later_answer(
                &before.source,
                &before.tail,
                heads_of(before),
                gone,
                kept,
                floor,
                key,
                time,
                end,
            );
            units_kept(
                &before.source,
                &after.source,
                kept,
                state.tables[key.table].versions,
                key.table,
                facts::spec_stream(key),
            );
        }
        recall::equal_streams_are_looked_up_alike(
            &after.source,
            kept,
            heads_of(after),
            &before.source,
            units,
            heads_of(before),
            state,
            keys,
            time,
        );
    }
}

/// Retention leaves at or above the floor what a sampling has of a stream at a time.
proof fn slot_is_kept<S: UnitSource>(
    before: &Db<S>,
    cutoff: i64,
    after: &Db<S>,
    report: RetentionReport,
    key: StreamKey,
    time: i64,
)
    requires
        before.wf(),
        retain_done(before, cutoff, after, report),
        report.removed_units > 0,
        keeps(&before.source, &after.source, after.manifest@.units),
        in_order(before, key.table),
        facts::key_refusal(before.tail@, key) is None,
        report.floor matches Some(floor) && floor <= time,
    ensures
        in_order(after, key.table),
        resample::resampled(
            &after.source,
            after.manifest@.units,
            after.tail@,
            heads_of(after),
            key,
            time,
        ) == resample::resampled(
            &before.source,
            before.manifest@.units,
            before.tail@,
            heads_of(before),
            key,
            time,
        ),
{
    let units = before.manifest@.units;
    let state = before.tail@;
    retention_removes_the_leading_units(before, cutoff, after, report);
    let removed = report.removed_units as int;
    let gone = units.take(removed);
    let kept = units.skip(removed);
    assert(units =~= gone + kept);
    expired_prefix(units, cutoff, 0);
    assert(maintenance::expired_count(units, cutoff, 0) == removed);
    later_units_sound(&before.source, &after.source, gone, kept, state, key.table);
    carry::retention_changes_no_later_answer(
        &before.source,
        &before.tail,
        heads_of(before),
        gone,
        kept,
        report.floor->Some_0,
        key,
        time,
        time,
    );
    units_kept(
        &before.source,
        &after.source,
        kept,
        state.tables[key.table].versions,
        key.table,
        facts::spec_stream(key),
    );
}

/// Retention changes no sampling that starts at or above the floor.
pub proof fn retention_keeps_later_samples<S: UnitSource>(
    before: &Db<S>,
    cutoff: i64,
    after: &Db<S>,
    report: RetentionReport,
    keys: Seq<StreamKey>,
    start: i64,
    end: i64,
    step: u32,
)
    requires
        before.wf(),
        retain_done(before, cutoff, after, report),
        keeps(&before.source, &after.source, after.manifest@.units),
        forall|i: int| 0 <= i < keys.len() ==> in_order(before, (#[trigger] keys[i]).table),
        forall|i: int, j: int|
            #![trigger keys[i], sample::grid_time(start, step, j)]
            0 <= i < keys.len() && 0 <= j < sample::grid_slots(start, end, step)->Ok_0
                ==> resample::resampled(
                &before.source,
                before.manifest@.units,
                before.tail@,
                heads_of(before),
                keys[i],
                sample::grid_time(start, step, j)->Ok_0,
            ) is Ok,
        report.floor matches Some(floor) ==> floor <= start,
    ensures
        sample::samples(
            &after.source,
            after.manifest@.units,
            after.tail@,
            heads_of(after),
            keys,
            start,
            end,
            step,
        ) == sample::samples(
            &before.source,
            before.manifest@.units,
            before.tail@,
            heads_of(before),
            keys,
            start,
            end,
            step,
        ),
{
    retention_removes_the_leading_units(before, cutoff, after, report);
    let state = before.tail@;
    let slots = sample::grid_slots(start, end, step);
    let total = slots->Ok_0 * keys.len();
    if report.removed_units > 0 && batch::keys_refusal(state, keys, keys.len() as int) is None
        && slots is Ok && total <= usize::MAX && total <= Limit::QuerySlots.spec_maximum()
        && limits::memory_refusal(total, vstd::layout::size_of::<Slot>() as int) is None {
        heads_precede(before, cutoff, after, report);
        assert forall|i: int, j: int|
            #![trigger keys[i], sample::grid_time(start, step, j)]
            0 <= i < keys.len() && 0 <= j < slots->Ok_0 implies resample::resampled(
            &after.source,
            after.manifest@.units,
            state,
            heads_of(after),
            keys[i],
            sample::grid_time(start, step, j)->Ok_0,
        ) == resample::resampled(
            &before.source,
            before.manifest@.units,
            state,
            heads_of(before),
            keys[i],
            sample::grid_time(start, step, j)->Ok_0,
        ) by {
            primitives::accepted_keys(state, keys, i);
            sample::grid_covers_its_range(start, end, step, j);
            slot_is_kept(
                before,
                cutoff,
                after,
                report,
                keys[i],
                sample::grid_time(start, step, j)->Ok_0,
            );
        }
        assert forall|i: int| 0 <= i < keys.len() implies in_order(
            after,
            (#[trigger] keys[i]).table,
        ) by {
            primitives::accepted_keys(state, keys, i);
            slot_is_kept(before, cutoff, after, report, keys[i], start);
        }
        resample::samples_recall_each_time(
            &before.source,
            before.manifest@.units,
            state,
            heads_of(before),
            keys,
            start,
            end,
            step,
        );
        resample::samples_recall_each_time(
            &after.source,
            after.manifest@.units,
            state,
            heads_of(after),
            keys,
            start,
            end,
            step,
        );
        let one = |key: StreamKey|
            resample::resampling(
                &before.source,
                before.manifest@.units,
                state,
                heads_of(before),
                key,
                start,
                step,
                slots->Ok_0,
            );
        let other = |key: StreamKey|
            resample::resampling(
                &after.source,
                after.manifest@.units,
                state,
                heads_of(after),
                key,
                start,
                step,
                slots->Ok_0,
            );
        assert forall|i: int| 0 <= i < keys.len() implies one(#[trigger] keys[i]) == other(
            keys[i],
        ) by {
            assert forall|j: int| 0 <= j < slots->Ok_0 implies (#[trigger] one(keys[i])[j])
                == other(keys[i])[j] by {
                sample::grid_covers_its_range(start, end, step, j);
                assert(sample::grid_time(start, step, j)->Ok_0 == (start + j * step) as i64);
            }
            assert(one(keys[i]) =~= other(keys[i]));
        }
        assert(keys.map_values(one) =~= keys.map_values(other));
    }
}

/// The heads before a retention and those after it are valid, and their floors not above the new one.
proof fn heads_precede<S: UnitSource>(
    before: &Db<S>,
    cutoff: i64,
    after: &Db<S>,
    report: RetentionReport,
)
    requires
        before.wf(),
        retain_done(before, cutoff, after, report),
        report.removed_units > 0,
    ensures
        report.floor is Some,
        heads_of(before) matches Some(list) ==> list.valid() && list.floor <= report.floor->Some_0,
        heads_of(after) matches Some(list) && list.valid() && list.floor
            == report.floor->Some_0,
{
    let units = before.manifest@.units;
    retention_removes_the_leading_units(before, cutoff, after, report);
    expired_prefix(units, cutoff, 0);
}

/// What doing a step of a round of maintenance makes of a database, with the unit that was written,
/// if one was.
pub open spec fn step_done<S: UnitSource>(
    before: &Db<S>,
    step: StepView,
    durable: DurablePosition,
    written: Option<UnitMeta>,
    event: MaintenanceEvent,
    after: &Db<S>,
) -> bool {
    match (step, event) {
        (StepView::Sync, MaintenanceEvent::Synced { position }) => *after == (Db {
            writer: after.writer,
            ..*before
        }),
        (StepView::Seal, MaintenanceEvent::Sealed { report }) => seal_done(
            before,
            durable,
            written,
            after,
            report,
        ) && after.options == before.options,
        (
            StepView::Compact { level, order },
            MaintenanceEvent::Compacted { report },
        ) => written matches Some(unit) && merge_done(
            before,
            ordered(order),
            unit,
            after,
            report,
        ) && after.options == before.options,
        _ => false,
    }
}

/// The order of a merge that was decided.
pub open spec fn ordered(order: (int, int, u64)) -> CompactOrder {
    CompactOrder { start: order.0 as usize, end: order.1 as usize, unit_id: order.2 }
}

/// Whether the unit that a step wrote holds what it replaces of a stream.
pub open spec fn step_keeps_stream<S: UnitSource>(
    before: &Db<S>,
    step: StepView,
    written: Option<UnitMeta>,
    after: &Db<S>,
    key: StreamKey,
) -> bool {
    match step {
        StepView::Seal => seals_stream(before, written, after, key),
        StepView::Compact { level, order } => written matches Some(unit) && merges_stream(
            before,
            ordered(order),
            unit,
            after,
            key,
        ),
        _ => true,
    }
}

/// A round of maintenance: the databases that it goes through, where the round stands at each, what
/// was written and what became of each step.
pub struct Round<S: UnitSource> {
    pub dbs: Seq<Db<S>>,
    pub runs: Seq<MaintenanceRun>,
    pub durables: Seq<DurablePosition>,
    pub written: Seq<Option<UnitMeta>>,
    pub events: Seq<MaintenanceEvent>,
}

impl<S: UnitSource> Round<S> {
    /// Whether the step at a place was decided, done and recorded.
    pub open spec fn took(self, i: int) -> bool {
        &&& scheduler::maintain_step(&self.dbs[i], self.runs[i]) matches Ok((run, step))
        &&& scheduler::answers(self.events[i], step)
        &&& step_done(
            &self.dbs[i],
            step,
            self.durables[i],
            self.written[i],
            self.events[i],
            &self.dbs[i + 1],
        )
        &&& self.runs[i + 1] == run.spec_record(self.events[i])
    }

    /// Whether this is a whole round, from its beginning to its report.
    pub open spec fn whole(self, sync_due: bool, seal_due: bool, report: MaintenanceReport) -> bool {
        let count = self.events.len() as int;
        &&& self.dbs.len() == count + 1
        &&& self.runs.len() == count + 1
        &&& self.runs[0] == (MaintenanceRun {
            sync_due,
            seal_due,
            stage: MaintenanceStage::Sync,
            report: MaintenanceReport {
                synced: None,
                sealed: None,
                compacted_l1: None,
                compacted_l2: None,
                more_due: false,
            },
        })
        &&& forall|i: int| 0 <= i < count ==> #[trigger] self.took(i)
        &&& scheduler::maintain_step(&self.dbs[count], self.runs[count]) matches Ok(
            (run, StepView::Finished { report: found }),
        ) && found == report
    }
}

/// What a round has reported at a stage.
spec fn so_far(run: MaintenanceRun, sync_due: bool, seal_due: bool) -> bool {
    let stage = scheduler::progress(run.stage);
    &&& run.sync_due == sync_due
    &&& run.seal_due == seal_due
    &&& run.report.synced is Some <==> stage > 0 && sync_due
    &&& run.report.sealed is Some <==> stage > 1 && seal_due
    &&& run.report.compacted_l1 is Some ==> stage > 2
    &&& run.report.compacted_l2 is Some ==> stage > 3
}

proof fn round_reports<S: UnitSource>(
    round: Round<S>,
    sync_due: bool,
    seal_due: bool,
    report: MaintenanceReport,
    at: int,
)
    requires
        round.whole(sync_due, seal_due, report),
        0 <= at <= round.events.len(),
    ensures
        so_far(round.runs[at], sync_due, seal_due),
        at <= scheduler::progress(round.runs[at].stage),
    decreases at,
{
    if at > 0 {
        round_reports(round, sync_due, seal_due, report, at - 1);
        assert(round.took(at - 1));
        scheduler::maintenance_is_bounded(
            &round.dbs[at - 1],
            round.runs[at - 1],
            round.events[at - 1],
        );
    }
}

/// A round of maintenance syncs exactly if a sync was due and seals exactly if a seal was due. It
/// takes at most four steps, so it merges at most one closed window of each level. It reports that
/// more is due exactly if a window of the first or the second level is still closed.
pub proof fn maintenance_does_what_is_due<S: UnitSource>(
    round: Round<S>,
    sync_due: bool,
    seal_due: bool,
    report: MaintenanceReport,
)
    requires
        round.whole(sync_due, seal_due, report),
    ensures
        report.synced is Some <==> sync_due,
        report.sealed is Some <==> seal_due,
        round.events.len() <= 4,
        forall|i: int, j: int|
            0 <= i < j < round.events.len() ==> scheduler::progress(
                (#[trigger] round.runs[i]).stage,
            ) < scheduler::progress((#[trigger] round.runs[j]).stage),
        forall|i: int, j: int|
            0 <= i < j < round.events.len() ==> {
                let first = scheduler::maintain_step(
                    &round.dbs[i],
                    #[trigger] round.runs[i],
                )->Ok_0.1;
                let second = scheduler::maintain_step(
                    &round.dbs[j],
                    #[trigger] round.runs[j],
                )->Ok_0.1;
                !(first matches StepView::Compact { level, order } && second matches
                    StepView::Compact { level: other, order: next } && level == other)
            },
        ({
            let last = round.dbs[round.events.len() as int];
            let units = last.manifest@.units;
            let reached = scheduler::high_water(units, last.tail@);
            let compaction = last.options.compaction;
            report.more_due <==> (scheduler::closed_window(
                units,
                0,
                compaction.l1_window,
                reached,
            ) matches Ok(Some(_)) || scheduler::closed_window(
                units,
                1,
                compaction.l2_window,
                reached,
            ) matches Ok(Some(_)))
        }),
{
    let count = round.events.len() as int;
    round_reports(round, sync_due, seal_due, report, count);
    assert forall|i: int, j: int| 0 <= i < j < round.events.len() implies scheduler::progress(
        (#[trigger] round.runs[i]).stage,
    ) < scheduler::progress((#[trigger] round.runs[j]).stage) by {
        round_advances(round, sync_due, seal_due, report, i, j);
    }
    assert forall|i: int, j: int| 0 <= i < j < round.events.len() implies {
        let first = scheduler::maintain_step(&round.dbs[i], #[trigger] round.runs[i])->Ok_0.1;
        let second = scheduler::maintain_step(&round.dbs[j], #[trigger] round.runs[j])->Ok_0.1;
        !(first matches StepView::Compact { level, order } && second matches StepView::Compact {
            level: other,
            order: next,
        } && level == other)
    } by {
        round_advances(round, sync_due, seal_due, report, i, j);
        assert(round.took(i));
        assert(round.took(j));
    }
    assert(so_far(round.runs[count], sync_due, seal_due));
}

proof fn round_advances<S: UnitSource>(
    round: Round<S>,
    sync_due: bool,
    seal_due: bool,
    report: MaintenanceReport,
    i: int,
    j: int,
)
    requires
        round.whole(sync_due, seal_due, report),
        0 <= i < j <= round.events.len(),
    ensures
        scheduler::progress(round.runs[i].stage) < scheduler::progress(round.runs[j].stage),
        scheduler::progress(
            scheduler::maintain_step(&round.dbs[i], round.runs[i])->Ok_0.0.stage,
        ) < scheduler::progress(round.runs[j].stage),
    decreases j - i,
{
    assert(round.took(j - 1));
    scheduler::maintenance_is_bounded(
        &round.dbs[j - 1],
        round.runs[j - 1],
        round.events[j - 1],
    );
    if i < j - 1 {
        round_advances(round, sync_due, seal_due, report, i, j - 1);
    }
}

/// A round of maintenance changes no stream.
pub proof fn maintenance_keeps_every_stream<S: UnitSource>(
    round: Round<S>,
    sync_due: bool,
    seal_due: bool,
    report: MaintenanceReport,
    key: StreamKey,
    start: i64,
    end: i64,
)
    requires
        round.whole(sync_due, seal_due, report),
        forall|i: int| 0 <= i < round.dbs.len() ==> (#[trigger] round.dbs[i]).wf(),
        forall|i: int|
            0 <= i < round.events.len() ==> step_keeps_stream(
                &round.dbs[i],
                scheduler::maintain_step(&round.dbs[i], #[trigger] round.runs[i])->Ok_0.1,
                round.written[i],
                &round.dbs[i + 1],
                key,
            ),
        facts::key_refusal(round.dbs[0].tail@, key) is None,
        start <= end,
    ensures
        ({
            let first = &round.dbs[0];
            let last = &round.dbs[round.events.len() as int];
            &&& held(last, key) == held(first, key)
            &&& in_order(first, key.table) && in_order(last, key.table) ==> scanned(
                last,
                key,
                start,
                end,
            ) == scanned(first, key, start, end)
        }),
{
    let count = round.events.len() as int;
    steps_keep_stream(round, sync_due, seal_due, report, key, count);
    let first = &round.dbs[0];
    let last = &round.dbs[count];
    if in_order(first, key.table) && in_order(last, key.table) {
        equal_streams_are_walked_alike(last, first, key, start, end);
    }
}

/// Whether one database comes of another by a call to seal it or to compact one of its levels, and
/// the unit that was written holds what it replaces of a stream.
pub open spec fn called<S: UnitSource>(before: &Db<S>, after: &Db<S>, key: StreamKey) -> bool {
    ||| exists|durable: DurablePosition, written: Option<UnitMeta>, report: SealReport| #[trigger]
        seal_done(before, durable, written, after, report) && seals_stream(
            before,
            written,
            after,
            key,
        )
    ||| exists|
        level: CompactLevel,
        order: Option<CompactOrder>,
        written: UnitMeta,
        report: CompactReport,
    | #[trigger]
        compact_done(before, level, order, written, after, report) && (order matches Some(found)
            ==> merges_stream(before, found, written, after, key))
}

proof fn calls_keep_stream<S: UnitSource>(calls: Seq<Db<S>>, key: StreamKey, at: int)
    requires
        0 <= at < calls.len(),
        forall|i: int| 0 <= i < calls.len() ==> (#[trigger] calls[i]).wf(),
        forall|i: int|
            #![trigger calls[i]]
            0 < i < calls.len() ==> called(&calls[i - 1], &calls[i], key),
        facts::key_refusal(calls[0].tail@, key) is None,
    ensures
        held(&calls[at], key) == held(&calls[0], key),
        facts::key_refusal(calls[at].tail@, key) is None,
    decreases at,
{
    if at > 0 {
        calls_keep_stream(calls, key, at - 1);
        let before = &calls[at - 1];
        let after = &calls[at];
        assert(calls[at - 1].wf());
        assert(called(before, after, key));
        if exists|durable: DurablePosition, written: Option<UnitMeta>, report: SealReport|
            #[trigger]
            seal_done(before, durable, written, after, report) && seals_stream(
                before,
                written,
                after,
                key,
            ) {
            let (durable, written, report) = choose|
                durable: DurablePosition,
                written: Option<UnitMeta>,
                report: SealReport,
            | #[trigger]
                seal_done(before, durable, written, after, report) && seals_stream(
                    before,
                    written,
                    after,
                    key,
                );
            sealing_keeps_every_stream(before, durable, written, after, report, key, 0, 0);
        } else {
            let (level, order, written, report) = choose|
                level: CompactLevel,
                order: Option<CompactOrder>,
                written: UnitMeta,
                report: CompactReport,
            | #[trigger]
                compact_done(before, level, order, written, after, report) && (
                order matches Some(found) ==> merges_stream(before, found, written, after, key));
            if let Some(found) = order {
                merging_keeps_every_stream(before, found, written, after, report, key, 0, 0);
            }
        }
    }
}

/// A round of maintenance comes to the same streams as any calls to seal and to compact the database
/// that it began with.
pub proof fn maintenance_agrees_with_explicit_calls<S: UnitSource>(
    round: Round<S>,
    sync_due: bool,
    seal_due: bool,
    report: MaintenanceReport,
    calls: Seq<Db<S>>,
    key: StreamKey,
    start: i64,
    end: i64,
)
    requires
        round.whole(sync_due, seal_due, report),
        forall|i: int| 0 <= i < round.dbs.len() ==> (#[trigger] round.dbs[i]).wf(),
        forall|i: int|
            0 <= i < round.events.len() ==> step_keeps_stream(
                &round.dbs[i],
                scheduler::maintain_step(&round.dbs[i], #[trigger] round.runs[i])->Ok_0.1,
                round.written[i],
                &round.dbs[i + 1],
                key,
            ),
        calls.len() > 0,
        calls[0] == round.dbs[0],
        forall|i: int| 0 <= i < calls.len() ==> (#[trigger] calls[i]).wf(),
        forall|i: int|
            #![trigger calls[i]]
            0 < i < calls.len() ==> called(&calls[i - 1], &calls[i], key),
        facts::key_refusal(round.dbs[0].tail@, key) is None,
        start <= end,
    ensures
        ({
            let maintained = &round.dbs[round.events.len() as int];
            let explicit = &calls[calls.len() - 1];
            &&& held(maintained, key) == held(explicit, key)
            &&& in_order(maintained, key.table) && in_order(explicit, key.table) ==> scanned(
                maintained,
                key,
                start,
                end,
            ) == scanned(explicit, key, start, end)
        }),
{
    let count = round.events.len() as int;
    steps_keep_stream(round, sync_due, seal_due, report, key, count);
    calls_keep_stream(calls, key, calls.len() - 1);
    let maintained = &round.dbs[count];
    let explicit = &calls[calls.len() - 1];
    if in_order(maintained, key.table) && in_order(explicit, key.table) {
        equal_streams_are_walked_alike(maintained, explicit, key, start, end);
    }
}

proof fn steps_keep_stream<S: UnitSource>(
    round: Round<S>,
    sync_due: bool,
    seal_due: bool,
    report: MaintenanceReport,
    key: StreamKey,
    at: int,
)
    requires
        round.whole(sync_due, seal_due, report),
        forall|i: int| 0 <= i < round.dbs.len() ==> (#[trigger] round.dbs[i]).wf(),
        forall|i: int|
            0 <= i < round.events.len() ==> step_keeps_stream(
                &round.dbs[i],
                scheduler::maintain_step(&round.dbs[i], #[trigger] round.runs[i])->Ok_0.1,
                round.written[i],
                &round.dbs[i + 1],
                key,
            ),
        facts::key_refusal(round.dbs[0].tail@, key) is None,
        0 <= at <= round.events.len(),
    ensures
        held(&round.dbs[at], key) == held(&round.dbs[0], key),
        facts::key_refusal(round.dbs[at].tail@, key) is None,
    decreases at,
{
    if at > 0 {
        steps_keep_stream(round, sync_due, seal_due, report, key, at - 1);
        let before = &round.dbs[at - 1];
        let after = &round.dbs[at];
        let run = round.runs[at - 1];
        assert(round.took(at - 1));
        assert(round.dbs[at - 1].wf());
        let step = scheduler::maintain_step(before, run)->Ok_0.1;
        match step {
            StepView::Seal => {
                let sealed = round.events[at - 1]->Sealed_report;
                sealing_keeps_every_stream(
                    before,
                    round.durables[at - 1],
                    round.written[at - 1],
                    after,
                    sealed,
                    key,
                    0,
                    0,
                );
            },
            StepView::Compact { level, order } => {
                let merged = round.events[at - 1]->Compacted_report;
                assert(0 <= order.0 < order.1 <= before.manifest@.units.len()) by {
                    window_is_inside(before, run);
                }
                assert(before.manifest@.units.len() <= limits::MAX_LIVE_UNITS);
                merging_keeps_every_stream(
                    before,
                    ordered(order),
                    round.written[at - 1]->Some_0,
                    after,
                    merged,
                    key,
                    0,
                    0,
                );
            },
            _ => {},
        }
    }
}

/// A merge that is due is one of units that there are.
proof fn window_is_inside<S: UnitSource>(db: &Db<S>, run: MaintenanceRun)
    requires
        scheduler::maintain_step(db, run) matches Ok((_, StepView::Compact { .. })),
    ensures
        scheduler::maintain_step(db, run)->Ok_0.1 matches StepView::Compact { level, order } && 0
            <= order.0 < order.1 <= db.manifest@.units.len(),
{
    let units = db.manifest@.units;
    let reached = scheduler::high_water(units, db.tail@);
    let first = scheduler::closed_window(units, 0, db.options.compaction.l1_window, reached);
    let second = scheduler::closed_window(units, 1, db.options.compaction.l2_window, reached);
    if first matches Ok(Some(_)) {
        scheduler::selected_windows_are_closed(
            units,
            0,
            db.options.compaction.l1_window,
            reached->Some_0,
        );
    }
    if second matches Ok(Some(_)) {
        scheduler::selected_windows_are_closed(
            units,
            1,
            db.options.compaction.l2_window,
            reached->Some_0,
        );
    }
}

} // verus!
