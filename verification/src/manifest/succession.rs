//! Which catalogs there are, and which one follows another.
use vstd::prelude::*;

use super::catalog::{Manifest, ManifestIdentity, ManifestView, RetentionState, TableCatalog, TableView, UnitMeta};
use super::replay;
use super::transition;
use super::validate;
use crate::error::{Error, Result};
use crate::types::{self, FieldId, FieldSchema, TableId};
use crate::wal::Checkpoint;

verus! {

/// A checkpoint can be anywhere; only its next sequence is never zero.
pub proof fn checkpoints_start_at_one(
    segment_first_seq: u64,
    offset: u64,
    next_seq: u64,
    r: Result<Checkpoint>,
)
    requires
        r == Checkpoint::restored(segment_first_seq, offset, next_seq),
    ensures
        r is Ok <==> next_seq >= 1,
        r matches Ok(checkpoint) ==> checkpoint.segment_first_seq == segment_first_seq
            && checkpoint.offset == offset && checkpoint.next_seq == next_seq,
{
}

/// A unit is of one of three levels, ends no earlier than it starts, has between one and 65536
/// sections, at least one row and at most eight gibibytes; every such unit can be listed, with
/// exactly the parts that were given.
pub proof fn units_can_be_listed(unit: UnitMeta, r: Result<UnitMeta>)
    requires
        r == (match unit.refusal() {
            Some(e) => Err::<UnitMeta, Error>(e),
            None => Ok(unit),
        }),
    ensures
        r is Ok <==> unit.level <= 2 && unit.min_ts <= unit.max_ts && 1 <= unit.section_count
            <= 65_536 && unit.total_rows >= 1 && unit.file_len <= 8_589_934_592,
        r is Ok ==> r->Ok_0 == unit,
{
}

/// Whether the parts of a catalog agree: not too many tables and units, tables in the order of
/// their identifiers, units in the order of their start and then of their identifiers, no
/// identifier of a unit twice, and no identifier above the high waters.
pub open spec fn agrees(parts: ManifestView) -> bool {
    &&& parts.tables.len() <= 65_536
    &&& parts.units.len() <= 8_192
    &&& forall|i: int, j: int|
        0 <= i < j < parts.tables.len() ==> (#[trigger] parts.tables[i]).table.value < (
        #[trigger] parts.tables[j]).table.value
    &&& forall|i: int, j: int|
        0 <= i < j < parts.units.len() ==> ((#[trigger] parts.units[i]).min_ts < (
        #[trigger] parts.units[j]).min_ts || (parts.units[i].min_ts == parts.units[j].min_ts
            && parts.units[i].unit_id < parts.units[j].unit_id))
    &&& forall|i: int, j: int|
        0 <= i < j < parts.units.len() ==> (#[trigger] parts.units[i]).unit_id != (
        #[trigger] parts.units[j]).unit_id
    &&& forall|i: int|
        0 <= i < parts.tables.len() ==> (#[trigger] parts.tables[i]).table.value
            <= parts.identity.table_high_water
    &&& forall|i: int|
        0 <= i < parts.units.len() ==> (#[trigger] parts.units[i]).unit_id
            <= parts.identity.unit_high_water
}

pub(crate) proof fn agreement(parts: ManifestView)
    ensures
        parts.refusal() is None <==> agrees(parts),
{
    let tables = parts.tables;
    let units = parts.units;
    if parts.refusal() is None {
        assert forall|i: int| 0 <= i < tables.len() implies (#[trigger] tables[i]).table.value
            <= parts.identity.table_high_water by {
            if i < tables.len() - 1 {
                assert(tables[i].table.value < tables[tables.len() - 1].table.value);
            }
        }
        assert forall|i: int, j: int| 0 <= i < j < units.len() implies ((
        #[trigger] units[i]).min_ts < (#[trigger] units[j]).min_ts || (units[i].min_ts
            == units[j].min_ts && units[i].unit_id < units[j].unit_id)) by {
            assert(units[i].spec_before(units[j]));
        }
    }
    if agrees(parts) {
        assert forall|i: int, j: int| 0 <= i < j < units.len() implies (
        #[trigger] units[i]).spec_before(#[trigger] units[j]) by {}
        if tables.len() > 0 {
            assert(tables[tables.len() - 1].table.value <= parts.identity.table_high_water);
        }
    }
}

/// A catalog is made exactly of parts that agree, and has just these parts.
pub proof fn agreeing_parts_make_a_catalog(parts: ManifestView, r: Result<Manifest>)
    requires
        match r {
            Ok(manifest) => parts.refusal() is None && manifest@ == parts,
            Err(e) => parts.refusal() == Some(e),
        },
    ensures
        r is Ok <==> agrees(parts),
        r matches Ok(manifest) ==> manifest@.identity == parts.identity && manifest@.checkpoint
            == parts.checkpoint && manifest@.retention == parts.retention && manifest@.tables
            == parts.tables && manifest@.units == parts.units,
{
    agreement(parts);
}

/// Whether the schema has the field.
pub open spec fn known(fields: Seq<FieldSchema>, field: FieldId) -> bool {
    exists|k: int| 0 <= k < fields.len() && (#[trigger] fields[k]).field == field
}

/// A table is made exactly of a history that a table may have and of two lists of retirements that
/// strictly increase, the retired fields among those of the newest version.
pub proof fn histories_make_a_table(parts: TableView, r: Result<TableCatalog>)
    requires
        match r {
            Ok(catalog) => parts.refusal() is None && catalog@ == parts,
            Err(e) => parts.refusal() == Some(e),
        },
    ensures
        r is Ok <==> {
            &&& validate::history_valid(parts.last_ts, parts.versions)
            &&& forall|i: int, j: int|
                0 <= i < j < parts.retired_series.len() ==> (
                #[trigger] parts.retired_series[i]).series.value < (
                #[trigger] parts.retired_series[j]).series.value
            &&& forall|i: int, j: int|
                0 <= i < j < parts.retired_fields.len() ==> (
                #[trigger] parts.retired_fields[i]).field.value < (
                #[trigger] parts.retired_fields[j]).field.value
            &&& forall|i: int|
                0 <= i < parts.retired_fields.len() ==> known(
                    parts.versions.last().fields,
                    (#[trigger] parts.retired_fields[i]).field,
                )
        },
        r matches Ok(catalog) ==> catalog@ == parts,
{
    validate::validation_is_exact(parts.last_ts, parts.versions);
    assert forall|fields: Seq<FieldSchema>, field: FieldId| #[trigger]
        known(fields, field) == types::has_field(fields, field) by {}
}

/// The next catalog exists exactly if generations are not used up, no unit identifier is forgotten,
/// and the parts agree. It is one generation on, has the given units and retention, and keeps
/// tables, checkpoint, shard and writer.
pub proof fn catalogs_are_succeeded(
    current: ManifestView,
    retention: RetentionState,
    units: Seq<UnitMeta>,
    unit_high_water: u64,
    r: Result<Manifest>,
)
    requires
        transition::yields(
            r,
            transition::catalog_after(current, retention, units, unit_high_water),
        ),
    ensures
        ({
            let parts = ManifestView {
                identity: ManifestIdentity {
                    generation: (current.identity.generation + 1) as u64,
                    unit_high_water,
                    ..current.identity
                },
                retention,
                units,
                ..current
            };
            &&& r is Ok <==> current.identity.generation < u64::MAX
                && current.identity.unit_high_water <= unit_high_water && agrees(parts)
            &&& r matches Ok(next) ==> {
                &&& next@.identity.generation == current.identity.generation + 1
                &&& next@.identity.unit_high_water == unit_high_water
                &&& next@.identity.table_high_water == current.identity.table_high_water
                &&& next@.identity.shard_id == current.identity.shard_id
                &&& next@.identity.writer_epoch == current.identity.writer_epoch
                &&& next@.checkpoint == current.checkpoint
                &&& next@.tables == current.tables
                &&& next@.units == units
                &&& next@.retention == retention
            }
        }),
{
    let parts = ManifestView {
        identity: ManifestIdentity {
            generation: (current.identity.generation + 1) as u64,
            unit_high_water,
            ..current.identity
        },
        retention,
        units,
        ..current
    };
    agreement(parts);
}

/// The identity of the next catalog exists exactly if generations are not used up and no
/// allocation is forgotten.
pub proof fn identities_move_on(
    current: ManifestIdentity,
    unit_high_water: u64,
    table_high_water: u32,
    r: Result<ManifestIdentity>,
)
    requires
        r == transition::identity_after(current, unit_high_water, table_high_water),
    ensures
        r is Ok <==> current.generation < u64::MAX && current.unit_high_water <= unit_high_water
            && current.table_high_water <= table_high_water,
        r matches Ok(next) ==> next.generation == current.generation + 1 && next.unit_high_water
            == unit_high_water && next.table_high_water == table_high_water && next.shard_id
            == current.shard_id && next.writer_epoch == current.writer_epoch,
{
}

/// Another writer takes a catalog over exactly if neither generations nor epochs are used up; it
/// moves both on by one and changes nothing else.
pub proof fn takeovers_go_ahead(current: ManifestView, r: Result<Manifest>)
    requires
        current.refusal() is None,
        transition::yields(r, transition::takeover_after(current)),
    ensures
        r is Ok <==> current.identity.generation < u64::MAX && current.identity.writer_epoch
            < u64::MAX,
        r matches Ok(next) ==> {
            &&& next@.identity.generation == current.identity.generation + 1
            &&& next@.identity.writer_epoch == current.identity.writer_epoch + 1
            &&& next@.identity.unit_high_water == current.identity.unit_high_water
            &&& next@.identity.table_high_water == current.identity.table_high_water
            &&& next@.identity.shard_id == current.identity.shard_id
            &&& next@.checkpoint == current.checkpoint
            &&& next@.retention == current.retention
            &&& next@.tables == current.tables
            &&& next@.units == current.units
        },
{
    if current.identity.generation < u64::MAX && current.identity.writer_epoch < u64::MAX {
        agreement(current);
        let parts = ManifestView {
            identity: ManifestIdentity {
                generation: (current.identity.generation + 1) as u64,
                writer_epoch: (current.identity.writer_epoch + 1) as u64,
                ..current.identity
            },
            ..current
        };
        assert(agrees(parts));
        agreement(parts);
    }
}

/// Nothing but generation zero is published first, and nothing but the next generation is
/// published behind a generation.
pub proof fn publication_is_gapless(previous: Option<u64>, generation: u64)
    ensures
        transition::publish_refusal(previous, generation) is None <==> match previous {
            None => generation == 0,
            Some(published) => generation == published + 1,
        },
{
}

proof fn started_tables(tables: Seq<TableView>, count: int, id: TableId)
    requires
        0 <= count <= tables.len(),
        forall|i: int, j: int|
            0 <= i < j < tables.len() ==> (#[trigger] tables[i]).table.value < (
            #[trigger] tables[j]).table.value,
    ensures
        replay::unreplayed_tables(tables, count).contains_key(id) <==> exists|i: int|
            0 <= i < count && (#[trigger] tables[i]).table == id,
        forall|i: int|
            0 <= i < count && (#[trigger] tables[i]).table == id ==> {
                let state = replay::unreplayed_tables(tables, count)[id];
                &&& state.last_ts == tables[i].last_ts
                &&& state.versions == tables[i].versions
                &&& state.retired_series == tables[i].retired_series
                &&& state.retired_fields == tables[i].retired_fields
                &&& state.rows.len() == 0
            },
    decreases count,
{
    if count > 0 {
        started_tables(tables, count - 1, id);
        if tables[count - 1].table == id {
            assert forall|i: int| 0 <= i < count - 1 implies (#[trigger] tables[i]).table != id by {
                assert(tables[i].table.value < tables[count - 1].table.value);
            }
        } else if exists|i: int| 0 <= i < count && (#[trigger] tables[i]).table == id {
            let i = choose|i: int| 0 <= i < count && (#[trigger] tables[i]).table == id;
            assert(0 <= i < count - 1 && tables[i].table == id);
        }
    }
}

/// A log is replayed from its catalog: behind the checkpoint, with every table of the catalog as it
/// stands there, without rows, and with no other table.
pub proof fn replay_starts_at_the_catalog(catalog: ManifestView, id: TableId, at: int)
    requires
        agrees(catalog),
    ensures
        ({
            let tail = replay::unreplayed_tail(catalog);
            &&& tail.next_seq == catalog.checkpoint.next_seq
            &&& tail.table_high_water == catalog.identity.table_high_water
            &&& 0 <= at < catalog.tables.len() && catalog.tables[at].table == id ==> {
                let state = tail.tables[id];
                &&& tail.tables.contains_key(id)
                &&& state.last_ts == catalog.tables[at].last_ts
                &&& state.versions == catalog.tables[at].versions
                &&& state.retired_series == catalog.tables[at].retired_series
                &&& state.retired_fields == catalog.tables[at].retired_fields
                &&& state.rows.len() == 0
            }
            &&& (forall|i: int|
                0 <= i < catalog.tables.len() ==> (#[trigger] catalog.tables[i]).table != id)
                ==> !tail.tables.contains_key(id)
        }),
{
    started_tables(catalog.tables, catalog.tables.len() as int, id);
    if 0 <= at < catalog.tables.len() && catalog.tables[at].table == id {
        assert(catalog.tables[at].table == id);
    }
}

} // verus!
