//! Sealing, compaction and retention go ahead wherever nothing stands against them.
//!
//! What is decided is told here from the units, the records and the positions that were given, and
//! every refusal has its one reason.
use vstd::prelude::*;

use crate::db::Db;
use crate::error::{Error, Result};
use crate::maintenance::{
    self, CompactLevel, CompactOrder, RetentionOrder, RetentionReport, RetentionStep,
    RetentionView, SealOrder, SealRange,
};
use crate::manifest::catalog::{self, Manifest, ManifestIdentity, RetentionState, UnitMeta};
use crate::manifest::replay;
use crate::manifest::transition;
use crate::ordmap::{self, OrderedKey};
use crate::retention::fold;
use crate::types::TableId;
use crate::unit::UnitSource;
use crate::upkeep;
use crate::wal::{Checkpoint, DurablePosition};

verus! {

/// A seal covers exactly the records behind the checkpoint. There is nothing to seal only where there
/// are none, and a sync comes first exactly if the writer has bytes that are not synced.
pub proof fn seals_cover_what_is_pending<S: UnitSource>(db: &Db<S>, r: Option<SealRange>)
    requires
        r == maintenance::seal_range(db.manifest@, db.tail@, db.writer.unsynced_bytes),
    ensures
        r is None <==> db.manifest.checkpoint.next_seq == db.tail.next_seq,
        r matches Some(range) ==> {
            &&& range.start_seq == db.manifest.checkpoint.next_seq
            &&& range.end_seq == db.tail.next_seq
            &&& range.sync_first <==> db.writer.unsynced_bytes > 0
        },
{
}

/// The position that becomes the checkpoint of a seal covers every record that the checkpoint leaves
/// behind. The position is the one that a sync gave, if a sync was asked for, and else the writer's
/// own. A writer without unsynced bytes has every record behind its position, and so has a sync.
pub proof fn sealed_records_are_durable<S: UnitSource>(
    db: &Db<S>,
    range: SealRange,
    synced: DurablePosition,
    r: Result<SealOrder>,
)
    requires
        Some(range) == maintenance::seal_range(db.manifest@, db.tail@, db.writer.unsynced_bytes),
        db.writer.unsynced_bytes == 0 ==> db.tail.next_seq <= db.writer.durable.seq + 1,
        db.tail.next_seq <= synced.seq + 1,
        r == maintenance::seal_order(
            db.manifest@,
            db.tail@,
            range,
            if range.sync_first {
                synced
            } else {
                db.writer.durable
            },
        ),
    ensures
        r matches Ok(order) ==> {
            let taken = if db.writer.unsynced_bytes > 0 {
                synced
            } else {
                db.writer.durable
            };
            &&& order.checkpoint.next_seq == db.tail.next_seq
            &&& order.checkpoint.segment_first_seq == taken.segment
            &&& order.checkpoint.offset == taken.offset
            &&& order.checkpoint.next_seq <= taken.seq + 1
        },
{
}

/// What is ordered for a seal: a unit under the next identifier exactly if some table has rows. It is
/// refused only without a next sequence, or without an identifier where one is needed.
pub proof fn seals_order_a_unit_for_rows<S: UnitSource>(
    db: &Db<S>,
    range: SealRange,
    durable: DurablePosition,
    r: Result<SealOrder>,
)
    requires
        r == maintenance::seal_order(db.manifest@, db.tail@, range, durable),
    ensures
        ({
            let rows = exists|id: TableId| #[trigger]
                db.tail@.tables.contains_key(id) && db.tail@.tables[id].rows.len() > 0;
            let last = db.manifest.identity.unit_high_water;
            &&& range.end_seq == 0 ==> r is Err
            &&& range.end_seq > 0 && rows && last == u64::MAX ==> (r matches Err(
                Error::ResourceExhausted(detail),
            ) && detail.name == "unit_id")
            &&& range.end_seq > 0 && rows && last < u64::MAX ==> (r matches Ok(order)
                && order.unit == Some((last + 1) as u64) && order.unit_high_water == last + 1)
            &&& range.end_seq > 0 && !rows ==> (r matches Ok(order) && order.unit is None
                && order.unit_high_water == last)
            &&& r matches Ok(order) ==> order.range == range && order.checkpoint == (Checkpoint {
                segment_first_seq: durable.segment,
                offset: durable.offset,
                next_seq: range.end_seq,
            })
        }),
{
    if exists|id: TableId| #[trigger]
        db.tail@.tables.contains_key(id) && db.tail@.tables[id].rows.len() > 0 {
        let id = choose|id: TableId| #[trigger]
            db.tail@.tables.contains_key(id) && db.tail@.tables[id].rows.len() > 0;
        assert(db.tail@.tables[id].rows.len() > 0);
    }
    if maintenance::has_rows(db.tail@) {
        let id = choose|id: TableId|
            db.tail@.tables.contains_key(id) && (#[trigger] db.tail@.tables[id]).rows.len() > 0;
        assert(db.tail@.tables.contains_key(id));
    }
}

/// The catalog after a seal. It comes about wherever generations, units and tables are left, and it
/// has the tables of the tail as they stand, the checkpoint that was ordered and the new unit among
/// the old ones.
pub proof fn seals_go_ahead<S: UnitSource>(
    db: &Db<S>,
    order: SealOrder,
    meta: Option<UnitMeta>,
    r: Result<Manifest>,
)
    requires
        db.wf(),
        transition::yields(
            r,
            maintenance::sealed_catalog(
                db.manifest@,
                replay::cataloged_tables(&db.tail),
                db.tail@.table_high_water,
                order,
                meta,
            ),
        ),
        meta matches Some(unit) ==> unit.unit_id == db.manifest.identity.unit_high_water + 1
            && order.unit_high_water == unit.unit_id,
        meta is None ==> order.unit_high_water == db.manifest.identity.unit_high_water,
        db.manifest.identity.generation < u64::MAX,
        db.manifest.identity.table_high_water <= db.tail.table_high_water,
        db.manifest.units@.len() < 8_192,
        db.tail.tables.entries@.len() <= 65_536,
        replay::catalogable(db.tail@),
        forall|i: int|
            0 <= i < db.tail.tables.entries@.len() ==> (
            #[trigger] db.tail.tables.entries@[i]).0.value <= db.tail.table_high_water,
    ensures
        r matches Ok(next) && {
            let tables = db.tail.tables.entries@;
            &&& next@.identity == (ManifestIdentity {
                generation: (db.manifest.identity.generation + 1) as u64,
                unit_high_water: order.unit_high_water,
                table_high_water: db.tail.table_high_water,
                ..db.manifest.identity
            })
            &&& next@.checkpoint == order.checkpoint
            &&& next@.retention == db.manifest.retention
            &&& next@.units.to_multiset() == (match meta {
                Some(unit) => db.manifest@.units.to_multiset().insert(unit),
                None => db.manifest@.units.to_multiset(),
            })
            &&& catalog::units_ordered(next@.units)
            &&& next@.tables.len() == tables.len()
            &&& forall|i: int|
                0 <= i < tables.len() ==> {
                    let table = #[trigger] next@.tables[i];
                    &&& table.table == tables[i].0
                    &&& table.last_ts == tables[i].1@.last_ts
                    &&& table.versions == tables[i].1@.versions
                    &&& table.retired_series == tables[i].1@.retired_series
                    &&& table.retired_fields == tables[i].1@.retired_fields
                }
        },
{
    let entries = db.tail.tables.entries@;
    let tables = replay::cataloged_tables(&db.tail);
    let units = db.manifest@.units;
    assert forall|i: int| 0 <= i < tables.len() implies (#[trigger] tables[i]).refusal() is None
        && tables[i].table.value <= db.tail.table_high_water by {
        ordmap::lookup_at(entries, i);
        assert(db.tail.tables@.contains_key(entries[i].0));
        assert(db.tail@.tables.contains_key(entries[i].0));
        assert(tables[i] == replay::cataloged(entries[i].0, entries[i].1@));
        assert(replay::cataloged(entries[i].0, db.tail@.tables[entries[i].0]).valid());
        assert(entries[i].0.value <= db.tail.table_high_water);
    }
    nothing_refused(tables, tables.len() as int);
    assert forall|i: int, j: int| 0 <= i < j < tables.len() implies (
    #[trigger] tables[i]).table.value < (#[trigger] tables[j]).table.value by {
        assert(entries[i].0.rank() < entries[j].0.rank());
        assert(tables[i] == replay::cataloged(entries[i].0, entries[i].1@));
        assert(tables[j] == replay::cataloged(entries[j].0, entries[j].1@));
    }
    if tables.len() > 0 {
        assert(tables[tables.len() - 1] == tables.last());
    }
    match meta {
        Some(unit) => {
            assert forall|i: int| 0 <= i < units.len() implies (#[trigger] units[i]).unit_id
                != unit.unit_id by {}
            maintenance::placing_keeps_order(units, unit);
            placed_ids(units, unit);
        },
        None => {},
    }
    assert forall|i: int| 0 <= i < entries.len() implies {
        let table = #[trigger] tables[i];
        &&& table.table == entries[i].0
        &&& table.last_ts == entries[i].1@.last_ts
        &&& table.versions == entries[i].1@.versions
        &&& table.retired_series == entries[i].1@.retired_series
        &&& table.retired_fields == entries[i].1@.retired_fields
    } by {}
}

proof fn nothing_refused(tables: Seq<catalog::TableView>, count: int)
    requires
        0 <= count <= tables.len(),
        forall|i: int| 0 <= i < tables.len() ==> (#[trigger] tables[i]).refusal() is None,
    ensures
        replay::catalog_refusal(tables, count) is None,
    decreases count,
{
    if count > 0 {
        nothing_refused(tables, count - 1);
        assert(tables[count - 1].refusal() is None);
    }
}

/// A new identifier keeps identifiers apart.
proof fn placed_ids(units: Seq<UnitMeta>, unit: UnitMeta)
    requires
        catalog::ids_distinct(units),
        forall|i: int| 0 <= i < units.len() ==> (#[trigger] units[i]).unit_id < unit.unit_id,
    ensures
        catalog::ids_distinct(maintenance::with_unit(units, unit)),
        forall|i: int|
            0 <= i < maintenance::with_unit(units, unit).len() ==> (
            #[trigger] maintenance::with_unit(units, unit)[i]).unit_id <= unit.unit_id,
        forall|i: int|
            0 <= i < maintenance::with_unit(units, unit).len() ==> (
            #[trigger] maintenance::with_unit(units, unit)[i]) == unit || units.contains(
                maintenance::with_unit(units, unit)[i],
            ),
    decreases units.len(),
{
    let after = maintenance::with_unit(units, unit);
    if units.len() > 0 && !units.last().spec_before(unit) {
        let front = units.drop_last();
        let last = units.last();
        assert(units[units.len() - 1] == last);
        assert forall|i: int, j: int| 0 <= i < j < front.len() implies (
        #[trigger] front[i]).unit_id != (#[trigger] front[j]).unit_id by {
            assert(units[i].unit_id != units[j].unit_id);
        }
        assert forall|i: int| 0 <= i < front.len() implies (#[trigger] front[i]).unit_id
            < unit.unit_id by {
            assert(units[i].unit_id < unit.unit_id);
        }
        placed_ids(front, unit);
        let earlier = maintenance::with_unit(front, unit);
        assert forall|i: int| 0 <= i < earlier.len() implies (#[trigger] earlier[i]).unit_id
            != last.unit_id && (earlier[i] == unit || units.contains(earlier[i])) by {
            if earlier[i] != unit {
                assert(front.contains(earlier[i]));
                let k = choose|k: int| 0 <= k < front.len() && front[k] == earlier[i];
                assert(units[k].unit_id != units[units.len() - 1].unit_id);
                assert(units[k] == earlier[i]);
            }
        }
        assert forall|i: int| 0 <= i < after.len() implies (#[trigger] after[i]).unit_id
            <= unit.unit_id && (after[i] == unit || units.contains(after[i])) by {
            if i < earlier.len() {
                assert(after[i] == earlier[i]);
            }
        }
        assert forall|i: int, j: int| 0 <= i < j < after.len() implies (
        #[trigger] after[i]).unit_id != (#[trigger] after[j]).unit_id by {
            assert(after[i] == earlier[i]);
            if j < earlier.len() {
                assert(after[j] == earlier[j]);
            }
        }
    } else {
        assert forall|i: int| 0 <= i < after.len() implies (#[trigger] after[i]).unit_id
            <= unit.unit_id && (after[i] == unit || units.contains(after[i])) by {
            if i < units.len() {
                assert(after[i] == units[i]);
            }
        }
    }
}

/// Compaction of a level merges the first two neighbours of the level and all that follow them in it.
/// It does nothing exactly if no two neighbours are of the level, and is refused only to a poisoned
/// writer or without an identifier. The first level merges units of level 0 and the second those of
/// level 1.
pub proof fn compaction_finds_the_first_neighbours<S: UnitSource>(
    db: &Db<S>,
    level: CompactLevel,
    r: Result<Option<CompactOrder>>,
    wanted: u8,
    first: int,
)
    requires
        level == CompactLevel::Level0To1 ==> wanted == 0,
        level == CompactLevel::Level1To2 ==> wanted == 1,
        match r {
            Err(e) => if db.writer.poisoned {
                e == Error::Poisoned
            } else {
                &&& exists|i: int| #[trigger]
                    maintenance::pair_at(db.manifest@.units, level.spec_source(), i)
                &&& db.manifest@.identity.unit_high_water == u64::MAX
                &&& e == crate::error::limit("unit_id", u64::MAX, u64::MAX)
            },
            Ok(None) => !db.writer.poisoned && (forall|i: int|
                !#[trigger] maintenance::pair_at(db.manifest@.units, level.spec_source(), i)),
            Ok(Some(order)) => {
                &&& !db.writer.poisoned
                &&& maintenance::is_run(
                    db.manifest@.units,
                    level.spec_source(),
                    order.start as int,
                    order.end as int,
                )
                &&& order.end - order.start >= 2
                &&& forall|i: int|
                    i < order.start ==> !#[trigger] maintenance::pair_at(
                        db.manifest@.units,
                        level.spec_source(),
                        i,
                    )
                &&& order.unit_id == db.manifest@.identity.unit_high_water + 1
            },
        },
    ensures
        ({
            let units = db.manifest.units@;
            &&& db.writer.poisoned ==> r == Err::<Option<CompactOrder>, Error>(Error::Poisoned)
            &&& !db.writer.poisoned && (forall|i: int| !#[trigger] neighbours(units, wanted, i))
                ==> r == Ok::<Option<CompactOrder>, Error>(None)
            &&& !db.writer.poisoned && neighbours(units, wanted, first) && (forall|i: int|
                i < first ==> !#[trigger] neighbours(units, wanted, i)) ==> if
                db.manifest.identity.unit_high_water == u64::MAX {
                r is Err
            } else {
                &&& r matches Ok(Some(order))
                &&& order.start == first
                &&& first + 2 <= order.end <= units.len()
                &&& forall|i: int|
                    first <= i < order.end ==> (#[trigger] units[i]).level == wanted
                &&& order.end < units.len() ==> units[order.end as int].level != wanted
                &&& order.unit_id == db.manifest.identity.unit_high_water + 1
            }
        }),
{
    let units = db.manifest.units@;
    assert(wanted == level.spec_source());
    assert forall|i: int| #[trigger]
        neighbours(units, wanted, i) == maintenance::pair_at(units, wanted, i) by {}
    if let Ok(Some(order)) = r {
        assert(units[order.start as int].level == wanted);
        assert(units[order.start + 1].level == wanted);
        assert(neighbours(units, wanted, order.start as int));
    }
    if neighbours(units, wanted, first) {
        assert(maintenance::pair_at(units, wanted, first));
    }
    if !db.writer.poisoned && r is Err {
        let i = choose|i: int| #[trigger] maintenance::pair_at(units, wanted, i);
        assert(neighbours(units, wanted, i));
    }
    if neighbours(units, wanted, first) {
        assert(maintenance::pair_at(db.manifest@.units, level.spec_source(), first));
    }
}

/// Whether a unit and the next one are both of a level.
pub open spec fn neighbours(units: Seq<UnitMeta>, level: u8, at: int) -> bool {
    &&& 0 <= at < units.len() - 1
    &&& units[at].level == level
    &&& units[at + 1].level == level
}

/// The catalog after a merge. It comes about wherever a generation is left, and it has the merged unit
/// in place of its inputs and everything else as it was.
pub proof fn merges_go_ahead<S: UnitSource>(
    db: &Db<S>,
    order: CompactOrder,
    compacted: UnitMeta,
    r: Result<Manifest>,
)
    requires
        db.wf(),
        transition::yields(
            r,
            transition::catalog_after(
                db.manifest@,
                db.manifest@.retention,
                maintenance::compacted_units(
                    db.manifest@.units,
                    order.start as int,
                    order.end as int,
                    compacted,
                ),
                order.unit_id,
            ),
        ),
        order.start < order.end <= db.manifest@.units.len(),
        order.unit_id == db.manifest.identity.unit_high_water + 1,
        compacted.unit_id == order.unit_id,
        db.manifest.identity.generation < u64::MAX,
    ensures
        r matches Ok(next) && {
            let units = db.manifest@.units;
            &&& next@.identity == (ManifestIdentity {
                generation: (db.manifest.identity.generation + 1) as u64,
                unit_high_water: order.unit_id,
                ..db.manifest.identity
            })
            &&& next@.checkpoint == db.manifest@.checkpoint
            &&& next@.retention == db.manifest@.retention
            &&& next@.tables == db.manifest@.tables
            &&& next@.units.len() == units.len() - (order.end - order.start) + 1
            &&& catalog::units_ordered(next@.units)
            &&& next@.units.to_multiset() == units.to_multiset().sub(
                units.subrange(order.start as int, order.end as int).to_multiset(),
            ).insert(compacted)
        },
{
    let units = db.manifest@.units;
    let start = order.start as int;
    let end = order.end as int;
    let kept = units.take(start) + units.skip(end);
    assert forall|i: int| 0 <= i < units.len() implies (#[trigger] units[i]).unit_id
        < compacted.unit_id by {}
    maintenance::compaction_replaces_its_inputs(units, start, end, compacted);
    assert forall|i: int| 0 <= i < kept.len() implies (#[trigger] kept[i]).unit_id
        < compacted.unit_id by {
        if i < start {
            assert(kept[i] == units[i]);
        } else {
            assert(kept[i] == units[i + (end - start)]);
        }
    }
    assert forall|i: int, j: int| 0 <= i < j < kept.len() implies (
    #[trigger] kept[i]).spec_before(#[trigger] kept[j]) && kept[i].unit_id != kept[j].unit_id by {
        let a = if i < start {
            i
        } else {
            i + (end - start)
        };
        let b = if j < start {
            j
        } else {
            j + (end - start)
        };
        assert(kept[i] == units[a] && kept[j] == units[b]);
        assert(units[a].spec_before(units[b]));
        assert(units[a].unit_id != units[b].unit_id);
    }
    maintenance::placing_keeps_order(kept, compacted);
    placed_ids(kept, compacted);
}

/// What retention decides for a cutoff. `removed` leading units end before it and the next does not;
/// `top` is the greatest of their last times. Without such units nothing changes. With them, retention
/// advances to one past `top`, unless the writer is poisoned, the floor is there already, the units do
/// not fold, or no generation is left, in this order.
pub proof fn retention_advances_over_what_ends<S: UnitSource>(
    db: &Db<S>,
    cutoff: i64,
    removed: int,
    top: i64,
    r: Result<RetentionStep>,
)
    requires
        match (r, maintenance::retention_step(db, cutoff)) {
            (Ok(RetentionStep::Unchanged(report)), Ok(RetentionView::Unchanged(expected))) => report
                == expected,
            (
                Ok(RetentionStep::Advance(order)),
                Ok(RetentionView::Advance { expired, floor, generation, heads }),
            ) => order.expired == expired && order.floor == floor && order.generation == generation
                && order.heads@ == heads && order.heads.valid() && order.expired
                <= db.manifest@.units.len(),
            (Err(e), Err(f)) => e == f,
            _ => false,
        },
        0 <= removed <= db.manifest.units@.len(),
        forall|i: int| 0 <= i < removed ==> (#[trigger] db.manifest.units@[i]).max_ts < cutoff,
        removed < db.manifest.units@.len() ==> db.manifest.units@[removed].max_ts >= cutoff,
        removed > 0 ==> (exists|i: int|
            0 <= i < removed && (#[trigger] db.manifest.units@[i]).max_ts == top),
        forall|i: int| 0 <= i < removed ==> (#[trigger] db.manifest.units@[i]).max_ts <= top,
    ensures
        db.writer.poisoned ==> r == Err::<RetentionStep, Error>(Error::Poisoned),
        !db.writer.poisoned && removed == 0 ==> r == Ok::<RetentionStep, Error>(
            RetentionStep::Unchanged(
                RetentionReport { removed_units: 0, floor: db.manifest.retention.floor },
            ),
        ),
        !db.writer.poisoned && removed > 0 ==> {
            let folded = fold::folded(
                upkeep::heads_of(db),
                db.manifest@.units.take(removed),
                &db.source,
                &db.tail,
                (top + 1) as i64,
            );
            if db.manifest.retention.floor matches Some(current) && top < current {
                r matches Err(Error::InvalidArgument(detail)) && detail.argument == "cutoff"
                    && detail.reason == "retention floor must advance"
            } else if folded is Err {
                r is Err && r->Err_0 == folded->Err_0
            } else if db.manifest.identity.generation == u64::MAX {
                r matches Err(Error::ResourceExhausted(detail)) && detail.name
                    == "manifest_generation"
            } else {
                &&& r matches Ok(RetentionStep::Advance(order))
                &&& order.expired == removed
                &&& order.floor == top + 1
                &&& order.generation == db.manifest.identity.generation + 1
                &&& order.heads@ == folded->Ok_0
            }
        },
{
    let units = db.manifest@.units;
    upkeep::expired_prefix(units, cutoff, 0);
    let count = maintenance::expired_count(units, cutoff, 0);
    if count < removed {
        assert(units[count].max_ts < cutoff);
    } else if removed < count {
        assert(units[removed].max_ts < cutoff);
    }
    if removed > 0 {
        upkeep::latest_is_attained(units, removed);
        let i = choose|i: int| 0 <= i < removed && (#[trigger] units[i]).max_ts == top;
        assert(units[i].max_ts <= maintenance::latest_end(units, removed));
        assert(maintenance::latest_end(units, removed) == top);
        assert(top < cutoff);
    }
}

/// The catalog after retention. It comes about wherever a generation is left, without the first units,
/// with the new floor and heads, and with everything else as it was.
pub proof fn retentions_go_ahead<S: UnitSource>(
    db: &Db<S>,
    order: RetentionOrder,
    r: Result<Manifest>,
)
    requires
        db.wf(),
        order.expired <= db.manifest@.units.len(),
        transition::yields(
            r,
            transition::catalog_after(
                db.manifest@,
                RetentionState {
                    floor: Some(order.floor),
                    heads_generation: Some(order.generation),
                },
                db.manifest@.units.skip(order.expired as int),
                db.manifest@.identity.unit_high_water,
            ),
        ),
        db.manifest.identity.generation < u64::MAX,
    ensures
        r matches Ok(next) && {
            &&& next@.identity == (ManifestIdentity {
                generation: (db.manifest.identity.generation + 1) as u64,
                ..db.manifest.identity
            })
            &&& next@.checkpoint == db.manifest@.checkpoint
            &&& next@.retention.floor == Some(order.floor)
            &&& next@.retention.heads_generation == Some(order.generation)
            &&& next@.tables == db.manifest@.tables
            &&& next@.units == db.manifest@.units.skip(order.expired as int)
        },
{
    let units = db.manifest@.units;
    let rest = units.skip(order.expired as int);
    assert forall|i: int, j: int| 0 <= i < j < rest.len() implies (
    #[trigger] rest[i]).spec_before(#[trigger] rest[j]) && rest[i].unit_id != rest[j].unit_id by {
        assert(units[order.expired + i].spec_before(units[order.expired + j]));
        assert(units[order.expired + i].unit_id != units[order.expired + j].unit_id);
    }
    assert forall|i: int| 0 <= i < rest.len() implies (#[trigger] rest[i]).unit_id
        <= db.manifest@.identity.unit_high_water by {
        assert(units[order.expired + i].unit_id <= db.manifest@.identity.unit_high_water);
    }
}

} // verus!
