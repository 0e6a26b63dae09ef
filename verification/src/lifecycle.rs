//! Which files a catalog needs, before and after each operation.
//!
//! A new file is written before the catalog that names it is published, and an old file is removed
//! only after a catalog that no longer names it. So whichever catalog is found after a failure, it
//! finds its files.
use vstd::prelude::*;

use crate::db::Db;
use crate::files::{self, Area};
use crate::maintenance::{self, RetentionView, SealRange};
use crate::manifest::catalog::{ManifestView, RetentionState, TableView, UnitMeta};
use crate::manifest::transition;
use crate::names;
use crate::retention::head;
use crate::tail::TailView;
use crate::unit::UnitSource;
use crate::wal::DurablePosition;

verus! {

/// Different units and different generations of heads have different files.
pub proof fn file_names_are_distinct(left: u64, right: u64)
    ensures
        files::unit_file(left) == files::unit_file(right) ==> left == right,
        head::head_file(left) == head::head_file(right) ==> left == right,
{
    let a = names::hexadecimal(left as nat, 16);
    let b = names::hexadecimal(right as nat, 16);
    names::hexadecimal_width(left as nat, 16);
    names::hexadecimal_width(right as nat, 16);
    names::sixteen_digits_suffice();
    assert(files::unit_file(left).take(16) =~= a);
    assert(files::unit_file(right).take(16) =~= b);
    assert(head::head_file(left).take(16) =~= a);
    assert(head::head_file(right).take(16) =~= b);
    if a == b {
        names::hexadecimal_is_injective(left as nat, right as nat, 16);
    }
}

/// A unit's file is needed exactly if the catalog has a unit of that identifier.
proof fn unit_referenced(catalog: ManifestView, unit_id: u64)
    ensures
        files::referenced(catalog, Area::Units, files::unit_file(unit_id)) <==> exists|i: int|
            0 <= i < catalog.units.len() && (#[trigger] catalog.units[i]).unit_id == unit_id,
{
    if files::referenced(catalog, Area::Units, files::unit_file(unit_id)) {
        let i = choose|i: int|
            0 <= i < catalog.units.len() && files::unit_file(unit_id) == files::unit_file(
                (#[trigger] catalog.units[i]).unit_id,
            );
        file_names_are_distinct(unit_id, catalog.units[i].unit_id);
    }
}

/// Whether the heads of a catalog were written by an earlier or the present generation.
pub open spec fn heads_settled(catalog: ManifestView) -> bool {
    catalog.retention.heads_generation matches Some(generation) ==> generation
        <= catalog.identity.generation
}

/// The unit that a seal or a compaction writes before its catalog is published is not one that the
/// catalog in force needs: a failure in between leaves an orphan and changes nothing.
pub proof fn unpublished_units_are_orphans(
    catalog: ManifestView,
    tail: TailView,
    range: SealRange,
    durable: DurablePosition,
    start: int,
    end: int,
)
    requires
        catalog.valid(),
    ensures
        maintenance::seal_order(catalog, tail, range, durable) matches Ok(order) ==> (
        order.unit matches Some(unit_id) ==> !files::referenced(
            catalog,
            Area::Units,
            files::unit_file(unit_id),
        )),
        maintenance::compact_order(catalog, start, end) matches Ok(order) ==> !files::referenced(
            catalog,
            Area::Units,
            files::unit_file(order.2),
        ),
{
    if catalog.identity.unit_high_water < u64::MAX {
        unit_referenced(catalog, (catalog.identity.unit_high_water + 1) as u64);
    }
}

/// The heads that retention writes before its catalog is published are not those that the catalog
/// in force needs.
pub proof fn unpublished_heads_are_orphans<S: UnitSource>(db: &Db<S>, cutoff: i64)
    requires
        heads_settled(db.manifest@),
    ensures
        maintenance::retention_step(db, cutoff) matches Ok(
            RetentionView::Advance { generation, .. },
        ) ==> !files::referenced(db.manifest@, Area::Heads, head::head_file(generation)),
{
    let catalog = db.manifest@;
    if catalog.identity.generation < u64::MAX && catalog.retention.heads_generation is Some {
        file_names_are_distinct(
            (catalog.identity.generation + 1) as u64,
            catalog.retention.heads_generation->Some_0,
        );
    }
}

/// A sealed catalog needs every file that was needed before, and that of the new unit.
pub proof fn sealing_drops_no_file(
    catalog: ManifestView,
    tables: Seq<TableView>,
    table_high_water: u32,
    order: maintenance::SealOrder,
    meta: Option<UnitMeta>,
    area: Area,
    name: Seq<u8>,
)
    requires
        maintenance::sealed_catalog(catalog, tables, table_high_water, order, meta) is Ok,
    ensures
        ({
            let next = maintenance::sealed_catalog(
                catalog,
                tables,
                table_high_water,
                order,
                meta,
            )->Ok_0;
            files::referenced(next, area, name) <==> files::referenced(catalog, area, name) || (
            meta matches Some(unit) && area == Area::Units && name == files::unit_file(
                unit.unit_id,
            ))
        }),
{
    let next = maintenance::sealed_catalog(catalog, tables, table_high_water, order, meta)->Ok_0;
    if let Some(unit) = meta {
        placed_names(catalog.units, unit, name);
    }
}

/// Whether one of the units has the file of that name.
spec fn named(units: Seq<UnitMeta>, name: Seq<u8>) -> bool {
    exists|i: int|
        0 <= i < units.len() && name == files::unit_file((#[trigger] units[i]).unit_id)
}

proof fn placed_names(units: Seq<UnitMeta>, unit: UnitMeta, name: Seq<u8>)
    ensures
        named(maintenance::with_unit(units, unit), name) <==> named(units, name) || name
            == files::unit_file(unit.unit_id),
    decreases units.len(),
{
    let after = maintenance::with_unit(units, unit);
    if units.len() == 0 || units.last().spec_before(unit) {
        pushed_names(units, unit, name);
    } else {
        placed_names(units.drop_last(), unit, name);
        pushed_names(maintenance::with_unit(units.drop_last(), unit), units.last(), name);
        pushed_names(units.drop_last(), units.last(), name);
        assert(units.drop_last().push(units.last()) =~= units);
    }
}

proof fn pushed_names(units: Seq<UnitMeta>, unit: UnitMeta, name: Seq<u8>)
    ensures
        named(units.push(unit), name) <==> named(units, name) || name == files::unit_file(
            unit.unit_id,
        ),
{
    let after = units.push(unit);
    if named(units, name) {
        let i = choose|i: int|
            0 <= i < units.len() && name == files::unit_file((#[trigger] units[i]).unit_id);
        assert(after[i] == units[i]);
    }
    if name == files::unit_file(unit.unit_id) {
        assert(after[units.len() as int] == unit);
    }
    if named(after, name) {
        let i = choose|i: int|
            0 <= i < after.len() && name == files::unit_file((#[trigger] after[i]).unit_id);
        if i < units.len() {
            assert(after[i] == units[i]);
        }
    }
}

proof fn listed_names(units: Seq<UnitMeta>, area: Area, name: Seq<u8>)
    ensures
        maintenance::unit_files(units).contains((area, name)) <==> area == Area::Units && named(
            units,
            name,
        ),
{
    let list = maintenance::unit_files(units);
    if list.contains((area, name)) {
        let i = choose|i: int| 0 <= i < list.len() && list[i] == (area, name);
        assert(list[i] == (Area::Units, files::unit_file(units[i].unit_id)));
    }
    if area == Area::Units && named(units, name) {
        let i = choose|i: int|
            0 <= i < units.len() && name == files::unit_file((#[trigger] units[i]).unit_id);
        assert(list[i] == (area, name));
    }
}

/// Among units with distinct identifiers, a stretch and the units around it share no file.
proof fn stretch_names(units: Seq<UnitMeta>, start: int, end: int, name: Seq<u8>)
    requires
        crate::manifest::catalog::ids_distinct(units),
        0 <= start <= end <= units.len(),
    ensures
        named(units.take(start) + units.skip(end), name) <==> named(units, name) && !named(
            units.subrange(start, end),
            name,
        ),
{
    let kept = units.take(start) + units.skip(end);
    let gone = units.subrange(start, end);
    if named(kept, name) {
        let k = choose|k: int|
            0 <= k < kept.len() && name == files::unit_file((#[trigger] kept[k]).unit_id);
        let i = if k < start {
            k
        } else {
            k + (end - start)
        };
        assert(kept[k] == units[i]);
        if named(gone, name) {
            let g = choose|g: int|
                0 <= g < gone.len() && name == files::unit_file((#[trigger] gone[g]).unit_id);
            assert(gone[g] == units[start + g]);
            file_names_are_distinct(units[i].unit_id, units[start + g].unit_id);
            assert(i < start + g || start + g < i);
        }
    }
    if named(units, name) {
        let i = choose|i: int|
            0 <= i < units.len() && name == files::unit_file((#[trigger] units[i]).unit_id);
        if i < start {
            assert(kept[i] == units[i]);
        } else if i < end {
            assert(gone[i - start] == units[i]);
        } else {
            assert(kept[i - (end - start)] == units[i]);
        }
    }
}

/// Compaction retires exactly the files that its catalog no longer needs.
pub proof fn compaction_retires_what_it_drops(
    catalog: ManifestView,
    order: maintenance::CompactOrder,
    compacted: UnitMeta,
    area: Area,
    name: Seq<u8>,
)
    requires
        catalog.valid(),
        maintenance::orders(
            Ok(order),
            maintenance::compact_order(catalog, order.start as int, order.end as int),
        ),
        compacted.unit_id == order.unit_id,
        transition::catalog_after(
            catalog,
            catalog.retention,
            maintenance::compacted_units(
                catalog.units,
                order.start as int,
                order.end as int,
                compacted,
            ),
            order.unit_id,
        ) is Ok,
    ensures
        ({
            let next = transition::catalog_after(
                catalog,
                catalog.retention,
                maintenance::compacted_units(
                    catalog.units,
                    order.start as int,
                    order.end as int,
                    compacted,
                ),
                order.unit_id,
            )->Ok_0;
            let retired = maintenance::unit_files(
                catalog.units.subrange(order.start as int, order.end as int),
            );
            &&& retired.contains((area, name)) <==> files::referenced(catalog, area, name)
                && !files::referenced(next, area, name)
            &&& files::referenced(next, Area::Units, files::unit_file(compacted.unit_id))
        }),
{
    let start = order.start as int;
    let end = order.end as int;
    let kept = catalog.units.take(start) + catalog.units.skip(end);
    listed_names(catalog.units.subrange(start, end), area, name);
    stretch_names(catalog.units, start, end, name);
    placed_names(kept, compacted, name);
    placed_names(kept, compacted, files::unit_file(compacted.unit_id));
    unit_referenced(catalog, compacted.unit_id);
}

/// Retention retires exactly the files that its catalog no longer needs.
pub proof fn retention_retires_what_it_drops(
    catalog: ManifestView,
    expired: int,
    floor: i64,
    area: Area,
    name: Seq<u8>,
)
    requires
        catalog.valid(),
        heads_settled(catalog),
        catalog.identity.generation < u64::MAX,
        0 <= expired <= catalog.units.len(),
        transition::catalog_after(
            catalog,
            RetentionState {
                floor: Some(floor),
                heads_generation: Some((catalog.identity.generation + 1) as u64),
            },
            catalog.units.skip(expired),
            catalog.identity.unit_high_water,
        ) is Ok,
    ensures
        ({
            let generation = (catalog.identity.generation + 1) as u64;
            let next = transition::catalog_after(
                catalog,
                RetentionState { floor: Some(floor), heads_generation: Some(generation) },
                catalog.units.skip(expired),
                catalog.identity.unit_high_water,
            )->Ok_0;
            let retired = maintenance::expired_files(
                catalog.units.take(expired),
                catalog.retention.heads_generation,
            );
            &&& retired.contains((area, name)) <==> files::referenced(catalog, area, name)
                && !files::referenced(next, area, name)
            &&& files::referenced(next, Area::Heads, head::head_file(generation))
            &&& heads_settled(next)
        }),
{
    let generation = (catalog.identity.generation + 1) as u64;
    let units = catalog.units;
    let gone = units.take(expired);
    let listed = maintenance::unit_files(gone);
    let retired = maintenance::expired_files(gone, catalog.retention.heads_generation);
    assert(units.subrange(0, expired) =~= gone);
    assert(units.take(0) + units.skip(expired) =~= units.skip(expired));
    listed_names(gone, area, name);
    stretch_names(units, 0, expired, name);
    if let Some(before) = catalog.retention.heads_generation {
        let head = (Area::Heads, head::head_file(before));
        file_names_are_distinct(before, generation);
        assert(retired == listed.push(head));
        if retired.contains((area, name)) {
            let i = choose|i: int| 0 <= i < retired.len() && retired[i] == (area, name);
            if i < listed.len() {
                assert(listed[i] == (area, name));
            }
        }
        if listed.contains((area, name)) {
            let i = choose|i: int| 0 <= i < listed.len() && listed[i] == (area, name);
            assert(retired[i] == (area, name));
        }
        assert(retired[listed.len() as int] == head);
    }
}

/// No operation puts the heads ahead of their catalog.
pub proof fn heads_stay_settled(
    catalog: ManifestView,
    tables: Seq<TableView>,
    table_high_water: u32,
    order: maintenance::SealOrder,
    meta: Option<UnitMeta>,
    units: Seq<UnitMeta>,
    unit_high_water: u64,
)
    requires
        heads_settled(catalog),
    ensures
        maintenance::sealed_catalog(catalog, tables, table_high_water, order, meta) matches Ok(next)
            ==> heads_settled(next),
        transition::catalog_after(catalog, catalog.retention, units, unit_high_water) matches Ok(
            next,
        ) ==> heads_settled(next),
        transition::takeover_after(catalog) matches Ok(next) ==> heads_settled(next),
{
}

} // verus!
