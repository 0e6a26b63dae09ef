//! Between the catalog and the tail behind it.
use vstd::prelude::*;

use super::catalog::{
    self, Manifest, ManifestView, SeriesRetirement, TableCatalog, TableView, UnitMeta,
};
use super::transition;
use super::validate;
use crate::error::{Error, Result};
use crate::tail::{self, RecordBody, RecoveredTable, TailIndex, TailTable, TailTableView, TailView};
use crate::types::{self, SeriesId, TableId};
use crate::wal::Checkpoint;

verus! {

/// What the tail starts out with for a table of the catalog.
pub open spec fn unreplayed(table: TableView) -> TailTableView {
    TailTableView {
        last_ts: table.last_ts,
        versions: table.versions,
        retired_series: table.retired_series,
        retired_fields: table.retired_fields,
        rows: Seq::empty(),
    }
}

/// The tables of a catalog as the tail starts out with them.
pub open spec fn unreplayed_tables(tables: Seq<TableView>, count: int) -> Map<
    TableId,
    TailTableView,
>
    decreases count,
{
    if count <= 0 {
        Map::empty()
    } else {
        unreplayed_tables(tables, count - 1).insert(
            tables[count - 1].table,
            unreplayed(tables[count - 1]),
        )
    }
}

/// The tail behind a catalog before any record was replayed.
pub open spec fn unreplayed_tail(catalog: ManifestView) -> TailView {
    TailView {
        table_high_water: catalog.identity.table_high_water,
        next_seq: catalog.checkpoint.next_seq,
        tables: unreplayed_tables(catalog.tables, catalog.tables.len() as int),
    }
}

/// A valid table makes a well-formed start of a tail.
proof fn valid_table_is_recoverable(table: TableView)
    requires
        table.valid(),
    ensures
        unreplayed(table).wf(),
{
    validate::validation_is_exact(table.last_ts, table.versions);
    assert(validate::history_valid(table.last_ts, table.versions));
}

/// The part of a tail table that a catalog keeps.
pub open spec fn cataloged(id: TableId, table: TailTableView) -> TableView {
    TableView {
        table: id,
        last_ts: table.last_ts,
        versions: table.versions,
        retired_series: table.retired_series,
        retired_fields: table.retired_fields,
    }
}

/// The tables of a tail, in order, as a catalog keeps them.
pub open spec fn cataloged_tables(tail: &TailIndex) -> Seq<TableView> {
    tail.tables.entries@.map_values(|entry: (TableId, TailTable)| cataloged(entry.0, entry.1@))
}

/// Why one of the first `count` tables cannot be cataloged.
pub open spec fn catalog_refusal(tables: Seq<TableView>, count: int) -> Option<Error>
    decreases count,
{
    if count <= 0 {
        None
    } else {
        let earlier = catalog_refusal(tables, count - 1);
        if earlier is Some {
            earlier
        } else {
            tables[count - 1].refusal()
        }
    }
}

proof fn catalog_refusal_is_final(tables: Seq<TableView>, count: int)
    requires
        0 <= count <= tables.len(),
    ensures
        catalog_refusal(tables, count) is Some ==> catalog_refusal(tables, tables.len() as int)
            == catalog_refusal(tables, count),
    decreases tables.len() - count,
{
    if count < tables.len() {
        catalog_refusal_is_final(tables, count + 1);
    }
}

/// No table of an accepted list is refused.
pub(crate) proof fn accepted_table(tables: Seq<TableView>, at: int)
    requires
        0 <= at < tables.len(),
        catalog_refusal(tables, tables.len() as int) is None,
    ensures
        tables[at].refusal() is None,
{
    catalog_refusal_is_final(tables, at + 1);
    catalog_refusal_is_final(tables, at);
}

/// What an unreplayed tail knows of a table, where no table occurs twice.
pub(crate) proof fn unreplayed_lookup(tables: Seq<TableView>, count: int, id: TableId)
    requires
        0 <= count <= tables.len(),
        catalog::tables_ordered(tables),
    ensures
        unreplayed_tables(tables, count).contains_key(id) <==> exists|i: int|
            0 <= i < count && (#[trigger] tables[i]).table == id,
        forall|i: int|
            0 <= i < count && (#[trigger] tables[i]).table == id ==> unreplayed_tables(
                tables,
                count,
            )[id] == unreplayed(tables[i]),
    decreases count,
{
    if count > 0 {
        unreplayed_lookup(tables, count - 1, id);
        let last = tables[count - 1];
        if last.table == id {
            assert forall|i: int| 0 <= i < count && (#[trigger] tables[i]).table == id implies i
                == count - 1 by {
                if i < count - 1 {
                    assert(tables[i].table.value < tables[count - 1].table.value);
                }
            }
        } else if unreplayed_tables(tables, count).contains_key(id) {
            let i = choose|i: int| 0 <= i < count - 1 && (#[trigger] tables[i]).table == id;
            assert(0 <= i < count && tables[i].table == id);
        }
    }
}

/// The catalog after the tail was sealed into units.
pub open spec fn sealed_after(
    current: ManifestView,
    checkpoint: Checkpoint,
    tables: Seq<TableView>,
    table_high_water: u32,
    units: Seq<UnitMeta>,
    unit_high_water: u64,
) -> Result<ManifestView> {
    match catalog_refusal(tables, tables.len() as int) {
        Some(e) => Err(e),
        None => match transition::identity_after(
            current.identity,
            unit_high_water,
            table_high_water,
        ) {
            Err(e) => Err(e),
            Ok(identity) => transition::restored(
                ManifestView { identity, checkpoint, tables, units, ..current },
            ),
        },
    }
}

impl Manifest {
    /// The tail as it stands before any record behind the checkpoint was replayed.
    pub fn replay_target(&self) -> (r: Result<TailIndex>)
        requires
            self.valid(),
        ensures
            r matches Ok(tail) && tail.wf() && tail@ == unreplayed_tail(self@),
    {
        let ghost views = self@.tables;
        let mut tables: Vec<RecoveredTable> = Vec::new();
        let mut index: usize = 0;
        while index < self.tables.len()
            invariant
                index <= self.tables@.len(),
                self.valid(),
                views == self@.tables,
                views.len() == self.tables@.len(),
                tables@.len() == index,
                forall|k: int|
                    0 <= k < index ==> (#[trigger] tables@[k]).table == views[k].table
                        && tables@[k].empty_view() == unreplayed(views[k]),
            decreases self.tables@.len() - index,
        {
            let table = &self.tables[index];
            assert(views[index as int] == table@);
            tables.push(
                RecoveredTable::new(
                    table.table,
                    table.last_ts,
                    types::copy_versions(table.versions.as_slice()),
                    catalog::copy_slice(table.retired_series.as_slice()),
                    catalog::copy_slice(table.retired_fields.as_slice()),
                ),
            );
            index += 1;
        }
        proof {
            recovery_agrees(tables@, views, tables@.len() as int);
        }
        TailIndex::restore(self.identity.table_high_water, self.checkpoint.next_seq, tables)
    }

    /// The catalog after everything in the tail went into units.
    pub fn successor_from_tail(
        &self,
        checkpoint: Checkpoint,
        tail: &TailIndex,
        units: Vec<UnitMeta>,
        unit_high_water: u64,
    ) -> (r: Result<Self>)
        requires
            tail.wf(),
        ensures
            transition::yields(
                r,
                sealed_after(
                    self@,
                    checkpoint,
                    cataloged_tables(tail),
                    tail.table_high_water,
                    units@,
                    unit_high_water,
                ),
            ),
    {
        let ghost views = cataloged_tables(tail);
        let mut tables: Vec<TableCatalog> = Vec::new();
        let mut index: usize = 0;
        while index < tail.tables.len()
            invariant
                index <= tail.tables.entries@.len(),
                tail.wf(),
                views == cataloged_tables(tail),
                views.len() == tail.tables.entries@.len(),
                catalog_refusal(views, index as int) is None,
                tables@.len() == index,
                forall|k: int| 0 <= k < index ==> (#[trigger] tables@[k])@ == views[k],
            decreases tail.tables.entries@.len() - index,
        {
            let entry = &tail.tables.entries[index];
            proof {
                catalog_refusal_is_final(views, index + 1);
                assert(views[index as int] == cataloged(entry.0, entry.1@));
                assert(entry.1.wf());
            }
            let versions = types::copy_versions(entry.1.versions.as_slice());
            proof {
                assert forall|i: int| 0 <= i < versions@.len() implies (
                #[trigger] versions@[i]).wf() by {
                    assert(types::version_views(versions@)[i] == versions@[i]@);
                    assert(entry.1@.versions[i].wf());
                }
            }
            match TableCatalog::restore(
                entry.0,
                entry.1.last_ts,
                versions,
                catalog::copy_slice(entry.1.retired_series.as_slice()),
                catalog::copy_slice(entry.1.retired_fields.as_slice()),
            ) {
                Ok(table) => tables.push(table),
                Err(e) => return Err(e),
            }
            index += 1;
        }
        let identity = match self.next_identity(unit_high_water, tail.table_high_water) {
            Ok(identity) => identity,
            Err(e) => return Err(e),
        };
        assert(catalog::table_views(tables@) =~= views);
        Manifest::restore(identity, checkpoint, self.retention, tables, units)
    }
}

proof fn recovery_agrees(tables: Seq<RecoveredTable>, views: Seq<TableView>, count: int)
    requires
        0 <= count <= tables.len(),
        tables.len() == views.len(),
        forall|k: int| 0 <= k < views.len() ==> (#[trigger] views[k]).valid(),
        forall|k: int|
            0 <= k < tables.len() ==> (#[trigger] tables[k]).table == views[k].table
                && tables[k].empty_view() == unreplayed(views[k]),
    ensures
        tail::restore_refusal(tables, count) is None,
        tail::restored_tables(tables, count) == unreplayed_tables(views, count),
    decreases count,
{
    if count > 0 {
        recovery_agrees(tables, views, count - 1);
        valid_table_is_recoverable(views[count - 1]);
        assert(tables[count - 1].table == views[count - 1].table);
    }
}

/// Retiring a series keeps retirements in order.
proof fn retirement_keeps_order(list: Seq<SeriesRetirement>, series: SeriesId, retire_ts: i64)
    requires
        catalog::series_ordered(list),
    ensures
        catalog::series_ordered(tail::with_retirement(list, series, retire_ts)),
        forall|i: int|
            0 <= i < tail::with_retirement(list, series, retire_ts).len() ==> (
            #[trigger] tail::with_retirement(list, series, retire_ts)[i]).series.value
                <= series.value || (list.len() > 0 && tail::with_retirement(
                list,
                series,
                retire_ts,
            )[i].series.value <= list.last().series.value),
    decreases list.len(),
{
    let after = tail::with_retirement(list, series, retire_ts);
    if list.len() == 0 {
    } else if list.last().series.value < series.value {
        assert forall|i: int, j: int| 0 <= i < j < after.len() implies (
        #[trigger] after[i]).series.value < (#[trigger] after[j]).series.value by {
            if j == list.len() && i < list.len() - 1 {
                assert(list[i].series.value < list[list.len() - 1].series.value);
            }
        }
    } else if list.last().series.value == series.value {
        assert forall|i: int, j: int| 0 <= i < j < after.len() implies (
        #[trigger] after[i]).series.value < (#[trigger] after[j]).series.value by {
            assert(list[i].series.value < list[j].series.value);
        }
    } else {
        let front = list.drop_last();
        assert(catalog::series_ordered(front));
        retirement_keeps_order(front, series, retire_ts);
        let earlier = tail::with_retirement(front, series, retire_ts);
        assert forall|i: int, j: int| 0 <= i < j < after.len() implies (
        #[trigger] after[i]).series.value < (#[trigger] after[j]).series.value by {
            if j < earlier.len() {
                assert(earlier[i].series.value < earlier[j].series.value);
            } else {
                assert(after[i] == earlier[i]);
                if front.len() > 0 {
                    assert(list[front.len() - 1].series.value < list[list.len() - 1].series.value);
                }
            }
        }
    }
}

/// An observation keeps a table's history valid.
proof fn observation_keeps_history(table: TailTableView, timestamp: i64)
    requires
        validate::history_valid(table.last_ts, table.versions),
        table.last_ts matches Some(last) ==> last < timestamp,
    ensures
        validate::history_valid(Some(timestamp), tail::activated(table.versions, timestamp)),
{
    let before = table.versions;
    let after = tail::activated(before, timestamp);
    let last = before.len() - 1;
    assert forall|i: int, j: int|
        0 <= i && j == i + 1 && j < after.len() implies validate::fields_kept(
        (#[trigger] after[i]).fields,
        (#[trigger] after[j]).fields,
    ) by {
        assert(validate::fields_kept(before[i].fields, before[j].fields));
    }
    assert forall|i: int, j: int|
        0 <= i < j < after.len() && (#[trigger] after[j]).effective_from is Some implies (
    #[trigger] after[i]).effective_from->Some_0 < after[j].effective_from->Some_0 by {
        if before[j].effective_from is Some {
            assert(before[i].effective_from->Some_0 < before[j].effective_from->Some_0);
        } else {
            assert(j == last);
            assert(before[last - 1].effective_from->Some_0 <= table.last_ts->Some_0);
            if i < last - 1 {
                assert(before[i].effective_from->Some_0 < before[last - 1].effective_from->Some_0);
            }
        }
    }
    assert forall|i: int| 0 <= i < after.len() implies (#[trigger] after[i]).version_no == i
        + 1 by {
        assert(before[i].version_no == i + 1);
    }
    assert forall|i: int| 0 <= i < after.len() - 1 implies (
    #[trigger] after[i]).effective_from is Some by {
        assert(before[i].effective_from is Some);
    }
}

/// Whether every table of a tail could be cataloged as it stands.
pub open spec fn catalogable(tail: TailView) -> bool {
    forall|id: TableId| #[trigger]
        tail.tables.contains_key(id) ==> cataloged(id, tail.tables[id]).valid()
}

/// Replaying a record keeps every table in a state that a catalog accepts: sealing what was
/// replayed behind a valid catalog never fails for the tables' sake.
pub proof fn replay_keeps_tables_catalogable(tail: TailView, seq: u64, body: RecordBody)
    requires
        catalogable(tail),
        tail::applied(tail, seq, body) is Ok,
    ensures
        catalogable(tail::applied(tail, seq, body)->Ok_0),
{
    let after = tail::applied(tail, seq, body)->Ok_0;
    assert forall|id: TableId| #[trigger] after.tables.contains_key(id) implies cataloged(
        id,
        after.tables[id],
    ).valid() by {
        match body {
            RecordBody::CreateTable { table, spec } => {
                if id == table {
                    let made = tail::created(spec);
                    assert(validate::history_valid(made.last_ts, made.versions));
                    validate::validation_is_exact(made.last_ts, made.versions);
                    assert(made.versions[0].wf());
                } else {
                    assert(tail.tables.contains_key(id));
                }
            },
            RecordBody::AppendObservation { table, observation } => {
                if id == table {
                    let state = tail.tables[id];
                    assert(tail.tables.contains_key(id));
                    assert(cataloged(id, state).valid());
                    let next = after.tables[id];
                    validate::validation_is_exact(state.last_ts, state.versions);
                    observation_keeps_history(state, observation.timestamp);
                    validate::validation_is_exact(next.last_ts, next.versions);
                    assert forall|i: int| 0 <= i < next.versions.len() implies (
                    #[trigger] next.versions[i]).wf() by {
                        assert(state.versions[i].wf());
                    }
                    assert(next.versions.last().fields == state.versions.last().fields);
                    assert(cataloged(id, next).refusal() is None);
                } else {
                    assert(tail.tables.contains_key(id));
                }
            },
            RecordBody::RetireSeries { table, series, retire_ts } => {
                assert(tail.tables.contains_key(id));
                if id == table {
                    let state = tail.tables[id];
                    assert(cataloged(id, state).valid());
                    retirement_keeps_order(state.retired_series, series, retire_ts);
                }
            },
        }
    }
}

/// The tail behind a valid catalog starts out catalogable.
pub proof fn unreplayed_tail_is_catalogable(tables: Seq<TableView>, count: int, tail: TailView)
    requires
        0 <= count <= tables.len(),
        forall|k: int| 0 <= k < tables.len() ==> (#[trigger] tables[k]).valid(),
        tail.tables == unreplayed_tables(tables, count),
    ensures
        catalogable(tail),
    decreases count,
{
    if count > 0 {
        let smaller = TailView { tables: unreplayed_tables(tables, count - 1), ..tail };
        unreplayed_tail_is_catalogable(tables, count - 1, smaller);
        assert forall|id: TableId| #[trigger] tail.tables.contains_key(id) implies cataloged(
            id,
            tail.tables[id],
        ).valid() by {
            if id == tables[count - 1].table {
                assert(cataloged(id, unreplayed(tables[count - 1])) == tables[count - 1]);
            } else {
                assert(smaller.tables.contains_key(id));
            }
        }
    }
}

} // verus!
