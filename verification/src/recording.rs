//! Which records the tail takes, and what each of them changes.
use vstd::prelude::*;

use crate::error::{Error, Result};
use crate::manifest::catalog::SeriesRetirement;
use crate::ordmap::OrderedKey;
use crate::tail::{
    self, Observation, ObservationEntry, RecordBody, RecoveredTable, TailIndex, TailTableView,
    TailView,
};
use crate::types::{
    self, CellValue, FieldSchema, SeriesId, TableId, Validity, ValueType, VersionSpec, VersionView,
};

verus! {

/// Whether an earlier stream stands before a later one: by series, then by field.
pub open spec fn stands_before(left: ObservationEntry, right: ObservationEntry) -> bool {
    left.series.value < right.series.value || (left.series == right.series && left.field.value
        < right.field.value)
}

/// Whether a schema takes a value for a field: the field is declared, and the value is null or of
/// the declared type.
pub open spec fn takes(fields: Seq<FieldSchema>, entry: ObservationEntry) -> bool {
    exists|i: int|
        0 <= i < fields.len() && (#[trigger] fields[i]).field == entry.field && match entry.value {
            CellValue::Null => true,
            CellValue::UInt(_) => fields[i].value_type == ValueType::UInt,
            CellValue::Sq1(_) => fields[i].value_type == ValueType::Sq1,
            CellValue::F32Bits(_) => fields[i].value_type == ValueType::F32Bits,
        }
}

/// Whether an observation is well made: it has entries, and every entry stands before the later
/// ones.
pub open spec fn well_made(entries: Seq<ObservationEntry>) -> bool {
    &&& entries.len() > 0
    &&& forall|i: int, j: int|
        0 <= i < j < entries.len() ==> stands_before(#[trigger] entries[i], #[trigger] entries[j])
}

proof fn streams_ranked(entries: Seq<ObservationEntry>)
    ensures
        entries.len() > 0 ==> (tail::entries_ordered(entries) <==> well_made(entries)),
{
    if tail::entries_ordered(entries) && entries.len() > 0 {
        assert forall|i: int, j: int| 0 <= i < j < entries.len() implies stands_before(
            #[trigger] entries[i],
            #[trigger] entries[j],
        ) by {
            assert(entries[i].stream().rank() < entries[j].stream().rank());
        }
    }
    if well_made(entries) {
        assert forall|i: int, j: int| 0 <= i < j < entries.len() implies (
        #[trigger] entries[i]).stream().rank() < (#[trigger] entries[j]).stream().rank() by {
            assert(stands_before(entries[i], entries[j]));
        }
    }
}

proof fn fits_are_taken(entries: Seq<ObservationEntry>, fields: Seq<FieldSchema>)
    requires
        types::fields_ordered(fields),
    ensures
        tail::values_fit(entries, fields) <==> (forall|i: int|
            0 <= i < entries.len() ==> takes(fields, #[trigger] entries[i])),
{
    assert forall|i: int| 0 <= i < entries.len() implies (takes(fields, #[trigger] entries[i])
        <==> types::has_field(fields, entries[i].field) && entries[i].value.spec_matches(
        types::field_type(fields, entries[i].field),
    )) by {
        let entry = entries[i];
        if types::has_field(fields, entry.field) {
            let at = choose|k: int| 0 <= k < fields.len() && (#[trigger] fields[k]).field
                == entry.field;
            types::field_type_at(fields, at);
            assert forall|k: int| 0 <= k < fields.len() && (#[trigger] fields[k]).field
                == entry.field implies k == at by {
                if k < at {
                    assert(fields[k].field.value < fields[at].field.value);
                } else if at < k {
                    assert(fields[at].field.value < fields[k].field.value);
                }
            }
        }
    }
    if tail::values_fit(entries, fields) {
        assert forall|i: int| 0 <= i < entries.len() implies takes(
            fields,
            #[trigger] entries[i],
        ) by {
            assert(types::has_field(fields, entries[i].field));
        }
    }
    if forall|i: int| 0 <= i < entries.len() ==> takes(fields, #[trigger] entries[i]) {
        assert forall|i: int| 0 <= i < entries.len() implies types::has_field(
            fields,
            (#[trigger] entries[i]).field,
        ) && entries[i].value.spec_matches(types::field_type(fields, entries[i].field)) by {
            assert(takes(fields, entries[i]));
        }
    }
}

/// An observation can be made exactly of entries whose streams strictly increase, and it holds
/// them with the time that it was given.
pub proof fn observations_keep_their_entries(
    timestamp: i64,
    entries: Vec<ObservationEntry>,
    r: Result<Observation>,
)
    requires
        match r {
            Ok(observation) => entries@.len() > 0 && tail::entries_ordered(entries@)
                && observation.timestamp == timestamp && observation.entries == entries,
            Err(e) => entries@.len() == 0 || !tail::entries_ordered(entries@),
        },
    ensures
        r is Ok <==> well_made(entries@),
        r is Ok ==> r->Ok_0.timestamp == timestamp && r->Ok_0.entries@ == entries@,
{
    streams_ranked(entries@);
}

/// A table is created exactly if the record is the next one, the identifier is above all that were
/// ever given out, the validity is positive or unbounded, and the fields strictly increase. The new
/// table has that schema as its first version, which no value has activated yet, and holds
/// nothing. Every other table stays as it was; a refused record changes nothing at all.
pub proof fn tables_are_created(
    before: TailView,
    seq: u64,
    table: TableId,
    spec: VersionSpec,
    r: Result<()>,
    after: TailView,
)
    requires
        forall|other: TableId| #[trigger]
            before.tables.contains_key(other) ==> other.value <= before.table_high_water,
        match tail::applied(before, seq, RecordBody::CreateTable { table, spec }) {
            Err(e) => r == Err::<(), Error>(e) && after == before,
            Ok(changed) => r == Ok::<(), Error>(()) && after == changed,
        },
    ensures
        r is Ok <==> seq == before.next_seq && seq < u64::MAX && table.value
            > before.table_high_water && (spec.validity matches Validity::DurationSeconds(seconds)
            ==> seconds.value > 0) && (forall|i: int, j: int|
            0 <= i < j < spec.fields@.len() ==> (#[trigger] spec.fields@[i]).field.value < (
            #[trigger] spec.fields@[j]).field.value),
        r is Err ==> after == before,
        r is Ok ==> after.next_seq == seq + 1 && after.table_high_water == table.value,
        r is Ok ==> after.tables.dom() =~= before.tables.dom().insert(table),
        r is Ok ==> forall|other: TableId| #[trigger]
            before.tables.contains_key(other) ==> after.tables[other] == before.tables[other],
        r is Ok ==> {
            let state = after.tables[table];
            &&& state.last_ts is None
            &&& state.rows.len() == 0
            &&& state.retired_series.len() == 0
            &&& state.retired_fields.len() == 0
            &&& state.versions.len() == 1
            &&& state.versions[0].version_no == 1
            &&& state.versions[0].validity == spec.validity
            &&& state.versions[0].fields == spec.fields@
            &&& state.versions[0].effective_from is None
        },
{
    if before.tables.contains_key(table) {
        assert(table.value <= before.table_high_water);
    }
}

/// An observation is taken exactly if the record is the next one, the table exists, the time is
/// after everything that the table took before, the entries are well made and its newest schema
/// takes each of them, and there is room for one more row. The row is then the last one of the
/// table, its time is the clock of the table, and a newest version that nothing had activated is in
/// force from that time on. Nothing else changes; a refused record changes nothing at all.
pub proof fn observations_are_taken(
    before: TailView,
    seq: u64,
    table: TableId,
    observation: Observation,
    r: Result<()>,
    after: TailView,
)
    requires
        before.tables.contains_key(table) ==> before.tables[table].wf(),
        match tail::applied(before, seq, RecordBody::AppendObservation { table, observation }) {
            Err(e) => r == Err::<(), Error>(e) && after == before,
            Ok(changed) => r == Ok::<(), Error>(()) && after == changed,
        },
    ensures
        r is Ok <==> seq == before.next_seq && seq < u64::MAX && before.tables.contains_key(table)
            && (before.tables[table].last_ts matches Some(last) ==> last < observation.timestamp)
            && well_made(observation.entries@) && (forall|i: int|
            0 <= i < observation.entries@.len() ==> takes(
                before.tables[table].versions.last().fields,
                #[trigger] observation.entries@[i],
            )) && before.tables[table].rows.len() < 0xffff_ffff,
        r is Err ==> after == before,
        r is Ok ==> after.next_seq == seq + 1 && after.table_high_water == before.table_high_water,
        r is Ok ==> after.tables.dom() =~= before.tables.dom(),
        r is Ok ==> forall|other: TableId|
            other != table && #[trigger] before.tables.contains_key(other) ==> after.tables[other]
                == before.tables[other],
        r is Ok ==> {
            let old_state = before.tables[table];
            let new_state = after.tables[table];
            let last = old_state.versions.len() - 1;
            &&& new_state.last_ts == Some(observation.timestamp)
            &&& new_state.rows.len() == old_state.rows.len() + 1
            &&& new_state.rows.last().timestamp == observation.timestamp
            &&& new_state.rows.last().entries == observation.entries@
            &&& forall|i: int|
                0 <= i < old_state.rows.len() ==> #[trigger] new_state.rows[i] == old_state.rows[i]
            &&& new_state.retired_series == old_state.retired_series
            &&& new_state.retired_fields == old_state.retired_fields
            &&& new_state.versions.len() == old_state.versions.len()
            &&& forall|i: int|
                0 <= i < last ==> #[trigger] new_state.versions[i] == old_state.versions[i]
            &&& new_state.versions[last].version_no == old_state.versions[last].version_no
            &&& new_state.versions[last].validity == old_state.versions[last].validity
            &&& new_state.versions[last].fields == old_state.versions[last].fields
            &&& old_state.versions[last].effective_from is Some
                ==> new_state.versions[last].effective_from
                == old_state.versions[last].effective_from
            &&& old_state.versions[last].effective_from is None
                ==> new_state.versions[last].effective_from == Some(observation.timestamp)
        },
{
    streams_ranked(observation.entries@);
    if before.tables.contains_key(table) {
        let state = before.tables[table];
        let last = state.versions.len() - 1;
        assert(state.versions[last].wf());
        fits_are_taken(observation.entries@, state.versions.last().fields);
    }
    if r is Ok {
        assert(after.tables.dom() =~= before.tables.dom());
    }
}

/// A series is retired exactly if the record is the next one and the table exists. From then on the
/// series has that one retirement in the list of the table, in place of an earlier one if there
/// was one; the retirements of the other series, the rows, the schema and the clock stay.
pub proof fn series_are_retired(
    before: TailView,
    seq: u64,
    table: TableId,
    series: SeriesId,
    retire_ts: i64,
    r: Result<()>,
    after: TailView,
)
    requires
        before.tables.contains_key(table) ==> before.tables[table].wf(),
        match tail::applied(before, seq, RecordBody::RetireSeries { table, series, retire_ts }) {
            Err(e) => r == Err::<(), Error>(e) && after == before,
            Ok(changed) => r == Ok::<(), Error>(()) && after == changed,
        },
    ensures
        r is Ok <==> seq == before.next_seq && seq < u64::MAX && before.tables.contains_key(table),
        r is Err ==> after == before,
        r is Ok ==> after.next_seq == seq + 1 && after.table_high_water == before.table_high_water,
        r is Ok ==> after.tables.dom() =~= before.tables.dom(),
        r is Ok ==> forall|other: TableId|
            other != table && #[trigger] before.tables.contains_key(other) ==> after.tables[other]
                == before.tables[other],
        r is Ok ==> {
            let old_state = before.tables[table];
            let new_state = after.tables[table];
            &&& new_state.last_ts == old_state.last_ts
            &&& new_state.rows == old_state.rows
            &&& new_state.versions == old_state.versions
            &&& new_state.retired_fields == old_state.retired_fields
            &&& forall|entry: SeriesRetirement| #[trigger]
                new_state.retired_series.contains(entry) <==> (if entry.series == series {
                    entry.retire_ts == retire_ts
                } else {
                    old_state.retired_series.contains(entry)
                })
            &&& forall|i: int, j: int|
                0 <= i < j < new_state.retired_series.len() ==> (
                #[trigger] new_state.retired_series[i]).series.value < (
                #[trigger] new_state.retired_series[j]).series.value
        },
{
    if r is Ok {
        assert(after.tables.dom() =~= before.tables.dom());
        retirement_replaced(before.tables[table].retired_series, series, retire_ts);
    }
}

proof fn retirement_replaced(list: Seq<SeriesRetirement>, series: SeriesId, retire_ts: i64)
    requires
        forall|i: int, j: int|
            0 <= i < j < list.len() ==> (#[trigger] list[i]).series.value < (
            #[trigger] list[j]).series.value,
    ensures
        ({
            let changed = tail::with_retirement(list, series, retire_ts);
            &&& forall|entry: SeriesRetirement| #[trigger]
                changed.contains(entry) <==> (if entry.series == series {
                    entry.retire_ts == retire_ts
                } else {
                    list.contains(entry)
                })
            &&& forall|i: int, j: int|
                0 <= i < j < changed.len() ==> (#[trigger] changed[i]).series.value < (
                #[trigger] changed[j]).series.value
        }),
    decreases list.len(),
{
    let changed = tail::with_retirement(list, series, retire_ts);
    let new = SeriesRetirement { series, retire_ts };
    if list.len() == 0 {
        assert(changed =~= seq![new]);
        assert(changed[0] == new);
    } else {
        let front = list.drop_last();
        if list.last().series.value < series.value {
            assert(changed =~= list.push(new));
            assert(changed[list.len() as int] == new);
            assert forall|entry: SeriesRetirement| #[trigger] changed.contains(entry) <==> (
            if entry.series == series {
                entry.retire_ts == retire_ts
            } else {
                list.contains(entry)
            }) by {
                if list.contains(entry) {
                    let i = choose|i: int| 0 <= i < list.len() && list[i] == entry;
                    assert(changed[i] == entry);
                    assert(list[i].series.value <= list.last().series.value);
                }
            }
        } else if list.last().series.value == series.value {
            assert(changed =~= front.push(new));
            assert(changed[front.len() as int] == new);
            assert forall|entry: SeriesRetirement| #[trigger] changed.contains(entry) <==> (
            if entry.series == series {
                entry.retire_ts == retire_ts
            } else {
                list.contains(entry)
            }) by {
                if list.contains(entry) {
                    let i = choose|i: int| 0 <= i < list.len() && list[i] == entry;
                    if i < front.len() {
                        assert(changed[i] == entry);
                    }
                }
                if changed.contains(entry) {
                    let i = choose|i: int| 0 <= i < changed.len() && changed[i] == entry;
                    if i < front.len() {
                        assert(list[i] == entry);
                        assert(list[i].series.value < list.last().series.value);
                    }
                }
            }
        } else {
            retirement_replaced(front, series, retire_ts);
            let inner = tail::with_retirement(front, series, retire_ts);
            assert(changed =~= inner.push(list.last()));
            assert forall|entry: SeriesRetirement| #[trigger] changed.contains(entry) <==> (
            if entry.series == series {
                entry.retire_ts == retire_ts
            } else {
                list.contains(entry)
            }) by {
                if changed.contains(entry) {
                    let i = choose|i: int| 0 <= i < changed.len() && changed[i] == entry;
                    if i < inner.len() {
                        assert(inner[i] == entry);
                        assert(inner.contains(entry));
                        if entry.series != series {
                            let k = choose|k: int| 0 <= k < front.len() && front[k] == entry;
                            assert(list[k] == entry);
                        }
                    } else {
                        assert(list[list.len() - 1] == entry);
                    }
                }
                if list.contains(entry) && entry.series != series {
                    let i = choose|i: int| 0 <= i < list.len() && list[i] == entry;
                    if i < front.len() {
                        assert(front[i] == entry);
                        assert(inner.contains(entry));
                        let k = choose|k: int| 0 <= k < inner.len() && inner[k] == entry;
                        assert(changed[k] == entry);
                    } else {
                        assert(changed[inner.len() as int] == entry);
                    }
                }
                if entry == new {
                    assert(inner.contains(entry));
                    let k = choose|k: int| 0 <= k < inner.len() && inner[k] == entry;
                    assert(changed[k] == entry);
                }
            }
            assert forall|i: int, j: int| 0 <= i < j < changed.len() implies (
            #[trigger] changed[i]).series.value < (#[trigger] changed[j]).series.value by {
                if j == inner.len() {
                    assert(inner.contains(inner[i]));
                    if inner[i].series != series {
                        let k = choose|k: int| 0 <= k < front.len() && front[k] == inner[i];
                        assert(list[k].series.value < list.last().series.value);
                    }
                } else {
                    assert(inner[i].series.value < inner[j].series.value);
                }
            }
        }
    }
}

proof fn restored_each(tables: Seq<RecoveredTable>, count: int, id: TableId)
    requires
        0 <= count <= tables.len(),
        forall|i: int, j: int|
            0 <= i < j < tables.len() ==> (#[trigger] tables[i]).table != (
            #[trigger] tables[j]).table,
    ensures
        tail::restore_refusal(tables, count) is None <==> forall|i: int|
            0 <= i < count ==> (#[trigger] tables[i]).empty_view().wf(),
        tail::restored_tables(tables, count).contains_key(id) <==> exists|i: int|
            0 <= i < count && (#[trigger] tables[i]).table == id,
        forall|i: int|
            0 <= i < count && (#[trigger] tables[i]).table == id ==> {
                let state = tail::restored_tables(tables, count)[id];
                &&& state.last_ts == tables[i].last_ts
                &&& state.versions == types::version_views(tables[i].versions@)
                &&& state.retired_series == tables[i].retired_series@
                &&& state.retired_fields == tables[i].retired_fields@
                &&& state.rows.len() == 0
            },
    decreases count,
{
    if count > 0 {
        restored_each(tables, count - 1, id);
        if tables[count - 1].table == id {
            assert forall|i: int| 0 <= i < count - 1 implies (#[trigger] tables[i]).table != id by {
                assert(tables[i].table != tables[count - 1].table);
            }
        } else if exists|i: int| 0 <= i < count && (#[trigger] tables[i]).table == id {
            let i = choose|i: int| 0 <= i < count && (#[trigger] tables[i]).table == id;
            assert(0 <= i < count - 1 && tables[i].table == id);
        }
    }
}

/// A tail starts behind a catalog exactly if every table that it is handed is well formed: it has
/// versions, numbered upwards, each with a positive or unbounded validity and ordered fields, and
/// its retirements are ordered. It holds exactly these tables then, without rows.
pub proof fn tails_start_with_their_tables(
    table_high_water: u32,
    next_seq: u64,
    tables: Seq<RecoveredTable>,
    r: Result<TailIndex>,
    id: TableId,
    at: int,
)
    requires
        forall|i: int, j: int|
            0 <= i < j < tables.len() ==> (#[trigger] tables[i]).table != (
            #[trigger] tables[j]).table,
        match tail::restore_refusal(tables, tables.len() as int) {
            Some(e) => r matches Err(found) && found == e,
            None => r matches Ok(started) && started@ == (TailView {
                table_high_water,
                next_seq,
                tables: tail::restored_tables(tables, tables.len() as int),
            }),
        },
    ensures
        r is Ok <==> forall|i: int|
            0 <= i < tables.len() ==> (#[trigger] tables[i]).empty_view().wf(),
        r matches Ok(started) ==> {
            &&& started@.table_high_water == table_high_water
            &&& started@.next_seq == next_seq
            &&& started@.tables.contains_key(id) <==> exists|i: int|
                0 <= i < tables.len() && (#[trigger] tables[i]).table == id
            &&& 0 <= at < tables.len() && tables[at].table == id ==> {
                let state = started@.tables[id];
                &&& state.last_ts == tables[at].last_ts
                &&& state.versions == types::version_views(tables[at].versions@)
                &&& state.retired_series == tables[at].retired_series@
                &&& state.retired_fields == tables[at].retired_fields@
                &&& state.rows.len() == 0
            }
        },
{
    restored_each(tables, tables.len() as int, id);
    if 0 <= at < tables.len() && tables[at].table == id {
        assert(tables[at].table == id);
    }
}

/// A table of a tail is well formed exactly if it has versions, numbered upwards, each of a positive
/// or unbounded validity and with ordered fields, if its retirements are ordered, and if its rows
/// are in the order of their times, each with its entries in order, and its clock shows the last.
pub proof fn tables_are_well_formed(state: TailTableView)
    ensures
        state.wf() <==> {
            &&& state.versions.len() > 0
            &&& forall|i: int, j: int|
                0 <= i < j < state.versions.len() ==> (#[trigger] state.versions[i]).version_no < (
                #[trigger] state.versions[j]).version_no
            &&& forall|i: int|
                0 <= i < state.versions.len() ==> sensible(#[trigger] state.versions[i])
            &&& forall|i: int, j: int|
                0 <= i < j < state.retired_series.len() ==> (
                #[trigger] state.retired_series[i]).series.value < (
                #[trigger] state.retired_series[j]).series.value
            &&& forall|i: int, j: int|
                0 <= i < j < state.retired_fields.len() ==> (
                #[trigger] state.retired_fields[i]).field.value < (
                #[trigger] state.retired_fields[j]).field.value
            &&& forall|i: int, j: int|
                0 <= i < j < state.rows.len() ==> (#[trigger] state.rows[i]).timestamp < (
                #[trigger] state.rows[j]).timestamp
            &&& forall|i: int|
                0 <= i < state.rows.len() ==> ((#[trigger] state.rows[i]).entries.len() == 0
                    || well_made(state.rows[i].entries))
            &&& state.rows.len() > 0 ==> state.last_ts == Some(state.rows.last().timestamp)
        },
{
    assert forall|i: int| 0 <= i < state.versions.len() implies (#[trigger] state.versions[i]).wf()
        == sensible(state.versions[i]) by {}
    assert forall|i: int| 0 <= i < state.rows.len() implies tail::entries_ordered(
        (#[trigger] state.rows[i]).entries,
    ) == (state.rows[i].entries.len() == 0 || well_made(state.rows[i].entries)) by {
        streams_ranked(state.rows[i].entries);
    }
    if state.wf() {
        assert forall|i: int| 0 <= i < state.versions.len() implies sensible(
            #[trigger] state.versions[i],
        ) by {
            assert(state.versions[i].wf());
        }
        assert forall|i: int| 0 <= i < state.rows.len() implies ((
        #[trigger] state.rows[i]).entries.len() == 0 || well_made(state.rows[i].entries)) by {
            assert(tail::entries_ordered(state.rows[i].entries));
        }
    }
}

/// Whether a version has a positive or unbounded validity and its fields in order.
pub open spec fn sensible(version: VersionView) -> bool {
    &&& version.validity matches Validity::DurationSeconds(seconds) ==> seconds.value > 0
    &&& forall|i: int, j: int|
        0 <= i < j < version.fields.len() ==> (#[trigger] version.fields[i]).field.value < (
        #[trigger] version.fields[j]).field.value
}

} // verus!
