//! What queries answer, told from the rows that were written.
//!
//! Here a stream is not a list but what stands in the rows of the tail and in the cells of the
//! sections, and a version is not looked up but is the last one that was active. Everything that a
//! query answers is said in these terms alone.
use vstd::prelude::*;

use super::batch;
use super::contract;
use super::cursor::{self, CursorView, FactFlow};
use super::facts::{self, Fact};
use super::meaning;
use super::plan::PlannedSection;
use super::primitives::{self, Lookup, Slot};
use super::recall;
use super::resample;
use super::sample;
use super::snapshot;
use super::walk;
use crate::error::{self, Error, Result};
use crate::handover;
use crate::manifest::catalog::UnitMeta;
use crate::query::alike;
use crate::retention::head::{self, HeadsView};
use crate::tail::{self, RowView, TailTableView, TailView};
use crate::types::{self, CellValue, StreamKey, Validity, VersionView};
use crate::unit::{SectionView, TableDirectoryEntry, UnitSource};

verus! {

/// Whether a row of the tail has a value of a stream, as its entry at a place.
pub open spec fn in_row(row: RowView, key: StreamKey, at: int, fact: Fact) -> bool {
    &&& 0 <= at < row.entries.len()
    &&& row.timestamp == fact.timestamp
    &&& row.entries[at].series == key.series
    &&& row.entries[at].field == key.field
    &&& row.entries[at].value == fact.value
}

/// Whether a section has a value of a stream, in a row of one of its columns.
pub open spec fn in_section<S: UnitSource>(
    source: &S,
    unit: UnitMeta,
    section: TableDirectoryEntry,
    version: VersionView,
    key: StreamKey,
    column: int,
    row: int,
    fact: Fact,
) -> bool {
    &&& version.version_no == section.version_no
    &&& source.rows_of(unit, section, version) matches Ok(rows)
    &&& 0 <= column < rows.columns.len()
    &&& rows.columns[column].stream.series == key.series
    &&& rows.columns[column].stream.field == key.field
    &&& 0 <= row < rows.timestamps.len()
    &&& row < rows.columns[column].cells.len()
    &&& rows.timestamps[row] == fact.timestamp
    &&& rows.columns[column].cells[row] == Some(fact.value)
}

/// Whether a value of a stream was written: it stands in a row of the tail or in a cell of a section.
pub open spec fn written<S: UnitSource>(
    source: &S,
    units: Seq<UnitMeta>,
    schemas: TailView,
    key: StreamKey,
    fact: Fact,
) -> bool {
    let state = schemas.tables[key.table];
    ||| exists|r: int, e: int|
        0 <= r < state.rows.len() && #[trigger] in_row(state.rows[r], key, e, fact)
    ||| exists|u: int, a: int, v: int, c: int, r: int|
        alike::listed(source, units, key.table, u, a) && 0 <= v < state.versions.len()
            && #[trigger] in_section(
            source,
            units[u],
            alike::listing(source, units, key.table, u, a),
            state.versions[v],
            key,
            c,
            r,
            fact,
        )
}

/// Whether retention kept a value of a stream.
pub open spec fn kept(heads: Option<HeadsView>, key: StreamKey, fact: Fact) -> bool {
    &&& heads matches Some(list)
    &&& exists|h: int|
        0 <= h < list.entries.len() && (#[trigger] list.entries[h]).table == key.table
            && list.entries[h].series == key.series && list.entries[h].field == key.field
            && list.entries[h].fact_ts == fact.timestamp && list.entries[h].value == fact.value
}

/// Whether a value is the last of its stream at a time: the latest that was written by then, or,
/// where none was, the one that retention kept.
pub open spec fn last_by<S: UnitSource>(
    source: &S,
    units: Seq<UnitMeta>,
    schemas: TailView,
    heads: Option<HeadsView>,
    key: StreamKey,
    time: i64,
    fact: Fact,
) -> bool {
    &&& fact.timestamp <= time
    &&& {
        ||| written(source, units, schemas, key, fact) && forall|other: Fact| #[trigger]
            written(source, units, schemas, key, other) && other.timestamp <= time
                ==> other.timestamp <= fact.timestamp
        ||| kept(heads, key, fact) && forall|other: Fact| #[trigger]
            written(source, units, schemas, key, other) ==> time < other.timestamp
    }
}

/// Whether a stream has no value by a time, neither written nor kept.
pub open spec fn none_by<S: UnitSource>(
    source: &S,
    units: Seq<UnitMeta>,
    schemas: TailView,
    heads: Option<HeadsView>,
    key: StreamKey,
    time: i64,
) -> bool {
    forall|other: Fact|
        (#[trigger] written(source, units, schemas, key, other) || kept(heads, key, other))
            ==> time < other.timestamp
}

/// Whether a version rules at a time: it and all before it were active by then, and the one after it
/// was not.
pub open spec fn rules(versions: Seq<VersionView>, at: int, time: i64) -> bool {
    &&& 0 <= at < versions.len()
    &&& forall|i: int|
        0 <= i <= at ==> ((#[trigger] versions[i]).effective_from matches Some(from) && from <= time)
    &&& at + 1 < versions.len() ==> !(versions[at + 1].effective_from matches Some(from) && from
        <= time)
}

/// Whether a version has a field.
pub open spec fn declares(version: VersionView, key: StreamKey) -> bool {
    exists|f: int| 0 <= f < version.fields.len() && (#[trigger] version.fields[f]).field == key.field
}

/// Whether the series or the field of a stream was retired at a time.
pub open spec fn retires(table: TailTableView, key: StreamKey, time: i64) -> bool {
    ||| exists|i: int|
        0 <= i < table.retired_series.len() && (#[trigger] table.retired_series[i]).series
            == key.series && table.retired_series[i].retire_ts == time
    ||| exists|i: int|
        0 <= i < table.retired_fields.len() && (#[trigger] table.retired_fields[i]).field
            == key.field && table.retired_fields[i].retire_ts == time
}

/// Whether the last retirement of a stream lies at or behind a value and before a time.
pub open spec fn retired_between(table: TailTableView, key: StreamKey, from: i64, time: i64) -> bool {
    exists|ts: i64| #[trigger]
        retires(table, key, ts) && from <= ts < time && forall|other: i64| #[trigger]
            retires(table, key, other) ==> other <= ts
}

proof fn tail_values(rows: Seq<RowView>, key: StreamKey, fact: Fact)
    requires
        tail::rows_wf(rows),
    ensures
        facts::tail_facts(rows, facts::spec_stream(key)).contains(fact) <==> exists|r: int, e: int|
            0 <= r < rows.len() && #[trigger] in_row(rows[r], key, e, fact),
{
    let stream = facts::spec_stream(key);
    let list = tail::row_indices(rows, stream);
    let all = facts::tail_facts(rows, stream);
    tail::row_indices_facts(rows, stream);
    if all.contains(fact) {
        let j = choose|j: int| 0 <= j < all.len() && all[j] == fact;
        let r = list[j];
        assert(tail::has_stream(rows[r].entries, stream));
        let e = choose|e: int|
            0 <= e < rows[r].entries.len() && (#[trigger] rows[r].entries[e]).stream() == stream;
        tail::cell_at(rows[r].entries, e);
        assert(in_row(rows[r], key, e, fact));
    }
    if exists|r: int, e: int| 0 <= r < rows.len() && #[trigger] in_row(rows[r], key, e, fact) {
        let (r, e) = choose|r: int, e: int|
            0 <= r < rows.len() && #[trigger] in_row(rows[r], key, e, fact);
        assert(rows[r].entries[e].stream() == stream);
        tail::cell_at(rows[r].entries, e);
        assert(tail::has_stream(rows[r].entries, stream));
        let j = choose|j: int| 0 <= j < list.len() && list[j] == r;
        assert(all[j] == fact);
    }
}

proof fn cell_values(
    timestamps: Seq<i64>,
    cells: Seq<Option<CellValue>>,
    count: int,
    fact: Fact,
)
    requires
        0 <= count,
    ensures
        facts::cell_facts(timestamps, cells, count).contains(fact) <==> exists|r: int|
            0 <= r < count && timestamps[r] == fact.timestamp && #[trigger] cells[r] == Some(
                fact.value,
            ),
    decreases count,
{
    if count > 0 {
        cell_values(timestamps, cells, count - 1, fact);
        let earlier = facts::cell_facts(timestamps, cells, count - 1);
        let all = facts::cell_facts(timestamps, cells, count);
        if all.contains(fact) {
            let j = choose|j: int| 0 <= j < all.len() && all[j] == fact;
            if j < earlier.len() {
                assert(earlier[j] == fact);
                assert(earlier.contains(fact));
            } else {
                assert(cells[count - 1] == Some(fact.value));
            }
        }
        if exists|r: int|
            0 <= r < count && timestamps[r] == fact.timestamp && #[trigger] cells[r] == Some(
                fact.value,
            ) {
            let r = choose|r: int|
                0 <= r < count && timestamps[r] == fact.timestamp && #[trigger] cells[r] == Some(
                    fact.value,
                );
            if r < count - 1 {
                assert(earlier.contains(fact));
                let j = choose|j: int| 0 <= j < earlier.len() && earlier[j] == fact;
                assert(all[j] == fact);
            } else {
                assert(all[all.len() - 1] == fact);
            }
        }
    }
}

/// Whether rows have a value of a stream in a cell.
spec fn in_cells(rows: SectionView, key: StreamKey, column: int, row: int, fact: Fact) -> bool {
    &&& 0 <= column < rows.columns.len()
    &&& rows.columns[column].stream.series == key.series
    &&& rows.columns[column].stream.field == key.field
    &&& 0 <= row < rows.timestamps.len()
    &&& row < rows.columns[column].cells.len()
    &&& rows.timestamps[row] == fact.timestamp
    &&& rows.columns[column].cells[row] == Some(fact.value)
}

proof fn row_values(rows: SectionView, key: StreamKey, fact: Fact)
    requires
        forall|i: int, j: int|
            0 <= i < j < rows.columns.len() ==> (#[trigger] rows.columns[i]).stream != (
            #[trigger] rows.columns[j]).stream,
    ensures
        meaning::rows_facts(rows, facts::spec_stream(key)).contains(fact) <==> exists|
            c: int,
            r: int,
        | #[trigger] in_cells(rows, key, c, r, fact),
{
    let stream = facts::spec_stream(key);
    if meaning::has_column(rows.columns, stream) {
        let at = choose|i: int|
            0 <= i < rows.columns.len() && (#[trigger] rows.columns[i]).stream == stream;
        let cells = rows.columns[at].cells;
        let count = if rows.timestamps.len() < cells.len() {
            rows.timestamps.len() as int
        } else {
            cells.len() as int
        };
        cell_values(rows.timestamps, cells, count, fact);
        if meaning::rows_facts(rows, stream).contains(fact) {
            let r = choose|r: int|
                0 <= r < count && rows.timestamps[r] == fact.timestamp && #[trigger] cells[r]
                    == Some(fact.value);
            assert(in_cells(rows, key, at, r, fact));
        }
        if exists|c: int, r: int| #[trigger] in_cells(rows, key, c, r, fact) {
            let (c, r) = choose|c: int, r: int| #[trigger] in_cells(rows, key, c, r, fact);
            assert(rows.columns[c].stream == stream);
            if c < at {
                assert(rows.columns[c].stream != rows.columns[at].stream);
            } else if at < c {
                assert(rows.columns[at].stream != rows.columns[c].stream);
            }
            assert(cells[r] == Some(fact.value));
        }
    } else if exists|c: int, r: int| #[trigger] in_cells(rows, key, c, r, fact) {
        let (c, r) = choose|c: int, r: int| #[trigger] in_cells(rows, key, c, r, fact);
        assert(rows.columns[c].stream == stream);
    }
}

proof fn section_values<S: UnitSource>(
    source: &S,
    versions: Seq<VersionView>,
    sections: Seq<PlannedSection>,
    key: StreamKey,
    fact: Fact,
    count: int,
)
    requires
        0 <= count <= sections.len(),
    ensures
        meaning::sealed_facts(
            source,
            versions,
            sections,
            facts::spec_stream(key),
            count,
        ).contains(fact) <==> exists|s: int|
            0 <= s < count && meaning::rows_facts(
                meaning::section_rows(source, versions, #[trigger] sections[s]),
                facts::spec_stream(key),
            ).contains(fact),
    decreases count,
{
    let stream = facts::spec_stream(key);
    if count > 0 {
        section_values(source, versions, sections, key, fact, count - 1);
        let earlier = meaning::sealed_facts(source, versions, sections, stream, count - 1);
        let own = meaning::rows_facts(
            meaning::section_rows(source, versions, sections[count - 1]),
            stream,
        );
        let all = meaning::sealed_facts(source, versions, sections, stream, count);
        if all.contains(fact) {
            let j = choose|j: int| 0 <= j < all.len() && all[j] == fact;
            if j < earlier.len() {
                assert(earlier[j] == fact);
                assert(earlier.contains(fact));
            } else {
                assert(own[j - earlier.len()] == fact);
                assert(own.contains(fact));
            }
        }
        if earlier.contains(fact) {
            let j = choose|j: int| 0 <= j < earlier.len() && earlier[j] == fact;
            assert(all[j] == fact);
        }
        if own.contains(fact) {
            let j = choose|j: int| 0 <= j < own.len() && own[j] == fact;
            assert(all[earlier.len() + j] == fact);
        }
    }
}

/// The version with a number is the only one with it.
proof fn version_found(versions: Seq<VersionView>, at: int)
    requires
        tail::versions_numbered(versions),
        0 <= at < versions.len(),
    ensures
        facts::version_numbered(versions, versions[at].version_no) == Some(versions[at]),
{
    let number = versions[at].version_no;
    assert(versions[at].version_no == number);
    let i = choose|i: int| 0 <= i < versions.len() && (#[trigger] versions[i]).version_no == number;
    if i < at {
        assert(versions[i].version_no < versions[at].version_no);
    } else if at < i {
        assert(versions[at].version_no < versions[i].version_no);
    }
}

/// In a sound store the values of a stream are those that were written.
proof fn written_values<S: UnitSource>(
    source: &S,
    units: Seq<UnitMeta>,
    schemas: TailView,
    key: StreamKey,
    fact: Fact,
)
    requires
        meaning::sound(source, units, schemas, key.table),
    ensures
        meaning::stream_facts(source, units, schemas, key).contains(fact) <==> written(
            source,
            units,
            schemas,
            key,
            fact,
        ),
{
    let table = key.table;
    let state = schemas.tables[table];
    let stream = facts::spec_stream(key);
    let all = meaning::all_sections(source, units, table, units.len() as int);
    let sealed = meaning::sealed_facts(source, state.versions, all, stream, all.len() as int);
    let rest = facts::tail_facts(state.rows, stream);
    let list = meaning::stream_facts(source, units, schemas, key);
    tail_values(state.rows, key, fact);
    section_values(source, state.versions, all, key, fact, all.len() as int);
    if list.contains(fact) {
        let j = choose|j: int| 0 <= j < list.len() && list[j] == fact;
        if j < sealed.len() {
            assert(sealed[j] == fact);
            assert(sealed.contains(fact));
            let s = choose|s: int|
                0 <= s < all.len() && meaning::rows_facts(
                    meaning::section_rows(source, state.versions, #[trigger] all[s]),
                    stream,
                ).contains(fact);
            assert(meaning::section_sound(source, state.versions, all[s]));
            let rows = meaning::section_rows(source, state.versions, all[s]);
            row_values(rows, key, fact);
            let (c, r) = choose|c: int, r: int| #[trigger] in_cells(rows, key, c, r, fact);
            let (u, a) = handover::section_is_listed(source, units, table, units.len() as int, s);
            let number = all[s].section.version_no;
            let v = choose|v: int|
                0 <= v < state.versions.len() && (#[trigger] state.versions[v]).version_no
                    == number;
            version_found(state.versions, v);
            assert(in_section(
                source,
                units[u],
                alike::listing(source, units, table, u, a),
                state.versions[v],
                key,
                c,
                r,
                fact,
            ));
        } else {
            assert(rest[j - sealed.len()] == fact);
            assert(rest.contains(fact));
        }
    }
    if rest.contains(fact) {
        let j = choose|j: int| 0 <= j < rest.len() && rest[j] == fact;
        assert(list[sealed.len() + j] == fact);
    }
    if exists|u: int, a: int, v: int, c: int, r: int|
        alike::listed(source, units, table, u, a) && 0 <= v < state.versions.len()
            && #[trigger] in_section(
            source,
            units[u],
            alike::listing(source, units, table, u, a),
            state.versions[v],
            key,
            c,
            r,
            fact,
        ) {
        let (u, a, v, c, r) = choose|u: int, a: int, v: int, c: int, r: int|
            alike::listed(source, units, table, u, a) && 0 <= v < state.versions.len()
                && #[trigger] in_section(
                source,
                units[u],
                alike::listing(source, units, table, u, a),
                state.versions[v],
                key,
                c,
                r,
                fact,
            );
        meaning::section_place(source, units, table, u, a);
        let s = meaning::all_sections(source, units, table, u).len() + a;
        version_found(state.versions, v);
        let rows = meaning::section_rows(source, state.versions, all[s]);
        assert(meaning::section_sound(source, state.versions, all[s]));
        row_values(rows, key, fact);
        assert(in_cells(rows, key, c, r, fact));
        assert(meaning::rows_facts(
            meaning::section_rows(source, state.versions, all[s]),
            stream,
        ).contains(fact));
        assert(sealed.contains(fact));
        let j = choose|j: int| 0 <= j < sealed.len() && sealed[j] == fact;
        assert(list[j] == fact);
    }
}

/// In time order the last value at a time is the greatest that is not later.
proof fn latest_is_greatest(list: Seq<Fact>, at: i64)
    requires
        facts::facts_ordered(list),
    ensures
        match facts::latest_fact(list, at) {
            Some(fact) => list.contains(fact) && fact.timestamp <= at && forall|other: Fact|
                #[trigger] list.contains(other) && other.timestamp <= at ==> other.timestamp
                    <= fact.timestamp,
            None => forall|other: Fact| #[trigger] list.contains(other) ==> at < other.timestamp,
        },
    decreases list.len(),
{
    if list.len() > 0 {
        let front = list.drop_last();
        let last = list.last();
        assert(list[list.len() - 1] == last);
        assert forall|i: int, j: int| 0 <= i < j < front.len() implies (
        #[trigger] front[i]).timestamp < (#[trigger] front[j]).timestamp by {
            assert(list[i].timestamp < list[j].timestamp);
        }
        latest_is_greatest(front, at);
        assert forall|other: Fact| #[trigger] list.contains(other) implies other == last || (
        front.contains(other) && other.timestamp < last.timestamp) by {
            let k = choose|k: int| 0 <= k < list.len() && list[k] == other;
            if k < front.len() {
                assert(front[k] == other);
                assert(list[k].timestamp < list[list.len() - 1].timestamp);
            }
        }
        if let Some(fact) = facts::latest_fact(list, at) {
            if last.timestamp > at {
                let k = choose|k: int| 0 <= k < front.len() && front[k] == fact;
                assert(list[k] == fact);
            }
        }
    }
}

/// What is found of a stream by a time is its last value by then.
proof fn found_is_last<S: UnitSource>(
    source: &S,
    units: Seq<UnitMeta>,
    schemas: TailView,
    heads: Option<HeadsView>,
    key: StreamKey,
    time: i64,
)
    requires
        meaning::sound(source, units, schemas, key.table),
        heads matches Some(list) ==> list.valid(),
    ensures
        ({
            let found = primitives::headed(
                facts::latest_fact(
                    meaning::stream_facts(source, units, schemas, key),
                    time,
                ),
                heads,
                key,
                time,
            );
            &&& forall|fact: Fact| #[trigger]
                last_by(source, units, schemas, heads, key, time, fact) ==> found == Some(fact)
            &&& none_by(source, units, schemas, heads, key, time) ==> found is None
            &&& found matches Some(fact) ==> last_by(
                source,
                units,
                schemas,
                heads,
                key,
                time,
                fact,
            )
            &&& found is None ==> none_by(source, units, schemas, heads, key, time)
        }),
{
    let list = meaning::stream_facts(source, units, schemas, key);
    let latest = facts::latest_fact(list, time);
    let found = primitives::headed(latest, heads, key, time);
    meaning::stream_is_in_time_order(source, units, schemas, key);
    latest_is_greatest(list, time);
    assert forall|fact: Fact| #[trigger] written(source, units, schemas, key, fact) == list.contains(
        fact,
    ) by {
        written_values(source, units, schemas, key, fact);
    }
    assert forall|fact: Fact| #[trigger]
        kept(heads, key, fact) <==> (heads matches Some(entries) && head::head_of(
            entries.entries,
            key,
        ) matches Some(entry) && entry.fact_ts == fact.timestamp && entry.value
            == fact.value) by {
        kept_is_head(heads, key, fact);
    }
    assert forall|fact: Fact| #[trigger]
        last_by(source, units, schemas, heads, key, time, fact) implies found == Some(fact) by {
        if latest is Some {
            assert(written(source, units, schemas, key, latest->Some_0));
            if written(source, units, schemas, key, fact) {
                same_time(list, fact, latest->Some_0);
            }
        } else {
            assert(!written(source, units, schemas, key, fact));
            assert(kept(heads, key, fact));
        }
    }
    if latest is Some {
        assert(written(source, units, schemas, key, latest->Some_0));
    } else if let Some(fact) = found {
        assert(kept(heads, key, fact));
    } else {
        assert forall|other: Fact|
            (#[trigger] written(source, units, schemas, key, other) || kept(
                heads,
                key,
                other,
            )) implies time < other.timestamp by {}
    }
    if none_by(source, units, schemas, heads, key, time) {
        if let Some(fact) = found {
            assert(written(source, units, schemas, key, fact) || kept(heads, key, fact));
        }
    }
    if let Some(fact) = found {
        assert(fact.timestamp <= time);
        if latest is Some {
            assert(written(source, units, schemas, key, fact));
        } else {
            assert forall|other: Fact| #[trigger]
                written(source, units, schemas, key, other) implies time < other.timestamp by {}
            assert(kept(heads, key, fact));
        }
        assert(last_by(source, units, schemas, heads, key, time, fact));
    } else {
        assert(none_by(source, units, schemas, heads, key, time));
    }
}

proof fn same_time(list: Seq<Fact>, one: Fact, other: Fact)
    requires
        facts::facts_ordered(list),
        list.contains(one),
        list.contains(other),
        one.timestamp == other.timestamp,
    ensures
        one == other,
{
    let i = choose|i: int| 0 <= i < list.len() && list[i] == one;
    let j = choose|j: int| 0 <= j < list.len() && list[j] == other;
    if i < j {
        assert(list[i].timestamp < list[j].timestamp);
    } else if j < i {
        assert(list[j].timestamp < list[i].timestamp);
    }
}

proof fn kept_is_head(heads: Option<HeadsView>, key: StreamKey, fact: Fact)
    requires
        heads matches Some(list) ==> list.valid(),
    ensures
        kept(heads, key, fact) <==> (heads matches Some(list) && head::head_of(
            list.entries,
            key,
        ) matches Some(entry) && entry.fact_ts == fact.timestamp && entry.value == fact.value),
{
    if let Some(list) = heads {
        if kept(heads, key, fact) {
            let h = choose|h: int|
                0 <= h < list.entries.len() && (#[trigger] list.entries[h]).table == key.table
                    && list.entries[h].series == key.series && list.entries[h].field == key.field
                    && list.entries[h].fact_ts == fact.timestamp && list.entries[h].value
                    == fact.value;
            assert(list.entries[h].spec_key() == key);
            head::head_at(list.entries, h);
        }
        if let Some(entry) = head::head_of(list.entries, key) {
            let h = choose|h: int|
                0 <= h < list.entries.len() && (#[trigger] list.entries[h]).spec_key() == key;
            assert(list.entries[h] == entry);
        }
    }
}

/// The version that rules is the one that a value resolves to.
proof fn ruling_version(versions: Seq<VersionView>, key: StreamKey, time: i64, at: int)
    requires
        rules(versions, at, time),
        declares(versions[at], key),
    ensures
        contract::resolved(versions, key.field, time) matches Ok(found) && found.version
            == versions[at],
{
    contract::active_count_facts(versions, time, 0);
    let count = contract::active_count(versions, time, 0);
    if count <= at {
        assert(contract::active_at(versions[count], time));
    } else if at + 1 < count {
        assert(contract::active_at(versions[at + 1], time));
    }
    let f = choose|f: int|
        0 <= f < versions[at].fields.len() && (#[trigger] versions[at].fields[f]).field
            == key.field;
    assert(types::has_field(versions[at].fields, key.field));
}

/// The retirement that hides values of a stream is its last one.
proof fn last_retirement(table: TailTableView, key: StreamKey)
    requires
        table.wf(),
    ensures
        match table.cutoff(facts::spec_stream(key)) {
            Some(cutoff) => retires(table, key, cutoff) && forall|other: i64| #[trigger]
                retires(table, key, other) ==> other <= cutoff,
            None => forall|other: i64| !#[trigger] retires(table, key, other),
        },
{
    assert forall|i: int, j: int|
        0 <= i < table.retired_series.len() && 0 <= j < table.retired_series.len() && (
        #[trigger] table.retired_series[i]).series == (#[trigger] table.retired_series[j]).series
        implies i == j by {
        if i < j {
            assert(table.retired_series[i].series.value < table.retired_series[j].series.value);
        } else if j < i {
            assert(table.retired_series[j].series.value < table.retired_series[i].series.value);
        }
    }
    assert forall|i: int, j: int|
        0 <= i < table.retired_fields.len() && 0 <= j < table.retired_fields.len() && (
        #[trigger] table.retired_fields[i]).field == (#[trigger] table.retired_fields[j]).field
        implies i == j by {
        if i < j {
            assert(table.retired_fields[i].field.value < table.retired_fields[j].field.value);
        } else if j < i {
            assert(table.retired_fields[j].field.value < table.retired_fields[i].field.value);
        }
    }
}

/// Whether every value that a stream can show by a time was written under a version that has its
/// field.
pub open spec fn explained<S: UnitSource>(
    source: &S,
    units: Seq<UnitMeta>,
    schemas: TailView,
    heads: Option<HeadsView>,
    key: StreamKey,
    time: i64,
) -> bool {
    let versions = schemas.tables[key.table].versions;
    forall|fact: Fact| #[trigger]
        last_by(source, units, schemas, heads, key, time, fact) ==> exists|v: int| #[trigger]
            rules(versions, v, fact.timestamp) && declares(versions[v], key)
}

/// Whether keys can be looked up in a store: their tables are known and sound, and the latest version
/// of each has the field.
pub open spec fn asked_well<S: UnitSource>(
    source: &S,
    units: Seq<UnitMeta>,
    schemas: TailView,
    keys: Seq<StreamKey>,
) -> bool {
    forall|k: int|
        0 <= k < keys.len() ==> {
            let key = #[trigger] keys[k];
            &&& schemas.tables.contains_key(key.table)
            &&& declares(schemas.tables[key.table].versions.last(), key)
            &&& meaning::sound(source, units, schemas, key.table)
        }
}

proof fn keys_accepted<S: UnitSource>(
    source: &S,
    units: Seq<UnitMeta>,
    schemas: TailView,
    keys: Seq<StreamKey>,
    count: int,
)
    requires
        asked_well(source, units, schemas, keys),
        0 <= count <= keys.len(),
    ensures
        batch::keys_refusal(schemas, keys, count) is None,
    decreases count,
{
    if count > 0 {
        keys_accepted(source, units, schemas, keys, count - 1);
        let key = keys[count - 1];
        let last = schemas.tables[key.table].versions.last();
        let f = choose|f: int|
            0 <= f < last.fields.len() && (#[trigger] last.fields[f]).field == key.field;
        assert(types::has_field(last.fields, key.field));
    }
}

/// What a stream with a last value amounts to.
proof fn value_amounts<S: UnitSource>(
    source: &S,
    units: Seq<UnitMeta>,
    schemas: TailView,
    heads: Option<HeadsView>,
    keys: Seq<StreamKey>,
    i: int,
    time: i64,
)
    requires
        asked_well(source, units, schemas, keys),
        0 <= i < keys.len(),
        heads matches Some(list) ==> list.valid(),
        explained(source, units, schemas, heads, keys[i], time),
    ensures
        ({
            let table = schemas.tables[keys[i].table];
            let found = primitives::headed(
                facts::latest_fact(
                    meaning::stream_facts(source, units, schemas, keys[i]),
                    time,
                ),
                heads,
                keys[i],
                time,
            );
            let answer = primitives::lookup_of(schemas, keys[i], found, time);
            let slot = primitives::slot_of(schemas, keys[i], found, time);
            &&& answer is Ok
            &&& slot is Ok
            &&& none_by(source, units, schemas, heads, keys[i], time) ==> answer->Ok_0
                == Lookup::Missing && slot->Ok_0 == Slot::Gap
            &&& forall|fact: Fact, v: int|
                #![trigger last_by(source, units, schemas, heads, keys[i], time, fact), rules(table.versions, v, fact.timestamp)]
                last_by(source, units, schemas, heads, keys[i], time, fact) && rules(
                    table.versions,
                    v,
                    fact.timestamp,
                ) ==> {
                    let gone = retired_between(table, keys[i], fact.timestamp, time) || (
                    table.versions[v].validity matches Validity::DurationSeconds(seconds)
                        && fact.timestamp + seconds.value <= time);
                    &&& gone ==> answer->Ok_0 == Lookup::Missing && slot->Ok_0 == Slot::Gap
                    &&& !gone && fact.value == CellValue::Null ==> answer->Ok_0 == (Lookup::Null {
                        at_ts: fact.timestamp,
                    }) && slot->Ok_0 == (Slot::Null {
                        source_ts: fact.timestamp,
                        carried: fact.timestamp != time,
                    })
                    &&& !gone && fact.value != CellValue::Null ==> answer->Ok_0 == (
                    Lookup::Value { value: fact.value, at_ts: fact.timestamp }) && slot->Ok_0 == (
                    Slot::Value {
                        value: fact.value,
                        source_ts: fact.timestamp,
                        carried: fact.timestamp != time,
                    })
                }
        }),
{
    let key = keys[i];
    let table = schemas.tables[key.table];
    let found = primitives::headed(
        facts::latest_fact(meaning::stream_facts(source, units, schemas, key), time),
        heads,
        key,
        time,
    );
    assert(meaning::sound(source, units, schemas, key.table));
    keys_accepted(source, units, schemas, keys, keys.len() as int);
    primitives::accepted_keys(schemas, keys, i);
    found_is_last(source, units, schemas, heads, key, time);
    last_retirement(table, key);
    if let Some(fact) = found {
        assert(last_by(source, units, schemas, heads, key, time, fact));
        let w = choose|w: int| #[trigger]
            rules(table.versions, w, fact.timestamp) && declares(table.versions[w], key);
        ruling_version(table.versions, key, fact.timestamp, w);
        let cutoff = table.cutoff(facts::spec_stream(key));
        assert(retired_between(table, key, fact.timestamp, time) <==> (cutoff matches Some(ts)
            && fact.timestamp <= ts < time)) by {
            if let Some(ts) = cutoff {
                assert(retires(table, key, ts));
            }
            if retired_between(table, key, fact.timestamp, time) {
                let ts = choose|ts: i64| #[trigger]
                    retires(table, key, ts) && fact.timestamp <= ts < time && forall|other: i64|
                        #[trigger] retires(table, key, other) ==> other <= ts;
                assert(cutoff is Some);
            }
        }
        assert forall|v: int| #[trigger] rules(table.versions, v, fact.timestamp) implies v == w by {
            if v < w {
                assert(table.versions[v + 1].effective_from matches Some(from) && from
                    <= fact.timestamp);
            } else if w < v {
                assert(table.versions[w + 1].effective_from matches Some(from) && from
                    <= fact.timestamp);
            }
        }
    }
}

/// What lookups of keys at a time answer, key by key. A stream without a value by then is missing.
/// Otherwise its last value by then counts: it is answered with its time, a null as a null and every
/// other value as itself, as long as it lasts under the version that ruled when it was written and
/// the stream was not retired since. A value lasts from its time on for as many seconds as the
/// version says, and no longer.
pub proof fn lookups_answer_the_last_value<S: UnitSource>(
    source: &S,
    units: Seq<UnitMeta>,
    schemas: TailView,
    heads: Option<HeadsView>,
    keys: Seq<StreamKey>,
    at: Option<i64>,
    r: Result<Vec<Lookup>>,
    i: int,
    time: i64,
)
    requires
        error::lists(r, primitives::lookups(source, units, schemas, heads, keys, at)),
        asked_well(source, units, schemas, keys),
        heads matches Some(list) ==> list.valid(),
        keys.len() * vstd::layout::size_of::<Lookup>() <= 16_777_216,
        forall|k: int|
            0 <= k < keys.len() ==> {
                let key = #[trigger] keys[k];
                match at {
                    Some(time) => explained(source, units, schemas, heads, key, time),
                    None => schemas.tables[key.table].last_ts matches Some(time) ==> explained(
                        source,
                        units,
                        schemas,
                        heads,
                        key,
                        time,
                    ),
                }
            },
        0 <= i < keys.len(),
    ensures
        r matches Ok(list) && list@.len() == keys.len(),
        at is None && schemas.tables[keys[i].table].last_ts is None ==> r->Ok_0@[i]
            == Lookup::Missing,
        at == Some(time) || (at is None && schemas.tables[keys[i].table].last_ts == Some(time))
            ==> {
            let table = schemas.tables[keys[i].table];
            let answer = r->Ok_0@[i];
            &&& none_by(source, units, schemas, heads, keys[i], time) ==> answer == Lookup::Missing
            &&& forall|fact: Fact, v: int|
                #![trigger last_by(source, units, schemas, heads, keys[i], time, fact), rules(table.versions, v, fact.timestamp)]
                last_by(source, units, schemas, heads, keys[i], time, fact) && rules(
                    table.versions,
                    v,
                    fact.timestamp,
                ) ==> {
                    let gone = retired_between(table, keys[i], fact.timestamp, time) || (
                    table.versions[v].validity matches Validity::DurationSeconds(seconds)
                        && fact.timestamp + seconds.value <= time);
                    &&& gone ==> answer == Lookup::Missing
                    &&& !gone && fact.value == CellValue::Null ==> answer == (Lookup::Null {
                        at_ts: fact.timestamp,
                    })
                    &&& !gone && fact.value != CellValue::Null ==> answer == (Lookup::Value {
                        value: fact.value,
                        at_ts: fact.timestamp,
                    })
                }
        },
{
    keys_accepted(source, units, schemas, keys, keys.len() as int);
    assert forall|k: int| 0 <= k < keys.len() implies meaning::sound(
        source,
        units,
        schemas,
        (#[trigger] keys[k]).table,
    ) && recall::recalled(source, units, schemas, heads, keys[k], at) is Ok by {
        match at {
            Some(time) => value_amounts(source, units, schemas, heads, keys, k, time),
            None => if let Some(time) = schemas.tables[keys[k].table].last_ts {
                value_amounts(source, units, schemas, heads, keys, k, time);
            },
        }
    }
    assert(keys.len() * vstd::layout::size_of::<Lookup>() <= usize::MAX);
    recall::lookups_recall_each_stream(source, units, schemas, heads, keys, at);
    if at == Some(time) || (at is None && schemas.tables[keys[i].table].last_ts == Some(time)) {
        value_amounts(source, units, schemas, heads, keys, i, time);
    }
}

/// What a sampling has, slot by slot. It has one slot for every key and every step of the range, and
/// each slot has at its time what a lookup says there. A value is carried exactly if it is from
/// before its slot.
pub proof fn samples_show_the_last_value<S: UnitSource>(
    source: &S,
    units: Seq<UnitMeta>,
    schemas: TailView,
    heads: Option<HeadsView>,
    keys: Seq<StreamKey>,
    start: i64,
    end: i64,
    step: u32,
    count: int,
    r: Result<Vec<Vec<Slot>>>,
    i: int,
    j: int,
)
    requires
        sample::slot_lists(
            r,
            sample::samples(source, units, schemas, heads, keys, start, end, step),
        ),
        asked_well(source, units, schemas, keys),
        heads matches Some(list) ==> list.valid() && list.floor <= start,
        forall|k: int|
            0 <= k < keys.len() ==> meaning::plan_fits(source, units, (#[trigger] keys[k]).table),
        step > 0,
        start <= end,
        0 <= count,
        start == end ==> count == 0,
        start < end ==> count > 0 && start + (count - 1) * step < end && end <= start + count
            * step,
        count * keys.len() <= 1_048_576,
        count * keys.len() * vstd::layout::size_of::<Slot>() <= 16_777_216,
        forall|k: int, n: int|
            #![trigger keys[k], sample::grid_time(start, step, n)]
            0 <= k < keys.len() && 0 <= n < count ==> explained(
                source,
                units,
                schemas,
                heads,
                keys[k],
                (start + n * step) as i64,
            ),
        0 <= i < keys.len(),
    ensures
        r matches Ok(lists) && lists@.len() == keys.len() && lists@[i]@.len() == count,
        0 <= j < count ==> {
            let time = (start + j * step) as i64;
            let table = schemas.tables[keys[i].table];
            let slot = r->Ok_0@[i]@[j];
            &&& time == start + j * step
            &&& none_by(source, units, schemas, heads, keys[i], time) ==> slot == Slot::Gap
            &&& forall|fact: Fact, v: int|
                #![trigger last_by(source, units, schemas, heads, keys[i], time, fact), rules(table.versions, v, fact.timestamp)]
                last_by(source, units, schemas, heads, keys[i], time, fact) && rules(
                    table.versions,
                    v,
                    fact.timestamp,
                ) ==> {
                    let gone = retired_between(table, keys[i], fact.timestamp, time) || (
                    table.versions[v].validity matches Validity::DurationSeconds(seconds)
                        && fact.timestamp + seconds.value <= time);
                    &&& gone ==> slot == Slot::Gap
                    &&& !gone && fact.value == CellValue::Null ==> slot == (Slot::Null {
                        source_ts: fact.timestamp,
                        carried: fact.timestamp != time,
                    })
                    &&& !gone && fact.value != CellValue::Null ==> slot == (Slot::Value {
                        value: fact.value,
                        source_ts: fact.timestamp,
                        carried: fact.timestamp != time,
                    })
                }
        },
{
    assert(count <= count * keys.len()) by (nonlinear_arith)
        requires
            keys.len() >= 1,
            count >= 0,
    ;
    slots_counted(start, end, step, count);
    keys_accepted(source, units, schemas, keys, keys.len() as int);
    assert forall|k: int, n: int|
        #![trigger keys[k], sample::grid_time(start, step, n)]
        0 <= k < keys.len() && 0 <= n < count implies resample::resampled(
        source,
        units,
        schemas,
        heads,
        keys[k],
        sample::grid_time(start, step, n)->Ok_0,
    ) is Ok by {
        sample::grid_covers_its_range(start, end, step, n);
        value_amounts(source, units, schemas, heads, keys, k, (start + n * step) as i64);
    }
    assert forall|k: int| 0 <= k < keys.len() implies meaning::sound(
        source,
        units,
        schemas,
        (#[trigger] keys[k]).table,
    ) && meaning::plan_fits(source, units, keys[k].table) by {}
    resample::samples_recall_each_time(source, units, schemas, heads, keys, start, end, step);
    let views = sample::samples(source, units, schemas, heads, keys, start, end, step)->Ok_0;
    assert(r->Ok_0@.map_values(|list: Vec<Slot>| list@)[i] == views[i]);
    assert(r->Ok_0@.map_values(|list: Vec<Slot>| list@).len() == r->Ok_0@.len());
    if 0 <= j < count {
        sample::grid_covers_its_range(start, end, step, j);
        assert(keys[i] == keys[i]);
        assert(sample::grid_time(start, step, j) is Ok);
        value_amounts(source, units, schemas, heads, keys, i, (start + j * step) as i64);
    }
}

/// The number of slots is the number of steps that begin in the range.
proof fn slots_counted(start: i64, end: i64, step: u32, count: int)
    requires
        step > 0,
        start <= end,
        0 <= count <= 1_048_576,
        start == end ==> count == 0,
        start < end ==> count > 0 && start + (count - 1) * step < end && end <= start + count
            * step,
    ensures
        sample::grid_slots(start, end, step) == Ok::<int, Error>(count),
{
    if start < end {
        let span = end - start;
        let s = step as int;
        assert((count - 1) * s < span <= count * s);
        assert(span + s - 1 == count * s + (span - (count - 1) * s - 1)) by (nonlinear_arith);
        assert(0 <= span - (count - 1) * s - 1 < s) by (nonlinear_arith)
            requires
                (count - 1) * s < span <= count * s,
        ;
        vstd::arithmetic::div_mod::lemma_fundamental_div_mod_converse(
            span + s - 1,
            s,
            count,
            span - (count - 1) * s - 1,
        );
    }
}

proof fn within_values(list: Seq<Fact>, start: i64, end: i64)
    requires
        facts::facts_ordered(list),
    ensures
        facts::facts_ordered(facts::facts_within(list, start, end)),
        forall|fact: Fact| #[trigger]
            facts::facts_within(list, start, end).contains(fact) <==> list.contains(fact) && start
                <= fact.timestamp < end,
    decreases list.len(),
{
    if list.len() > 0 {
        let front = list.drop_last();
        let last = list.last();
        assert(list[list.len() - 1] == last);
        assert forall|i: int, j: int| 0 <= i < j < front.len() implies (
        #[trigger] front[i]).timestamp < (#[trigger] front[j]).timestamp by {
            assert(list[i].timestamp < list[j].timestamp);
        }
        within_values(front, start, end);
        let earlier = facts::facts_within(front, start, end);
        let all = facts::facts_within(list, start, end);
        assert forall|i: int| 0 <= i < earlier.len() implies (#[trigger] earlier[i]).timestamp
            < last.timestamp by {
            assert(earlier.contains(earlier[i]));
            let k = choose|k: int| 0 <= k < front.len() && front[k] == earlier[i];
            assert(list[k].timestamp < list[list.len() - 1].timestamp);
        }
        assert forall|fact: Fact| #[trigger] all.contains(fact) <==> list.contains(fact) && start
            <= fact.timestamp < end by {
            if all.contains(fact) {
                let k = choose|k: int| 0 <= k < all.len() && all[k] == fact;
                if k < earlier.len() {
                    assert(earlier[k] == fact);
                    assert(earlier.contains(fact));
                    let m = choose|m: int| 0 <= m < front.len() && front[m] == fact;
                    assert(list[m] == fact);
                }
            }
            if list.contains(fact) && start <= fact.timestamp < end {
                let m = choose|m: int| 0 <= m < list.len() && list[m] == fact;
                if m < front.len() {
                    assert(front[m] == fact);
                    assert(front.contains(fact));
                    assert(earlier.contains(fact));
                    let k = choose|k: int| 0 <= k < earlier.len() && earlier[k] == fact;
                    assert(all[k] == fact);
                } else {
                    assert(all[all.len() - 1] == fact);
                }
            }
        }
        assert forall|i: int, j: int| 0 <= i < j < all.len() implies (
        #[trigger] all[i]).timestamp < (#[trigger] all[j]).timestamp by {
            if j < earlier.len() {
                assert(earlier[i].timestamp < earlier[j].timestamp);
            } else {
                assert(all[i] == earlier[i]);
            }
        }
    } else {
        assert forall|fact: Fact| !#[trigger] facts::facts_within(list, start, end).contains(
            fact,
        ) by {}
    }
}

proof fn calls_follow(
    states: Seq<CursorView>,
    answers: Seq<Result<Option<Fact>>>,
    list: Seq<Fact>,
    count: int,
)
    requires
        walk::walked(states, answers),
        facts::facts_ordered(list),
        states[0] == (CursorView {
            flow: FactFlow { facts: list, failure: None },
            last_emitted: None,
            failed: false,
        }),
        0 <= count <= answers.len(),
    ensures
        ({
            let done = if count < list.len() {
                count
            } else {
                list.len() as int
            };
            &&& !states[count].failed
            &&& states[count].flow.failure is None
            &&& states[count].flow.facts == list.skip(done)
            &&& states[count].last_emitted == (if done == 0 {
                None
            } else {
                Some(list[done - 1].timestamp)
            })
        }),
        forall|i: int|
            0 <= i < count ==> #[trigger] answers[i] == Ok::<Option<Fact>, Error>(
                if i < list.len() {
                    Some(list[i])
                } else {
                    None
                },
            ),
    decreases count,
{
    if count > 0 {
        calls_follow(states, answers, list, count - 1);
        assert(answers[count - 1] == cursor::advanced(states[count - 1]));
        if count - 1 < list.len() {
            assert(list.skip(count - 1)[0] == list[count - 1]);
            assert(list.skip(count - 1).skip(1) =~= list.skip(count));
            if count > 1 {
                assert(list[count - 2].timestamp < list[count - 1].timestamp);
            }
        } else {
            assert(list.skip(list.len() as int).len() == 0);
        }
    } else {
        assert(list.skip(0) =~= list);
    }
}

/// What the calls of a walk over a stream give. None fails. What they give was written, lies in the
/// range and comes in time order, and a call gives nothing, or something later, only after everything
/// earlier was given.
pub proof fn walks_give_what_was_written<S: UnitSource>(
    source: &S,
    units: Seq<UnitMeta>,
    schemas: TailView,
    key: StreamKey,
    start: i64,
    end: i64,
    states: Seq<CursorView>,
    answers: Seq<Result<Option<Fact>>>,
    n: int,
)
    requires
        asked_well(source, units, schemas, seq![key]),
        meaning::plan_fits(source, units, key.table),
        start <= end,
        walk::walked(states, answers),
        cursor::stream_flow(source, units, schemas, key, start, end) matches Ok(flow) ==> states[0]
            == (CursorView { flow, last_emitted: None, failed: false }),
        0 <= n < answers.len(),
    ensures
        cursor::stream_flow(source, units, schemas, key, start, end) is Ok,
        answers[n] is Ok,
        answers[n] matches Ok(Some(fact)) ==> {
            &&& written(source, units, schemas, key, fact)
            &&& start <= fact.timestamp < end
            &&& forall|other: Fact| #[trigger]
                written(source, units, schemas, key, other) && start <= other.timestamp
                    < fact.timestamp ==> exists|i: int|
                    0 <= i < n && #[trigger] answers[i] == Ok::<Option<Fact>, Error>(Some(other))
        },
        answers[n] == Ok::<Option<Fact>, Error>(None) ==> forall|other: Fact| #[trigger]
            written(source, units, schemas, key, other) && start <= other.timestamp < end
                ==> exists|i: int|
                0 <= i < n && #[trigger] answers[i] == Ok::<Option<Fact>, Error>(Some(other)),
        answers[n] matches Ok(Some(fact)) ==> forall|i: int|
            0 <= i < n ==> ((#[trigger] answers[i]) matches Ok(Some(earlier)) && earlier.timestamp
                < fact.timestamp),
{
    let own = seq![key];
    assert(own[0] == key);
    assert(meaning::sound(source, units, schemas, own[0].table));
    keys_accepted(source, units, schemas, own, 1);
    primitives::accepted_keys(schemas, own, 0);
    let all = meaning::stream_facts(source, units, schemas, key);
    let list = facts::facts_within(all, start, end);
    meaning::scan_delivers_the_stream(source, units, schemas, key, start, end);
    meaning::stream_is_in_time_order(source, units, schemas, key);
    within_values(all, start, end);
    calls_follow(states, answers, list, n + 1);
    assert(answers[n] == answers[n]);
    assert forall|fact: Fact| #[trigger] written(source, units, schemas, key, fact) == all.contains(
        fact,
    ) by {
        written_values(source, units, schemas, key, fact);
    }
    if n < list.len() {
        assert(list.contains(list[n]));
        assert(all.contains(list[n]));
        assert(written(source, units, schemas, key, list[n]));
    }
    assert forall|other: Fact|
        #[trigger] written(source, units, schemas, key, other) && start <= other.timestamp < end
            && (n < list.len() ==> other.timestamp < list[n].timestamp) implies exists|i: int|
        0 <= i < n && #[trigger] answers[i] == Ok::<Option<Fact>, Error>(Some(other)) by {
        assert(list.contains(other));
        let i = choose|i: int| 0 <= i < list.len() && list[i] == other;
        if n < list.len() && n <= i {
            if n < i {
                assert(list[n].timestamp < list[i].timestamp);
            }
        }
        assert(answers[i] == Ok::<Option<Fact>, Error>(Some(other)));
    }
    assert forall|i: int| 0 <= i < n && n < list.len() implies ((
    #[trigger] answers[i]) matches Ok(Some(earlier)) && earlier.timestamp < list[n].timestamp) by {
        assert(list[i].timestamp < list[n].timestamp);
    }
}

/// The predecessor of a time is the last value that was written by then, and there is none only where
/// none was.
pub proof fn predecessors_are_the_last_written<S: UnitSource>(
    source: &S,
    units: Seq<UnitMeta>,
    schemas: TailView,
    key: StreamKey,
    at: i64,
    r: Result<Option<Fact>>,
)
    requires
        asked_well(source, units, schemas, seq![key]),
        match batch::predecessors_of(source, units, schemas, seq![key], at) {
            Ok(list) => r == Ok::<Option<Fact>, Error>(list[0]),
            Err(e) => r == Err::<Option<Fact>, Error>(e),
        },
    ensures
        r is Ok,
        r matches Ok(Some(fact)) ==> written(source, units, schemas, key, fact) && fact.timestamp
            <= at && forall|other: Fact| #[trigger]
            written(source, units, schemas, key, other) && other.timestamp <= at
                ==> other.timestamp <= fact.timestamp,
        r == Ok::<Option<Fact>, Error>(None) ==> forall|other: Fact| #[trigger]
            written(source, units, schemas, key, other) ==> at < other.timestamp,
{
    let own = seq![key];
    assert(own.len() == 1 && own[0] == key);
    assert(meaning::sound(source, units, schemas, own[0].table));
    keys_accepted(source, units, schemas, own, 1);
    assert(batch::group_refusal(schemas, own[0].table, own) is None);
    recall::search_finds_last_values(source, units, schemas, own, at);
    found_is_last(source, units, schemas, None, key, at);
    let latest = facts::latest_fact(meaning::stream_facts(source, units, schemas, key), at);
    if let Some(fact) = latest {
        assert(last_by(source, units, schemas, None, key, at, fact));
    } else {
        assert(none_by(source, units, schemas, None, key, at));
    }
}

/// A snapshot refuses exactly the times below its floor and the ranges that are turned around or begin
/// below it. Everything else is answered as it would be without a floor.
pub proof fn snapshots_refuse_only_below_the_floor<T>(
    floor: Option<i64>,
    start: i64,
    end: i64,
    otherwise: Result<T>,
)
    ensures
        ({
            let point = snapshot::unless(snapshot::point_refusal(floor, start), otherwise);
            let range = snapshot::unless(snapshot::range_refusal(floor, start, end), otherwise);
            &&& (floor matches Some(least) && start < least) ==> (point matches Err(
                Error::InvalidArgument(detail),
            ) && detail.argument == "timestamp" && detail.reason
                == "query is below retention floor")
            &&& (floor matches Some(least) ==> least <= start) ==> point == otherwise
            &&& start > end ==> (range matches Err(Error::InvalidArgument(detail))
                && detail.argument == "range" && detail.reason == "range is inverted")
            &&& start <= end ==> range == point
        }),
{
}

/// A batch that asks for a stream of an unknown table, or of a field that the newest schema of its
/// table does not have, is refused as a whole, whatever else it asks for.
pub proof fn unknown_streams_are_refused<S: UnitSource>(
    source: &S,
    units: Seq<UnitMeta>,
    schemas: TailView,
    heads: Option<HeadsView>,
    keys: Seq<StreamKey>,
    at: Option<i64>,
    start: i64,
    end: i64,
    step: u32,
    k: int,
)
    requires
        0 <= k < keys.len(),
        !schemas.tables.contains_key(keys[k].table) || !declares(
            schemas.tables[keys[k].table].versions.last(),
            keys[k],
        ),
    ensures
        primitives::lookups(source, units, schemas, heads, keys, at) matches Err(
            Error::InvalidArgument(_),
        ),
        sample::samples(source, units, schemas, heads, keys, start, end, step) matches Err(
            Error::InvalidArgument(_),
        ),
{
    batch::keys_refusal_is_final(schemas, keys, k + 1);
    keys_refused(schemas, keys, k + 1);
    let last = schemas.tables[keys[k].table].versions.last();
    if types::has_field(last.fields, keys[k].field) {
        let f = choose|f: int|
            0 <= f < last.fields.len() && (#[trigger] last.fields[f]).field == keys[k].field;
        assert(last.fields[f].field == keys[k].field);
    }
    assert(facts::key_refusal(schemas, keys[k]) is Some);
}

proof fn keys_refused(schemas: TailView, keys: Seq<StreamKey>, count: int)
    requires
        0 <= count <= keys.len(),
    ensures
        batch::keys_refusal(schemas, keys, count) matches Some(e) ==> e is InvalidArgument,
    decreases count,
{
    if count > 0 {
        keys_refused(schemas, keys, count - 1);
    }
}

/// Samples whose range is inverted or whose step is zero are refused, and so are those with more
/// than a million slots.
pub proof fn unbounded_samples_are_refused<S: UnitSource>(
    source: &S,
    units: Seq<UnitMeta>,
    schemas: TailView,
    heads: Option<HeadsView>,
    keys: Seq<StreamKey>,
    start: i64,
    end: i64,
    step: u32,
)
    ensures
        start > end || step == 0 ==> sample::samples(
            source,
            units,
            schemas,
            heads,
            keys,
            start,
            end,
            step,
        ) is Err,
        start + 1_048_576 * step < end && keys.len() > 0 ==> sample::samples(
            source,
            units,
            schemas,
            heads,
            keys,
            start,
            end,
            step,
        ) is Err,
{
    if start + 1_048_576 * step < end && keys.len() > 0 && step > 0 {
        let count = (end - start + step - 1) / step as int;
        let wide = step as int;
        let room = end - start;
        assert(count > 1_048_576) by (nonlinear_arith)
            requires
                wide > 0,
                room > 1_048_576 * wide,
                count == (room + wide - 1) / wide,
        ;
        assert(count * keys.len() >= count) by (nonlinear_arith)
            requires
                count > 0,
                keys.len() >= 1,
        ;
    }
}

} // verus!
