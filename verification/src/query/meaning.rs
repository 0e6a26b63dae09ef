//! What a database holds of a stream, and that every query answers by it.
//!
//! A store is sound if its sections tell one history: they follow each other in time, hold what
//! their directory says, and precede the tail. Of a sound store all values of a stream form one
//! sequence in time order. A walk delivers the part of it that lies in its range, a lookup finds its
//! last value, and a sampling finds its last value at every time of the grid.
use vstd::prelude::*;

use super::cursor::{self, FactFlow};
use super::facts::{self, Fact};
use super::plan::{self, PlannedSection};
use crate::error::Error;
use crate::limits;
use crate::manifest::catalog::UnitMeta;
use crate::tail::{self, Stream, TailView};
use crate::types::{CellValue, StreamKey, TableId, VersionView};
use crate::unit::{self, ColumnView, SectionView, TableDirectoryEntry, UnitSource};

verus! {

/// The sections of a table in one unit.
pub open spec fn unit_plan<S: UnitSource>(source: &S, unit: UnitMeta, table: TableId) -> Seq<
    PlannedSection,
> {
    source.directory(unit, table)->Ok_0.map_values(
        |section: TableDirectoryEntry| PlannedSection { unit, section },
    )
}

/// The sections of a table in the first `count` units.
pub open spec fn all_sections<S: UnitSource>(
    source: &S,
    units: Seq<UnitMeta>,
    table: TableId,
    count: int,
) -> Seq<PlannedSection>
    decreases count,
{
    if count <= 0 {
        Seq::empty()
    } else {
        all_sections(source, units, table, count - 1) + unit_plan(source, units[count - 1], table)
    }
}

/// The rows that a section holds.
pub open spec fn section_rows<S: UnitSource>(
    source: &S,
    versions: Seq<VersionView>,
    planned: PlannedSection,
) -> SectionView {
    source.rows_of(
        planned.unit,
        planned.section,
        facts::version_numbered(versions, planned.section.version_no)->Some_0,
    )->Ok_0
}

pub open spec fn has_column(columns: Seq<ColumnView>, stream: Stream) -> bool {
    exists|i: int| 0 <= i < columns.len() && (#[trigger] columns[i]).stream == stream
}

/// The values of a stream in some rows.
pub open spec fn rows_facts(rows: SectionView, stream: Stream) -> Seq<Fact> {
    if has_column(rows.columns, stream) {
        let at = choose|i: int|
            0 <= i < rows.columns.len() && (#[trigger] rows.columns[i]).stream == stream;
        facts::column_facts(rows.timestamps, rows.columns[at].cells)
    } else {
        Seq::empty()
    }
}

/// The values of a stream in the first `count` sections.
pub open spec fn sealed_facts<S: UnitSource>(
    source: &S,
    versions: Seq<VersionView>,
    sections: Seq<PlannedSection>,
    stream: Stream,
    count: int,
) -> Seq<Fact>
    decreases count,
{
    if count <= 0 {
        Seq::empty()
    } else {
        sealed_facts(source, versions, sections, stream, count - 1) + rows_facts(
            section_rows(source, versions, sections[count - 1]),
            stream,
        )
    }
}

/// Every value of a stream, first the sealed ones, then those of the tail.
pub open spec fn stream_facts<S: UnitSource>(
    source: &S,
    units: Seq<UnitMeta>,
    schemas: TailView,
    key: StreamKey,
) -> Seq<Fact> {
    let table = schemas.tables[key.table];
    let all = all_sections(source, units, key.table, units.len() as int);
    sealed_facts(source, table.versions, all, facts::spec_stream(key), all.len() as int)
        + facts::tail_facts(table.rows, facts::spec_stream(key))
}

/// Whether a section holds what its directory entry says, and gives out of it what is asked for.
pub open spec fn section_sound<S: UnitSource>(
    source: &S,
    versions: Seq<VersionView>,
    planned: PlannedSection,
) -> bool {
    let section = planned.section;
    let rows = section_rows(source, versions, planned);
    &&& section.min_ts <= section.max_ts
    &&& facts::version_numbered(versions, section.version_no) matches Some(version)
    &&& source.rows_of(planned.unit, section, version) is Ok
    &&& forall|i: int, j: int|
        0 <= i < j < rows.timestamps.len() ==> (#[trigger] rows.timestamps[i]) < (
        #[trigger] rows.timestamps[j])
    &&& forall|i: int|
        0 <= i < rows.timestamps.len() ==> section.min_ts <= #[trigger] rows.timestamps[i]
            <= section.max_ts
    &&& forall|i: int, j: int|
        0 <= i < j < rows.columns.len() ==> (#[trigger] rows.columns[i]).stream != (
        #[trigger] rows.columns[j]).stream
    &&& forall|streams: Seq<Stream>| #[trigger]
        source.streams_of(planned.unit, section, version, streams) == Ok::<SectionView, Error>(
            SectionView {
                timestamps: rows.timestamps,
                columns: unit::columns_of(rows.columns, streams, rows.columns.len() as int),
            },
        )
}

/// Whether the units and the tail tell one history of the table.
pub open spec fn sound<S: UnitSource>(
    source: &S,
    units: Seq<UnitMeta>,
    schemas: TailView,
    table: TableId,
) -> bool {
    let state = schemas.tables[table];
    let all = all_sections(source, units, table, units.len() as int);
    &&& schemas.tables.contains_key(table)
    &&& state.wf()
    &&& plan::units_refusal(units) is None
    &&& forall|i: int|
        0 <= i < units.len() ==> source.directory(#[trigger] units[i], table) is Ok
    &&& forall|i: int|
        0 <= i < all.len() ==> plan::loaded_refusal(
            (#[trigger] all[i]).unit,
            table,
            all[i].section,
        ) is None && section_sound(source, state.versions, all[i])
    &&& forall|i: int, j: int|
        0 <= i < j < all.len() ==> (#[trigger] all[i]).section.max_ts < (
        #[trigger] all[j]).section.min_ts
    &&& forall|i: int|
        0 <= i < all.len() && state.rows.len() > 0 ==> (#[trigger] all[i]).section.max_ts
            < state.rows[0].timestamp
}

/// Whether a plan of every section of the table fits into memory.
pub open spec fn plan_fits<S: UnitSource>(source: &S, units: Seq<UnitMeta>, table: TableId) -> bool {
    let count = all_sections(source, units, table, units.len() as int).len();
    count <= usize::MAX && limits::memory_refusal(
        count as int,
        vstd::layout::size_of::<PlannedSection>() as int,
    ) is None
}

/// The sections of fewer units are the first of those of more units.
pub(crate) proof fn sections_prefix<S: UnitSource>(
    source: &S,
    units: Seq<UnitMeta>,
    table: TableId,
    few: int,
    many: int,
)
    requires
        0 <= few <= many,
    ensures
        all_sections(source, units, table, few).len() <= all_sections(
            source,
            units,
            table,
            many,
        ).len(),
        all_sections(source, units, table, many).take(
            all_sections(source, units, table, few).len() as int,
        ) == all_sections(source, units, table, few),
    decreases many - few,
{
    let short = all_sections(source, units, table, few);
    let long = all_sections(source, units, table, many);
    if few < many {
        sections_prefix(source, units, table, few, many - 1);
        let middle = all_sections(source, units, table, many - 1);
        assert(long.take(short.len() as int) =~= middle.take(short.len() as int));
    } else {
        assert(long.take(short.len() as int) =~= short);
    }
}

/// Where a section of a unit stands among all.
pub(crate) proof fn section_place<S: UnitSource>(
    source: &S,
    units: Seq<UnitMeta>,
    table: TableId,
    unit: int,
    at: int,
)
    requires
        0 <= unit < units.len(),
        source.directory(units[unit], table) is Ok,
        0 <= at < source.directory(units[unit], table)->Ok_0.len(),
    ensures
        ({
            let all = all_sections(source, units, table, units.len() as int);
            let before = all_sections(source, units, table, unit).len();
            &&& before + at < all.len()
            &&& all[before + at] == (PlannedSection {
                unit: units[unit],
                section: source.directory(units[unit], table)->Ok_0[at],
            })
        }),
{
    let all = all_sections(source, units, table, units.len() as int);
    let before = all_sections(source, units, table, unit);
    let here = all_sections(source, units, table, unit + 1);
    sections_prefix(source, units, table, unit + 1, units.len() as int);
    assert(here[before.len() + at] == unit_plan(source, units[unit], table)[at]);
    assert(all.take(here.len() as int)[before.len() + at] == all[before.len() + at]);
}

/// Joined lists have the parts of both in a range.
pub(crate) proof fn within_join(first: Seq<Fact>, second: Seq<Fact>, start: i64, end: i64)
    ensures
        facts::facts_within(first + second, start, end) == facts::facts_within(first, start, end)
            + facts::facts_within(second, start, end),
    decreases second.len(),
{
    let both = first + second;
    if second.len() > 0 {
        within_join(first, second.drop_last(), start, end);
        assert(both.drop_last() =~= first + second.drop_last());
        let earlier = facts::facts_within(second.drop_last(), start, end);
        let front = facts::facts_within(first, start, end);
        assert(front + earlier.push(second.last()) =~= (front + earlier).push(second.last()));
    } else {
        assert(both =~= first);
        assert(facts::facts_within(first, start, end) + Seq::<Fact>::empty()
            =~= facts::facts_within(first, start, end));
    }
}

/// The last value of joined lists is that of the second, or else of the first.
pub(crate) proof fn latest_join(first: Seq<Fact>, second: Seq<Fact>, at: i64)
    ensures
        facts::latest_fact(first + second, at) == (match facts::latest_fact(second, at) {
            Some(fact) => Some(fact),
            None => facts::latest_fact(first, at),
        }),
    decreases second.len(),
{
    let both = first + second;
    if second.len() > 0 {
        latest_join(first, second.drop_last(), at);
        assert(both.drop_last() =~= first + second.drop_last());
    } else {
        assert(both =~= first);
    }
}

/// Values that are all outside a range.
pub(crate) proof fn nothing_within(list: Seq<Fact>, start: i64, end: i64)
    requires
        forall|i: int|
            0 <= i < list.len() ==> !(start <= (#[trigger] list[i]).timestamp && list[i].timestamp
                < end),
    ensures
        facts::facts_within(list, start, end) == Seq::<Fact>::empty(),
    decreases list.len(),
{
    if list.len() > 0 {
        let front = list.drop_last();
        assert forall|i: int| 0 <= i < front.len() implies !(start <= (
        #[trigger] front[i]).timestamp && front[i].timestamp < end) by {
            assert(front[i] == list[i]);
        }
        nothing_within(front, start, end);
        assert(list[list.len() - 1] == list.last());
    }
}

/// Values that are all later.
pub(crate) proof fn nothing_latest(list: Seq<Fact>, at: i64)
    requires
        forall|i: int| 0 <= i < list.len() ==> at < (#[trigger] list[i]).timestamp,
    ensures
        facts::latest_fact(list, at) is None,
    decreases list.len(),
{
    if list.len() > 0 {
        let front = list.drop_last();
        assert forall|i: int| 0 <= i < front.len() implies at < (#[trigger] front[i]).timestamp by {
            assert(front[i] == list[i]);
        }
        nothing_latest(front, at);
        assert(list[list.len() - 1] == list.last());
    }
}

/// The values of a column have times of its rows, in their order.
pub(crate) proof fn cell_facts_times(
    timestamps: Seq<i64>,
    cells: Seq<Option<CellValue>>,
    count: int,
    low: i64,
    high: i64,
)
    requires
        0 <= count <= timestamps.len(),
        forall|i: int, j: int|
            0 <= i < j < timestamps.len() ==> (#[trigger] timestamps[i]) < (
            #[trigger] timestamps[j]),
        forall|i: int| 0 <= i < timestamps.len() ==> low <= #[trigger] timestamps[i] <= high,
    ensures
        ({
            let list = facts::cell_facts(timestamps, cells, count);
            &&& facts::facts_ordered(list)
            &&& forall|i: int|
                0 <= i < list.len() ==> low <= (#[trigger] list[i]).timestamp <= high && exists|
                    r: int,
                |
                    0 <= r < count && (#[trigger] timestamps[r]) == list[i].timestamp
        }),
    decreases count,
{
    let list = facts::cell_facts(timestamps, cells, count);
    if count > 0 {
        cell_facts_times(timestamps, cells, count - 1, low, high);
        let earlier = facts::cell_facts(timestamps, cells, count - 1);
        assert forall|i: int| 0 <= i < list.len() implies low <= (#[trigger] list[i]).timestamp
            <= high && exists|r: int|
            0 <= r < count && (#[trigger] timestamps[r]) == list[i].timestamp by {
            if i < earlier.len() {
                assert(list[i] == earlier[i]);
                let r = choose|r: int|
                    0 <= r < count - 1 && (#[trigger] timestamps[r]) == earlier[i].timestamp;
                assert(0 <= r < count && timestamps[r] == list[i].timestamp);
            } else {
                assert(timestamps[count - 1] == list[i].timestamp);
            }
        }
        assert forall|i: int, j: int| 0 <= i < j < list.len() implies (
        #[trigger] list[i]).timestamp < (#[trigger] list[j]).timestamp by {
            if j < earlier.len() {
                assert(earlier[i].timestamp < earlier[j].timestamp);
            } else {
                assert(list[i] == earlier[i]);
                let r = choose|r: int|
                    0 <= r < count - 1 && (#[trigger] timestamps[r]) == earlier[i].timestamp;
                assert(timestamps[r] < timestamps[count - 1]);
            }
        }
    }
}

/// The values of a stream in a sound section lie in the section's time, in order.
pub(crate) proof fn section_facts_times<S: UnitSource>(
    source: &S,
    versions: Seq<VersionView>,
    planned: PlannedSection,
    stream: Stream,
)
    requires
        section_sound(source, versions, planned),
    ensures
        ({
            let list = rows_facts(section_rows(source, versions, planned), stream);
            &&& facts::facts_ordered(list)
            &&& forall|i: int|
                0 <= i < list.len() ==> planned.section.min_ts <= (#[trigger] list[i]).timestamp
                    <= planned.section.max_ts
        }),
{
    let rows = section_rows(source, versions, planned);
    if has_column(rows.columns, stream) {
        let at = choose|i: int|
            0 <= i < rows.columns.len() && (#[trigger] rows.columns[i]).stream == stream;
        let cells = rows.columns[at].cells;
        let count = if rows.timestamps.len() < cells.len() {
            rows.timestamps.len() as int
        } else {
            cells.len() as int
        };
        cell_facts_times(
            rows.timestamps,
            cells,
            count,
            planned.section.min_ts,
            planned.section.max_ts,
        );
    }
}

/// Asking a section for streams gives the columns of exactly those.
pub(crate) proof fn asked_columns(columns: Seq<ColumnView>, streams: Seq<Stream>, count: int)
    requires
        0 <= count <= columns.len(),
        forall|i: int, j: int|
            0 <= i < j < columns.len() ==> (#[trigger] columns[i]).stream != (
            #[trigger] columns[j]).stream,
    ensures
        ({
            let found = unit::columns_of(columns, streams, count);
            &&& forall|k: int|
                0 <= k < found.len() ==> streams.contains((#[trigger] found[k]).stream) && exists|
                    i: int,
                |
                    0 <= i < count && (#[trigger] columns[i]) == found[k]
            &&& forall|j: int, k: int|
                0 <= j < k < found.len() ==> (#[trigger] found[j]).stream != (
                #[trigger] found[k]).stream
            &&& forall|i: int|
                0 <= i < count && streams.contains((#[trigger] columns[i]).stream)
                    ==> found.contains(columns[i])
        }),
    decreases count,
{
    let found = unit::columns_of(columns, streams, count);
    if count > 0 {
        asked_columns(columns, streams, count - 1);
        let earlier = unit::columns_of(columns, streams, count - 1);
        let last = columns[count - 1];
        assert forall|k: int| 0 <= k < found.len() implies streams.contains(
            (#[trigger] found[k]).stream,
        ) && exists|i: int| 0 <= i < count && (#[trigger] columns[i]) == found[k] by {
            if k < earlier.len() {
                assert(found[k] == earlier[k]);
                let i = choose|i: int|
                    0 <= i < count - 1 && (#[trigger] columns[i]) == earlier[k];
                assert(0 <= i < count && columns[i] == found[k]);
            } else {
                assert(columns[count - 1] == found[k]);
            }
        }
        assert forall|j: int, k: int| 0 <= j < k < found.len() implies (
        #[trigger] found[j]).stream != (#[trigger] found[k]).stream by {
            if k < earlier.len() {
                assert(earlier[j].stream != earlier[k].stream);
            } else {
                assert(found[j] == earlier[j]);
                let i = choose|i: int|
                    0 <= i < count - 1 && (#[trigger] columns[i]) == earlier[j];
                assert(columns[i].stream != columns[count - 1].stream);
            }
        }
        assert forall|i: int|
            0 <= i < count && streams.contains(
                (#[trigger] columns[i]).stream,
            ) implies found.contains(columns[i]) by {
            if i < count - 1 {
                assert(earlier.contains(columns[i]));
                let k = choose|k: int| 0 <= k < earlier.len() && earlier[k] == columns[i];
                assert(found[k] == columns[i]);
            } else {
                assert(found[found.len() - 1] == last);
            }
        }
    }
}

/// The column of a stream is the one whose values are the stream's.
pub(crate) proof fn column_is_stream(rows: SectionView, at: int)
    requires
        0 <= at < rows.columns.len(),
        forall|i: int, j: int|
            0 <= i < j < rows.columns.len() ==> (#[trigger] rows.columns[i]).stream != (
            #[trigger] rows.columns[j]).stream,
    ensures
        rows_facts(rows, rows.columns[at].stream) == facts::column_facts(
            rows.timestamps,
            rows.columns[at].cells,
        ),
{
    let stream = rows.columns[at].stream;
    let i = choose|i: int|
        0 <= i < rows.columns.len() && (#[trigger] rows.columns[i]).stream == stream;
    assert(rows.columns[at].stream == stream);
    if i < at {
        assert(rows.columns[i].stream != rows.columns[at].stream);
    } else if at < i {
        assert(rows.columns[at].stream != rows.columns[i].stream);
    }
}

/// Those of the first `count` sections that hold any time of the range.
pub open spec fn touching(sections: Seq<PlannedSection>, start: i64, end: i64, count: int) -> Seq<
    PlannedSection,
>
    decreases count,
{
    if count <= 0 {
        Seq::empty()
    } else {
        let earlier = touching(sections, start, end, count - 1);
        if plan::touches(sections[count - 1].section, start, end) {
            earlier.push(sections[count - 1])
        } else {
            earlier
        }
    }
}

pub(crate) proof fn touching_facts(sections: Seq<PlannedSection>, start: i64, end: i64, count: int)
    requires
        0 <= count <= sections.len(),
    ensures
        touching(sections, start, end, count).len() <= count,
        forall|k: int|
            0 <= k < touching(sections, start, end, count).len() ==> exists|i: int|
                0 <= i < count && (#[trigger] sections[i]) == #[trigger] touching(
                    sections,
                    start,
                    end,
                    count,
                )[k],
    decreases count,
{
    if count > 0 {
        touching_facts(sections, start, end, count - 1);
        let earlier = touching(sections, start, end, count - 1);
        let list = touching(sections, start, end, count);
        assert forall|k: int| 0 <= k < list.len() implies exists|i: int|
            0 <= i < count && (#[trigger] sections[i]) == #[trigger] list[k] by {
            if k < earlier.len() {
                assert(list[k] == earlier[k]);
                let i = choose|i: int|
                    0 <= i < count - 1 && (#[trigger] sections[i]) == earlier[k];
                assert(0 <= i < count && sections[i] == list[k]);
            } else {
                assert(sections[count - 1] == list[k]);
            }
        }
    }
}

/// Sections that do not touch the range add nothing.
proof fn untouched(sections: Seq<PlannedSection>, start: i64, end: i64, few: int, many: int)
    requires
        0 <= few <= many <= sections.len(),
        forall|i: int|
            few <= i < many ==> !plan::touches((#[trigger] sections[i]).section, start, end),
    ensures
        touching(sections, start, end, many) == touching(sections, start, end, few),
    decreases many - few,
{
    if few < many {
        untouched(sections, start, end, few, many - 1);
        assert(!plan::touches(sections[many - 1].section, start, end));
    }
}

proof fn planned_in_unit<S: UnitSource>(
    source: &S,
    units: Seq<UnitMeta>,
    schemas: TailView,
    table: TableId,
    start: i64,
    end: i64,
    unit: int,
    count: int,
)
    requires
        sound(source, units, schemas, table),
        plan_fits(source, units, table),
        0 <= unit < units.len(),
        0 <= count <= source.directory(units[unit], table)->Ok_0.len(),
    ensures
        ({
            let all = all_sections(source, units, table, units.len() as int);
            let before = all_sections(source, units, table, unit).len() as int;
            &&& before + count <= all.len()
            &&& plan::planned_sections(
                touching(all, start, end, before),
                units[unit],
                table,
                start,
                end,
                source.directory(units[unit], table)->Ok_0,
                count,
            ) == Ok::<Seq<PlannedSection>, Error>(touching(all, start, end, before + count))
        }),
    decreases count,
{
    let all = all_sections(source, units, table, units.len() as int);
    let before = all_sections(source, units, table, unit).len() as int;
    if count > 0 {
        planned_in_unit(source, units, schemas, table, start, end, unit, count - 1);
        section_place(source, units, table, unit, count - 1);
        let list = touching(all, start, end, before + count - 1);
        let here = all[before + count - 1];
        touching_facts(all, start, end, before + count - 1);
        assert(section_sound(source, schemas.tables[table].versions, here));
        if list.len() > 0 {
            let last = list.len() - 1;
            assert(list[last] == list.last());
            let i = choose|i: int|
                0 <= i < before + count - 1 && (#[trigger] all[i]) == list[last];
            assert(section_sound(source, schemas.tables[table].versions, all[i]));
            assert(all[i].section.max_ts < here.section.min_ts);
        }
        let size = vstd::layout::size_of::<PlannedSection>() as int;
        assert((list.len() + 1) * size <= all.len() * size) by (nonlinear_arith)
            requires
                list.len() + 1 <= all.len(),
                size >= 0,
        ;
    } else {
        sections_prefix(source, units, table, unit, units.len() as int);
    }
}

proof fn planned_in_units<S: UnitSource>(
    source: &S,
    units: Seq<UnitMeta>,
    schemas: TailView,
    table: TableId,
    start: i64,
    end: i64,
    count: int,
)
    requires
        sound(source, units, schemas, table),
        plan_fits(source, units, table),
        0 <= count <= units.len(),
    ensures
        plan::planned_units(source, units, table, start, end, count) == Ok::<
            Seq<PlannedSection>,
            Error,
        >(
            touching(
                all_sections(source, units, table, units.len() as int),
                start,
                end,
                all_sections(source, units, table, count).len() as int,
            ),
        ),
    decreases count,
{
    let all = all_sections(source, units, table, units.len() as int);
    if count > 0 {
        planned_in_units(source, units, schemas, table, start, end, count - 1);
        let unit = units[count - 1];
        let sections = source.directory(unit, table)->Ok_0;
        let before = all_sections(source, units, table, count - 1).len() as int;
        let after = all_sections(source, units, table, count).len() as int;
        assert(after == before + sections.len());
        sections_prefix(source, units, table, count, units.len() as int);
        if unit.min_ts >= end || unit.max_ts < start {
            assert forall|i: int| before <= i < after implies !plan::touches(
                (#[trigger] all[i]).section,
                start,
                end,
            ) by {
                section_place(source, units, table, count - 1, i - before);
                assert(plan::loaded_refusal(all[i].unit, table, all[i].section) is None);
            }
            untouched(all, start, end, before, after);
        } else {
            planned_in_unit(
                source,
                units,
                schemas,
                table,
                start,
                end,
                count - 1,
                sections.len() as int,
            );
        }
    }
}

/// The plan for a range of a sound store is every section with a time of the range, in order, and
/// no other.
pub proof fn plan_is_what_touches<S: UnitSource>(
    source: &S,
    units: Seq<UnitMeta>,
    schemas: TailView,
    table: TableId,
    start: i64,
    end: i64,
)
    requires
        sound(source, units, schemas, table),
        plan_fits(source, units, table),
        start <= end,
    ensures
        ({
            let all = all_sections(source, units, table, units.len() as int);
            plan::planned(source, units, table, start, end) == Ok::<Seq<PlannedSection>, Error>(
                if start == end {
                    Seq::empty()
                } else {
                    touching(all, start, end, all.len() as int)
                },
            )
        }),
{
    planned_in_units(source, units, schemas, table, start, end, units.len() as int);
}

/// What a section gives of a stream in a range.
proof fn section_gives<S: UnitSource>(
    source: &S,
    units: Seq<UnitMeta>,
    schemas: TailView,
    key: StreamKey,
    start: i64,
    end: i64,
    at: int,
)
    requires
        sound(source, units, schemas, key.table),
        0 <= at < all_sections(source, units, key.table, units.len() as int).len(),
    ensures
        ({
            let planned = all_sections(source, units, key.table, units.len() as int)[at];
            cursor::section_facts(source, schemas, key, start, end, planned) == Ok::<
                Seq<Fact>,
                Error,
            >(
                facts::facts_within(
                    rows_facts(
                        section_rows(source, schemas.tables[key.table].versions, planned),
                        facts::spec_stream(key),
                    ),
                    start,
                    end,
                ),
            )
        }),
{
    let planned = all_sections(source, units, key.table, units.len() as int)[at];
    let versions = schemas.tables[key.table].versions;
    let stream = facts::spec_stream(key);
    assert(plan::loaded_refusal(planned.unit, key.table, planned.section) is None);
    assert(section_sound(source, versions, planned));
    let rows = section_rows(source, versions, planned);
    let streams = seq![stream];
    asked_columns(rows.columns, streams, rows.columns.len() as int);
    let found = unit::columns_of(rows.columns, streams, rows.columns.len() as int);
    assert(streams[0] == stream);
    if found.len() > 1 {
        assert(found[0].stream != found[1].stream);
    }
    if found.len() == 0 {
        assert(!has_column(rows.columns, stream)) by {
            if has_column(rows.columns, stream) {
                let i = choose|i: int|
                    0 <= i < rows.columns.len() && (#[trigger] rows.columns[i]).stream == stream;
                assert(streams.contains(rows.columns[i].stream));
                assert(found.contains(rows.columns[i]));
            }
        }
    } else {
        assert(streams.contains(found[0].stream));
        let i = choose|i: int|
            0 <= i < rows.columns.len() && (#[trigger] rows.columns[i]) == found[0];
        column_is_stream(rows, i);
    }
}

/// The values in a range of the first `count` sections, from those alone that touch it.
pub(crate) open spec fn ranged<S: UnitSource>(
    source: &S,
    versions: Seq<VersionView>,
    sections: Seq<PlannedSection>,
    stream: Stream,
    start: i64,
    end: i64,
    count: int,
) -> Seq<Fact>
    decreases count,
{
    if count <= 0 {
        Seq::empty()
    } else {
        ranged(source, versions, sections, stream, start, end, count - 1) + facts::facts_within(
            rows_facts(section_rows(source, versions, sections[count - 1]), stream),
            start,
            end,
        )
    }
}

/// Sections that do not touch the range have no value in it.
pub(crate) proof fn touching_holds_range<S: UnitSource>(
    source: &S,
    units: Seq<UnitMeta>,
    schemas: TailView,
    table: TableId,
    stream: Stream,
    start: i64,
    end: i64,
    count: int,
)
    requires
        sound(source, units, schemas, table),
        0 <= count <= all_sections(source, units, table, units.len() as int).len(),
    ensures
        ({
            let all = all_sections(source, units, table, units.len() as int);
            let versions = schemas.tables[table].versions;
            let chosen = touching(all, start, end, count);
            ranged(source, versions, chosen, stream, start, end, chosen.len() as int)
                == facts::facts_within(
                sealed_facts(source, versions, all, stream, count),
                start,
                end,
            )
        }),
    decreases count,
{
    let all = all_sections(source, units, table, units.len() as int);
    let versions = schemas.tables[table].versions;
    let chosen = touching(all, start, end, count);
    if count > 0 {
        touching_holds_range(source, units, schemas, table, stream, start, end, count - 1);
        let earlier = touching(all, start, end, count - 1);
        let here = all[count - 1];
        let list = rows_facts(section_rows(source, versions, here), stream);
        within_join(sealed_facts(source, versions, all, stream, count - 1), list, start, end);
        assert(section_sound(source, versions, here));
        if plan::touches(here.section, start, end) {
            assert(chosen == earlier.push(here));
            ranged_prefix(source, versions, earlier, here, stream, start, end, earlier.len() as int);
        } else {
            section_facts_times(source, versions, here, stream);
            nothing_within(list, start, end);
            let before = facts::facts_within(
                sealed_facts(source, versions, all, stream, count - 1),
                start,
                end,
            );
            assert(before + Seq::<Fact>::empty() =~= before);
        }
    }
}

proof fn ranged_prefix<S: UnitSource>(
    source: &S,
    versions: Seq<VersionView>,
    list: Seq<PlannedSection>,
    more: PlannedSection,
    stream: Stream,
    start: i64,
    end: i64,
    count: int,
)
    requires
        0 <= count <= list.len(),
    ensures
        ranged(source, versions, list.push(more), stream, start, end, count) == ranged(
            source,
            versions,
            list,
            stream,
            start,
            end,
            count,
        ),
    decreases count,
{
    if count > 0 {
        ranged_prefix(source, versions, list, more, stream, start, end, count - 1);
        assert(list.push(more)[count - 1] == list[count - 1]);
    }
}

/// A walk over planned sections gives what they have in the range.
proof fn flow_gives<S: UnitSource>(
    source: &S,
    schemas: TailView,
    key: StreamKey,
    start: i64,
    end: i64,
    planned: Seq<PlannedSection>,
    from: int,
    rest: Seq<Fact>,
)
    requires
        0 <= from <= planned.len(),
        forall|i: int|
            0 <= i < planned.len() ==> cursor::section_facts(
                source,
                schemas,
                key,
                start,
                end,
                #[trigger] planned[i],
            ) == Ok::<Seq<Fact>, Error>(
                facts::facts_within(
                    rows_facts(
                        section_rows(source, schemas.tables[key.table].versions, planned[i]),
                        facts::spec_stream(key),
                    ),
                    start,
                    end,
                ),
            ),
    ensures
        ({
            let versions = schemas.tables[key.table].versions;
            let stream = facts::spec_stream(key);
            let flow = cursor::flow_from(source, schemas, key, start, end, planned, from, rest);
            &&& flow.failure is None
            &&& ranged(source, versions, planned, stream, start, end, from) + flow.facts == ranged(
                source,
                versions,
                planned,
                stream,
                start,
                end,
                planned.len() as int,
            ) + rest
        }),
    decreases planned.len() - from,
{
    if from < planned.len() {
        flow_gives(source, schemas, key, start, end, planned, from + 1, rest);
        let versions = schemas.tables[key.table].versions;
        let stream = facts::spec_stream(key);
        let before = ranged(source, versions, planned, stream, start, end, from);
        let list = cursor::section_facts(source, schemas, key, start, end, planned[from])->Ok_0;
        let later = cursor::flow_from(source, schemas, key, start, end, planned, from + 1, rest);
        assert(ranged(source, versions, planned, stream, start, end, from + 1) == before + list);
        assert(before + (list + later.facts) =~= (before + list) + later.facts);
    }
}

/// A walk over a stream of a sound store delivers exactly the stream's values in the range, in
/// order, and ends without a failure.
pub proof fn scan_delivers_the_stream<S: UnitSource>(
    source: &S,
    units: Seq<UnitMeta>,
    schemas: TailView,
    key: StreamKey,
    start: i64,
    end: i64,
)
    requires
        sound(source, units, schemas, key.table),
        plan_fits(source, units, key.table),
        facts::key_refusal(schemas, key) is None,
        start <= end,
    ensures
        cursor::stream_flow(source, units, schemas, key, start, end) == Ok::<FactFlow, Error>(
            FactFlow {
                facts: facts::facts_within(
                    stream_facts(source, units, schemas, key),
                    start,
                    end,
                ),
                failure: None,
            },
        ),
{
    let all = all_sections(source, units, key.table, units.len() as int);
    let table = schemas.tables[key.table];
    let stream = facts::spec_stream(key);
    let sealed = sealed_facts(source, table.versions, all, stream, all.len() as int);
    let tail = facts::tail_facts(table.rows, stream);
    let rest = facts::facts_within(tail, start, end);
    plan_is_what_touches(source, units, schemas, key.table, start, end);
    let planned = plan::planned(source, units, key.table, start, end)->Ok_0;
    touching_facts(all, start, end, all.len() as int);
    within_join(sealed, tail, start, end);
    assert forall|i: int| 0 <= i < planned.len() implies cursor::section_facts(
        source,
        schemas,
        key,
        start,
        end,
        #[trigger] planned[i],
    ) == Ok::<Seq<Fact>, Error>(
        facts::facts_within(
            rows_facts(section_rows(source, table.versions, planned[i]), stream),
            start,
            end,
        ),
    ) by {
        let at = choose|at: int| 0 <= at < all.len() && (#[trigger] all[at]) == planned[i];
        section_gives(source, units, schemas, key, start, end, at);
    }
    if planned.len() > 0 && table.rows.len() > 0 {
        let last = planned.len() - 1;
        assert(planned[last] == planned.last());
        let at = choose|at: int| 0 <= at < all.len() && (#[trigger] all[at]) == planned[last];
        assert(all[at].section.max_ts < table.rows[0].timestamp);
    }
    flow_gives(source, schemas, key, start, end, planned, 0, rest);
    let flow = cursor::flow_from(source, schemas, key, start, end, planned, 0, rest);
    assert(Seq::<Fact>::empty() + flow.facts =~= flow.facts);
    if start == end {
        nothing_within(sealed, start, end);
        assert(Seq::<Fact>::empty() + rest =~= rest);
    } else {
        touching_holds_range(
            source,
            units,
            schemas,
            key.table,
            stream,
            start,
            end,
            all.len() as int,
        );
    }
}

/// The sealed values of a stream stand in time order, inside the time of their sections.
proof fn sealed_in_order<S: UnitSource>(
    source: &S,
    units: Seq<UnitMeta>,
    schemas: TailView,
    table: TableId,
    stream: Stream,
    count: int,
)
    requires
        sound(source, units, schemas, table),
        0 <= count <= all_sections(source, units, table, units.len() as int).len(),
    ensures
        ({
            let all = all_sections(source, units, table, units.len() as int);
            let list = sealed_facts(source, schemas.tables[table].versions, all, stream, count);
            &&& facts::facts_ordered(list)
            &&& forall|i: int|
                0 <= i < list.len() ==> exists|s: int|
                    0 <= s < count && (#[trigger] list[i]).timestamp <= (
                    #[trigger] all[s]).section.max_ts
        }),
    decreases count,
{
    let all = all_sections(source, units, table, units.len() as int);
    let versions = schemas.tables[table].versions;
    let list = sealed_facts(source, versions, all, stream, count);
    if count > 0 {
        sealed_in_order(source, units, schemas, table, stream, count - 1);
        let earlier = sealed_facts(source, versions, all, stream, count - 1);
        let here = rows_facts(section_rows(source, versions, all[count - 1]), stream);
        section_facts_times(source, versions, all[count - 1], stream);
        assert forall|i: int| 0 <= i < list.len() implies exists|s: int|
            0 <= s < count && (#[trigger] list[i]).timestamp <= (
            #[trigger] all[s]).section.max_ts by {
            if i < earlier.len() {
                assert(list[i] == earlier[i]);
                let s = choose|s: int|
                    0 <= s < count - 1 && earlier[i].timestamp <= (
                    #[trigger] all[s]).section.max_ts;
                assert(0 <= s < count && list[i].timestamp <= all[s].section.max_ts);
            } else {
                assert(list[i] == here[i - earlier.len()]);
                assert(list[i].timestamp <= all[count - 1].section.max_ts);
            }
        }
        assert forall|i: int, j: int| 0 <= i < j < list.len() implies (
        #[trigger] list[i]).timestamp < (#[trigger] list[j]).timestamp by {
            if j < earlier.len() {
                assert(earlier[i].timestamp < earlier[j].timestamp);
            } else if i >= earlier.len() {
                assert(here[i - earlier.len()].timestamp < here[j - earlier.len()].timestamp);
            } else {
                assert(list[i] == earlier[i]);
                assert(list[j] == here[j - earlier.len()]);
                let s = choose|s: int|
                    0 <= s < count - 1 && earlier[i].timestamp <= (
                    #[trigger] all[s]).section.max_ts;
                assert(all[s].section.max_ts < all[count - 1].section.min_ts);
            }
        }
    }
}

/// The values of a stream of a sound store have strictly increasing times.
pub proof fn stream_is_in_time_order<S: UnitSource>(
    source: &S,
    units: Seq<UnitMeta>,
    schemas: TailView,
    key: StreamKey,
)
    requires
        sound(source, units, schemas, key.table),
    ensures
        facts::facts_ordered(stream_facts(source, units, schemas, key)),
{
    let all = all_sections(source, units, key.table, units.len() as int);
    let table = schemas.tables[key.table];
    let stream = facts::spec_stream(key);
    let sealed = sealed_facts(source, table.versions, all, stream, all.len() as int);
    let tail = facts::tail_facts(table.rows, stream);
    let list = stream_facts(source, units, schemas, key);
    sealed_in_order(source, units, schemas, key.table, stream, all.len() as int);
    facts::tail_facts_ordered(table.rows, stream);
    tail::row_indices_facts(table.rows, stream);
    assert forall|i: int, j: int| 0 <= i < j < list.len() implies (
    #[trigger] list[i]).timestamp < (#[trigger] list[j]).timestamp by {
        if j < sealed.len() {
            assert(sealed[i].timestamp < sealed[j].timestamp);
        } else if i >= sealed.len() {
            assert(tail[i - sealed.len()].timestamp < tail[j - sealed.len()].timestamp);
        } else {
            assert(list[i] == sealed[i]);
            assert(list[j] == tail[j - sealed.len()]);
            let row = tail::row_indices(table.rows, stream)[j - sealed.len()];
            let s = choose|s: int|
                0 <= s < all.len() && sealed[i].timestamp <= (#[trigger] all[s]).section.max_ts;
            assert(all[s].section.max_ts < table.rows[0].timestamp);
            assert(table.rows[0].timestamp <= table.rows[row].timestamp);
        }
    }
}

/// A cursor over a sound store never finds its sources out of order: every value that it delivers
/// is later than the one before.
pub proof fn cursor_never_fails<S: UnitSource>(
    source: &S,
    units: Seq<UnitMeta>,
    schemas: TailView,
    key: StreamKey,
    start: i64,
    end: i64,
    delivered: int,
)
    requires
        sound(source, units, schemas, key.table),
        plan_fits(source, units, key.table),
        facts::key_refusal(schemas, key) is None,
        start <= end,
        0 <= delivered <= facts::facts_within(
            stream_facts(source, units, schemas, key),
            start,
            end,
        ).len(),
    ensures
        ({
            let list = facts::facts_within(
                stream_facts(source, units, schemas, key),
                start,
                end,
            );
            cursor::advanced(
                cursor::CursorView {
                    flow: FactFlow { facts: list.skip(delivered), failure: None },
                    last_emitted: if delivered == 0 {
                        None
                    } else {
                        Some(list[delivered - 1].timestamp)
                    },
                    failed: false,
                },
            ) == Ok::<Option<Fact>, Error>(
                if delivered < list.len() {
                    Some(list[delivered])
                } else {
                    None
                },
            )
        }),
{
    let all = stream_facts(source, units, schemas, key);
    stream_is_in_time_order(source, units, schemas, key);
    within_in_order(all, start, end);
}

/// A range of an ordered list is ordered and inside the range.
pub(crate) proof fn within_in_order(list: Seq<Fact>, start: i64, end: i64)
    requires
        facts::facts_ordered(list),
    ensures
        ({
            let part = facts::facts_within(list, start, end);
            &&& facts::facts_ordered(part)
            &&& forall|i: int|
                0 <= i < part.len() ==> start <= (#[trigger] part[i]).timestamp
                    && part[i].timestamp < end && list.contains(part[i])
        }),
    decreases list.len(),
{
    if list.len() > 0 {
        let front = list.drop_last();
        within_in_order(front, start, end);
        let earlier = facts::facts_within(front, start, end);
        let part = facts::facts_within(list, start, end);
        assert forall|i: int| 0 <= i < part.len() implies start <= (
        #[trigger] part[i]).timestamp && part[i].timestamp < end && list.contains(part[i]) by {
            if i < earlier.len() {
                assert(part[i] == earlier[i]);
                let k = choose|k: int| 0 <= k < front.len() && front[k] == earlier[i];
                assert(list[k] == part[i]);
            } else {
                assert(list[list.len() - 1] == part[i]);
            }
        }
        assert forall|i: int, j: int| 0 <= i < j < part.len() implies (
        #[trigger] part[i]).timestamp < (#[trigger] part[j]).timestamp by {
            if j < earlier.len() {
                assert(earlier[i].timestamp < earlier[j].timestamp);
            } else {
                assert(part[i] == earlier[i]);
                let k = choose|k: int| 0 <= k < front.len() && front[k] == earlier[i];
                assert(list[k].timestamp < list[list.len() - 1].timestamp);
            }
        }
    }
}

/// Sections of two lists of units are those of the first and then those of the second.
pub(crate) proof fn sections_join<S: UnitSource>(
    source: &S,
    first: Seq<UnitMeta>,
    later: Seq<UnitMeta>,
    table: TableId,
    count: int,
)
    requires
        0 <= count <= later.len(),
    ensures
        all_sections(source, first + later, table, first.len() + count)
            == all_sections(source, first + later, table, first.len() as int)
            + all_sections(source, later, table, count),
    decreases count,
{
    let units = first + later;
    let begin = all_sections(source, units, table, first.len() as int);
    if count > 0 {
        sections_join(source, first, later, table, count - 1);
        assert(units[first.len() + count - 1] == later[count - 1]);
        let second = all_sections(source, later, table, count - 1);
        let more = unit_plan(source, later[count - 1], table);
        assert((begin + second) + more =~= begin + (second + more));
    } else {
        assert(begin + Seq::<PlannedSection>::empty() =~= begin);
    }
}

/// The values of two lists of sections are those of the first and then those of the second.
pub(crate) proof fn sealed_join<S: UnitSource>(
    source: &S,
    versions: Seq<VersionView>,
    first: Seq<PlannedSection>,
    second: Seq<PlannedSection>,
    stream: Stream,
    count: int,
)
    requires
        0 <= count <= second.len(),
    ensures
        sealed_facts(source, versions, first + second, stream, first.len() + count)
            == sealed_facts(
            source,
            versions,
            first + second,
            stream,
            first.len() as int,
        ) + sealed_facts(source, versions, second, stream, count),
    decreases count,
{
    let both = first + second;
    let a = sealed_facts(source, versions, both, stream, first.len() as int);
    if count > 0 {
        sealed_join(source, versions, first, second, stream, count - 1);
        assert(both[first.len() + count - 1] == second[count - 1]);
        let b = sealed_facts(source, versions, second, stream, count - 1);
        let more = rows_facts(
            section_rows(source, versions, second[count - 1]),
            stream,
        );
        assert((a + b) + more =~= a + (b + more));
    } else {
        assert(a + Seq::<Fact>::empty() =~= a);
    }
}

/// The sections of units do not depend on the units after them.
proof fn sections_alone<S: UnitSource>(
    source: &S,
    first: Seq<UnitMeta>,
    later: Seq<UnitMeta>,
    table: TableId,
    count: int,
)
    requires
        0 <= count <= first.len(),
    ensures
        all_sections(source, first + later, table, count) == all_sections(
            source,
            first,
            table,
            count,
        ),
    decreases count,
{
    if count > 0 {
        sections_alone(source, first, later, table, count - 1);
        assert((first + later)[count - 1] == first[count - 1]);
    }
}

/// The values of sections do not depend on the sections after them.
proof fn sealed_alone<S: UnitSource>(
    source: &S,
    versions: Seq<VersionView>,
    first: Seq<PlannedSection>,
    later: Seq<PlannedSection>,
    stream: Stream,
    count: int,
)
    requires
        0 <= count <= first.len(),
    ensures
        sealed_facts(source, versions, first + later, stream, count) == sealed_facts(
            source,
            versions,
            first,
            stream,
            count,
        ),
    decreases count,
{
    if count > 0 {
        sealed_alone(source, versions, first, later, stream, count - 1);
        assert((first + later)[count - 1] == first[count - 1]);
    }
}

/// The values of a stream in some units.
pub open spec fn units_facts<S: UnitSource>(
    source: &S,
    versions: Seq<VersionView>,
    units: Seq<UnitMeta>,
    table: TableId,
    stream: Stream,
) -> Seq<Fact> {
    let all = all_sections(source, units, table, units.len() as int);
    sealed_facts(source, versions, all, stream, all.len() as int)
}

pub(crate) proof fn units_facts_join<S: UnitSource>(
    source: &S,
    versions: Seq<VersionView>,
    first: Seq<UnitMeta>,
    later: Seq<UnitMeta>,
    table: TableId,
    stream: Stream,
)
    ensures
        units_facts(source, versions, first + later, table, stream) == units_facts(
            source,
            versions,
            first,
            table,
            stream,
        ) + units_facts(source, versions, later, table, stream),
{
    let a = all_sections(source, first, table, first.len() as int);
    let b = all_sections(source, later, table, later.len() as int);
    sections_join(source, first, later, table, later.len() as int);
    sections_alone(source, first, later, table, first.len() as int);
    sealed_join(source, versions, a, b, stream, b.len() as int);
    sealed_alone(source, versions, a, b, stream, a.len() as int);
    assert((first + later).len() == first.len() + later.len());
}

/// Replacing units by others that hold the same values changes no stream.
pub proof fn rewriting_changes_no_stream<S: UnitSource>(
    source: &S,
    schemas: TailView,
    before: Seq<UnitMeta>,
    replaced: Seq<UnitMeta>,
    written: Seq<UnitMeta>,
    after: Seq<UnitMeta>,
    key: StreamKey,
)
    requires
        ({
            let versions = schemas.tables[key.table].versions;
            let stream = facts::spec_stream(key);
            units_facts(source, versions, replaced, key.table, stream) == units_facts(
                source,
                versions,
                written,
                key.table,
                stream,
            )
        }),
    ensures
        stream_facts(source, before + written + after, schemas, key) == stream_facts(
            source,
            before + replaced + after,
            schemas,
            key,
        ),
{
    let versions = schemas.tables[key.table].versions;
    let stream = facts::spec_stream(key);
    units_facts_join(source, versions, before + written, after, key.table, stream);
    units_facts_join(source, versions, before, written, key.table, stream);
    units_facts_join(source, versions, before + replaced, after, key.table, stream);
    units_facts_join(source, versions, before, replaced, key.table, stream);
}

/// Moving the rows of the tail into a new last unit changes no stream.
pub proof fn sealing_changes_no_stream<S: UnitSource>(
    source: &S,
    units: Seq<UnitMeta>,
    written: UnitMeta,
    schemas: TailView,
    emptied: TailView,
    key: StreamKey,
)
    requires
        emptied.tables[key.table].versions == schemas.tables[key.table].versions,
        emptied.tables[key.table].rows.len() == 0,
        units_facts(
            source,
            schemas.tables[key.table].versions,
            seq![written],
            key.table,
            facts::spec_stream(key),
        ) == facts::tail_facts(schemas.tables[key.table].rows, facts::spec_stream(key)),
    ensures
        stream_facts(source, units + seq![written], emptied, key) == stream_facts(
            source,
            units,
            schemas,
            key,
        ),
{
    let versions = schemas.tables[key.table].versions;
    let stream = facts::spec_stream(key);
    units_facts_join(source, versions, units, seq![written], key.table, stream);
    let rest = facts::tail_facts(emptied.tables[key.table].rows, stream);
    tail::row_indices_facts(emptied.tables[key.table].rows, stream);
    assert(rest =~= Seq::<Fact>::empty());
}

} // verus!
