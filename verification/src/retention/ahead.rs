//! Folding goes ahead wherever the units that expire can be read and agree with the catalog.
use vstd::prelude::*;

use super::fold::{self, FoldState, Latest};
use super::head::{self, HeadsView, RetentionHead};
use crate::error::{Error, Result};
use crate::manifest::catalog::UnitMeta;
use crate::ordmap::{self, OrderedKey};
use crate::query::contract;
use crate::query::facts;
use crate::query::meaning;
use crate::query::plan::PlannedSection;
use crate::tail::{TailIndex, TailTableView, TailView};
use crate::types::{CellValue, StreamKey, TableId, ValueType};
use crate::unit::{SectionView, TableDirectoryEntry, UnitSource};

verus! {

/// Whether a value has the type, or is null.
pub open spec fn typed(value: CellValue, kind: ValueType) -> bool {
    match value {
        CellValue::Null => true,
        CellValue::UInt(_) => kind == ValueType::UInt,
        CellValue::Sq1(_) => kind == ValueType::Sq1,
        CellValue::F32Bits(_) => kind == ValueType::F32Bits,
    }
}

/// Whether a version ruled when the value was written: it and all before it were active by then, the
/// one after it was not, and it has the field of the value with its type.
pub open spec fn ruled(state: TailTableView, head: RetentionHead, v: int, f: int) -> bool {
    &&& 0 <= v < state.versions.len()
    &&& forall|i: int|
        0 <= i <= v ==> ((#[trigger] state.versions[i]).effective_from matches Some(from) && from
            <= head.fact_ts)
    &&& v + 1 < state.versions.len() ==> !(state.versions[v + 1].effective_from matches Some(from)
        && from <= head.fact_ts)
    &&& 0 <= f < state.versions[v].fields.len()
    &&& state.versions[v].fields[f].field == head.field
    &&& typed(head.value, state.versions[v].fields[f].value_type)
}

/// Whether the schema of its table accounts for a value.
pub open spec fn accounted(schemas: TailView, head: RetentionHead) -> bool {
    schemas.tables.contains_key(head.table) ==> exists|v: int, f: int| #[trigger]
        ruled(schemas.tables[head.table], head, v, f)
}

/// The value in a cell, as a head.
pub open spec fn cell_head(table: TableId, rows: SectionView, c: int, r: int) -> RetentionHead {
    RetentionHead {
        table,
        series: rows.columns[c].stream.series,
        field: rows.columns[c].stream.field,
        fact_ts: rows.timestamps[r],
        value: rows.columns[c].cells[r]->Some_0,
    }
}

/// Whether the schema accounts for every value in some rows of a table.
pub open spec fn rows_accounted(schemas: TailView, table: TableId, rows: SectionView) -> bool {
    forall|c: int, r: int|
        0 <= c < rows.columns.len() && 0 <= r < rows.timestamps.len() && r
            < rows.columns[c].cells.len() && rows.columns[c].cells[r] is Some ==> accounted(
            schemas,
            #[trigger] cell_head(table, rows, c, r),
        )
}

/// How many sections a unit has in the first tables.
pub open spec fn sections_in<S: UnitSource>(
    source: &S,
    tables: Seq<(TableId, TailTableView)>,
    unit: UnitMeta,
    count: int,
) -> int
    decreases count,
{
    if count <= 0 {
        0
    } else {
        sections_in(source, tables, unit, count - 1) + source.directory(
            unit,
            tables[count - 1].0,
        )->Ok_0.len()
    }
}

/// How many rows some sections have.
pub open spec fn row_total(sections: Seq<TableDirectoryEntry>, count: int) -> int
    decreases count,
{
    if count <= 0 {
        0
    } else {
        row_total(sections, count - 1) + sections[count - 1].row_count
    }
}

/// How many rows a unit has in the first tables.
pub open spec fn rows_in<S: UnitSource>(
    source: &S,
    tables: Seq<(TableId, TailTableView)>,
    unit: UnitMeta,
    count: int,
) -> int
    decreases count,
{
    if count <= 0 {
        0
    } else {
        let sections = source.directory(unit, tables[count - 1].0)->Ok_0;
        rows_in(source, tables, unit, count - 1) + row_total(sections, sections.len() as int)
    }
}

/// Latest values in order, each filed under its own stream, before the floor and accounted for.
spec fn settled(latest: Latest, schemas: TailView, floor: i64) -> bool {
    &&& ordmap::ordered(latest)
    &&& forall|k: StreamKey| #[trigger]
        ordmap::as_map(latest).contains_key(k) ==> {
            let head = ordmap::as_map(latest)[k];
            &&& head.spec_key() == k
            &&& head.fact_ts < floor
            &&& accounted(schemas, head)
        }
}

/// Whether the streams of other tables have the same latest values.
spec fn same_elsewhere(before: Latest, after: Latest, table: TableId) -> bool {
    forall|k: StreamKey|
        k.table != table ==> (#[trigger] ordmap::as_map(after).contains_key(k) == ordmap::as_map(
            before,
        ).contains_key(k) && (ordmap::as_map(before).contains_key(k) ==> ordmap::as_map(after)[k]
            == ordmap::as_map(before)[k]))
}

/// Whether all values of a table lie before a time.
spec fn before_time(latest: Latest, table: TableId, time: int) -> bool {
    forall|k: StreamKey| #[trigger]
        ordmap::as_map(latest).contains_key(k) && k.table == table ==> ordmap::as_map(
            latest,
        )[k].fact_ts < time
}

proof fn row_goes_in(
    latest: Latest,
    schemas: TailView,
    floor: i64,
    table: TableId,
    rows: SectionView,
    row: int,
    count: int,
)
    requires
        settled(latest, schemas, floor),
        0 <= row < rows.timestamps.len(),
        0 <= count <= rows.columns.len(),
        rows.timestamps[row] < floor,
        before_time(latest, table, rows.timestamps[row] as int),
        rows_accounted(schemas, table, rows),
        forall|i: int, j: int|
            0 <= i < j < rows.columns.len() ==> (#[trigger] rows.columns[i]).stream != (
            #[trigger] rows.columns[j]).stream,
    ensures
        fold::row_applied(latest, table, rows, row, count) matches Ok(after) && {
            &&& settled(after, schemas, floor)
            &&& same_elsewhere(latest, after, table)
            &&& forall|k: StreamKey| #[trigger]
                ordmap::as_map(after).contains_key(k) && k.table == table ==> ordmap::as_map(
                    after,
                )[k].fact_ts < rows.timestamps[row] || (ordmap::as_map(after)[k].fact_ts
                    == rows.timestamps[row] && exists|c: int|
                    0 <= c < count && (#[trigger] rows.columns[c]).stream == facts::spec_stream(k))
        },
    decreases count,
{
    if count > 0 {
        row_goes_in(latest, schemas, floor, table, rows, row, count - 1);
        let before = fold::row_applied(latest, table, rows, row, count - 1)->Ok_0;
        let column = rows.columns[count - 1];
        if row < column.cells.len() && column.cells[row] is Some {
            let new = cell_head(table, rows, count - 1, row);
            let own = new.spec_key();
            assert(accounted(schemas, new));
            assert(facts::spec_stream(own) == column.stream);
            if ordmap::as_map(before).contains_key(own) {
                if ordmap::as_map(before)[own].fact_ts == rows.timestamps[row] {
                    let c = choose|c: int|
                        0 <= c < count - 1 && (#[trigger] rows.columns[c]).stream
                            == facts::spec_stream(own);
                    assert(rows.columns[c].stream != rows.columns[count - 1].stream);
                }
            }
            ordmap::placed_is_insert(before, own, new);
            let after = ordmap::placed(before, own, new);
            assert(fold::row_applied(latest, table, rows, row, count) == Ok::<Latest, Error>(
                after,
            ));
            assert(ordmap::as_map(after) == ordmap::as_map(before).insert(own, new));
            assert forall|k: StreamKey| #[trigger]
                ordmap::as_map(after).contains_key(k) && k.table == table implies ordmap::as_map(
                after,
            )[k].fact_ts < rows.timestamps[row] || (ordmap::as_map(after)[k].fact_ts
                == rows.timestamps[row] && exists|c: int|
                0 <= c < count && (#[trigger] rows.columns[c]).stream == facts::spec_stream(k)) by {
                if k == own {
                    assert(rows.columns[count - 1].stream == facts::spec_stream(k));
                } else {
                    assert(ordmap::as_map(before).contains_key(k));
                    if ordmap::as_map(before)[k].fact_ts == rows.timestamps[row] {
                        let c = choose|c: int|
                            0 <= c < count - 1 && (#[trigger] rows.columns[c]).stream
                                == facts::spec_stream(k);
                        assert(0 <= c < count && rows.columns[c].stream == facts::spec_stream(k));
                    }
                }
            }
        } else {
            assert forall|k: StreamKey| #[trigger]
                ordmap::as_map(before).contains_key(k) && k.table == table implies ordmap::as_map(
                before,
            )[k].fact_ts < rows.timestamps[row] || (ordmap::as_map(before)[k].fact_ts
                == rows.timestamps[row] && exists|c: int|
                0 <= c < count && (#[trigger] rows.columns[c]).stream == facts::spec_stream(k)) by {
                if ordmap::as_map(before)[k].fact_ts == rows.timestamps[row] {
                    let c = choose|c: int|
                        0 <= c < count - 1 && (#[trigger] rows.columns[c]).stream
                            == facts::spec_stream(k);
                    assert(0 <= c < count && rows.columns[c].stream == facts::spec_stream(k));
                }
            }
        }
    }
}

proof fn rows_go_in(
    latest: Latest,
    schemas: TailView,
    floor: i64,
    table: TableId,
    rows: SectionView,
    first: int,
    count: int,
)
    requires
        settled(latest, schemas, floor),
        0 <= count <= rows.timestamps.len(),
        before_time(latest, table, first),
        rows_accounted(schemas, table, rows),
        forall|i: int|
            0 <= i < rows.timestamps.len() ==> first <= #[trigger] rows.timestamps[i] < floor,
        forall|i: int, j: int|
            0 <= i < j < rows.timestamps.len() ==> (#[trigger] rows.timestamps[i]) < (
            #[trigger] rows.timestamps[j]),
        forall|i: int, j: int|
            0 <= i < j < rows.columns.len() ==> (#[trigger] rows.columns[i]).stream != (
            #[trigger] rows.columns[j]).stream,
    ensures
        fold::rows_applied(latest, table, rows, count) matches Ok(after) && {
            &&& settled(after, schemas, floor)
            &&& same_elsewhere(latest, after, table)
            &&& forall|k: StreamKey| #[trigger]
                ordmap::as_map(after).contains_key(k) && k.table == table ==> ordmap::as_map(
                    after,
                )[k].fact_ts < first || (count > 0 && ordmap::as_map(after)[k].fact_ts
                    <= rows.timestamps[count - 1])
        },
    decreases count,
{
    if count > 0 {
        rows_go_in(latest, schemas, floor, table, rows, first, count - 1);
        let before = fold::rows_applied(latest, table, rows, count - 1)->Ok_0;
        if count > 1 {
            assert(rows.timestamps[count - 2] < rows.timestamps[count - 1]);
        }
        assert(first <= rows.timestamps[count - 1]);
        row_goes_in(before, schemas, floor, table, rows, count - 1, rows.columns.len() as int);
    }
}

/// What a fold has to meet before a section: the values of the table lie before it.
spec fn ready(
    fold: FoldState,
    schemas: TailView,
    floor: i64,
    table: TableId,
    all: Seq<PlannedSection>,
    done: int,
) -> bool {
    &&& settled(fold.latest, schemas, floor)
    &&& forall|j: int|
        done <= j < all.len() ==> before_time(
            fold.latest,
            table,
            (#[trigger] all[j]).section.min_ts as int,
        )
    &&& forall|j: int|
        done <= j < all.len() ==> (fold.previous matches Some(maximum) ==> maximum < (
        #[trigger] all[j]).section.min_ts)
}

proof fn section_goes_in<S: UnitSource>(
    source: &S,
    schemas: TailView,
    floor: i64,
    table: TableId,
    units: Seq<UnitMeta>,
    all: Seq<PlannedSection>,
    done: int,
    index: int,
    fold: FoldState,
)
    requires
        meaning::sound(source, units, schemas, table),
        all == meaning::all_sections(source, units, table, units.len() as int),
        0 <= done < all.len(),
        all[done].unit.max_ts < floor,
        ready(fold, schemas, floor, table, all, done),
        rows_accounted(
            schemas,
            table,
            meaning::section_rows(source, schemas.tables[table].versions, all[done]),
        ),
        0 <= index < fold.sections.len(),
        fold.sections.len() == fold.rows.len(),
        fold.sections[index] + 1 <= u32::MAX,
        fold.rows[index] + all[done].section.row_count <= u64::MAX,
    ensures
        fold::section_folded(
            source,
            table,
            schemas.tables[table],
            all[done].unit,
            index,
            all[done].section,
            fold,
        ) matches Ok(after) && {
            &&& ready(after, schemas, floor, table, all, done + 1)
            &&& same_elsewhere(fold.latest, after.latest, table)
            &&& after.sections == fold.sections.update(index, (fold.sections[index] + 1) as u32)
            &&& after.rows == fold.rows.update(
                index,
                (fold.rows[index] + all[done].section.row_count) as u64,
            )
        },
{
    let planned = all[done];
    let section = planned.section;
    let versions = schemas.tables[table].versions;
    assert(meaning::section_sound(source, versions, planned));
    let rows = meaning::section_rows(source, versions, planned);
    assert forall|i: int| 0 <= i < rows.timestamps.len() implies section.min_ts
        <= #[trigger] rows.timestamps[i] < floor by {
        assert(rows.timestamps[i] <= section.max_ts);
    }
    rows_go_in(
        fold.latest,
        schemas,
        floor,
        table,
        rows,
        section.min_ts as int,
        rows.timestamps.len() as int,
    );
    let latest = fold::rows_applied(
        fold.latest,
        table,
        rows,
        rows.timestamps.len() as int,
    )->Ok_0;
    assert forall|j: int| done + 1 <= j < all.len() implies before_time(
        latest,
        table,
        (#[trigger] all[j]).section.min_ts as int,
    ) by {
        assert(all[done].section.max_ts < all[j].section.min_ts);
        assert forall|k: StreamKey| #[trigger]
            ordmap::as_map(latest).contains_key(k) && k.table == table implies ordmap::as_map(
            latest,
        )[k].fact_ts < all[j].section.min_ts by {
            if rows.timestamps.len() > 0 {
                assert(rows.timestamps[rows.timestamps.len() - 1] <= section.max_ts);
            }
        }
    }
}

proof fn sections_go_in<S: UnitSource>(
    source: &S,
    schemas: TailView,
    floor: i64,
    table: TableId,
    units: Seq<UnitMeta>,
    all: Seq<PlannedSection>,
    start: int,
    index: int,
    fold: FoldState,
    sections: Seq<TableDirectoryEntry>,
    count: int,
)
    requires
        meaning::sound(source, units, schemas, table),
        all == meaning::all_sections(source, units, table, units.len() as int),
        0 <= start,
        0 <= count <= sections.len(),
        start + sections.len() <= all.len(),
        forall|p: int|
            0 <= p < sections.len() ==> (#[trigger] all[start + p]) == (PlannedSection {
                unit: units[index],
                section: sections[p],
            }),
        0 <= index < units.len(),
        units[index].max_ts < floor,
        ready(fold, schemas, floor, table, all, start),
        forall|i: int|
            0 <= i < all.len() ==> rows_accounted(
                schemas,
                table,
                meaning::section_rows(
                    source,
                    schemas.tables[table].versions,
                    #[trigger] all[i],
                ),
            ),
        index < fold.sections.len(),
        fold.sections.len() == fold.rows.len(),
        fold.sections[index] + sections.len() <= u32::MAX,
        fold.rows[index] + row_total(sections, sections.len() as int) <= u64::MAX,
    ensures
        fold::sections_folded(
            source,
            table,
            schemas.tables[table],
            units[index],
            index,
            sections,
            fold,
            count,
        ) matches Ok(after) && {
            &&& ready(after, schemas, floor, table, all, start + count)
            &&& same_elsewhere(fold.latest, after.latest, table)
            &&& after.sections == fold.sections.update(index, (fold.sections[index] + count) as u32)
            &&& after.rows == fold.rows.update(
                index,
                (fold.rows[index] + row_total(sections, count)) as u64,
            )
        },
    decreases count,
{
    total_grows(sections, count, sections.len() as int);
    if count > 0 {
        sections_go_in(
            source,
            schemas,
            floor,
            table,
            units,
            all,
            start,
            index,
            fold,
            sections,
            count - 1,
        );
        let before = fold::sections_folded(
            source,
            table,
            schemas.tables[table],
            units[index],
            index,
            sections,
            fold,
            count - 1,
        )->Ok_0;
        total_grows(sections, count - 1, count);
        assert(all[start + (count - 1)].section == sections[count - 1]);
        section_goes_in(
            source,
            schemas,
            floor,
            table,
            units,
            all,
            start + count - 1,
            index,
            before,
        );
        let after = fold::section_folded(
            source,
            table,
            schemas.tables[table],
            units[index],
            index,
            sections[count - 1],
            before,
        )->Ok_0;
        assert(after.sections =~= fold.sections.update(
            index,
            (fold.sections[index] + count) as u32,
        ));
        assert(after.rows =~= fold.rows.update(
            index,
            (fold.rows[index] + row_total(sections, count)) as u64,
        ));
    } else {
        assert(fold.sections =~= fold.sections.update(index, fold.sections[index]));
        assert(fold.rows =~= fold.rows.update(index, fold.rows[index]));
    }
}

proof fn total_grows(sections: Seq<TableDirectoryEntry>, few: int, many: int)
    requires
        0 <= few <= many,
    ensures
        0 <= row_total(sections, few) <= row_total(sections, many),
    decreases many,
{
    if many > 0 {
        if few < many {
            total_grows(sections, few, many - 1);
        } else {
            total_grows(sections, many - 1, many - 1);
        }
    }
}

proof fn units_go_in<S: UnitSource>(
    source: &S,
    schemas: TailView,
    floor: i64,
    table: TableId,
    units: Seq<UnitMeta>,
    fold: FoldState,
    count: int,
)
    requires
        meaning::sound(source, units, schemas, table),
        0 <= count <= units.len(),
        forall|i: int| 0 <= i < units.len() ==> (#[trigger] units[i]).max_ts < floor,
        ({
            let all = meaning::all_sections(source, units, table, units.len() as int);
            &&& ready(fold, schemas, floor, table, all, 0)
            &&& forall|i: int|
                0 <= i < all.len() ==> rows_accounted(
                    schemas,
                    table,
                    meaning::section_rows(
                        source,
                        schemas.tables[table].versions,
                        #[trigger] all[i],
                    ),
                )
        }),
        fold.sections.len() == units.len(),
        fold.rows.len() == units.len(),
        forall|i: int|
            0 <= i < units.len() ==> {
                let sections = source.directory(#[trigger] units[i], table)->Ok_0;
                &&& fold.sections[i] + sections.len() <= u32::MAX
                &&& fold.rows[i] + row_total(sections, sections.len() as int) <= u64::MAX
            },
    ensures
        fold::units_folded(source, table, schemas.tables[table], units, fold, count) matches Ok(
            after,
        ) && {
            let all = meaning::all_sections(source, units, table, units.len() as int);
            &&& ready(
                after,
                schemas,
                floor,
                table,
                all,
                meaning::all_sections(source, units, table, count).len() as int,
            )
            &&& same_elsewhere(fold.latest, after.latest, table)
            &&& after.sections.len() == units.len()
            &&& after.rows.len() == units.len()
            &&& forall|i: int|
                0 <= i < units.len() ==> {
                    let sections = source.directory(#[trigger] units[i], table)->Ok_0;
                    &&& i < count ==> after.sections[i] == fold.sections[i] + sections.len()
                        && after.rows[i] == fold.rows[i] + row_total(
                        sections,
                        sections.len() as int,
                    )
                    &&& i >= count ==> after.sections[i] == fold.sections[i] && after.rows[i]
                        == fold.rows[i]
                }
        },
    decreases count,
{
    let all = meaning::all_sections(source, units, table, units.len() as int);
    if count > 0 {
        units_go_in(source, schemas, floor, table, units, fold, count - 1);
        let before = fold::units_folded(
            source,
            table,
            schemas.tables[table],
            units,
            fold,
            count - 1,
        )->Ok_0;
        let index = count - 1;
        assert(source.directory(units[index], table) is Ok);
        let sections = source.directory(units[index], table)->Ok_0;
        let earlier = meaning::all_sections(source, units, table, index);
        let upto = meaning::all_sections(source, units, table, count);
        meaning::sections_prefix(source, units, table, count, units.len() as int);
        assert(upto == earlier + meaning::unit_plan(source, units[index], table));
        assert forall|p: int| 0 <= p < sections.len() implies (#[trigger] all[earlier.len() + p])
            == (PlannedSection { unit: units[index], section: sections[p] }) by {
            assert(all.take(upto.len() as int)[earlier.len() + p] == upto[earlier.len() + p]);
            assert(upto[earlier.len() + p] == meaning::unit_plan(source, units[index], table)[p]);
        }
        sections_go_in(
            source,
            schemas,
            floor,
            table,
            units,
            all,
            earlier.len() as int,
            index,
            before,
            sections,
            sections.len() as int,
        );
        let after = fold::sections_folded(
            source,
            table,
            schemas.tables[table],
            units[index],
            index,
            sections,
            before,
            sections.len() as int,
        )->Ok_0;
        assert(fold::units_folded(
            source,
            table,
            schemas.tables[table],
            units,
            fold,
            count,
        ) == Ok::<FoldState, Error>(after));
        assert(upto.len() == earlier.len() + sections.len());
        assert(same_elsewhere(fold.latest, after.latest, table));
        assert forall|i: int| 0 <= i < units.len() implies {
            let held = source.directory(#[trigger] units[i], table)->Ok_0;
            &&& i < count ==> after.sections[i] == fold.sections[i] + held.len() && after.rows[i]
                == fold.rows[i] + row_total(held, held.len() as int)
            &&& i >= count ==> after.sections[i] == fold.sections[i] && after.rows[i]
                == fold.rows[i]
        } by {
            total_grows(sections, 0, sections.len() as int);
            assert(before.sections[index] == fold.sections[index]);
            if i != index {
                assert(after.sections[i] == before.sections[i]);
                assert(after.rows[i] == before.rows[i]);
            }
        }
    }
}

proof fn sums_grow<S: UnitSource>(
    source: &S,
    tables: Seq<(TableId, TailTableView)>,
    unit: UnitMeta,
    few: int,
    many: int,
)
    requires
        0 <= few <= many,
    ensures
        0 <= sections_in(source, tables, unit, few) <= sections_in(source, tables, unit, many),
        0 <= rows_in(source, tables, unit, few) <= rows_in(source, tables, unit, many),
    decreases many,
{
    if many > 0 {
        let sections = source.directory(unit, tables[many - 1].0)->Ok_0;
        total_grows(sections, 0, sections.len() as int);
        if few < many {
            sums_grow(source, tables, unit, few, many - 1);
        } else {
            sums_grow(source, tables, unit, many - 1, many - 1);
        }
    }
}

/// Whether everything that expires can be read and agrees with the catalog: each table is sound,
/// its schema accounts for every value, the values that were kept before lie in front of the
/// sections of their tables, and every unit has as many sections and rows as the catalog says.
pub open spec fn expires_whole<S: UnitSource>(
    source: &S,
    schemas: &TailIndex,
    prior: Option<HeadsView>,
    expired: Seq<UnitMeta>,
) -> bool {
    let tables = fold::ordered_tables(schemas);
    &&& forall|table: TableId| #[trigger]
        schemas@.tables.contains_key(table) ==> meaning::sound(source, expired, schemas@, table)
    &&& forall|table: TableId, i: int|
        #![trigger meaning::all_sections(source, expired, table, expired.len() as int)[i]]
        schemas@.tables.contains_key(table) && 0 <= i < meaning::all_sections(
            source,
            expired,
            table,
            expired.len() as int,
        ).len() ==> rows_accounted(
            schemas@,
            table,
            meaning::section_rows(
                source,
                schemas@.tables[table].versions,
                meaning::all_sections(source, expired, table, expired.len() as int)[i],
            ),
        )
    &&& prior matches Some(heads) ==> forall|h: int|
        0 <= h < heads.entries.len() ==> accounted(schemas@, #[trigger] heads.entries[h]) && (
        forall|i: int|
            0 <= i < meaning::all_sections(
                source,
                expired,
                heads.entries[h].table,
                expired.len() as int,
            ).len() ==> heads.entries[h].fact_ts < (#[trigger] meaning::all_sections(
                source,
                expired,
                heads.entries[h].table,
                expired.len() as int,
            )[i]).section.min_ts)
    &&& forall|i: int|
        0 <= i < expired.len() ==> sections_in(
            source,
            tables,
            #[trigger] expired[i],
            tables.len() as int,
        ) == expired[i].section_count && rows_in(source, tables, expired[i], tables.len() as int)
            == expired[i].total_rows
}

proof fn tables_go_in<S: UnitSource>(
    source: &S,
    schemas: &TailIndex,
    prior: Option<HeadsView>,
    expired: Seq<UnitMeta>,
    floor: i64,
    count: int,
)
    requires
        schemas.wf(),
        prior matches Some(heads) ==> heads.valid() && heads.floor < floor,
        forall|i: int| 0 <= i < expired.len() ==> (#[trigger] expired[i]).max_ts < floor,
        expires_whole(source, schemas, prior, expired),
        0 <= count <= fold::ordered_tables(schemas).len(),
    ensures
        ({
            let tables = fold::ordered_tables(schemas);
            let start = fold::fold_start(prior, expired.len());
            fold::tables_folded(source, tables, expired, start, count) matches Ok(after) && {
                &&& settled(after.latest, schemas@, floor)
                &&& forall|t: int|
                    count <= t < tables.len() ==> forall|k: StreamKey|
                        k.table == (#[trigger] tables[t]).0 ==> (#[trigger] ordmap::as_map(
                            after.latest,
                        ).contains_key(k) == ordmap::as_map(start.latest).contains_key(k) && (
                        ordmap::as_map(start.latest).contains_key(k) ==> ordmap::as_map(
                            after.latest,
                        )[k] == ordmap::as_map(start.latest)[k]))
                &&& after.sections.len() == expired.len()
                &&& after.rows.len() == expired.len()
                &&& forall|i: int|
                    0 <= i < expired.len() ==> after.sections[i] == sections_in(
                        source,
                        tables,
                        #[trigger] expired[i],
                        count,
                    ) && after.rows[i] == rows_in(source, tables, expired[i], count)
            }
        }),
    decreases count,
{
    let tables = fold::ordered_tables(schemas);
    let start = fold::fold_start(prior, expired.len());
    let entries = schemas.tables.entries@;
    if count > 0 {
        tables_go_in(source, schemas, prior, expired, floor, count - 1);
        let before = fold::tables_folded(source, tables, expired, start, count - 1)->Ok_0;
        let fresh = FoldState { previous: None, ..before };
        let id = tables[count - 1].0;
        ordmap::lookup_at(entries, count - 1);
        assert(tables[count - 1] == (entries[count - 1].0, entries[count - 1].1@));
        assert(schemas@.tables.contains_key(id));
        assert(schemas@.tables[id] == tables[count - 1].1);
        let all = meaning::all_sections(source, expired, id, expired.len() as int);
        assert(meaning::sound(source, expired, schemas@, id));
        assert forall|j: int| 0 <= j < all.len() implies before_time(
            fresh.latest,
            id,
            (#[trigger] all[j]).section.min_ts as int,
        ) by {
            assert forall|k: StreamKey| #[trigger]
                ordmap::as_map(fresh.latest).contains_key(k) && k.table == id implies ordmap::as_map(
                fresh.latest,
            )[k].fact_ts < all[j].section.min_ts by {
                assert(k.table == tables[count - 1].0);
                assert(ordmap::as_map(start.latest).contains_key(k));
                assert(prior is Some);
                let heads = prior->Some_0;
                let h = ordmap::key_index(start.latest, k);
                assert(0 <= h < start.latest.len() && start.latest[h].0 == k);
                assert(start.latest[h].1 == heads.entries[h]);
                assert(heads.entries[h].table == id);
                assert(heads.entries[h].fact_ts < meaning::all_sections(
                    source,
                    expired,
                    heads.entries[h].table,
                    expired.len() as int,
                )[j].section.min_ts);
            }
        }
        assert forall|i: int| 0 <= i < all.len() implies rows_accounted(
            schemas@,
            id,
            meaning::section_rows(source, schemas@.tables[id].versions, #[trigger] all[i]),
        ) by {
            assert(meaning::all_sections(source, expired, id, expired.len() as int)[i] == all[i]);
        }
        assert(ready(fresh, schemas@, floor, id, all, 0));
        assert forall|i: int| 0 <= i < expired.len() implies {
            let sections = source.directory(#[trigger] expired[i], id)->Ok_0;
            &&& fresh.sections[i] + sections.len() <= u32::MAX
            &&& fresh.rows[i] + row_total(sections, sections.len() as int) <= u64::MAX
        } by {
            sums_grow(source, tables, expired[i], count, tables.len() as int);
            assert(fresh.sections[i] == sections_in(source, tables, expired[i], count - 1));
        }
        units_go_in(source, schemas@, floor, id, expired, fresh, expired.len() as int);
        let after = fold::units_folded(
            source,
            id,
            schemas@.tables[id],
            expired,
            fresh,
            expired.len() as int,
        )->Ok_0;
        assert(fold::tables_folded(source, tables, expired, start, count) == Ok::<
            FoldState,
            Error,
        >(after));
        assert forall|t: int| count <= t < tables.len() implies forall|k: StreamKey|
            k.table == (#[trigger] tables[t]).0 ==> (#[trigger] ordmap::as_map(
                after.latest,
            ).contains_key(k) == ordmap::as_map(start.latest).contains_key(k) && (ordmap::as_map(
                start.latest,
            ).contains_key(k) ==> ordmap::as_map(after.latest)[k] == ordmap::as_map(
                start.latest,
            )[k])) by {
            assert(entries[count - 1].0.rank() < entries[t].0.rank());
            assert(tables[t].0 == entries[t].0);
            assert forall|k: StreamKey| k.table == tables[t].0 implies (#[trigger] ordmap::as_map(
                after.latest,
            ).contains_key(k) == ordmap::as_map(start.latest).contains_key(k) && (ordmap::as_map(
                start.latest,
            ).contains_key(k) ==> ordmap::as_map(after.latest)[k] == ordmap::as_map(
                start.latest,
            )[k])) by {
                assert(k.table != id);
                assert(ordmap::as_map(after.latest).contains_key(k) == ordmap::as_map(
                    fresh.latest,
                ).contains_key(k));
                assert(ordmap::as_map(fresh.latest).contains_key(k) == ordmap::as_map(
                    start.latest,
                ).contains_key(k));
            }
        }
        assert forall|i: int| 0 <= i < expired.len() implies after.sections[i] == sections_in(
            source,
            tables,
            #[trigger] expired[i],
            count,
        ) && after.rows[i] == rows_in(source, tables, expired[i], count) by {
            let sections = source.directory(expired[i], id)->Ok_0;
            assert(after.sections[i] == fresh.sections[i] + sections.len());
            assert(fresh.sections[i] == sections_in(source, tables, expired[i], count - 1));
        }
    } else {
        starts_settled(schemas@, prior, expired.len(), floor);
    }
}

proof fn starts_settled(schemas: TailView, prior: Option<HeadsView>, units: nat, floor: i64)
    requires
        prior matches Some(heads) ==> heads.valid() && heads.floor < floor && forall|h: int|
            0 <= h < heads.entries.len() ==> accounted(schemas, #[trigger] heads.entries[h]),
    ensures
        settled(fold::fold_start(prior, units).latest, schemas, floor),
{
    let latest = fold::fold_start(prior, units).latest;
    if prior is Some {
        let entries = prior->Some_0.entries;
        assert(ordmap::ordered(latest)) by {
            assert forall|i: int, j: int| 0 <= i < j < latest.len() implies (
            #[trigger] latest[i]).0.rank() < (#[trigger] latest[j]).0.rank() by {
                assert(entries[i].spec_key().rank() < entries[j].spec_key().rank());
            }
        }
        assert forall|k: StreamKey| #[trigger] ordmap::as_map(latest).contains_key(k) implies {
            let head = ordmap::as_map(latest)[k];
            &&& head.spec_key() == k
            &&& head.fact_ts < floor
            &&& accounted(schemas, head)
        } by {
            let h = ordmap::key_index(latest, k);
            assert(0 <= h < latest.len() && latest[h].0 == k);
            assert(latest[h].1 == entries[h]);
            assert(entries[h].fact_ts < prior->Some_0.floor);
        }
    }
}

proof fn heads_go_through(schemas: TailView, latest: Latest, floor: i64, count: int)
    requires
        settled(latest, schemas, floor),
        0 <= count <= latest.len(),
        forall|table: TableId| #[trigger]
            schemas.tables.contains_key(table) ==> schemas.tables[table].wf(),
    ensures
        fold::live_heads(schemas, latest, floor, count) matches Ok(list) && {
            &&& list.len() <= count
            &&& head::heads_below(list, floor)
            &&& head::heads_ordered(list)
            &&& list.len() > 0 ==> exists|i: int|
                0 <= i < count && (#[trigger] latest[i]).0 == list.last().spec_key()
        },
    decreases count,
{
    if count > 0 {
        heads_go_through(schemas, latest, floor, count - 1);
        let list = fold::live_heads(schemas, latest, floor, count - 1)->Ok_0;
        let (key, new) = latest[count - 1];
        ordmap::lookup_at(latest, count - 1);
        assert(ordmap::as_map(latest)[key] == new);
        assert(new.spec_key() == key);
        if list.len() > 0 {
            let i = choose|i: int|
                0 <= i < count - 1 && (#[trigger] latest[i]).0 == list.last().spec_key();
            assert(0 <= i < count && latest[i].0 == list.last().spec_key());
            assert(latest[i].0.rank() < latest[count - 1].0.rank());
        }
        if schemas.tables.contains_key(key.table) {
            let state = schemas.tables[key.table];
            assert(new.table == key.table);
            assert(state.wf());
            let (v, f) = choose|v: int, f: int| #[trigger] ruled(state, new, v, f);
            contract::values_resolve_to_the_newest_active_version(
                state.versions,
                new.field,
                new.fact_ts,
                v,
                f,
                contract::resolved(state.versions, new.field, new.fact_ts),
            );
            let longer = list.push(new);
            assert forall|i: int, j: int| 0 <= i < j < longer.len() implies (
            #[trigger] longer[i]).spec_key().rank() < (#[trigger] longer[j]).spec_key().rank() by {
                if j < list.len() {
                    assert(list[i].spec_key().rank() < list[j].spec_key().rank());
                } else if i < list.len() - 1 {
                    assert(list[i].spec_key().rank() < list[list.len() - 1].spec_key().rank());
                }
            }
            assert(latest[count - 1].0 == longer.last().spec_key());
        }
    }
}

/// Retention folds exactly what advances: units that are in routing order and all end before a floor
/// above the one in force. Where such units can be read and agree with the catalog, the fold goes
/// ahead under that floor; only more than 262144 streams that still have a value stop it.
pub proof fn folds_go_ahead<S: UnitSource>(
    source: &S,
    schemas: &TailIndex,
    prior: Option<HeadsView>,
    expired: Seq<UnitMeta>,
    floor: i64,
    r: Result<HeadsView>,
)
    requires
        schemas.wf(),
        prior matches Some(heads) ==> heads.valid(),
        r == fold::folded(prior, expired, source, schemas, floor),
    ensures
        ({
            let advancing = expired.len() > 0 && (forall|i: int|
                0 <= i < expired.len() ==> (#[trigger] expired[i]).max_ts < floor) && (forall|
                i: int,
                j: int,
            |
                0 <= i < j < expired.len() ==> ((#[trigger] expired[i]).min_ts < (
                #[trigger] expired[j]).min_ts || (expired[i].min_ts == expired[j].min_ts
                    && expired[i].unit_id < expired[j].unit_id))) && (prior matches Some(heads)
                ==> heads.floor < floor);
            &&& !advancing ==> (r matches Err(Error::InvalidArgument(_)))
            &&& advancing && expires_whole(source, schemas, prior, expired) ==> match r {
                Ok(heads) => heads.floor == floor && heads.entries.len() <= 262_144,
                Err(e) => (e matches Error::ResourceExhausted(detail) && detail.maximum == 262_144
                    && detail.actual > 262_144),
            }
        }),
{
    let advancing = fold::advances(prior, expired, floor);
    assert forall|i: int, j: int| 0 <= i < j < expired.len() implies ((
    #[trigger] expired[i]).spec_before(#[trigger] expired[j]) <==> (expired[i].min_ts
        < expired[j].min_ts || (expired[i].min_ts == expired[j].min_ts && expired[i].unit_id
        < expired[j].unit_id))) by {}
    if advancing && expires_whole(source, schemas, prior, expired) {
        let tables = fold::ordered_tables(schemas);
        tables_go_in(source, schemas, prior, expired, floor, tables.len() as int);
        let fold = fold::tables_folded(
            source,
            tables,
            expired,
            fold::fold_start(prior, expired.len()),
            tables.len() as int,
        )->Ok_0;
        assert(fold::totals_agree(expired, fold));
        assert forall|table: TableId| #[trigger] schemas@.tables.contains_key(table) implies
            schemas@.tables[table].wf() by {
            assert(meaning::sound(source, expired, schemas@, table));
        }
        heads_go_through(schemas@, fold.latest, floor, fold.latest.len() as int);
    }
}

} // verus!
