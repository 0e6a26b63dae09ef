//! Retention changes no answer at or above its floor.
use vstd::prelude::*;

use super::fold::{self, FoldState, Latest};
use super::head::{self, HeadsView, RetentionHead};
use crate::error::Error;
use crate::manifest::catalog::UnitMeta;
use crate::ordmap::{self, OrderedKey};
use crate::query::contract;
use crate::query::facts::{self, Fact};
use crate::query::meaning;
use crate::query::plan::PlannedSection;
use crate::query::primitives;
use crate::query::recall;
use crate::query::resample;
use crate::tail::{self, TailIndex, TailTableView, TailView};
use crate::types::{CellValue, StreamKey, TableId};
use crate::unit::{SectionView, TableDirectoryEntry, UnitSource};

verus! {

/// The latest value of a stream in a list of latest values.
spec fn held(latest: Latest, key: StreamKey) -> Option<RetentionHead> {
    if ordmap::has_key(latest, key) {
        Some(ordmap::as_map(latest)[key])
    } else {
        None
    }
}

/// The latest value of a stream after some more of its values.
spec fn carried(before: Option<RetentionHead>, key: StreamKey, list: Seq<Fact>) -> Option<
    RetentionHead,
> {
    if list.len() == 0 {
        before
    } else {
        Some(
            RetentionHead {
                table: key.table,
                series: key.series,
                field: key.field,
                fact_ts: list.last().timestamp,
                value: list.last().value,
            },
        )
    }
}

proof fn carried_join(
    before: Option<RetentionHead>,
    key: StreamKey,
    first: Seq<Fact>,
    second: Seq<Fact>,
)
    ensures
        carried(carried(before, key, first), key, second) == carried(before, key, first + second),
{
    if second.len() > 0 {
        assert((first + second).last() == second.last());
    } else {
        assert(first + second =~= first);
    }
}

/// A list of latest values in order, each filed under its own stream.
spec fn filed(latest: Latest) -> bool {
    ordmap::ordered(latest) && forall|i: int|
        0 <= i < latest.len() ==> (#[trigger] latest[i]).0 == latest[i].1.spec_key()
}

/// One more value is held by its own stream alone.
proof fn value_held(
    latest: Latest,
    table: TableId,
    stream: tail::Stream,
    timestamp: i64,
    value: CellValue,
    key: StreamKey,
)
    requires
        filed(latest),
        fold::value_applied(latest, table, stream, timestamp, value) is Ok,
    ensures
        ({
            let after = fold::value_applied(latest, table, stream, timestamp, value)->Ok_0;
            &&& filed(after)
            &&& held(after, key) == (if key.table == table && facts::spec_stream(key) == stream {
                carried(held(latest, key), key, seq![Fact { timestamp, value }])
            } else {
                held(latest, key)
            })
        }),
{
    let own = StreamKey { table, series: stream.series, field: stream.field };
    let head = RetentionHead {
        table,
        series: stream.series,
        field: stream.field,
        fact_ts: timestamp,
        value,
    };
    let after = ordmap::placed(latest, own, head);
    ordmap::placed_is_insert(latest, own, head);
    let before_map = ordmap::as_map(latest);
    let after_map = ordmap::as_map(after);
    assert(after_map == before_map.insert(own, head));
    assert(after_map.contains_key(key) == ordmap::has_key(after, key));
    assert(before_map.contains_key(key) == ordmap::has_key(latest, key));
    assert forall|i: int| 0 <= i < after.len() implies (#[trigger] after[i]).0
        == after[i].1.spec_key() by {
        ordmap::lookup_at(after, i);
        let k = after[i].0;
        if k != own {
            assert(before_map.contains_key(k));
            assert(ordmap::has_key(latest, k));
            let j = ordmap::key_index(latest, k);
            assert(0 <= j < latest.len() && latest[j].0 == k);
            assert(before_map[k] == latest[j].1);
        }
    }
    assert(seq![Fact { timestamp, value }].last() == Fact { timestamp, value });
}

/// The values of one row of a stream's column.
spec fn row_of(rows: SectionView, stream: tail::Stream, row: int, count: int) -> Seq<Fact> {
    if exists|c: int|
        0 <= c < count && (#[trigger] rows.columns[c]).stream == stream && row
            < rows.columns[c].cells.len() && rows.columns[c].cells[row] is Some {
        let c = choose|c: int|
            0 <= c < count && (#[trigger] rows.columns[c]).stream == stream && row
                < rows.columns[c].cells.len() && rows.columns[c].cells[row] is Some;
        seq![
            Fact { timestamp: rows.timestamps[row], value: rows.columns[c].cells[row]->Some_0 },
        ]
    } else {
        Seq::empty()
    }
}

/// Whether no stream has two columns.
pub open spec fn columns_distinct(rows: SectionView) -> bool {
    forall|i: int, j: int|
        0 <= i < j < rows.columns.len() ==> (#[trigger] rows.columns[i]).stream != (
        #[trigger] rows.columns[j]).stream
}

/// Whether no section of the units has two columns of one stream.
pub open spec fn columns_apart<S: UnitSource>(
    source: &S,
    units: Seq<UnitMeta>,
    schemas: TailView,
    table: TableId,
) -> bool {
    let all = meaning::all_sections(source, units, table, units.len() as int);
    forall|i: int|
        0 <= i < all.len() ==> columns_distinct(
            meaning::section_rows(source, schemas.tables[table].versions, #[trigger] all[i]),
        )
}

/// A row passes to every stream of the table what its own column holds there.
proof fn row_held(
    latest: Latest,
    table: TableId,
    rows: SectionView,
    row: int,
    count: int,
    key: StreamKey,
)
    requires
        filed(latest),
        columns_distinct(rows),
        0 <= count <= rows.columns.len(),
        0 <= row,
        fold::row_applied(latest, table, rows, row, count) is Ok,
    ensures
        ({
            let after = fold::row_applied(latest, table, rows, row, count)->Ok_0;
            &&& filed(after)
            &&& held(after, key) == (if key.table == table {
                carried(
                    held(latest, key),
                    key,
                    row_of(rows, facts::spec_stream(key), row, count),
                )
            } else {
                held(latest, key)
            })
        }),
    decreases count,
{
    let stream = facts::spec_stream(key);
    if count > 0 {
        row_held(latest, table, rows, row, count - 1, key);
        let before = fold::row_applied(latest, table, rows, row, count - 1)->Ok_0;
        let column = rows.columns[count - 1];
        let now = row_of(rows, stream, row, count);
        let then_row = row_of(rows, stream, row, count - 1);
        if row < column.cells.len() && column.cells[row] is Some {
            value_held(
                before,
                table,
                column.stream,
                rows.timestamps[row],
                column.cells[row]->Some_0,
                key,
            );
            if column.stream == stream {
                assert(rows.columns[count - 1].stream == stream);
                assert forall|c: int|
                    0 <= c < rows.columns.len() && (
                    #[trigger] rows.columns[c]).stream == stream implies c == count - 1 by {
                    if c < count - 1 {
                        assert(rows.columns[c].stream != rows.columns[count - 1].stream);
                    } else if count - 1 < c {
                        assert(rows.columns[count - 1].stream != rows.columns[c].stream);
                    }
                }
                assert(then_row =~= Seq::<Fact>::empty());
                assert(now =~= seq![
                    Fact { timestamp: rows.timestamps[row], value: column.cells[row]->Some_0 },
                ]);
            } else {
                row_same(rows, stream, row, count);
            }
        } else {
            row_same(rows, stream, row, count);
        }
    } else {
        assert(row_of(rows, stream, row, 0) =~= Seq::<Fact>::empty());
    }
}

/// A column of another stream, or without a value in the row, changes nothing.
proof fn row_same(rows: SectionView, stream: tail::Stream, row: int, count: int)
    requires
        0 < count <= rows.columns.len(),
        columns_distinct(rows),
        rows.columns[count - 1].stream != stream || !(row < rows.columns[count - 1].cells.len()
            && rows.columns[count - 1].cells[row] is Some),
    ensures
        row_of(rows, stream, row, count) == row_of(rows, stream, row, count - 1),
{
    if exists|c: int|
        0 <= c < count && (#[trigger] rows.columns[c]).stream == stream && row
            < rows.columns[c].cells.len() && rows.columns[c].cells[row] is Some {
        let c = choose|c: int|
            0 <= c < count && (#[trigger] rows.columns[c]).stream == stream && row
                < rows.columns[c].cells.len() && rows.columns[c].cells[row] is Some;
        assert(c != count - 1);
        assert(0 <= c < count - 1 && rows.columns[c].stream == stream);
        let d = choose|d: int|
            0 <= d < count - 1 && (#[trigger] rows.columns[d]).stream == stream && row
                < rows.columns[d].cells.len() && rows.columns[d].cells[row] is Some;
        if c < d {
            assert(rows.columns[c].stream != rows.columns[d].stream);
        } else if d < c {
            assert(rows.columns[d].stream != rows.columns[c].stream);
        }
    }
}

/// The values of a stream in the first rows.
spec fn first_rows(rows: SectionView, stream: tail::Stream, count: int) -> Seq<Fact>
    decreases count,
{
    if count <= 0 {
        Seq::empty()
    } else {
        first_rows(rows, stream, count - 1) + row_of(
            rows,
            stream,
            count - 1,
            rows.columns.len() as int,
        )
    }
}

proof fn rows_held(
    latest: Latest,
    table: TableId,
    rows: SectionView,
    count: int,
    key: StreamKey,
)
    requires
        filed(latest),
        columns_distinct(rows),
        0 <= count <= rows.timestamps.len(),
        fold::rows_applied(latest, table, rows, count) is Ok,
    ensures
        ({
            let after = fold::rows_applied(latest, table, rows, count)->Ok_0;
            &&& filed(after)
            &&& held(after, key) == (if key.table == table {
                carried(
                    held(latest, key),
                    key,
                    first_rows(rows, facts::spec_stream(key), count),
                )
            } else {
                held(latest, key)
            })
        }),
    decreases count,
{
    if count > 0 {
        rows_held(latest, table, rows, count - 1, key);
        let before = fold::rows_applied(latest, table, rows, count - 1)->Ok_0;
        row_held(before, table, rows, count - 1, rows.columns.len() as int, key);
        let stream = facts::spec_stream(key);
        carried_join(
            held(latest, key),
            key,
            first_rows(rows, stream, count - 1),
            row_of(rows, stream, count - 1, rows.columns.len() as int),
        );
    }
}

/// Row by row, a stream has the values of its column.
proof fn first_rows_are_facts(rows: SectionView, stream: tail::Stream, count: int)
    requires
        columns_distinct(rows),
        0 <= count,
    ensures
        first_rows(rows, stream, count) == (if meaning::has_column(rows.columns, stream) {
            let c = choose|i: int|
                0 <= i < rows.columns.len() && (#[trigger] rows.columns[i]).stream == stream;
            let cells = rows.columns[c].cells;
            facts::cell_facts(
                rows.timestamps,
                cells,
                if count < cells.len() {
                    count
                } else {
                    cells.len() as int
                },
            )
        } else {
            Seq::empty()
        }),
    decreases count,
{
    let width = rows.columns.len() as int;
    if count > 0 {
        first_rows_are_facts(rows, stream, count - 1);
        let row = count - 1;
        let more = row_of(rows, stream, row, width);
        let before = first_rows(rows, stream, count - 1);
        if meaning::has_column(rows.columns, stream) {
            let c = choose|i: int|
                0 <= i < rows.columns.len() && (#[trigger] rows.columns[i]).stream == stream;
            let cells = rows.columns[c].cells;
            assert forall|d: int|
                0 <= d < width && (#[trigger] rows.columns[d]).stream == stream implies d == c by {
                if d < c {
                    assert(rows.columns[d].stream != rows.columns[c].stream);
                } else if c < d {
                    assert(rows.columns[c].stream != rows.columns[d].stream);
                }
            }
            if row < cells.len() && cells[row] is Some {
                assert(rows.columns[c].stream == stream);
                let fact = Fact { timestamp: rows.timestamps[row], value: cells[row]->Some_0 };
                assert(more =~= seq![fact]);
                assert(before + seq![fact] =~= before.push(fact));
            } else {
                assert(more =~= Seq::<Fact>::empty());
                assert(before + Seq::<Fact>::empty() =~= before);
            }
        } else {
            assert(more =~= Seq::<Fact>::empty());
            assert(before + Seq::<Fact>::empty() =~= before);
        }
    }
}

/// What a section holds of a stream is what it passes on.
proof fn section_rows_are_facts(rows: SectionView, stream: tail::Stream)
    requires
        columns_distinct(rows),
    ensures
        first_rows(rows, stream, rows.timestamps.len() as int) == meaning::rows_facts(rows, stream),
{
    first_rows_are_facts(rows, stream, rows.timestamps.len() as int);
}

/// A fold so far: every stream of the table holds what came of it.
proof fn sections_held<S: UnitSource>(
    source: &S,
    table: TableId,
    state: TailTableView,
    unit: UnitMeta,
    index: int,
    sections: Seq<TableDirectoryEntry>,
    before: FoldState,
    count: int,
    key: StreamKey,
    all: Seq<PlannedSection>,
    place: int,
)
    requires
        filed(before.latest),
        0 <= count <= sections.len(),
        0 <= place,
        place + sections.len() <= all.len(),
        forall|k: int|
            0 <= k < sections.len() ==> #[trigger] all[place + k] == (PlannedSection {
                unit,
                section: sections[k],
            }) && columns_distinct(
                meaning::section_rows(source, state.versions, all[place + k]),
            ),
        fold::sections_folded(source, table, state, unit, index, sections, before, count) is Ok,
    ensures
        ({
            let after = fold::sections_folded(
                source,
                table,
                state,
                unit,
                index,
                sections,
                before,
                count,
            )->Ok_0;
            let stream = facts::spec_stream(key);
            &&& filed(after.latest)
            &&& key.table != table ==> held(after.latest, key) == held(before.latest, key)
            &&& forall|prior: Option<RetentionHead>|
                key.table == table && held(before.latest, key) == #[trigger] carried(
                    prior,
                    key,
                    meaning::sealed_facts(source, state.versions, all, stream, place),
                ) ==> held(after.latest, key) == carried(
                    prior,
                    key,
                    meaning::sealed_facts(source, state.versions, all, stream, place + count),
                )
        }),
    decreases count,
{
    if count > 0 {
        sections_held(
            source,
            table,
            state,
            unit,
            index,
            sections,
            before,
            count - 1,
            key,
            all,
            place,
        );
        let so_far = fold::sections_folded(
            source,
            table,
            state,
            unit,
            index,
            sections,
            before,
            count - 1,
        )->Ok_0;
        let here = all[place + (count - 1)];
        let stream = facts::spec_stream(key);
        let rows = meaning::section_rows(source, state.versions, here);
        assert(columns_distinct(
            meaning::section_rows(source, state.versions, all[place + (count - 1)]),
        ));
        rows_held(so_far.latest, table, rows, rows.timestamps.len() as int, key);
        section_rows_are_facts(rows, stream);
        let after = fold::sections_folded(
            source,
            table,
            state,
            unit,
            index,
            sections,
            before,
            count,
        )->Ok_0;
        let sealed = meaning::sealed_facts(
            source,
            state.versions,
            all,
            stream,
            place + count - 1,
        );
        assert forall|prior: Option<RetentionHead>|
            key.table == table && held(before.latest, key) == #[trigger] carried(
                prior,
                key,
                meaning::sealed_facts(source, state.versions, all, stream, place),
            ) implies held(after.latest, key) == carried(
            prior,
            key,
            meaning::sealed_facts(source, state.versions, all, stream, place + count),
        ) by {
            carried_join(prior, key, sealed, meaning::rows_facts(rows, stream));
        }
    }
}

/// Every section of the first units stands among all, as it does among those units alone.
proof fn units_held<S: UnitSource>(
    source: &S,
    schemas: TailView,
    table: TableId,
    expired: Seq<UnitMeta>,
    units: Seq<UnitMeta>,
    before: FoldState,
    count: int,
    key: StreamKey,
)
    requires
        filed(before.latest),
        columns_apart(source, units, schemas, table),
        expired.len() <= units.len(),
        units.take(expired.len() as int) == expired,
        0 <= count <= expired.len(),
        fold::units_folded(
            source,
            table,
            schemas.tables[table],
            expired,
            before,
            count,
        ) is Ok,
    ensures
        ({
            let state = schemas.tables[table];
            let after = fold::units_folded(source, table, state, expired, before, count)->Ok_0;
            let all = meaning::all_sections(source, units, table, units.len() as int);
            let place = meaning::all_sections(source, units, table, count).len() as int;
            &&& filed(after.latest)
            &&& held(after.latest, key) == (if key.table == table {
                carried(
                    held(before.latest, key),
                    key,
                    meaning::sealed_facts(
                        source,
                        state.versions,
                        all,
                        facts::spec_stream(key),
                        place,
                    ),
                )
            } else {
                held(before.latest, key)
            })
        }),
    decreases count,
{
    let state = schemas.tables[table];
    let all = meaning::all_sections(source, units, table, units.len() as int);
    if count > 0 {
        units_held(source, schemas, table, expired, units, before, count - 1, key);
        let so_far = fold::units_folded(
            source,
            table,
            state,
            expired,
            before,
            count - 1,
        )->Ok_0;
        let place = meaning::all_sections(source, units, table, count - 1).len() as int;
        let unit = expired[count - 1];
        assert(units.take(expired.len() as int)[count - 1] == units[count - 1]);
        let sections = source.directory(unit, table)->Ok_0;
        meaning::sections_prefix(source, units, table, count, units.len() as int);
        assert(meaning::all_sections(source, units, table, count).len() == place + sections.len());
        assert forall|k: int| 0 <= k < sections.len() implies #[trigger] all[place + k] == (
        PlannedSection { unit, section: sections[k] }) && columns_distinct(
            meaning::section_rows(source, state.versions, all[place + k]),
        ) by {
            meaning::section_place(source, units, table, count - 1, k);
        }
        sections_held(
            source,
            table,
            state,
            unit,
            count - 1,
            sections,
            so_far,
            sections.len() as int,
            key,
            all,
            place,
        );
        let prior = held(before.latest, key);
        let stream = facts::spec_stream(key);
        assert(key.table == table ==> held(so_far.latest, key) == carried(
            prior,
            key,
            meaning::sealed_facts(source, state.versions, all, stream, place),
        ));
    }
}

/// A row of another table leaves a stream as it is.
proof fn other_row(
    latest: Latest,
    table: TableId,
    rows: SectionView,
    row: int,
    count: int,
    key: StreamKey,
)
    requires
        filed(latest),
        key.table != table,
        fold::row_applied(latest, table, rows, row, count) is Ok,
    ensures
        filed(fold::row_applied(latest, table, rows, row, count)->Ok_0),
        held(fold::row_applied(latest, table, rows, row, count)->Ok_0, key) == held(latest, key),
    decreases count,
{
    if count > 0 {
        other_row(latest, table, rows, row, count - 1, key);
        let before = fold::row_applied(latest, table, rows, row, count - 1)->Ok_0;
        let column = rows.columns[count - 1];
        if row < column.cells.len() && column.cells[row] is Some {
            value_held(
                before,
                table,
                column.stream,
                rows.timestamps[row],
                column.cells[row]->Some_0,
                key,
            );
        }
    }
}

/// Rows of another table leave a stream as it is.
proof fn other_rows(
    latest: Latest,
    table: TableId,
    rows: SectionView,
    count: int,
    key: StreamKey,
)
    requires
        filed(latest),
        key.table != table,
        fold::rows_applied(latest, table, rows, count) is Ok,
    ensures
        filed(fold::rows_applied(latest, table, rows, count)->Ok_0),
        held(fold::rows_applied(latest, table, rows, count)->Ok_0, key) == held(latest, key),
    decreases count,
{
    if count > 0 {
        other_rows(latest, table, rows, count - 1, key);
        let before = fold::rows_applied(latest, table, rows, count - 1)->Ok_0;
        other_row(before, table, rows, count - 1, rows.columns.len() as int, key);
    }
}

/// Sections of another table leave a stream as it is.
proof fn other_sections<S: UnitSource>(
    source: &S,
    table: TableId,
    state: TailTableView,
    unit: UnitMeta,
    index: int,
    sections: Seq<TableDirectoryEntry>,
    before: FoldState,
    count: int,
    key: StreamKey,
)
    requires
        filed(before.latest),
        key.table != table,
        fold::sections_folded(source, table, state, unit, index, sections, before, count) is Ok,
    ensures
        ({
            let after = fold::sections_folded(
                source,
                table,
                state,
                unit,
                index,
                sections,
                before,
                count,
            )->Ok_0;
            filed(after.latest) && held(after.latest, key) == held(before.latest, key)
        }),
    decreases count,
{
    if count > 0 {
        other_sections(source, table, state, unit, index, sections, before, count - 1, key);
        let so_far = fold::sections_folded(
            source,
            table,
            state,
            unit,
            index,
            sections,
            before,
            count - 1,
        )->Ok_0;
        let section = sections[count - 1];
        let version = facts::version_numbered(state.versions, section.version_no)->Some_0;
        let rows = source.rows_of(unit, section, version)->Ok_0;
        other_rows(so_far.latest, table, rows, rows.timestamps.len() as int, key);
    }
}

/// Units leave a stream of another table as it is.
proof fn other_units<S: UnitSource>(
    source: &S,
    table: TableId,
    state: TailTableView,
    expired: Seq<UnitMeta>,
    before: FoldState,
    count: int,
    key: StreamKey,
)
    requires
        filed(before.latest),
        key.table != table,
        fold::units_folded(source, table, state, expired, before, count) is Ok,
    ensures
        ({
            let after = fold::units_folded(source, table, state, expired, before, count)->Ok_0;
            filed(after.latest) && held(after.latest, key) == held(before.latest, key)
        }),
    decreases count,
{
    if count > 0 {
        other_units(source, table, state, expired, before, count - 1, key);
        let so_far = fold::units_folded(
            source,
            table,
            state,
            expired,
            before,
            count - 1,
        )->Ok_0;
        let unit = expired[count - 1];
        let sections = source.directory(unit, table)->Ok_0;
        other_sections(
            source,
            table,
            state,
            unit,
            count - 1,
            sections,
            so_far,
            sections.len() as int,
            key,
        );
    }
}

/// The values that the first units hold of a stream.
pub open spec fn expired_facts<S: UnitSource>(
    source: &S,
    units: Seq<UnitMeta>,
    schemas: TailView,
    key: StreamKey,
    count: int,
) -> Seq<Fact> {
    let all = meaning::all_sections(source, units, key.table, units.len() as int);
    meaning::sealed_facts(
        source,
        schemas.tables[key.table].versions,
        all,
        facts::spec_stream(key),
        meaning::all_sections(source, units, key.table, count).len() as int,
    )
}

proof fn tables_held<S: UnitSource>(
    source: &S,
    schemas: &TailIndex,
    expired: Seq<UnitMeta>,
    units: Seq<UnitMeta>,
    before: FoldState,
    count: int,
    key: StreamKey,
)
    requires
        schemas.wf(),
        filed(before.latest),
        columns_apart(source, units, schemas@, key.table),
        expired.len() <= units.len(),
        units.take(expired.len() as int) == expired,
        0 <= count <= schemas.tables.entries@.len(),
        fold::tables_folded(source, fold::ordered_tables(schemas), expired, before, count) is Ok,
    ensures
        ({
            let after = fold::tables_folded(
                source,
                fold::ordered_tables(schemas),
                expired,
                before,
                count,
            )->Ok_0;
            &&& filed(after.latest)
            &&& held(after.latest, key) == (if exists|i: int|
                0 <= i < count && (#[trigger] schemas.tables.entries@[i]).0 == key.table {
                carried(
                    held(before.latest, key),
                    key,
                    expired_facts(source, units, schemas@, key, expired.len() as int),
                )
            } else {
                held(before.latest, key)
            })
        }),
    decreases count,
{
    if count > 0 {
        tables_held(source, schemas, expired, units, before, count - 1, key);
        let entries = schemas.tables.entries@;
        let tables = fold::ordered_tables(schemas);
        let so_far = fold::tables_folded(source, tables, expired, before, count - 1)->Ok_0;
        let id = entries[count - 1].0;
        ordmap::lookup_at(entries, count - 1);
        assert(schemas@.tables[id] == entries[count - 1].1@);
        let fresh = FoldState { previous: None, ..so_far };
        if id == key.table {
            units_held(
                source,
                schemas@,
                id,
                expired,
                units,
                fresh,
                expired.len() as int,
                key,
            );
            assert(entries[count - 1].0 == key.table);
            if exists|i: int| 0 <= i < count - 1 && (#[trigger] entries[i]).0 == key.table {
                let i = choose|i: int| 0 <= i < count - 1 && (#[trigger] entries[i]).0 == key.table;
                assert(entries[i].0.rank() < entries[count - 1].0.rank());
            }
        } else {
            other_units(
                source,
                id,
                entries[count - 1].1@,
                expired,
                fresh,
                expired.len() as int,
                key,
            );
            if exists|i: int| 0 <= i < count && (#[trigger] entries[i]).0 == key.table {
                let i = choose|i: int| 0 <= i < count && (#[trigger] entries[i]).0 == key.table;
                assert(i < count - 1);
            }
        }
    }
}

/// The heads that stay are those that still stand at the floor.
proof fn live_heads_facts(
    schemas: TailView,
    latest: Latest,
    floor: i64,
    count: int,
    key: StreamKey,
)
    requires
        filed(latest),
        0 <= count <= latest.len(),
        fold::live_heads(schemas, latest, floor, count) is Ok,
    ensures
        ({
            let list = fold::live_heads(schemas, latest, floor, count)->Ok_0;
            &&& forall|k: int|
                0 <= k < list.len() ==> exists|i: int|
                    0 <= i < count && (#[trigger] latest[i]).1 == #[trigger] list[k]
                        && fold::head_live(
                        schemas.tables[latest[i].0.table],
                        latest[i].1,
                        floor,
                    ) == Ok::<bool, Error>(true)
            &&& forall|i: int|
                0 <= i < count && schemas.tables.contains_key((#[trigger] latest[i]).0.table) ==> {
                    &&& fold::head_live(
                        schemas.tables[latest[i].0.table],
                        latest[i].1,
                        floor,
                    ) is Ok
                    &&& fold::head_live(
                        schemas.tables[latest[i].0.table],
                        latest[i].1,
                        floor,
                    )->Ok_0 ==> list.contains(latest[i].1)
                }
        }),
    decreases count,
{
    if count > 0 {
        live_heads_facts(schemas, latest, floor, count - 1, key);
        let earlier = fold::live_heads(schemas, latest, floor, count - 1)->Ok_0;
        let list = fold::live_heads(schemas, latest, floor, count)->Ok_0;
        assert forall|k: int| 0 <= k < list.len() implies exists|i: int|
            0 <= i < count && (#[trigger] latest[i]).1 == #[trigger] list[k] && fold::head_live(
                schemas.tables[latest[i].0.table],
                latest[i].1,
                floor,
            ) == Ok::<bool, Error>(true) by {
            if k < earlier.len() {
                assert(list[k] == earlier[k]);
                let i = choose|i: int|
                    0 <= i < count - 1 && (#[trigger] latest[i]).1 == earlier[k]
                        && fold::head_live(
                        schemas.tables[latest[i].0.table],
                        latest[i].1,
                        floor,
                    ) == Ok::<bool, Error>(true);
                assert(0 <= i < count && latest[i].1 == list[k]);
            } else {
                assert(latest[count - 1].1 == list[k]);
            }
        }
        assert forall|i: int|
            0 <= i < count && schemas.tables.contains_key(
                (#[trigger] latest[i]).0.table,
            ) implies {
            &&& fold::head_live(schemas.tables[latest[i].0.table], latest[i].1, floor) is Ok
            &&& fold::head_live(
                schemas.tables[latest[i].0.table],
                latest[i].1,
                floor,
            )->Ok_0 ==> list.contains(latest[i].1)
        } by {
            if i < count - 1 {
                if fold::head_live(
                    schemas.tables[latest[i].0.table],
                    latest[i].1,
                    floor,
                )->Ok_0 {
                    assert(earlier.contains(latest[i].1));
                    let k = choose|k: int|
                        0 <= k < earlier.len() && earlier[k] == latest[i].1;
                    assert(list[k] == latest[i].1);
                }
            } else if list.len() > earlier.len() {
                assert(list[list.len() - 1] == latest[i].1);
            }
        }
    }
}

/// The heads that an earlier fold left are held as they are.
proof fn kept_held(entries: Seq<RetentionHead>, key: StreamKey)
    requires
        head::heads_ordered(entries),
    ensures
        filed(fold::kept_values(entries)),
        held(fold::kept_values(entries), key) == head::head_of(entries, key),
{
    let latest = fold::kept_values(entries);
    assert(ordmap::ordered(latest)) by {
        assert forall|i: int, j: int| 0 <= i < j < latest.len() implies (
        #[trigger] latest[i]).0.rank() < (#[trigger] latest[j]).0.rank() by {
            assert(entries[i].spec_key().rank() < entries[j].spec_key().rank());
        }
    }
    if ordmap::has_key(latest, key) {
        let i = ordmap::key_index(latest, key);
        assert(0 <= i < latest.len() && latest[i].0 == key);
        assert(entries[i].spec_key() == key);
        head::head_at(entries, i);
        ordmap::lookup_at(latest, i);
    } else if head::head_of(entries, key) is Some {
        let i = choose|i: int| 0 <= i < entries.len() && (#[trigger] entries[i]).spec_key() == key;
        assert(latest[i].0 == key);
    }
}

/// What a fold keeps of a stream whose expired values all lie before the floor.
proof fn fold_keeps_last_value<S: UnitSource>(
    source: &S,
    schemas: &TailIndex,
    prior: Option<HeadsView>,
    expired: Seq<UnitMeta>,
    units: Seq<UnitMeta>,
    floor: i64,
    key: StreamKey,
)
    requires
        schemas.wf(),
        prior matches Some(heads) ==> heads.valid(),
        columns_apart(source, units, schemas@, key.table),
        forall|i: int|
            0 <= i < expired_facts(source, units, schemas@, key, expired.len() as int).len() ==> (
            #[trigger] expired_facts(
                source,
                units,
                schemas@,
                key,
                expired.len() as int,
            )[i]).timestamp < floor,
        expired.len() <= units.len(),
        units.take(expired.len() as int) == expired,
        schemas@.tables.contains_key(key.table),
        fold::folded(prior, expired, source, schemas, floor) is Ok,
    ensures
        ({
            let heads = fold::folded(prior, expired, source, schemas, floor)->Ok_0;
            let last = facts::latest_fact(
                expired_facts(source, units, schemas@, key, expired.len() as int),
                floor,
            );
            let value = primitives::headed(last, prior, key, floor);
            &&& heads.valid()
            &&& heads.floor == floor
            &&& match value {
                None => head::head_of(heads.entries, key) is None,
                Some(fact) => {
                    let kept = RetentionHead {
                        table: key.table,
                        series: key.series,
                        field: key.field,
                        fact_ts: fact.timestamp,
                        value: fact.value,
                    };
                    let live = fold::head_live(schemas@.tables[key.table], kept, floor);
                    &&& live is Ok
                    &&& head::head_of(heads.entries, key) == (if live->Ok_0 {
                        Some(kept)
                    } else {
                        None
                    })
                },
            }
        }),
{
    let heads = fold::folded(prior, expired, source, schemas, floor)->Ok_0;
    let begin = fold::fold_start(prior, expired.len());
    let tables = fold::ordered_tables(schemas);
    let entries = schemas.tables.entries@;
    let list = expired_facts(source, units, schemas@, key, expired.len() as int);
    let before = match prior {
        Some(kept) => head::head_of(kept.entries, key),
        None => None,
    };
    if prior is Some {
        kept_held(prior->Some_0.entries, key);
    } else {
        assert(!ordmap::has_key(begin.latest, key));
    }
    assert(held(begin.latest, key) == before);
    tables_held(source, schemas, expired, units, begin, tables.len() as int, key);
    let after = fold::tables_folded(
        source,
        tables,
        expired,
        begin,
        tables.len() as int,
    )->Ok_0;
    assert(schemas.tables@.contains_key(key.table));
    let at = ordmap::key_index(entries, key.table);
    assert(0 <= at < entries.len() && entries[at].0 == key.table);
    assert(held(after.latest, key) == carried(before, key, list));
    live_heads_facts(schemas@, after.latest, floor, after.latest.len() as int, key);
    latest_is_last(list, floor);
    if prior is Some && before is Some {
        let kept = prior->Some_0;
        let i = choose|i: int|
            0 <= i < kept.entries.len() && (#[trigger] kept.entries[i]).spec_key() == key;
        assert(kept.entries[i].fact_ts < kept.floor);
        assert(before == Some(kept.entries[i]));
    }
    if ordmap::has_key(after.latest, key) {
        let i = ordmap::key_index(after.latest, key);
        assert(0 <= i < after.latest.len() && after.latest[i].0 == key);
        ordmap::lookup_at(after.latest, i);
        let kept = after.latest[i].1;
        assert(held(after.latest, key) == Some(kept));
        assert(kept.spec_key() == key);
        let live = fold::head_live(schemas@.tables[key.table], kept, floor);
        if live->Ok_0 {
            assert(heads.entries.contains(kept));
            let k = choose|k: int| 0 <= k < heads.entries.len() && heads.entries[k] == kept;
            head::head_at(heads.entries, k);
        } else {
            only_live(schemas@, after.latest, floor, heads.entries, i);
        }
    } else {
        if head::head_of(heads.entries, key) is Some {
            let k = choose|k: int|
                0 <= k < heads.entries.len() && (#[trigger] heads.entries[k]).spec_key() == key;
            let i = choose|i: int|
                0 <= i < after.latest.len() && (#[trigger] after.latest[i]).1 == heads.entries[k]
                    && fold::head_live(
                    schemas@.tables[after.latest[i].0.table],
                    after.latest[i].1,
                    floor,
                ) == Ok::<bool, Error>(true);
            assert(after.latest[i].0 == key);
        }
    }
}

/// A fold keeps of every stream the last of its expired values, or else what was kept before, if it
/// still stands at the floor, and nothing of any other.
pub proof fn fold_keeps_last_live_value<S: UnitSource>(
    source: &S,
    schemas: &TailIndex,
    prior: Option<HeadsView>,
    expired: Seq<UnitMeta>,
    units: Seq<UnitMeta>,
    floor: i64,
    key: StreamKey,
)
    requires
        schemas.wf(),
        prior matches Some(heads) ==> heads.valid(),
        meaning::sound(source, units, schemas@, key.table),
        expired.len() <= units.len(),
        units.take(expired.len() as int) == expired,
        schemas@.tables.contains_key(key.table),
        fold::folded(prior, expired, source, schemas, floor) is Ok,
    ensures
        ({
            let heads = fold::folded(prior, expired, source, schemas, floor)->Ok_0;
            let last = facts::latest_fact(
                expired_facts(source, units, schemas@, key, expired.len() as int),
                floor,
            );
            let value = primitives::headed(last, prior, key, floor);
            &&& heads.valid()
            &&& heads.floor == floor
            &&& match value {
                None => head::head_of(heads.entries, key) is None,
                Some(fact) => {
                    let kept = RetentionHead {
                        table: key.table,
                        series: key.series,
                        field: key.field,
                        fact_ts: fact.timestamp,
                        value: fact.value,
                    };
                    let live = fold::head_live(schemas@.tables[key.table], kept, floor);
                    &&& live is Ok
                    &&& head::head_of(heads.entries, key) == (if live->Ok_0 {
                        Some(kept)
                    } else {
                        None
                    })
                },
            }
        }),
{
    sound_columns(source, units, schemas@, key.table);
    expired_before_floor(source, schemas@, expired, units, floor, key);
    fold_keeps_last_value(source, schemas, prior, expired, units, floor, key);
}

/// The sections of a sound store have each stream once.
proof fn sound_columns<S: UnitSource>(
    source: &S,
    units: Seq<UnitMeta>,
    schemas: TailView,
    table: TableId,
)
    requires
        meaning::sound(source, units, schemas, table),
    ensures
        columns_apart(source, units, schemas, table),
{
    let all = meaning::all_sections(source, units, table, units.len() as int);
    let versions = schemas.tables[table].versions;
    assert forall|i: int| 0 <= i < all.len() implies columns_distinct(
        meaning::section_rows(source, versions, #[trigger] all[i]),
    ) by {
        assert(meaning::section_sound(source, versions, all[i]));
    }
}

/// A value that does not stand is not kept.
proof fn only_live(
    schemas: TailView,
    latest: Latest,
    floor: i64,
    entries: Seq<RetentionHead>,
    at: int,
)
    requires
        filed(latest),
        0 <= at < latest.len(),
        fold::head_live(schemas.tables[latest[at].0.table], latest[at].1, floor) != Ok::<
            bool,
            Error,
        >(true),
        forall|k: int|
            0 <= k < entries.len() ==> exists|i: int|
                0 <= i < latest.len() && (#[trigger] latest[i]).1 == #[trigger] entries[k]
                    && fold::head_live(
                    schemas.tables[latest[i].0.table],
                    latest[i].1,
                    floor,
                ) == Ok::<bool, Error>(true),
    ensures
        head::head_of(entries, latest[at].0) is None,
{
    let key = latest[at].0;
    if head::head_of(entries, key) is Some {
        let k = choose|k: int| 0 <= k < entries.len() && (#[trigger] entries[k]).spec_key() == key;
        let i = choose|i: int|
            0 <= i < latest.len() && (#[trigger] latest[i]).1 == entries[k] && fold::head_live(
                schemas.tables[latest[i].0.table],
                latest[i].1,
                floor,
            ) == Ok::<bool, Error>(true);
        assert(latest[i].0 == key);
        if i < at {
            assert(latest[i].0.rank() < latest[at].0.rank());
        } else if at < i {
            assert(latest[at].0.rank() < latest[i].0.rank());
        }
    }
}

/// Of values that are all at or before a time, the last is the last one.
proof fn latest_is_last(list: Seq<Fact>, at: i64)
    requires
        forall|i: int| 0 <= i < list.len() ==> (#[trigger] list[i]).timestamp <= at,
    ensures
        facts::latest_fact(list, at) == (if list.len() == 0 {
            None
        } else {
            Some(list.last())
        }),
{
    if list.len() > 0 {
        assert(list[list.len() - 1].timestamp <= at);
    }
}

/// Expired values predate the floor.
proof fn expired_before_floor<S: UnitSource>(
    source: &S,
    schemas: TailView,
    expired: Seq<UnitMeta>,
    units: Seq<UnitMeta>,
    floor: i64,
    key: StreamKey,
)
    requires
        meaning::sound(source, units, schemas, key.table),
        expired.len() <= units.len(),
        units.take(expired.len() as int) == expired,
        forall|i: int| 0 <= i < expired.len() ==> (#[trigger] expired[i]).max_ts < floor,
    ensures
        forall|i: int|
            0 <= i < expired_facts(source, units, schemas, key, expired.len() as int).len() ==> (
            #[trigger] expired_facts(
                source,
                units,
                schemas,
                key,
                expired.len() as int,
            )[i]).timestamp < floor,
{
    let all = meaning::all_sections(source, units, key.table, units.len() as int);
    let place = meaning::all_sections(source, units, key.table, expired.len() as int).len() as int;
    meaning::sections_prefix(source, units, key.table, expired.len() as int, units.len() as int);
    units_below(source, schemas, key.table, expired, units, floor, expired.len() as int);
    sealed_below(source, schemas, units, key, floor, place);
}

proof fn units_below<S: UnitSource>(
    source: &S,
    schemas: TailView,
    table: TableId,
    expired: Seq<UnitMeta>,
    units: Seq<UnitMeta>,
    floor: i64,
    count: int,
)
    requires
        meaning::sound(source, units, schemas, table),
        expired.len() <= units.len(),
        units.take(expired.len() as int) == expired,
        forall|i: int| 0 <= i < expired.len() ==> (#[trigger] expired[i]).max_ts < floor,
        0 <= count <= expired.len(),
    ensures
        ({
            let all = meaning::all_sections(source, units, table, units.len() as int);
            let place = meaning::all_sections(source, units, table, count).len();
            &&& place <= all.len()
            &&& forall|s: int| 0 <= s < place ==> (#[trigger] all[s]).section.max_ts < floor
        }),
    decreases count,
{
    let all = meaning::all_sections(source, units, table, units.len() as int);
    meaning::sections_prefix(source, units, table, count, units.len() as int);
    if count > 0 {
        units_below(source, schemas, table, expired, units, floor, count - 1);
        let before = meaning::all_sections(source, units, table, count - 1).len() as int;
        let after = meaning::all_sections(source, units, table, count).len() as int;
        let unit = expired[count - 1];
        assert(units.take(expired.len() as int)[count - 1] == units[count - 1]);
        let sections = source.directory(unit, table)->Ok_0;
        assert(after == before + sections.len());
        assert forall|s: int| 0 <= s < after implies (#[trigger] all[s]).section.max_ts
            < floor by {
            if s >= before {
                meaning::section_place(source, units, table, count - 1, s - before);
                assert(all[s].unit == unit);
                assert(crate::query::plan::loaded_refusal(
                    all[s].unit,
                    table,
                    all[s].section,
                ) is None);
            }
        }
    }
}

proof fn sealed_below<S: UnitSource>(
    source: &S,
    schemas: TailView,
    units: Seq<UnitMeta>,
    key: StreamKey,
    floor: i64,
    count: int,
)
    requires
        meaning::sound(source, units, schemas, key.table),
        0 <= count <= meaning::all_sections(
            source,
            units,
            key.table,
            units.len() as int,
        ).len(),
        forall|s: int|
            0 <= s < count ==> (#[trigger] meaning::all_sections(
                source,
                units,
                key.table,
                units.len() as int,
            )[s]).section.max_ts < floor,
    ensures
        ({
            let all = meaning::all_sections(source, units, key.table, units.len() as int);
            let list = meaning::sealed_facts(
                source,
                schemas.tables[key.table].versions,
                all,
                facts::spec_stream(key),
                count,
            );
            forall|i: int| 0 <= i < list.len() ==> (#[trigger] list[i]).timestamp < floor
        }),
    decreases count,
{
    if count > 0 {
        let all = meaning::all_sections(source, units, key.table, units.len() as int);
        let versions = schemas.tables[key.table].versions;
        let stream = facts::spec_stream(key);
        sealed_below(source, schemas, units, key, floor, count - 1);
        assert(meaning::section_sound(source, versions, all[count - 1]));
        meaning::section_facts_times(source, versions, all[count - 1], stream);
    }
}

/// A stream has its expired values and then those that stay.
proof fn stream_join<S: UnitSource>(
    source: &S,
    schemas: TailView,
    expired: Seq<UnitMeta>,
    kept: Seq<UnitMeta>,
    key: StreamKey,
)
    ensures
        meaning::stream_facts(source, expired + kept, schemas, key) == expired_facts(
            source,
            expired + kept,
            schemas,
            key,
            expired.len() as int,
        ) + meaning::stream_facts(source, kept, schemas, key),
{
    let units = expired + kept;
    let table = schemas.tables[key.table];
    let stream = facts::spec_stream(key);
    let first = meaning::all_sections(source, units, key.table, expired.len() as int);
    let second = meaning::all_sections(source, kept, key.table, kept.len() as int);
    meaning::sections_join(source, expired, kept, key.table, kept.len() as int);
    meaning::sealed_join(source, table.versions, first, second, stream, second.len() as int);
    let a = meaning::sealed_facts(
        source,
        table.versions,
        first + second,
        stream,
        first.len() as int,
    );
    let b = meaning::sealed_facts(source, table.versions, second, stream, second.len() as int);
    let c = facts::tail_facts(table.rows, stream);
    assert((a + b) + c =~= a + (b + c));
}

/// Dropping expired units and keeping the folded heads in their place changes no lookup, no sampled
/// time and no walk at or above the floor.
pub proof fn retention_changes_no_later_answer<S: UnitSource>(
    source: &S,
    schemas: &TailIndex,
    prior: Option<HeadsView>,
    expired: Seq<UnitMeta>,
    kept: Seq<UnitMeta>,
    floor: i64,
    key: StreamKey,
    time: i64,
    end: i64,
)
    requires
        schemas.wf(),
        prior matches Some(heads) ==> heads.valid(),
        meaning::sound(source, expired + kept, schemas@, key.table),
        facts::key_refusal(schemas@, key) is None,
        fold::folded(prior, expired, source, schemas, floor) is Ok,
        floor <= time,
    ensures
        ({
            let heads = Some(fold::folded(prior, expired, source, schemas, floor)->Ok_0);
            let units = expired + kept;
            &&& recall::recalled(source, kept, schemas@, heads, key, Some(time))
                == recall::recalled(source, units, schemas@, prior, key, Some(time))
            &&& resample::resampled(source, kept, schemas@, heads, key, time)
                == resample::resampled(source, units, schemas@, prior, key, time)
            &&& facts::facts_within(
                meaning::stream_facts(source, kept, schemas@, key),
                time,
                end,
            ) == facts::facts_within(
                meaning::stream_facts(source, units, schemas@, key),
                time,
                end,
            )
        }),
{
    let units = expired + kept;
    assert(units.take(expired.len() as int) =~= expired);
    sound_columns(source, units, schemas@, key.table);
    let gone = expired_facts(source, units, schemas@, key, expired.len() as int);
    let stays = meaning::stream_facts(source, kept, schemas@, key);
    stream_join(source, schemas@, expired, kept, key);
    meaning::latest_join(gone, stays, time);
    meaning::within_join(gone, stays, time, end);
    expired_before_floor(source, schemas@, expired, units, floor, key);
    latest_is_last(gone, floor);
    latest_is_last(gone, time);
    meaning::nothing_within(gone, time, end);
    let later = facts::facts_within(stays, time, end);
    assert(Seq::<Fact>::empty() + later =~= later);
    if facts::latest_fact(stays, time) is None {
        heads_stand_in(source, schemas, prior, expired, units, floor, key, time);
    }
}

/// Where a stream has no later value, the new heads answer as the expired values and the old heads
/// did.
pub(crate) proof fn heads_stand_in<S: UnitSource>(
    source: &S,
    schemas: &TailIndex,
    prior: Option<HeadsView>,
    expired: Seq<UnitMeta>,
    units: Seq<UnitMeta>,
    floor: i64,
    key: StreamKey,
    time: i64,
)
    requires
        schemas.wf(),
        prior matches Some(heads) ==> heads.valid(),
        columns_apart(source, units, schemas@, key.table),
        forall|i: int|
            0 <= i < expired_facts(source, units, schemas@, key, expired.len() as int).len() ==> (
            #[trigger] expired_facts(
                source,
                units,
                schemas@,
                key,
                expired.len() as int,
            )[i]).timestamp < floor,
        expired.len() <= units.len(),
        units.take(expired.len() as int) == expired,
        facts::key_refusal(schemas@, key) is None,
        fold::folded(prior, expired, source, schemas, floor) is Ok,
        floor <= time,
    ensures
        ({
            let heads = Some(fold::folded(prior, expired, source, schemas, floor)->Ok_0);
            let gone = expired_facts(source, units, schemas@, key, expired.len() as int);
            let last = facts::latest_fact(gone, time);
            &&& primitives::lookup_of(
                schemas@,
                key,
                primitives::headed(None, heads, key, time),
                time,
            ) == primitives::lookup_of(
                schemas@,
                key,
                primitives::headed(last, prior, key, time),
                time,
            )
            &&& primitives::slot_of(
                schemas@,
                key,
                primitives::headed(None, heads, key, time),
                time,
            ) == primitives::slot_of(
                schemas@,
                key,
                primitives::headed(last, prior, key, time),
                time,
            )
        }),
{
    let heads = fold::folded(prior, expired, source, schemas, floor)->Ok_0;
    let table = schemas@.tables[key.table];
    let gone = expired_facts(source, units, schemas@, key, expired.len() as int);
    fold_keeps_last_value(source, schemas, prior, expired, units, floor, key);
    latest_is_last(gone, floor);
    latest_is_last(gone, time);
    let value = primitives::headed(facts::latest_fact(gone, floor), prior, key, floor);
    if prior is Some && head::head_of(prior->Some_0.entries, key) is Some {
        let list = prior->Some_0;
        let i = choose|i: int|
            0 <= i < list.entries.len() && (#[trigger] list.entries[i]).spec_key() == key;
        assert(list.entries[i].fact_ts < list.floor);
    }
    assert(value == primitives::headed(facts::latest_fact(gone, time), prior, key, time));
    if value is Some {
        let fact = value->Some_0;
        let head = RetentionHead {
            table: key.table,
            series: key.series,
            field: key.field,
            fact_ts: fact.timestamp,
            value: fact.value,
        };
        assert(fact.timestamp < floor);
        let live = fold::head_live(table, head, floor);
        assert(head.spec_key() == key);
        let found = contract::resolved(table.versions, key.field, fact.timestamp)->Ok_0;
        if !live->Ok_0 {
            if !contract::live(found.version.validity, fact.timestamp, floor) {
                contract::lapse_is_final(
                    found.version.validity,
                    fact.timestamp,
                    floor,
                    time,
                );
            }
            assert(primitives::visible(table, key, fact, time) == Ok::<bool, Error>(false));
        }
    }
}

} // verus!
