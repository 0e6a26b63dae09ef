//! A lookup in a sound store finds the last value of the stream.
use vstd::prelude::*;

use super::batch::{self, Search};
use super::facts::{self, Fact};
use super::group;
use super::meaning;
use super::plan;
use super::primitives::{self, Lookup};
use crate::error::{Error, Result};
use crate::limits;
use crate::manifest::catalog::UnitMeta;
use crate::ordmap::OrderedKey;
use crate::retention::head::HeadsView;
use crate::tail::{Stream, TailView};
use crate::types::{StreamKey, TableId};
use crate::unit::{self, SectionView, UnitSource};

verus! {

/// Whether the first `left` sections hold what was not found yet.
spec fn pending<S: UnitSource>(
    source: &S,
    units: Seq<UnitMeta>,
    schemas: TailView,
    keys: Seq<StreamKey>,
    at: i64,
    found: Seq<Option<Fact>>,
    left: int,
) -> bool {
    let table = keys[0].table;
    let all = meaning::all_sections(source, units, table, units.len() as int);
    let versions = schemas.tables[table].versions;
    &&& found.len() == keys.len()
    &&& forall|i: int|
        0 <= i < keys.len() ==> facts::latest_fact(
            meaning::stream_facts(source, units, schemas, #[trigger] keys[i]),
            at,
        ) == (match found[i] {
            Some(fact) => Some(fact),
            None => facts::latest_fact(
                meaning::sealed_facts(source, versions, all, facts::spec_stream(keys[i]), left),
                at,
            ),
        })
}

/// A backward walk that has passed all but the first `left` sections.
spec fn searching<S: UnitSource>(
    source: &S,
    units: Seq<UnitMeta>,
    schemas: TailView,
    keys: Seq<StreamKey>,
    at: i64,
    search: Search,
    left: int,
) -> bool {
    let all = meaning::all_sections(source, units, keys[0].table, units.len() as int);
    &&& pending(source, units, schemas, keys, at, search.found, left)
    &&& search.unresolved == batch::unknown(search.found, search.found.len() as int)
    &&& search.done ==> search.unresolved == 0
    &&& search.newer matches Some(newer) ==> exists|j: int|
        left <= j < all.len() && (#[trigger] all[j]).section == newer
}

pub(crate) proof fn unknown_facts(found: Seq<Option<Fact>>, count: int)
    requires
        0 <= count <= found.len(),
    ensures
        batch::unknown(found, count) >= 0,
        batch::unknown(found, count) == 0 ==> forall|i: int|
            0 <= i < count ==> (#[trigger] found[i]) is Some,
        (exists|i: int| 0 <= i < count && (#[trigger] found[i]) is None) ==> batch::unknown(
            found,
            count,
        ) > 0,
    decreases count,
{
    if count > 0 {
        unknown_facts(found, count - 1);
    }
}

proof fn one_found(found: Seq<Option<Fact>>, at: int, fact: Fact, count: int)
    requires
        0 <= at < found.len(),
        0 <= count <= found.len(),
        found[at] is None,
    ensures
        batch::unknown(found.update(at, Some(fact)), count) == batch::unknown(found, count) - if at
            < count {
            1int
        } else {
            0
        },
    decreases count,
{
    if count > 0 {
        one_found(found, at, fact, count - 1);
    }
}

/// When nothing is unknown, earlier sections do not matter.
proof fn nothing_pending<S: UnitSource>(
    source: &S,
    units: Seq<UnitMeta>,
    schemas: TailView,
    keys: Seq<StreamKey>,
    at: i64,
    found: Seq<Option<Fact>>,
    left: int,
    fewer: int,
)
    requires
        pending(source, units, schemas, keys, at, found, left),
        batch::unknown(found, found.len() as int) == 0,
    ensures
        pending(source, units, schemas, keys, at, found, fewer),
{
    unknown_facts(found, found.len() as int);
}

/// Sections that are all later hold no value for the search.
proof fn later_sections<S: UnitSource>(
    source: &S,
    units: Seq<UnitMeta>,
    schemas: TailView,
    table: TableId,
    stream: Stream,
    at: i64,
    few: int,
    many: int,
)
    requires
        meaning::sound(source, units, schemas, table),
        0 <= few <= many <= meaning::all_sections(source, units, table, units.len() as int).len(),
        forall|i: int|
            few <= i < many ==> at < (#[trigger] meaning::all_sections(
                source,
                units,
                table,
                units.len() as int,
            )[i]).section.min_ts,
    ensures
        ({
            let all = meaning::all_sections(source, units, table, units.len() as int);
            let versions = schemas.tables[table].versions;
            facts::latest_fact(
                meaning::sealed_facts(source, versions, all, stream, many),
                at,
            ) == facts::latest_fact(meaning::sealed_facts(source, versions, all, stream, few), at)
        }),
    decreases many - few,
{
    if few < many {
        let all = meaning::all_sections(source, units, table, units.len() as int);
        let versions = schemas.tables[table].versions;
        let here = all[many - 1];
        let list = meaning::rows_facts(meaning::section_rows(source, versions, here), stream);
        later_sections(source, units, schemas, table, stream, at, few, many - 1);
        assert(meaning::section_sound(source, versions, here));
        meaning::section_facts_times(source, versions, here, stream);
        assert forall|i: int| 0 <= i < list.len() implies at < (#[trigger] list[i]).timestamp by {
            assert(at < all[many - 1].section.min_ts);
        }
        meaning::nothing_latest(list, at);
        meaning::latest_join(
            meaning::sealed_facts(source, versions, all, stream, many - 1),
            list,
            at,
        );
    }
}

/// What was asked for is not changed by leaving out what was not.
pub(crate) proof fn asked_facts(rows: SectionView, streams: Seq<Stream>, stream: Stream)
    requires
        forall|i: int, j: int|
            0 <= i < j < rows.columns.len() ==> (#[trigger] rows.columns[i]).stream != (
            #[trigger] rows.columns[j]).stream,
        streams.contains(stream),
    ensures
        meaning::rows_facts(
            SectionView {
                timestamps: rows.timestamps,
                columns: unit::columns_of(rows.columns, streams, rows.columns.len() as int),
            },
            stream,
        ) == meaning::rows_facts(rows, stream),
{
    let found = unit::columns_of(rows.columns, streams, rows.columns.len() as int);
    let part = SectionView { timestamps: rows.timestamps, columns: found };
    meaning::asked_columns(rows.columns, streams, rows.columns.len() as int);
    if meaning::has_column(rows.columns, stream) {
        let i = choose|i: int|
            0 <= i < rows.columns.len() && (#[trigger] rows.columns[i]).stream == stream;
        assert(streams.contains(rows.columns[i].stream));
        assert(found.contains(rows.columns[i]));
        let k = choose|k: int| 0 <= k < found.len() && found[k] == rows.columns[i];
        meaning::column_is_stream(rows, i);
        meaning::column_is_stream(part, k);
    } else if meaning::has_column(found, stream) {
        let k = choose|k: int| 0 <= k < found.len() && (#[trigger] found[k]).stream == stream;
        let i = choose|i: int|
            0 <= i < rows.columns.len() && (#[trigger] rows.columns[i]) == found[k];
        assert(rows.columns[i].stream == stream);
    }
}

/// The first columns of a section.
pub(crate) open spec fn first_columns(rows: SectionView, count: int) -> SectionView {
    SectionView { timestamps: rows.timestamps, columns: rows.columns.take(count) }
}

/// One more column matters to its own stream alone.
pub(crate) proof fn one_more_column(rows: SectionView, count: int, stream: Stream)
    requires
        0 < count <= rows.columns.len(),
        forall|i: int, j: int|
            0 <= i < j < rows.columns.len() ==> (#[trigger] rows.columns[i]).stream != (
            #[trigger] rows.columns[j]).stream,
    ensures
        rows.columns[count - 1].stream == stream ==> meaning::rows_facts(
            first_columns(rows, count),
            stream,
        ) == facts::column_facts(rows.timestamps, rows.columns[count - 1].cells)
            && meaning::rows_facts(first_columns(rows, count - 1), stream) == Seq::<Fact>::empty(),
        rows.columns[count - 1].stream != stream ==> meaning::rows_facts(
            first_columns(rows, count),
            stream,
        ) == meaning::rows_facts(first_columns(rows, count - 1), stream),
{
    let more = first_columns(rows, count);
    let fewer = first_columns(rows, count - 1);
    assert forall|i: int, j: int| 0 <= i < j < more.columns.len() implies (
    #[trigger] more.columns[i]).stream != (#[trigger] more.columns[j]).stream by {
        assert(rows.columns[i].stream != rows.columns[j].stream);
    }
    assert forall|i: int, j: int| 0 <= i < j < fewer.columns.len() implies (
    #[trigger] fewer.columns[i]).stream != (#[trigger] fewer.columns[j]).stream by {
        assert(rows.columns[i].stream != rows.columns[j].stream);
    }
    if rows.columns[count - 1].stream == stream {
        assert(more.columns[count - 1] == rows.columns[count - 1]);
        meaning::column_is_stream(more, count - 1);
        if meaning::has_column(fewer.columns, stream) {
            let i = choose|i: int|
                0 <= i < fewer.columns.len() && (#[trigger] fewer.columns[i]).stream == stream;
            assert(rows.columns[i].stream != rows.columns[count - 1].stream);
        }
    } else if meaning::has_column(more.columns, stream) {
        let i = choose|i: int|
            0 <= i < more.columns.len() && (#[trigger] more.columns[i]).stream == stream;
        assert(more.columns[count - 1] == rows.columns[count - 1]);
        assert(i < count - 1);
        assert(fewer.columns[i] == more.columns[i]);
        meaning::column_is_stream(more, i);
        meaning::column_is_stream(fewer, i);
    } else if meaning::has_column(fewer.columns, stream) {
        let i = choose|i: int|
            0 <= i < fewer.columns.len() && (#[trigger] fewer.columns[i]).stream == stream;
        assert(more.columns[i] == fewer.columns[i]);
    }
}

pub(crate) proof fn unresolved_facts(keys: Seq<StreamKey>, found: Seq<Option<Fact>>, count: int)
    requires
        0 <= count <= keys.len(),
        found.len() == keys.len(),
    ensures
        forall|i: int|
            0 <= i < count && found[i] is None ==> batch::unresolved_streams(
                keys,
                found,
                count,
            ).contains(facts::spec_stream(#[trigger] keys[i])),
        forall|stream: Stream| #[trigger]
            batch::unresolved_streams(keys, found, count).contains(stream) ==> exists|i: int|
                0 <= i < count && found[i] is None && facts::spec_stream(#[trigger] keys[i])
                    == stream,
    decreases count,
{
    if count > 0 {
        unresolved_facts(keys, found, count - 1);
        let earlier = batch::unresolved_streams(keys, found, count - 1);
        let list = batch::unresolved_streams(keys, found, count);
        let last = facts::spec_stream(keys[count - 1]);
        assert forall|i: int| 0 <= i < count && found[i] is None implies list.contains(
            facts::spec_stream(#[trigger] keys[i]),
        ) by {
            if i < count - 1 {
                let stream = facts::spec_stream(keys[i]);
                assert(earlier.contains(stream));
                let k = choose|k: int| 0 <= k < earlier.len() && earlier[k] == stream;
                assert(list[k] == stream);
            } else {
                assert(list[list.len() - 1] == last);
            }
        }
        assert forall|stream: Stream| #[trigger] list.contains(stream) implies exists|i: int|
            0 <= i < count && found[i] is None && facts::spec_stream(#[trigger] keys[i])
                == stream by {
            let k = choose|k: int| 0 <= k < list.len() && list[k] == stream;
            if k < earlier.len() {
                assert(earlier[k] == stream);
                assert(earlier.contains(stream));
                let i = choose|i: int|
                    0 <= i < count - 1 && found[i] is None && facts::spec_stream(
                        #[trigger] keys[i],
                    ) == stream;
                assert(0 <= i < count && facts::spec_stream(keys[i]) == stream);
            } else {
                assert(facts::spec_stream(keys[count - 1]) == stream);
            }
        }
    }
}

/// The walk after the columns of a section that were asked for.
pub(crate) proof fn columns_found(
    keys: Seq<StreamKey>,
    at: i64,
    rows: SectionView,
    search: Search,
    count: int,
)
    requires
        0 <= count <= rows.columns.len(),
        keys.len() > 0,
        batch::keys_ordered(keys),
        batch::keys_of(keys, keys[0].table),
        search.found.len() == keys.len(),
        search.unresolved == batch::unknown(search.found, search.found.len() as int),
        forall|i: int, j: int|
            0 <= i < j < rows.columns.len() ==> (#[trigger] rows.columns[i]).stream != (
            #[trigger] rows.columns[j]).stream,
        forall|k: int|
            0 <= k < rows.columns.len() ==> batch::unresolved_streams(
                keys,
                search.found,
                keys.len() as int,
            ).contains((#[trigger] rows.columns[k]).stream),
    ensures
        ({
            let r = batch::columns_searched(keys, at, rows, search, count);
            &&& r matches Ok(after)
            &&& after.newer == search.newer
            &&& after.done == search.done
            &&& after.found.len() == keys.len()
            &&& after.unresolved == batch::unknown(after.found, after.found.len() as int)
            &&& forall|i: int|
                0 <= i < keys.len() ==> (#[trigger] after.found[i]) == (match search.found[i] {
                    Some(fact) => Some(fact),
                    None => facts::latest_fact(
                        meaning::rows_facts(
                            first_columns(rows, count),
                            facts::spec_stream(keys[i]),
                        ),
                        at,
                    ),
                })
        }),
    decreases count,
{
    if count > 0 {
        columns_found(keys, at, rows, search, count - 1);
        let before = batch::columns_searched(keys, at, rows, search, count - 1)->Ok_0;
        let column = rows.columns[count - 1];
        let key = StreamKey {
            table: keys[0].table,
            series: column.stream.series,
            field: column.stream.field,
        };
        unresolved_facts(keys, search.found, keys.len() as int);
        assert(batch::unresolved_streams(keys, search.found, keys.len() as int).contains(
            column.stream,
        ));
        let p = choose|i: int|
            0 <= i < keys.len() && search.found[i] is None && facts::spec_stream(
                #[trigger] keys[i],
            ) == column.stream;
        assert(keys[p] == key);
        group::position_unique(keys, p);
        one_more_column(rows, count, column.stream);
        assert(before.found[p] is None);
        unknown_facts(before.found, before.found.len() as int);
        let after = batch::columns_searched(keys, at, rows, search, count)->Ok_0;
        assert forall|i: int| 0 <= i < keys.len() implies (#[trigger] after.found[i]) == (
        match search.found[i] {
            Some(fact) => Some(fact),
            None => facts::latest_fact(
                meaning::rows_facts(first_columns(rows, count), facts::spec_stream(keys[i])),
                at,
            ),
        }) by {
            assert(before.found[i] == before.found[i]);
            if i != p {
                group::position_unique(keys, i);
                assert(keys[i] != keys[p]);
                assert(keys[i].table == keys[0].table);
                assert(facts::spec_stream(keys[i]) != column.stream);
                one_more_column(rows, count, facts::spec_stream(keys[i]));
            }
        }
        match facts::latest_fact(facts::column_facts(rows.timestamps, column.cells), at) {
            None => {},
            Some(fact) => {
                one_found(before.found, p, fact, before.found.len() as int);
            },
        }
    } else {
        assert forall|i: int| 0 <= i < keys.len() implies (#[trigger] search.found[i]) == (
        match search.found[i] {
            Some(fact) => Some(fact),
            None => facts::latest_fact(
                meaning::rows_facts(first_columns(rows, 0), facts::spec_stream(keys[i])),
                at,
            ),
        }) by {
            assert(!meaning::has_column(first_columns(rows, 0).columns, facts::spec_stream(keys[i])));
        }
    }
}

/// The walk over one more section.
proof fn section_found<S: UnitSource>(
    source: &S,
    units: Seq<UnitMeta>,
    schemas: TailView,
    keys: Seq<StreamKey>,
    at: i64,
    search: Search,
    left: int,
)
    requires
        keys.len() > 0,
        batch::keys_ordered(keys),
        batch::keys_of(keys, keys[0].table),
        meaning::sound(source, units, schemas, keys[0].table),
        0 <= left < meaning::all_sections(source, units, keys[0].table, units.len() as int).len(),
        searching(source, units, schemas, keys, at, search, left + 1),
    ensures
        ({
            let here = meaning::all_sections(
                source,
                units,
                keys[0].table,
                units.len() as int,
            )[left];
            let r = batch::section_searched(
                source,
                schemas.tables[keys[0].table],
                keys,
                at,
                here.unit,
                here.section,
                search,
            );
            r matches Ok(after) && searching(source, units, schemas, keys, at, after, left)
        }),
{
    let table = keys[0].table;
    let state = schemas.tables[table];
    let all = meaning::all_sections(source, units, table, units.len() as int);
    let here = all[left];
    let r = batch::section_searched(source, state, keys, at, here.unit, here.section, search);
    assert(plan::loaded_refusal(here.unit, table, here.section) is None);
    assert(meaning::section_sound(source, state.versions, here));
    if search.done {
        nothing_pending(source, units, schemas, keys, at, search.found, left + 1, left);
    } else {
        if search.newer is Some {
            let newer = search.newer->Some_0;
            let j = choose|j: int|
                left + 1 <= j < all.len() && (#[trigger] all[j]).section == newer;
            assert(here.section.max_ts < all[j].section.min_ts);
        }
        let passed = Search { newer: Some(here.section), ..search };
        assert(all[left].section == here.section);
        if search.unresolved == 0 {
            nothing_pending(source, units, schemas, keys, at, search.found, left + 1, left);
        } else if here.section.min_ts > at {
            assert forall|i: int| 0 <= i < keys.len() implies facts::latest_fact(
                meaning::stream_facts(source, units, schemas, #[trigger] keys[i]),
                at,
            ) == (match search.found[i] {
                Some(fact) => Some(fact),
                None => facts::latest_fact(
                    meaning::sealed_facts(
                        source,
                        state.versions,
                        all,
                        facts::spec_stream(keys[i]),
                        left,
                    ),
                    at,
                ),
            }) by {
                later_sections(
                    source,
                    units,
                    schemas,
                    table,
                    facts::spec_stream(keys[i]),
                    at,
                    left,
                    left + 1,
                );
            }
        } else {
            let rows = meaning::section_rows(source, state.versions, here);
            let streams = batch::unresolved_streams(keys, search.found, keys.len() as int);
            let part = SectionView {
                timestamps: rows.timestamps,
                columns: unit::columns_of(rows.columns, streams, rows.columns.len() as int),
            };
            meaning::asked_columns(rows.columns, streams, rows.columns.len() as int);
            columns_found(keys, at, part, passed, part.columns.len() as int);
            assert(first_columns(part, part.columns.len() as int).columns =~= part.columns);
            assert(first_columns(part, part.columns.len() as int) == part);
            unresolved_facts(keys, search.found, keys.len() as int);
            let after = r->Ok_0;
            assert forall|i: int| 0 <= i < keys.len() implies facts::latest_fact(
                meaning::stream_facts(source, units, schemas, #[trigger] keys[i]),
                at,
            ) == (match after.found[i] {
                Some(fact) => Some(fact),
                None => facts::latest_fact(
                    meaning::sealed_facts(
                        source,
                        state.versions,
                        all,
                        facts::spec_stream(keys[i]),
                        left,
                    ),
                    at,
                ),
            }) by {
                let stream = facts::spec_stream(keys[i]);
                assert(after.found[i] == after.found[i]);
                if search.found[i] is None {
                    asked_facts(rows, streams, stream);
                    meaning::latest_join(
                        meaning::sealed_facts(source, state.versions, all, stream, left),
                        meaning::rows_facts(rows, stream),
                        at,
                    );
                }
            }
        }
    }
}

proof fn sections_found<S: UnitSource>(
    source: &S,
    units: Seq<UnitMeta>,
    schemas: TailView,
    keys: Seq<StreamKey>,
    at: i64,
    search: Search,
    unit: int,
    count: int,
)
    requires
        keys.len() > 0,
        batch::keys_ordered(keys),
        batch::keys_of(keys, keys[0].table),
        meaning::sound(source, units, schemas, keys[0].table),
        0 <= unit < units.len(),
        0 <= count <= source.directory(units[unit], keys[0].table)->Ok_0.len(),
        searching(
            source,
            units,
            schemas,
            keys,
            at,
            search,
            meaning::all_sections(source, units, keys[0].table, unit + 1).len() as int,
        ),
    ensures
        ({
            let table = keys[0].table;
            let left = meaning::all_sections(source, units, table, unit + 1).len() - count;
            let r = batch::sections_searched(
                source,
                schemas.tables[table],
                keys,
                at,
                units[unit],
                source.directory(units[unit], table)->Ok_0,
                search,
                count,
            );
            r matches Ok(after) && searching(source, units, schemas, keys, at, after, left)
        }),
    decreases count,
{
    if count > 0 {
        sections_found(source, units, schemas, keys, at, search, unit, count - 1);
        let table = keys[0].table;
        let sections = source.directory(units[unit], table)->Ok_0;
        let before = batch::sections_searched(
            source,
            schemas.tables[table],
            keys,
            at,
            units[unit],
            sections,
            search,
            count - 1,
        )->Ok_0;
        let left = meaning::all_sections(source, units, table, unit + 1).len() - count;
        meaning::section_place(source, units, table, unit, sections.len() - count);
        section_found(source, units, schemas, keys, at, before, left);
    }
}

proof fn units_found<S: UnitSource>(
    source: &S,
    units: Seq<UnitMeta>,
    schemas: TailView,
    keys: Seq<StreamKey>,
    at: i64,
    search: Search,
    count: int,
)
    requires
        keys.len() > 0,
        batch::keys_ordered(keys),
        batch::keys_of(keys, keys[0].table),
        meaning::sound(source, units, schemas, keys[0].table),
        0 <= count <= units.len(),
        searching(
            source,
            units,
            schemas,
            keys,
            at,
            search,
            meaning::all_sections(source, units, keys[0].table, units.len() as int).len() as int,
        ),
    ensures
        ({
            let table = keys[0].table;
            let left = meaning::all_sections(source, units, table, units.len() - count).len();
            let r = batch::units_searched(
                source,
                schemas.tables[table],
                keys,
                at,
                units,
                search,
                count,
            );
            r matches Ok(after) && searching(source, units, schemas, keys, at, after, left as int)
        }),
    decreases count,
{
    if count > 0 {
        units_found(source, units, schemas, keys, at, search, count - 1);
        let table = keys[0].table;
        let all = meaning::all_sections(source, units, table, units.len() as int);
        let versions = schemas.tables[table].versions;
        let before = batch::units_searched(
            source,
            schemas.tables[table],
            keys,
            at,
            units,
            search,
            count - 1,
        )->Ok_0;
        let place = units.len() - count;
        let unit = units[place];
        let few = meaning::all_sections(source, units, table, place).len() as int;
        let many = meaning::all_sections(source, units, table, place + 1).len() as int;
        let sections = source.directory(unit, table)->Ok_0;
        assert(many == few + sections.len());
        meaning::sections_prefix(source, units, table, place + 1, units.len() as int);
        if before.done {
            nothing_pending(source, units, schemas, keys, at, before.found, many, few);
        } else if unit.min_ts > at {
            assert forall|i: int| few <= i < many implies at < (
            #[trigger] all[i]).section.min_ts by {
                meaning::section_place(source, units, table, place, i - few);
                assert(plan::loaded_refusal(all[i].unit, table, all[i].section) is None);
            }
            assert forall|i: int| 0 <= i < keys.len() implies facts::latest_fact(
                meaning::stream_facts(source, units, schemas, #[trigger] keys[i]),
                at,
            ) == (match before.found[i] {
                Some(fact) => Some(fact),
                None => facts::latest_fact(
                    meaning::sealed_facts(
                        source,
                        versions,
                        all,
                        facts::spec_stream(keys[i]),
                        few,
                    ),
                    at,
                ),
            }) by {
                later_sections(
                    source,
                    units,
                    schemas,
                    table,
                    facts::spec_stream(keys[i]),
                    at,
                    few,
                    many,
                );
            }
        } else {
            sections_found(
                source,
                units,
                schemas,
                keys,
                at,
                before,
                place,
                sections.len() as int,
            );
        }
    }
}

/// The search for the last values of several streams of a sound store finds for each the last of
/// its values at or before the time.
pub proof fn search_finds_last_values<S: UnitSource>(
    source: &S,
    units: Seq<UnitMeta>,
    schemas: TailView,
    keys: Seq<StreamKey>,
    at: i64,
)
    requires
        keys.len() > 0,
        batch::group_refusal(schemas, keys[0].table, keys) is None,
        meaning::sound(source, units, schemas, keys[0].table),
    ensures
        batch::predecessors_of(source, units, schemas, keys, at) == Ok::<
            Seq<Option<Fact>>,
            Error,
        >(
            keys.map_values(
                |key: StreamKey|
                    facts::latest_fact(
                        meaning::stream_facts(source, units, schemas, key),
                        at,
                    ),
            ),
        ),
{
    let table = keys[0].table;
    let state = schemas.tables[table];
    let all = meaning::all_sections(source, units, table, units.len() as int);
    let start = batch::search_start(state.rows, keys, at);
    assert forall|i: int| 0 <= i < keys.len() implies facts::latest_fact(
        meaning::stream_facts(source, units, schemas, #[trigger] keys[i]),
        at,
    ) == (match start.found[i] {
        Some(fact) => Some(fact),
        None => facts::latest_fact(
            meaning::sealed_facts(
                source,
                state.versions,
                all,
                facts::spec_stream(keys[i]),
                all.len() as int,
            ),
            at,
        ),
    }) by {
        let stream = facts::spec_stream(keys[i]);
        assert(keys[i].table == table);
        meaning::latest_join(
            meaning::sealed_facts(source, state.versions, all, stream, all.len() as int),
            facts::tail_facts(state.rows, stream),
            at,
        );
    }
    units_found(source, units, schemas, keys, at, start, units.len() as int);
    let after = batch::units_searched(
        source,
        state,
        keys,
        at,
        units,
        start,
        units.len() as int,
    )->Ok_0;
    let expected = keys.map_values(
        |key: StreamKey|
            facts::latest_fact(meaning::stream_facts(source, units, schemas, key), at),
    );
    assert forall|i: int| 0 <= i < keys.len() implies (#[trigger] after.found[i])
        == expected[i] by {
        assert(keys[i].table == table);
        assert(meaning::sealed_facts(
            source,
            state.versions,
            all,
            facts::spec_stream(keys[i]),
            0,
        ).len() == 0);
    }
    assert(after.found =~= expected);
}

/// What a stream holds at a time, by its values and by what retention kept of them. Without a time
/// it is that of the last row of the table.
pub open spec fn recalled<S: UnitSource>(
    source: &S,
    units: Seq<UnitMeta>,
    schemas: TailView,
    heads: Option<HeadsView>,
    key: StreamKey,
    at: Option<i64>,
) -> Result<Lookup> {
    match (match at {
        Some(time) => Some(time),
        None => schemas.tables[key.table].last_ts,
    }) {
        None => Ok(Lookup::Missing),
        Some(time) => primitives::lookup_of(
            schemas,
            key,
            primitives::headed(
                facts::latest_fact(meaning::stream_facts(source, units, schemas, key), time),
                heads,
                key,
                time,
            ),
            time,
        ),
    }
}

proof fn looked_up_each(
    schemas: TailView,
    heads: Option<HeadsView>,
    keys: Seq<StreamKey>,
    found: Seq<Option<Fact>>,
    at: i64,
    each: spec_fn(StreamKey) -> Lookup,
    count: int,
)
    requires
        0 <= count <= keys.len(),
        found.len() == keys.len(),
        forall|i: int|
            0 <= i < keys.len() ==> primitives::lookup_of(
                schemas,
                #[trigger] keys[i],
                primitives::headed(found[i], heads, keys[i], at),
                at,
            ) == Ok::<Lookup, Error>(each(keys[i])),
    ensures
        primitives::looked_up(schemas, heads, keys, found, at, count) == Ok::<Seq<Lookup>, Error>(
            keys.take(count).map_values(each),
        ),
    decreases count,
{
    if count > 0 {
        looked_up_each(schemas, heads, keys, found, at, each, count - 1);
        assert(primitives::lookup_of(
            schemas,
            keys[count - 1],
            primitives::headed(found[count - 1], heads, keys[count - 1], at),
            at,
        ) == Ok::<Lookup, Error>(each(keys[count - 1])));
        assert(keys.take(count - 1).map_values(each).push(each(keys[count - 1])) =~= keys.take(
            count,
        ).map_values(each));
    } else {
        assert(keys.take(0).map_values(each) =~= Seq::<Lookup>::empty());
    }
}

/// A lookup of any keys in a sound store gives each what its stream holds at the time: the last of
/// its values, or what retention kept of it, as long as it is valid.
pub proof fn lookups_recall_each_stream<S: UnitSource>(
    source: &S,
    units: Seq<UnitMeta>,
    schemas: TailView,
    heads: Option<HeadsView>,
    keys: Seq<StreamKey>,
    at: Option<i64>,
)
    requires
        batch::keys_refusal(schemas, keys, keys.len() as int) is None,
        limits::memory_refusal(
            keys.len() as int,
            vstd::layout::size_of::<Lookup>() as int,
        ) is None,
        forall|i: int|
            0 <= i < keys.len() ==> meaning::sound(
                source,
                units,
                schemas,
                (#[trigger] keys[i]).table,
            ) && recalled(source, units, schemas, heads, keys[i], at) is Ok,
    ensures
        primitives::lookups(source, units, schemas, heads, keys, at) == Ok::<Seq<Lookup>, Error>(
            keys.map_values(
                |key: StreamKey| recalled(source, units, schemas, heads, key, at)->Ok_0,
            ),
        ),
{
    let answer = |members: Seq<StreamKey>|
        primitives::group_lookups(source, units, schemas, heads, members, at);
    let each = |key: StreamKey| recalled(source, units, schemas, heads, key, at)->Ok_0;
    assert forall|members: Seq<StreamKey>|
        members.len() > 0 && batch::keys_ordered(members) && batch::keys_of(
            members,
            members[0].table,
        ) && (forall|i: int|
            0 <= i < members.len() ==> keys.contains(#[trigger] members[i])) implies #[trigger]
    answer(members) == Ok::<Seq<Lookup>, Error>(members.map_values(each)) by {
        members_accepted(schemas, keys, members, members.len() as int);
        assert(keys.contains(members[0]));
        let p = choose|p: int| 0 <= p < keys.len() && keys[p] == members[0];
        assert(meaning::sound(source, units, schemas, keys[p].table));
        match primitives::lookup_time(schemas, members, at) {
            None => {
                assert(members.map_values(each) =~= Seq::new(
                    members.len(),
                    |i: int| Lookup::Missing,
                )) by {
                    assert forall|i: int| 0 <= i < members.len() implies (
                    #[trigger] members.map_values(each)[i]) == Lookup::Missing by {
                        assert(members[i].table == members[0].table);
                    }
                }
            },
            Some(time) => {
                search_finds_last_values(source, units, schemas, members, time);
                let found = batch::predecessors_of(source, units, schemas, members, time)->Ok_0;
                assert forall|i: int| 0 <= i < members.len() implies primitives::lookup_of(
                    schemas,
                    #[trigger] members[i],
                    primitives::headed(found[i], heads, members[i], time),
                    time,
                ) == Ok::<Lookup, Error>(each(members[i])) by {
                    assert(keys.contains(members[i]));
                    let q = choose|q: int| 0 <= q < keys.len() && keys[q] == members[i];
                    assert(recalled(source, units, schemas, heads, keys[q], at) is Ok);
                    assert(members[i].table == members[0].table);
                }
                looked_up_each(
                    schemas,
                    heads,
                    members,
                    found,
                    time,
                    each,
                    members.len() as int,
                );
                assert(members.take(members.len() as int) =~= members);
            },
        }
    }
    group::batch_answers_each_key(keys, answer, each);
}

/// What is looked up of keys of which the same is found.
pub(crate) proof fn looked_up_alike(
    schemas: TailView,
    heads: Option<HeadsView>,
    found: Seq<Option<Fact>>,
    other_heads: Option<HeadsView>,
    other: Seq<Option<Fact>>,
    keys: Seq<StreamKey>,
    at: i64,
    count: int,
)
    requires
        0 <= count <= keys.len(),
        forall|i: int|
            0 <= i < keys.len() ==> primitives::lookup_of(
                schemas,
                #[trigger] keys[i],
                primitives::headed(found[i], heads, keys[i], at),
                at,
            ) == primitives::lookup_of(
                schemas,
                keys[i],
                primitives::headed(other[i], other_heads, keys[i], at),
                at,
            ),
    ensures
        primitives::looked_up(schemas, heads, keys, found, at, count) == primitives::looked_up(
            schemas,
            other_heads,
            keys,
            other,
            at,
            count,
        ),
    decreases count,
{
    if count > 0 {
        looked_up_alike(schemas, heads, found, other_heads, other, keys, at, count - 1);
        assert(keys[count - 1] == keys[count - 1]);
    }
}

/// Two sound stores in which every key's stream holds the same at a time answer every lookup of the
/// keys there alike, by the same values or by the same refusal.
pub proof fn equal_streams_are_looked_up_alike<S: UnitSource>(
    source: &S,
    units: Seq<UnitMeta>,
    heads: Option<HeadsView>,
    other_source: &S,
    other_units: Seq<UnitMeta>,
    other_heads: Option<HeadsView>,
    schemas: TailView,
    keys: Seq<StreamKey>,
    time: i64,
)
    requires
        forall|i: int|
            0 <= i < keys.len() ==> {
                let key = #[trigger] keys[i];
                &&& meaning::sound(source, units, schemas, key.table)
                &&& meaning::sound(other_source, other_units, schemas, key.table)
                &&& recalled(source, units, schemas, heads, key, Some(time)) == recalled(
                    other_source,
                    other_units,
                    schemas,
                    other_heads,
                    key,
                    Some(time),
                )
            },
    ensures
        primitives::lookups(source, units, schemas, heads, keys, Some(time))
            == primitives::lookups(
            other_source,
            other_units,
            schemas,
            other_heads,
            keys,
            Some(time),
        ),
{
    let at = Some(time);
    let answer = |members: Seq<StreamKey>|
        primitives::group_lookups(source, units, schemas, heads, members, at);
    let other = |members: Seq<StreamKey>|
        primitives::group_lookups(
            other_source,
            other_units,
            schemas,
            other_heads,
            members,
            at,
        );
    if batch::keys_refusal(schemas, keys, keys.len() as int) is None {
        assert forall|members: Seq<StreamKey>|
            members.len() > 0 && batch::keys_ordered(members) && batch::keys_of(
                members,
                members[0].table,
            ) && (forall|i: int|
                0 <= i < members.len() ==> keys.contains(#[trigger] members[i])) implies #[trigger]
        answer(members) == other(members) by {
            members_accepted(schemas, keys, members, members.len() as int);
            assert(keys.contains(members[0]));
            let p = choose|p: int| 0 <= p < keys.len() && keys[p] == members[0];
            assert(meaning::sound(source, units, schemas, keys[p].table));
            search_finds_last_values(source, units, schemas, members, time);
            search_finds_last_values(other_source, other_units, schemas, members, time);
            let found = batch::predecessors_of(source, units, schemas, members, time)->Ok_0;
            let others = batch::predecessors_of(
                other_source,
                other_units,
                schemas,
                members,
                time,
            )->Ok_0;
            assert forall|i: int| 0 <= i < members.len() implies primitives::lookup_of(
                schemas,
                #[trigger] members[i],
                primitives::headed(found[i], heads, members[i], time),
                time,
            ) == primitives::lookup_of(
                schemas,
                members[i],
                primitives::headed(others[i], other_heads, members[i], time),
                time,
            ) by {
                assert(keys.contains(members[i]));
                let q = choose|q: int| 0 <= q < keys.len() && keys[q] == members[i];
                assert(meaning::sound(source, units, schemas, keys[q].table));
            }
            looked_up_alike(
                schemas,
                heads,
                found,
                other_heads,
                others,
                members,
                time,
                members.len() as int,
            );
        }
        group::batches_agree(keys, answer, other);
    }
}

/// Keys out of accepted ones are accepted.
pub(crate) proof fn members_accepted(
    schemas: TailView,
    keys: Seq<StreamKey>,
    members: Seq<StreamKey>,
    count: int,
)
    requires
        0 <= count <= members.len(),
        batch::keys_refusal(schemas, keys, keys.len() as int) is None,
        forall|i: int| 0 <= i < members.len() ==> keys.contains(#[trigger] members[i]),
    ensures
        batch::keys_refusal(schemas, members, count) is None,
    decreases count,
{
    if count > 0 {
        members_accepted(schemas, keys, members, count - 1);
        assert(keys.contains(members[count - 1]));
        let p = choose|p: int| 0 <= p < keys.len() && keys[p] == members[count - 1];
        primitives::accepted_keys(schemas, keys, p);
    }
}

} // verus!
