//! What a retention hands over from the units that expire to the heads.
//!
//! The store need not be sound. Nothing is asked of the units that stay. Of the sections that expire
//! it is asked that their rows fit, and that what is given of some streams there is what the section
//! holds of them.
use vstd::prelude::*;

use crate::db::Db;
use crate::error::Error;
use crate::limits;
use crate::maintenance::{self, RetentionReport};
use crate::manifest::catalog::UnitMeta;
use crate::ordmap;
use crate::query::alike;
use crate::query::batch::{self, Search};
use crate::query::cursor;
use crate::query::facts::{self, Fact};
use crate::query::group;
use crate::query::meaning;
use crate::query::plan::{self, PlannedSection};
use crate::query::primitives::{self, Lookup};
use crate::query::recall;
use crate::query::regrid;
use crate::retention::carry;
use crate::retention::fold;
use crate::retention::head::HeadsView;
use crate::tail::{Stream, TailIndex, TailTableView, TailView};
use crate::types::{StreamKey, TableId, VersionView};
use crate::unit::{SectionView, TableDirectoryEntry, UnitSource};
use crate::upkeep;

verus! {

/// Whether the rows of a section fit, and what is given of some of its streams is what it holds of
/// them.
pub open spec fn gives_itself<S: UnitSource>(
    source: &S,
    versions: Seq<VersionView>,
    planned: PlannedSection,
) -> bool {
    let section = planned.section;
    let rows = meaning::section_rows(source, versions, planned);
    facts::version_numbered(versions, section.version_no) matches Some(version) ==> {
        &&& carry::columns_distinct(rows)
        &&& regrid::rows_fit(rows, section)
        &&& forall|streams: Seq<Stream>|
            (#[trigger] source.streams_of(planned.unit, section, version, streams)) matches Ok(part)
                ==> {
                &&& alike::only_asked(part, streams)
                &&& forall|stream: Stream| #[trigger]
                    streams.contains(stream) ==> meaning::rows_facts(part, stream)
                        == meaning::rows_facts(rows, stream)
            }
    }
}

/// A search for many keys as it always is.
spec fn steady(search: Search, keys: Seq<StreamKey>) -> bool {
    &&& search.found.len() == keys.len()
    &&& search.unresolved == batch::unknown(search.found, search.found.len() as int)
    &&& search.done ==> forall|i: int|
        0 <= i < keys.len() ==> (#[trigger] search.found[i]) is Some
}

/// What was found, or else the last of some more values.
spec fn or_last(found: Option<Fact>, list: Seq<Fact>, at: i64) -> Option<Fact> {
    match found {
        Some(fact) => Some(fact),
        None => facts::latest_fact(list, at),
    }
}

/// One more section is searched for whatever was not found.
proof fn section_back<S: UnitSource>(
    source: &S,
    state: TailTableView,
    keys: Seq<StreamKey>,
    at: i64,
    planned: PlannedSection,
    search: Search,
)
    requires
        gives_itself(source, state.versions, planned),
        facts::version_numbered(state.versions, planned.section.version_no) is Some,
        keys.len() > 0,
        batch::keys_ordered(keys),
        batch::keys_of(keys, keys[0].table),
        steady(search, keys),
        batch::section_searched(
            source,
            state,
            keys,
            at,
            planned.unit,
            planned.section,
            search,
        ) is Ok,
    ensures
        ({
            let after = batch::section_searched(
                source,
                state,
                keys,
                at,
                planned.unit,
                planned.section,
                search,
            )->Ok_0;
            let rows = meaning::section_rows(source, state.versions, planned);
            &&& steady(after, keys)
            &&& forall|i: int|
                0 <= i < keys.len() ==> (#[trigger] after.found[i]) == or_last(
                    search.found[i],
                    meaning::rows_facts(rows, facts::spec_stream(keys[i])),
                    at,
                )
        }),
{
    let unit = planned.unit;
    let section = planned.section;
    let rows = meaning::section_rows(source, state.versions, planned);
    let version = facts::version_numbered(state.versions, section.version_no)->Some_0;
    let after = batch::section_searched(source, state, keys, at, unit, section, search)->Ok_0;
    recall::unknown_facts(search.found, search.found.len() as int);
    if search.done || search.unresolved == 0 {
    } else if section.min_ts > at {
        assert forall|i: int| 0 <= i < keys.len() implies (#[trigger] after.found[i]) == or_last(
            search.found[i],
            meaning::rows_facts(rows, facts::spec_stream(keys[i])),
            at,
        ) by {
            rows_times(rows, section, facts::spec_stream(keys[i]));
            meaning::nothing_latest(
                meaning::rows_facts(rows, facts::spec_stream(keys[i])),
                at,
            );
        }
    } else {
        let streams = batch::unresolved_streams(keys, search.found, keys.len() as int);
        let part = source.streams_of(unit, section, version, streams)->Ok_0;
        let here = Search { newer: Some(section), ..search };
        recall::unresolved_facts(keys, search.found, keys.len() as int);
        recall::columns_found(keys, at, part, here, part.columns.len() as int);
        assert(recall::first_columns(part, part.columns.len() as int).columns =~= part.columns);
        assert(recall::first_columns(part, part.columns.len() as int) == part);
        let more = batch::columns_searched(keys, at, part, here, part.columns.len() as int)->Ok_0;
        recall::unknown_facts(more.found, more.found.len() as int);
        assert forall|i: int| 0 <= i < keys.len() implies (#[trigger] after.found[i]) == or_last(
            search.found[i],
            meaning::rows_facts(rows, facts::spec_stream(keys[i])),
            at,
        ) by {
            assert(after.found[i] == more.found[i]);
            if search.found[i] is None {
                assert(streams.contains(facts::spec_stream(keys[i])));
            }
        }
    }
}

/// The values of a stream in rows that fit lie in the time of the section.
proof fn rows_times(rows: SectionView, section: TableDirectoryEntry, stream: Stream)
    requires
        regrid::rows_fit(rows, section),
    ensures
        forall|i: int|
            0 <= i < meaning::rows_facts(rows, stream).len() ==> section.min_ts <= (
            #[trigger] meaning::rows_facts(rows, stream)[i]).timestamp <= section.max_ts,
{
    if meaning::has_column(rows.columns, stream) {
        let at = choose|i: int|
            0 <= i < rows.columns.len() && (#[trigger] rows.columns[i]).stream == stream;
        let cells = rows.columns[at].cells;
        let count = if rows.timestamps.len() < cells.len() {
            rows.timestamps.len() as int
        } else {
            cells.len() as int
        };
        meaning::cell_facts_times(
            rows.timestamps,
            cells,
            count,
            section.min_ts,
            section.max_ts,
        );
    }
}

/// Whether a section lies in the time of its unit, under a version that is known.
pub open spec fn stands(
    versions: Seq<VersionView>,
    unit: UnitMeta,
    section: TableDirectoryEntry,
) -> bool {
    &&& unit.min_ts <= section.min_ts
    &&& section.max_ts <= unit.max_ts
    &&& facts::version_numbered(versions, section.version_no) is Some
}

/// A fold takes only sections that stand.
proof fn fold_takes_sections<S: UnitSource>(
    source: &S,
    table: TableId,
    state: TailTableView,
    unit: UnitMeta,
    index: int,
    sections: Seq<TableDirectoryEntry>,
    before: fold::FoldState,
    count: int,
)
    requires
        0 <= count <= sections.len(),
        fold::sections_folded(source, table, state, unit, index, sections, before, count) is Ok,
    ensures
        forall|a: int| 0 <= a < count ==> stands(state.versions, unit, #[trigger] sections[a]),
    decreases count,
{
    if count > 0 {
        fold_takes_sections(source, table, state, unit, index, sections, before, count - 1);
    }
}

/// A fold takes only units whose sections are listed and stand.
proof fn fold_takes_units<S: UnitSource>(
    source: &S,
    table: TableId,
    state: TailTableView,
    expired: Seq<UnitMeta>,
    before: fold::FoldState,
    count: int,
)
    requires
        0 <= count <= expired.len(),
        fold::units_folded(source, table, state, expired, before, count) is Ok,
    ensures
        forall|u: int| 0 <= u < count ==> source.directory(#[trigger] expired[u], table) is Ok,
        forall|u: int, a: int| #[trigger]
            alike::listed(source, expired, table, u, a) && u < count ==> stands(
                state.versions,
                expired[u],
                alike::listing(source, expired, table, u, a),
            ),
    decreases count,
{
    if count > 0 {
        fold_takes_units(source, table, state, expired, before, count - 1);
        let so_far = fold::units_folded(
            source,
            table,
            state,
            expired,
            before,
            count - 1,
        )->Ok_0;
        let sections = source.directory(expired[count - 1], table)->Ok_0;
        fold_takes_sections(
            source,
            table,
            state,
            expired[count - 1],
            count - 1,
            sections,
            so_far,
            sections.len() as int,
        );
    }
}

/// The fold of a table among all.
proof fn table_is_folded<S: UnitSource>(
    source: &S,
    tables: Seq<(TableId, TailTableView)>,
    expired: Seq<UnitMeta>,
    before: fold::FoldState,
    count: int,
    at: int,
) -> (begin: fold::FoldState)
    requires
        0 <= at < count <= tables.len(),
        fold::tables_folded(source, tables, expired, before, count) is Ok,
    ensures
        fold::units_folded(
            source,
            tables[at].0,
            tables[at].1,
            expired,
            begin,
            expired.len() as int,
        ) is Ok,
    decreases count,
{
    let so_far = fold::tables_folded(source, tables, expired, before, count - 1)->Ok_0;
    if at < count - 1 {
        table_is_folded(source, tables, expired, before, count - 1, at)
    } else {
        fold::FoldState { previous: None, ..so_far }
    }
}

/// Everything that a fold took of a table stands.
proof fn folded_stands<S: UnitSource>(
    source: &S,
    schemas: &TailIndex,
    prior: Option<HeadsView>,
    expired: Seq<UnitMeta>,
    floor: i64,
    table: TableId,
)
    requires
        schemas.wf(),
        schemas@.tables.contains_key(table),
        fold::folded(prior, expired, source, schemas, floor) is Ok,
    ensures
        forall|u: int|
            0 <= u < expired.len() ==> source.directory(#[trigger] expired[u], table) is Ok,
        forall|u: int, a: int| #[trigger]
            alike::listed(source, expired, table, u, a) ==> stands(
                schemas@.tables[table].versions,
                expired[u],
                alike::listing(source, expired, table, u, a),
            ),
{
    let entries = schemas.tables.entries@;
    let tables = fold::ordered_tables(schemas);
    assert(schemas.tables@.contains_key(table));
    let at = ordmap::key_index(entries, table);
    assert(0 <= at < entries.len() && entries[at].0 == table);
    ordmap::lookup_at(entries, at);
    assert(schemas@.tables[table] == entries[at].1@);
    let begin = table_is_folded(
        source,
        tables,
        expired,
        fold::fold_start(prior, expired.len()),
        tables.len() as int,
        at,
    );
    fold_takes_units(
        source,
        table,
        schemas@.tables[table],
        expired,
        begin,
        expired.len() as int,
    );
}

/// Whether every section of some units gives itself.
pub open spec fn all_give_themselves<S: UnitSource>(
    source: &S,
    units: Seq<UnitMeta>,
    versions: Seq<VersionView>,
    table: TableId,
) -> bool {
    forall|u: int, a: int| #[trigger]
        alike::listed(source, units, table, u, a) ==> gives_itself(
            source,
            versions,
            PlannedSection {
                unit: units[u],
                section: alike::listing(source, units, table, u, a),
            },
        )
}

/// Every section of units that can be listed is one of a unit.
pub(crate) proof fn section_is_listed<S: UnitSource>(
    source: &S,
    units: Seq<UnitMeta>,
    table: TableId,
    count: int,
    s: int,
) -> (at: (int, int))
    requires
        0 <= count <= units.len(),
        forall|u: int| 0 <= u < units.len() ==> source.directory(#[trigger] units[u], table) is Ok,
        0 <= s < meaning::all_sections(source, units, table, count).len(),
    ensures
        alike::listed(source, units, table, at.0, at.1),
        meaning::all_sections(source, units, table, count)[s] == (PlannedSection {
            unit: units[at.0],
            section: alike::listing(source, units, table, at.0, at.1),
        }),
    decreases count,
{
    let earlier = meaning::all_sections(source, units, table, count - 1);
    if s < earlier.len() {
        assert(meaning::all_sections(source, units, table, count)[s] == earlier[s]);
        section_is_listed(source, units, table, count - 1, s)
    } else {
        let a = s - earlier.len();
        assert(source.directory(units[count - 1], table) is Ok);
        assert(meaning::all_sections(source, units, table, count)[s] == meaning::unit_plan(
            source,
            units[count - 1],
            table,
        )[a]);
        (count - 1, a)
    }
}

/// The values of a stream in sections that all lie in a time lie there.
proof fn sealed_times<S: UnitSource>(
    source: &S,
    versions: Seq<VersionView>,
    sections: Seq<PlannedSection>,
    stream: Stream,
    count: int,
    low: int,
    high: int,
)
    requires
        0 <= count <= sections.len(),
        forall|s: int|
            0 <= s < count ==> low <= (#[trigger] sections[s]).section.min_ts
                && sections[s].section.max_ts <= high && regrid::rows_fit(
                meaning::section_rows(source, versions, sections[s]),
                sections[s].section,
            ),
    ensures
        forall|i: int|
            0 <= i < meaning::sealed_facts(source, versions, sections, stream, count).len() ==> low
                <= (#[trigger] meaning::sealed_facts(
                source,
                versions,
                sections,
                stream,
                count,
            )[i]).timestamp <= high,
    decreases count,
{
    if count > 0 {
        sealed_times(source, versions, sections, stream, count - 1, low, high);
        let here = sections[count - 1];
        rows_times(meaning::section_rows(source, versions, here), here.section, stream);
    }
}

/// The last sections of a unit are searched for whatever was not found.
proof fn sections_back<S: UnitSource>(
    source: &S,
    state: TailTableView,
    keys: Seq<StreamKey>,
    at: i64,
    unit: UnitMeta,
    search: Search,
    count: int,
)
    requires
        keys.len() > 0,
        batch::keys_ordered(keys),
        batch::keys_of(keys, keys[0].table),
        source.directory(unit, keys[0].table) is Ok,
        forall|a: int|
            0 <= a < source.directory(unit, keys[0].table)->Ok_0.len() ==> {
                let section = #[trigger] source.directory(unit, keys[0].table)->Ok_0[a];
                &&& gives_itself(source, state.versions, PlannedSection { unit, section })
                &&& stands(state.versions, unit, section)
            },
        steady(search, keys),
        0 <= count <= source.directory(unit, keys[0].table)->Ok_0.len(),
        batch::sections_searched(
            source,
            state,
            keys,
            at,
            unit,
            source.directory(unit, keys[0].table)->Ok_0,
            search,
            count,
        ) is Ok,
    ensures
        ({
            let sections = source.directory(unit, keys[0].table)->Ok_0;
            let after = batch::sections_searched(
                source,
                state,
                keys,
                at,
                unit,
                sections,
                search,
                count,
            )->Ok_0;
            let last = meaning::unit_plan(source, unit, keys[0].table).skip(
                sections.len() - count,
            );
            &&& steady(after, keys)
            &&& forall|i: int|
                0 <= i < keys.len() ==> (#[trigger] after.found[i]) == or_last(
                    search.found[i],
                    meaning::sealed_facts(
                        source,
                        state.versions,
                        last,
                        facts::spec_stream(keys[i]),
                        count,
                    ),
                    at,
                )
        }),
    decreases count,
{
    if count > 0 {
        sections_back(source, state, keys, at, unit, search, count - 1);
        let table = keys[0].table;
        let sections = source.directory(unit, table)->Ok_0;
        let plan = meaning::unit_plan(source, unit, table);
        let before = batch::sections_searched(
            source,
            state,
            keys,
            at,
            unit,
            sections,
            search,
            count - 1,
        )->Ok_0;
        let place = sections.len() - count;
        let here = PlannedSection { unit, section: sections[place] };
        assert(plan[place] == here);
        section_back(source, state, keys, at, here, before);
        let after = batch::section_searched(
            source,
            state,
            keys,
            at,
            unit,
            sections[place],
            before,
        )->Ok_0;
        let later = plan.skip(place + 1);
        let last = plan.skip(place);
        assert(last =~= seq![here] + later);
        assert forall|i: int| 0 <= i < keys.len() implies (#[trigger] after.found[i]) == or_last(
            search.found[i],
            meaning::sealed_facts(
                source,
                state.versions,
                last,
                facts::spec_stream(keys[i]),
                count,
            ),
            at,
        ) by {
            let stream = facts::spec_stream(keys[i]);
            assert(before.found[i] == before.found[i]);
            first_and_rest(source, state.versions, here, later, stream, count - 1);
            meaning::latest_join(
                meaning::rows_facts(meaning::section_rows(source, state.versions, here), stream),
                meaning::sealed_facts(source, state.versions, later, stream, count - 1),
                at,
            );
        }
    }
}

/// The values of sections are those of the first and then those of the rest.
proof fn first_and_rest<S: UnitSource>(
    source: &S,
    versions: Seq<VersionView>,
    first: PlannedSection,
    rest: Seq<PlannedSection>,
    stream: Stream,
    count: int,
)
    requires
        0 <= count <= rest.len(),
    ensures
        meaning::sealed_facts(source, versions, seq![first] + rest, stream, count + 1)
            == meaning::rows_facts(meaning::section_rows(source, versions, first), stream)
            + meaning::sealed_facts(source, versions, rest, stream, count),
{
    let one = seq![first];
    meaning::sealed_join(source, versions, one, rest, stream, count);
    reveal_with_fuel(meaning::sealed_facts, 2);
    assert((one + rest)[0] == first);
    assert(meaning::sealed_facts(source, versions, one + rest, stream, 1)
        =~= meaning::rows_facts(meaning::section_rows(source, versions, first), stream));
}

/// The last of the expired units are searched for whatever was not found in the units that stay.
proof fn units_back<S: UnitSource>(
    source: &S,
    state: TailTableView,
    keys: Seq<StreamKey>,
    at: i64,
    gone: Seq<UnitMeta>,
    kept: Seq<UnitMeta>,
    start: Search,
    count: int,
)
    requires
        keys.len() > 0,
        batch::keys_ordered(keys),
        batch::keys_of(keys, keys[0].table),
        steady(start, keys),
        forall|u: int|
            0 <= u < gone.len() ==> source.directory(#[trigger] gone[u], keys[0].table) is Ok,
        all_give_themselves(source, gone, state.versions, keys[0].table),
        forall|u: int, a: int| #[trigger]
            alike::listed(source, gone, keys[0].table, u, a) ==> stands(
                state.versions,
                gone[u],
                alike::listing(source, gone, keys[0].table, u, a),
            ),
        0 <= count <= gone.len(),
        batch::units_searched(
            source,
            state,
            keys,
            at,
            gone + kept,
            start,
            kept.len() as int,
        ) matches Ok(middle) && steady(middle, keys),
        batch::units_searched(
            source,
            state,
            keys,
            at,
            gone + kept,
            start,
            kept.len() + count,
        ) is Ok,
    ensures
        ({
            let middle = batch::units_searched(
                source,
                state,
                keys,
                at,
                gone + kept,
                start,
                kept.len() as int,
            )->Ok_0;
            let after = batch::units_searched(
                source,
                state,
                keys,
                at,
                gone + kept,
                start,
                kept.len() + count,
            )->Ok_0;
            &&& steady(after, keys)
            &&& forall|i: int|
                0 <= i < keys.len() ==> (#[trigger] after.found[i]) == or_last(
                    middle.found[i],
                    meaning::units_facts(
                        source,
                        state.versions,
                        gone.skip(gone.len() - count),
                        keys[0].table,
                        facts::spec_stream(keys[i]),
                    ),
                    at,
                )
        }),
    decreases count,
{
    let units = gone + kept;
    let table = keys[0].table;
    let middle = batch::units_searched(
        source,
        state,
        keys,
        at,
        units,
        start,
        kept.len() as int,
    )->Ok_0;
    if count > 0 {
        units_back(source, state, keys, at, gone, kept, start, count - 1);
        let before = batch::units_searched(
            source,
            state,
            keys,
            at,
            units,
            start,
            kept.len() + count - 1,
        )->Ok_0;
        let after = batch::units_searched(
            source,
            state,
            keys,
            at,
            units,
            start,
            kept.len() + count,
        )->Ok_0;
        let place = gone.len() - count;
        let unit = gone[place];
        assert(units[units.len() - (kept.len() + count)] == unit);
        assert(source.directory(unit, table) is Ok);
        let sections = source.directory(unit, table)->Ok_0;
        let plan = meaning::unit_plan(source, unit, table);
        assert forall|a: int| 0 <= a < sections.len() implies {
            let section = #[trigger] sections[a];
            &&& gives_itself(source, state.versions, PlannedSection { unit, section })
            &&& stands(state.versions, unit, section)
        } by {
            assert(alike::listed(source, gone, table, place, a));
            assert(alike::listing(source, gone, table, place, a) == sections[a]);
        }
        let later = gone.skip(place + 1);
        let last = gone.skip(place);
        assert(last =~= seq![unit] + later);
        assert(plan.skip(0) =~= plan);
        assert(meaning::all_sections(source, seq![unit], table, 1) =~= plan) by {
            reveal_with_fuel(meaning::all_sections, 2);
            assert(seq![unit][0] == unit);
        }
        if !before.done && unit.min_ts <= at {
            sections_back(source, state, keys, at, unit, before, sections.len() as int);
        }
        assert forall|i: int| 0 <= i < keys.len() implies (#[trigger] after.found[i]) == or_last(
            middle.found[i],
            meaning::units_facts(
                source,
                state.versions,
                last,
                table,
                facts::spec_stream(keys[i]),
            ),
            at,
        ) by {
            let stream = facts::spec_stream(keys[i]);
            assert(before.found[i] == before.found[i]);
            let own = meaning::units_facts(source, state.versions, seq![unit], table, stream);
            let rest = meaning::units_facts(source, state.versions, later, table, stream);
            meaning::units_facts_join(
                source,
                state.versions,
                seq![unit],
                later,
                table,
                stream,
            );
            meaning::latest_join(own, rest, at);
            if !before.done && unit.min_ts > at {
                assert forall|k: int| 0 <= k < plan.len() implies unit.min_ts <= (
                #[trigger] plan[k]).section.min_ts && plan[k].section.max_ts <= unit.max_ts
                    && regrid::rows_fit(
                    meaning::section_rows(source, state.versions, plan[k]),
                    plan[k].section,
                ) by {
                    assert(stands(state.versions, unit, sections[k]));
                }
                sealed_times(
                    source,
                    state.versions,
                    plan,
                    stream,
                    plan.len() as int,
                    unit.min_ts as int,
                    unit.max_ts as int,
                );
                meaning::nothing_latest(own, at);
            }
        }
    } else {
        assert(gone.skip(gone.len() as int) =~= Seq::<UnitMeta>::empty());
        assert forall|i: int| 0 <= i < keys.len() implies (#[trigger] middle.found[i]) == or_last(
            middle.found[i],
            meaning::units_facts(
                source,
                state.versions,
                Seq::<UnitMeta>::empty(),
                table,
                facts::spec_stream(keys[i]),
            ),
            at,
        ) by {}
    }
}

/// A section is searched alike in sources that give the same of its unit.
proof fn sections_searched_alike<S: UnitSource>(
    old_source: &S,
    new_source: &S,
    state: TailTableView,
    keys: Seq<StreamKey>,
    at: i64,
    unit: UnitMeta,
    sections: Seq<TableDirectoryEntry>,
    search: Search,
    count: int,
)
    requires
        forall|section: TableDirectoryEntry, version: VersionView, streams: Seq<Stream>| #[trigger]
            new_source.streams_of(unit, section, version, streams) == old_source.streams_of(
                unit,
                section,
                version,
                streams,
            ),
    ensures
        batch::sections_searched(
            new_source,
            state,
            keys,
            at,
            unit,
            sections,
            search,
            count,
        ) == batch::sections_searched(
            old_source,
            state,
            keys,
            at,
            unit,
            sections,
            search,
            count,
        ),
    decreases count,
{
    if count > 0 {
        sections_searched_alike(
            old_source,
            new_source,
            state,
            keys,
            at,
            unit,
            sections,
            search,
            count - 1,
        );
    }
}

/// The units that stay are searched alike, with the expired ones before them or without.
proof fn kept_searched_alike<S: UnitSource>(
    old_source: &S,
    new_source: &S,
    state: TailTableView,
    keys: Seq<StreamKey>,
    at: i64,
    gone: Seq<UnitMeta>,
    kept: Seq<UnitMeta>,
    start: Search,
    count: int,
)
    requires
        upkeep::keeps(old_source, new_source, kept),
        0 <= count <= kept.len(),
    ensures
        batch::units_searched(new_source, state, keys, at, kept, start, count)
            == batch::units_searched(old_source, state, keys, at, gone + kept, start, count),
    decreases count,
{
    if count > 0 {
        kept_searched_alike(
            old_source,
            new_source,
            state,
            keys,
            at,
            gone,
            kept,
            start,
            count - 1,
        );
        let units = gone + kept;
        let place = kept.len() - count;
        let unit = kept[place];
        assert(units[units.len() - count] == unit);
        assert(new_source.directory(kept[place], keys[0].table) == old_source.directory(
            kept[place],
            keys[0].table,
        ));
        let before = batch::units_searched(
            new_source,
            state,
            keys,
            at,
            kept,
            start,
            count - 1,
        );
        if before matches Ok(search) && old_source.directory(unit, keys[0].table) matches Ok(
            sections,
        ) {
            assert forall|section: TableDirectoryEntry, version: VersionView, streams: Seq<Stream>|
                #[trigger]
                new_source.streams_of(unit, section, version, streams) == old_source.streams_of(
                    unit,
                    section,
                    version,
                    streams,
                ) by {
                assert(new_source.streams_of(kept[place], section, version, streams)
                    == old_source.streams_of(kept[place], section, version, streams));
            }
            sections_searched_alike(
                old_source,
                new_source,
                state,
                keys,
                at,
                unit,
                old_source.directory(unit, keys[0].table)->Ok_0,
                before->Ok_0,
                old_source.directory(unit, keys[0].table)->Ok_0.len() as int,
            );
        }
    }
}

/// A search over more units went over fewer first.
proof fn fewer_searched<S: UnitSource>(
    source: &S,
    state: TailTableView,
    keys: Seq<StreamKey>,
    at: i64,
    units: Seq<UnitMeta>,
    start: Search,
    few: int,
    many: int,
)
    requires
        few <= many,
        batch::units_searched(source, state, keys, at, units, start, many) is Ok,
    ensures
        batch::units_searched(source, state, keys, at, units, start, few) is Ok,
    decreases many,
{
    if few < many && many > 0 {
        fewer_searched(source, state, keys, at, units, start, few, many - 1);
    }
}

/// Units without the first of them are in order, too.
proof fn later_units_in_order(gone: Seq<UnitMeta>, kept: Seq<UnitMeta>)
    requires
        plan::units_refusal(gone + kept) is None,
    ensures
        plan::units_refusal(kept) is None,
{
    let units = gone + kept;
    assert forall|i: int, j: int| 0 <= i < j < kept.len() implies (
    #[trigger] kept[i]).spec_before(#[trigger] kept[j]) by {
        assert(units[gone.len() + i].spec_before(units[gone.len() + j]));
    }
    assert forall|i: int, j: int| 0 <= i < j < kept.len() implies (#[trigger] kept[i]).unit_id != (
    #[trigger] kept[j]).unit_id by {
        assert(units[gone.len() + i].unit_id != units[gone.len() + j].unit_id);
    }
}

/// Whether units expire well for a table: their sections are listed, stand and give themselves.
spec fn expires_well<S: UnitSource>(
    source: &S,
    gone: Seq<UnitMeta>,
    versions: Seq<VersionView>,
    table: TableId,
) -> bool {
    &&& forall|u: int| 0 <= u < gone.len() ==> source.directory(#[trigger] gone[u], table) is Ok
    &&& all_give_themselves(source, gone, versions, table)
    &&& forall|u: int, a: int| #[trigger]
        alike::listed(source, gone, table, u, a) ==> stands(
            versions,
            gone[u],
            alike::listing(source, gone, table, u, a),
        )
}

/// What is found before the expired units go is found after, or is the last of their values.
proof fn predecessors_handed<S: UnitSource>(
    old_source: &S,
    new_source: &S,
    schemas: TailView,
    keys: Seq<StreamKey>,
    at: i64,
    gone: Seq<UnitMeta>,
    kept: Seq<UnitMeta>,
)
    requires
        keys.len() > 0,
        upkeep::keeps(old_source, new_source, kept),
        expires_well(
            old_source,
            gone,
            schemas.tables[keys[0].table].versions,
            keys[0].table,
        ),
        alike::arrivals_alike(
            old_source,
            gone + kept,
            schemas.tables[keys[0].table],
            keys,
            at,
        ),
        batch::predecessors_of(old_source, gone + kept, schemas, keys, at) is Ok,
    ensures
        ({
            let before = batch::predecessors_of(old_source, gone + kept, schemas, keys, at)->Ok_0;
            &&& batch::predecessors_of(new_source, kept, schemas, keys, at) matches Ok(after)
            &&& after.len() == keys.len()
            &&& before.len() == keys.len()
            &&& forall|i: int|
                0 <= i < keys.len() ==> (#[trigger] before[i]) == or_last(
                    after[i],
                    meaning::units_facts(
                        old_source,
                        schemas.tables[keys[0].table].versions,
                        gone,
                        keys[0].table,
                        facts::spec_stream(keys[i]),
                    ),
                    at,
                )
        }),
{
    let units = gone + kept;
    let state = schemas.tables[keys[0].table];
    let start = batch::search_start(state.rows, keys, at);
    let total = units.len() as int;
    later_units_in_order(gone, kept);
    fewer_searched(old_source, state, keys, at, units, start, kept.len() as int, total);
    fewer_searched(old_source, state, keys, at, units, start, 0, total);
    alike::searches_count(old_source, units, state, keys, at, kept.len() as int);
    alike::searches_count(old_source, units, state, keys, at, 0);
    kept_searched_alike(
        old_source,
        new_source,
        state,
        keys,
        at,
        gone,
        kept,
        start,
        kept.len() as int,
    );
    units_back(old_source, state, keys, at, gone, kept, start, gone.len() as int);
    assert(gone.skip(0) =~= gone);
}

/// The expired values of a stream lie before the floor, and no section has two columns of it.
proof fn expired_values_fit<S: UnitSource>(
    source: &S,
    schemas: TailView,
    gone: Seq<UnitMeta>,
    floor: i64,
    key: StreamKey,
)
    requires
        expires_well(source, gone, schemas.tables[key.table].versions, key.table),
        forall|u: int| 0 <= u < gone.len() ==> (#[trigger] gone[u]).max_ts < floor,
    ensures
        carry::columns_apart(source, gone, schemas, key.table),
        forall|i: int|
            0 <= i < carry::expired_facts(source, gone, schemas, key, gone.len() as int).len() ==> (
            #[trigger] carry::expired_facts(
                source,
                gone,
                schemas,
                key,
                gone.len() as int,
            )[i]).timestamp < floor,
{
    let table = key.table;
    let versions = schemas.tables[table].versions;
    let all = meaning::all_sections(source, gone, table, gone.len() as int);
    assert forall|s: int| 0 <= s < all.len() implies carry::columns_distinct(
        meaning::section_rows(source, versions, #[trigger] all[s]),
    ) && i64::MIN <= all[s].section.min_ts && all[s].section.max_ts <= floor - 1
        && regrid::rows_fit(
        meaning::section_rows(source, versions, all[s]),
        all[s].section,
    ) by {
        let (u, a) = section_is_listed(source, gone, table, gone.len() as int, s);
        assert(alike::listed(source, gone, table, u, a));
        assert(gone[u].max_ts < floor);
    }
    sealed_times(
        source,
        versions,
        all,
        facts::spec_stream(key),
        all.len() as int,
        i64::MIN as int,
        floor - 1,
    );
}

/// What streams of one table are answered before a retention they are answered after it.
proof fn group_handed<S: UnitSource>(
    old_source: &S,
    new_source: &S,
    schemas: &TailIndex,
    prior: Option<HeadsView>,
    keys: Seq<StreamKey>,
    time: i64,
    gone: Seq<UnitMeta>,
    kept: Seq<UnitMeta>,
    floor: i64,
)
    requires
        keys.len() > 0,
        schemas.wf(),
        prior matches Some(heads) ==> heads.valid(),
        upkeep::keeps(old_source, new_source, kept),
        fold::folded(prior, gone, old_source, schemas, floor) is Ok,
        floor <= time,
        all_give_themselves(
            old_source,
            gone,
            schemas@.tables[keys[0].table].versions,
            keys[0].table,
        ),
        alike::arrivals_alike(
            old_source,
            gone + kept,
            schemas@.tables[keys[0].table],
            keys,
            time,
        ),
        primitives::group_lookups(
            old_source,
            gone + kept,
            schemas@,
            prior,
            keys,
            Some(time),
        ) is Ok,
    ensures
        primitives::group_lookups(
            new_source,
            kept,
            schemas@,
            Some(fold::folded(prior, gone, old_source, schemas, floor)->Ok_0),
            keys,
            Some(time),
        ) == primitives::group_lookups(
            old_source,
            gone + kept,
            schemas@,
            prior,
            keys,
            Some(time),
        ),
{
    let table = keys[0].table;
    let heads = Some(fold::folded(prior, gone, old_source, schemas, floor)->Ok_0);
    let before = batch::predecessors_of(old_source, gone + kept, schemas@, keys, time)->Ok_0;
    assert(batch::group_refusal(schemas@, table, keys) is None);
    primitives::accepted_keys(schemas@, keys, 0);
    folded_stands(old_source, schemas, prior, gone, floor, table);
    predecessors_handed(old_source, new_source, schemas@, keys, time, gone, kept);
    let after = batch::predecessors_of(new_source, kept, schemas@, keys, time)->Ok_0;
    assert forall|i: int| 0 <= i < keys.len() implies primitives::lookup_of(
        schemas@,
        #[trigger] keys[i],
        primitives::headed(after[i], heads, keys[i], time),
        time,
    ) == primitives::lookup_of(
        schemas@,
        keys[i],
        primitives::headed(before[i], prior, keys[i], time),
        time,
    ) by {
        assert(keys[i].table == table);
        assert(before[i] == before[i]);
        if after[i] is None {
            primitives::accepted_keys(schemas@, keys, i);
            expired_values_fit(old_source, schemas@, gone, floor, keys[i]);
            assert(gone.take(gone.len() as int) =~= gone);
            carry::heads_stand_in(
                old_source,
                schemas,
                prior,
                gone,
                gone,
                floor,
                keys[i],
                time,
            );
        }
    }
    recall::looked_up_alike(
        schemas@,
        heads,
        after,
        prior,
        before,
        keys,
        time,
        keys.len() as int,
    );
}

/// A plan over units that stay is made alike, with the expired ones before them or without.
proof fn planned_alike<S: UnitSource>(
    old_source: &S,
    new_source: &S,
    gone: Seq<UnitMeta>,
    kept: Seq<UnitMeta>,
    table: TableId,
    start: i64,
    end: i64,
    count: int,
)
    requires
        upkeep::keeps(old_source, new_source, kept),
        forall|u: int| 0 <= u < gone.len() ==> (#[trigger] gone[u]).max_ts < start,
        0 <= count <= kept.len(),
    ensures
        plan::planned_units(new_source, kept, table, start, end, count) == plan::planned_units(
            old_source,
            gone + kept,
            table,
            start,
            end,
            gone.len() + count,
        ),
        plan::planned_units(new_source, kept, table, start, end, count) matches Ok(list)
            ==> all_of(list, kept),
    decreases count,
{
    let units = gone + kept;
    if count > 0 {
        planned_alike(old_source, new_source, gone, kept, table, start, end, count - 1);
        let unit = kept[count - 1];
        assert(units[gone.len() + count - 1] == unit);
        assert(new_source.directory(kept[count - 1], table) == old_source.directory(
            kept[count - 1],
            table,
        ));
        if let Ok(list) = plan::planned_units(new_source, kept, table, start, end, count - 1) {
            if let Ok(sections) = new_source.directory(unit, table) {
                sections_are_of(
                    list,
                    unit,
                    table,
                    start,
                    end,
                    sections,
                    sections.len() as int,
                    kept,
                );
            }
        }
    } else {
        nothing_planned(old_source, gone, kept, table, start, end, gone.len() as int);
    }
}

/// Whether sections are all of some units.
spec fn all_of(list: Seq<PlannedSection>, units: Seq<UnitMeta>) -> bool {
    forall|i: int| 0 <= i < list.len() ==> units.contains((#[trigger] list[i]).unit)
}

proof fn sections_are_of(
    list: Seq<PlannedSection>,
    unit: UnitMeta,
    table: TableId,
    start: i64,
    end: i64,
    sections: Seq<TableDirectoryEntry>,
    count: int,
    units: Seq<UnitMeta>,
)
    requires
        all_of(list, units),
        units.contains(unit),
    ensures
        plan::planned_sections(list, unit, table, start, end, sections, count) matches Ok(more)
            ==> all_of(more, units),
    decreases count,
{
    if count > 0 {
        sections_are_of(list, unit, table, start, end, sections, count - 1, units);
    }
}

/// Nothing is planned of units that end before the range.
proof fn nothing_planned<S: UnitSource>(
    source: &S,
    gone: Seq<UnitMeta>,
    kept: Seq<UnitMeta>,
    table: TableId,
    start: i64,
    end: i64,
    count: int,
)
    requires
        forall|u: int| 0 <= u < gone.len() ==> (#[trigger] gone[u]).max_ts < start,
        0 <= count <= gone.len(),
    ensures
        plan::planned_units(source, gone + kept, table, start, end, count) == Ok::<
            Seq<PlannedSection>,
            Error,
        >(Seq::empty()),
    decreases count,
{
    if count > 0 {
        nothing_planned(source, gone, kept, table, start, end, count - 1);
        assert((gone + kept)[count - 1] == gone[count - 1]);
    }
}

/// Sections of units that stay are walked alike.
proof fn flows_alike<S: UnitSource>(
    old_source: &S,
    new_source: &S,
    kept: Seq<UnitMeta>,
    schemas: TailView,
    key: StreamKey,
    start: i64,
    end: i64,
    planned: Seq<PlannedSection>,
    from: int,
    rest: Seq<Fact>,
)
    requires
        upkeep::keeps(old_source, new_source, kept),
        all_of(planned, kept),
        0 <= from <= planned.len(),
    ensures
        cursor::flow_from(new_source, schemas, key, start, end, planned, from, rest)
            == cursor::flow_from(old_source, schemas, key, start, end, planned, from, rest),
    decreases planned.len() - from,
{
    if from < planned.len() {
        flows_alike(
            old_source,
            new_source,
            kept,
            schemas,
            key,
            start,
            end,
            planned,
            from + 1,
            rest,
        );
        let here = planned[from];
        assert(kept.contains(here.unit));
        let u = choose|u: int| 0 <= u < kept.len() && kept[u] == here.unit;
        let versions = schemas.tables[here.section.table].versions;
        if let Some(version) = facts::version_numbered(versions, here.section.version_no) {
            let streams = seq![facts::spec_stream(key)];
            assert(new_source.streams_of(kept[u], here.section, version, streams)
                == old_source.streams_of(kept[u], here.section, version, streams));
        }
    }
}

/// A walk over a stream that starts behind the units that expire delivers the same, value for value
/// and failure for failure, once they are gone.
proof fn walks_alike<S: UnitSource>(
    old_source: &S,
    new_source: &S,
    gone: Seq<UnitMeta>,
    kept: Seq<UnitMeta>,
    schemas: TailView,
    key: StreamKey,
    start: i64,
    end: i64,
)
    requires
        plan::units_refusal(gone + kept) is None,
        upkeep::keeps(old_source, new_source, kept),
        forall|u: int| 0 <= u < gone.len() ==> (#[trigger] gone[u]).max_ts < start,
    ensures
        cursor::stream_flow(new_source, kept, schemas, key, start, end) == cursor::stream_flow(
            old_source,
            gone + kept,
            schemas,
            key,
            start,
            end,
        ),
{
    later_units_in_order(gone, kept);
    planned_alike(
        old_source,
        new_source,
        gone,
        kept,
        key.table,
        start,
        end,
        kept.len() as int,
    );
    if let Ok(planned) = plan::planned(new_source, kept, key.table, start, end) {
        let rows = schemas.tables[key.table].rows;
        flows_alike(
            old_source,
            new_source,
            kept,
            schemas,
            key,
            start,
            end,
            planned,
            0,
            facts::facts_within(
                facts::tail_facts(rows, facts::spec_stream(key)),
                start,
                end,
            ),
        );
    }
}

/// The units that a retention removes, those that it leaves, and the floor that it sets.
proof fn what_expires<S: UnitSource>(
    before: &Db<S>,
    cutoff: i64,
    after: &Db<S>,
    report: RetentionReport,
)
    requires
        before.wf(),
        upkeep::retain_done(before, cutoff, after, report),
        report.removed_units > 0,
    ensures
        ({
            let units = before.manifest@.units;
            let gone = units.take(report.removed_units as int);
            &&& report.removed_units <= units.len()
            &&& units == gone + after.manifest@.units
            &&& plan::units_refusal(units) is None
            &&& after.tail == before.tail
            &&& report.floor matches Some(floor)
            &&& forall|u: int| 0 <= u < gone.len() ==> (#[trigger] gone[u]).max_ts < floor
            &&& fold::folded(
                upkeep::heads_of(before),
                gone,
                &before.source,
                &before.tail,
                floor,
            ) matches Ok(heads)
            &&& upkeep::heads_of(after) == Some(heads)
        }),
{
    let units = before.manifest@.units;
    upkeep::retention_removes_the_leading_units(before, cutoff, after, report);
    let removed = report.removed_units as int;
    let gone = units.take(removed);
    assert(units =~= gone + after.manifest@.units);
    upkeep::expired_prefix(units, cutoff, 0);
    assert(maintenance::expired_count(units, cutoff, 0) == removed);
    assert forall|u: int| 0 <= u < gone.len() implies (#[trigger] gone[u]).max_ts
        < report.floor->Some_0 by {
        assert(gone[u] == units[u]);
    }
}

/// Retention changes no walk that starts at or above the floor, whatever the store holds: it delivers
/// the same values and fails where it failed.
pub proof fn retention_changes_no_later_walk<S: UnitSource>(
    before: &Db<S>,
    cutoff: i64,
    after: &Db<S>,
    report: RetentionReport,
    key: StreamKey,
    start: i64,
    end: i64,
)
    requires
        before.wf(),
        upkeep::retain_done(before, cutoff, after, report),
        upkeep::keeps(&before.source, &after.source, after.manifest@.units),
        report.floor matches Some(floor) ==> floor <= start,
    ensures
        upkeep::scanned(after, key, start, end) == upkeep::scanned(before, key, start, end),
{
    upkeep::retention_removes_the_leading_units(before, cutoff, after, report);
    if report.removed_units > 0 {
        what_expires(before, cutoff, after, report);
        walks_alike(
            &before.source,
            &after.source,
            before.manifest@.units.take(report.removed_units as int),
            after.manifest@.units,
            before.tail@,
            key,
            start,
            end,
        );
    }
}

/// What keys are answered at or above the floor before a retention they are answered after it.
///
/// Of the sections that expire it is asked that they give themselves, and of those that a lookup
/// arrives at, that the source answers alike there.
pub proof fn retention_repeats_later_answers<S: UnitSource>(
    before: &Db<S>,
    cutoff: i64,
    after: &Db<S>,
    report: RetentionReport,
    keys: Seq<StreamKey>,
    time: i64,
)
    requires
        before.wf(),
        upkeep::retain_done(before, cutoff, after, report),
        upkeep::keeps(&before.source, &after.source, after.manifest@.units),
        report.floor matches Some(floor) ==> floor <= time,
        forall|k: int|
            0 <= k < keys.len() ==> {
                let key = #[trigger] keys[k];
                &&& all_give_themselves(
                    &before.source,
                    before.manifest@.units.take(report.removed_units as int),
                    before.tail@.tables[key.table].versions,
                    key.table,
                )
                &&& alike::reads_alike(
                    &before.source,
                    before.manifest@.units,
                    before.tail@,
                    key,
                    Some(time),
                )
            },
        primitives::lookups(
            &before.source,
            before.manifest@.units,
            before.tail@,
            upkeep::heads_of(before),
            keys,
            Some(time),
        ) is Ok,
    ensures
        primitives::lookups(
            &after.source,
            after.manifest@.units,
            after.tail@,
            upkeep::heads_of(after),
            keys,
            Some(time),
        ) == primitives::lookups(
            &before.source,
            before.manifest@.units,
            before.tail@,
            upkeep::heads_of(before),
            keys,
            Some(time),
        ),
{
    upkeep::retention_removes_the_leading_units(before, cutoff, after, report);
    if report.removed_units > 0 {
        what_expires(before, cutoff, after, report);
        let units = before.manifest@.units;
        let gone = units.take(report.removed_units as int);
        let kept = after.manifest@.units;
        let state = before.tail@;
        let prior = upkeep::heads_of(before);
        let at = Some(time);
        let answer = |members: Seq<StreamKey>|
            primitives::group_lookups(&before.source, units, state, prior, members, at);
        let other = |members: Seq<StreamKey>|
            primitives::group_lookups(
                &after.source,
                kept,
                state,
                upkeep::heads_of(after),
                members,
                at,
            );
        assert forall|members: Seq<StreamKey>|
            members.len() > 0 && batch::keys_ordered(members) && batch::keys_of(
                members,
                members[0].table,
            ) && (forall|i: int|
                0 <= i < members.len() ==> keys.contains(#[trigger] members[i])) && (
            #[trigger] answer(members)) is Ok implies other(members) == answer(members) by {
            let table = members[0].table;
            assert(keys.contains(members[0]));
            let p = choose|p: int| 0 <= p < keys.len() && keys[p] == members[0];
            assert(all_give_themselves(
                &before.source,
                gone,
                state.tables[keys[p].table].versions,
                keys[p].table,
            ));
            assert forall|k: int, u: int, a: int|
                0 <= k < members.len() && #[trigger] alike::arrives(
                    &before.source,
                    units,
                    state.tables[table],
                    members[k],
                    time,
                    u,
                    a,
                ) implies alike::answers_alike(
                &before.source,
                state.tables[table],
                units[u],
                alike::listing(&before.source, units, members[k].table, u, a),
            ) by {
                assert(keys.contains(members[k]));
                let q = choose|q: int| 0 <= q < keys.len() && keys[q] == members[k];
                assert(alike::reads_alike(&before.source, units, state, keys[q], at));
                assert(members[k].table == table);
            }
            group_handed(
                &before.source,
                &after.source,
                &before.tail,
                prior,
                members,
                time,
                gone,
                kept,
                report.floor->Some_0,
            );
        }
        if limits::memory_refusal(
            keys.len() as int,
            vstd::layout::size_of::<Lookup>() as int,
        ) is None {
            group::answered_again(keys, answer, other);
        }
    }
}

} // verus!
