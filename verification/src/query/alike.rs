//! A lookup of many keys answers each as a lookup of the key alone would.
//!
//! This asks nothing of the store but that what a source gives of a stream does not depend on which
//! other streams it is asked for, and that only of the sections that the searches arrive at.
use vstd::prelude::*;

use super::batch::{self, Search};
use super::facts::{self, Fact};
use super::group;
use super::meaning;
use super::primitives::{self, Lookup};
use super::recall;
use crate::error::{Error, Result};
use crate::limits;
use crate::manifest::catalog::UnitMeta;
use crate::ordmap::OrderedKey;
use crate::retention::head::HeadsView;
use crate::tail::{Stream, TailTableView, TailView};
use crate::types::{StreamKey, TableId, VersionView};
use crate::unit::{SectionView, TableDirectoryEntry, UnitSource};

verus! {

/// Whether rows have only columns that were asked for, and none twice.
pub open spec fn only_asked(rows: SectionView, streams: Seq<Stream>) -> bool {
    &&& forall|i: int, j: int|
        0 <= i < j < rows.columns.len() ==> (#[trigger] rows.columns[i]).stream != (
        #[trigger] rows.columns[j]).stream
    &&& forall|k: int|
        0 <= k < rows.columns.len() ==> streams.contains((#[trigger] rows.columns[k]).stream)
}

/// Whether an answer for several streams holds of each what an answer for it alone holds.
pub open spec fn given_alike<S: UnitSource>(
    source: &S,
    unit: UnitMeta,
    section: TableDirectoryEntry,
    version: VersionView,
    streams: Seq<Stream>,
) -> bool {
    source.streams_of(unit, section, version, streams) matches Ok(rows) ==> {
        &&& only_asked(rows, streams)
        &&& forall|stream: Stream| #[trigger]
            streams.contains(stream) ==> {
                &&& source.streams_of(unit, section, version, seq![stream]) matches Ok(alone)
                &&& only_asked(alone, seq![stream])
                &&& meaning::rows_facts(alone, stream) == meaning::rows_facts(rows, stream)
            }
    }
}

/// Whether what a source gives of a stream in a section does not depend on what else it is asked
/// for.
pub open spec fn answers_alike<S: UnitSource>(
    source: &S,
    state: TailTableView,
    unit: UnitMeta,
    section: TableDirectoryEntry,
) -> bool {
    facts::version_numbered(state.versions, section.version_no) matches Some(version) ==> forall|
        streams: Seq<Stream>,
    | #[trigger]
        given_alike(source, unit, section, version, streams)
}

/// Whether a unit lists a section of the table at a place.
pub open spec fn listed<S: UnitSource>(
    source: &S,
    units: Seq<UnitMeta>,
    table: TableId,
    unit: int,
    at: int,
) -> bool {
    &&& 0 <= unit < units.len()
    &&& source.directory(units[unit], table) matches Ok(list)
    &&& 0 <= at < list.len()
}

/// The section that a unit lists at a place.
pub open spec fn listing<S: UnitSource>(
    source: &S,
    units: Seq<UnitMeta>,
    table: TableId,
    unit: int,
    at: int,
) -> TableDirectoryEntry {
    source.directory(units[unit], table)->Ok_0[at]
}

/// The search for the last value of a key at a time, after the last `count` units.
pub open spec fn searched<S: UnitSource>(
    source: &S,
    units: Seq<UnitMeta>,
    state: TailTableView,
    key: StreamKey,
    at: i64,
    count: int,
) -> Result<Search> {
    batch::units_searched(
        source,
        state,
        seq![key],
        at,
        units,
        batch::search_start(state.rows, seq![key], at),
        count,
    )
}

/// The search for the last value of a key at a time, after the units behind one and the last `count`
/// sections of that one.
pub open spec fn searched_within<S: UnitSource>(
    source: &S,
    units: Seq<UnitMeta>,
    state: TailTableView,
    key: StreamKey,
    at: i64,
    unit: int,
    count: int,
) -> Result<Search> {
    batch::sections_searched(
        source,
        state,
        seq![key],
        at,
        units[unit],
        source.directory(units[unit], key.table)->Ok_0,
        searched(source, units, state, key, at, units.len() - 1 - unit)->Ok_0,
        count,
    )
}

/// Whether the search for the last value of a key at a time arrives at a section, not having found
/// the value before and not having failed.
pub open spec fn arrives<S: UnitSource>(
    source: &S,
    units: Seq<UnitMeta>,
    state: TailTableView,
    key: StreamKey,
    at: i64,
    unit: int,
    place: int,
) -> bool {
    &&& listed(source, units, key.table, unit, place)
    &&& units[unit].min_ts <= at
    &&& searched(source, units, state, key, at, units.len() - 1 - unit) matches Ok(before)
    &&& !before.done
    &&& searched_within(
        source,
        units,
        state,
        key,
        at,
        unit,
        source.directory(units[unit], key.table)->Ok_0.len() - 1 - place,
    ) matches Ok(here)
    &&& !here.done
}

/// Whether the source answers alike in every section that the search for one of the keys arrives at.
pub open spec fn arrivals_alike<S: UnitSource>(
    source: &S,
    units: Seq<UnitMeta>,
    state: TailTableView,
    keys: Seq<StreamKey>,
    at: i64,
) -> bool {
    forall|k: int, u: int, a: int|
        0 <= k < keys.len() && #[trigger] arrives(source, units, state, keys[k], at, u, a)
            ==> answers_alike(
            source,
            state,
            units[u],
            listing(source, units, keys[k].table, u, a),
        )
}

/// Whether a search for one key stands where a search for many stands, as far as the key goes.
spec fn follows(many: Search, one: Search, keys: Seq<StreamKey>, i: int) -> bool {
    &&& many.found.len() == keys.len()
    &&& one.found.len() == 1
    &&& one.found[0] == many.found[i]
    &&& many.unresolved == batch::unknown(many.found, many.found.len() as int)
    &&& one.unresolved == (if one.found[0] is None {
        1int
    } else {
        0
    })
    &&& one.done ==> one.found[0] is Some
    &&& many.done ==> one.done
    &&& !one.done ==> one.newer == many.newer
}

proof fn one_unknown(found: Seq<Option<Fact>>)
    requires
        found.len() == 1,
    ensures
        batch::unknown(found, 1) == (if found[0] is None {
            1int
        } else {
            0
        }),
{
    reveal_with_fuel(batch::unknown, 2);
}

/// The columns of a section mean to one key what they mean to many.
proof fn columns_follow<S: UnitSource>(
    source: &S,
    unit: UnitMeta,
    section: TableDirectoryEntry,
    version: VersionView,
    keys: Seq<StreamKey>,
    at: i64,
    many: Search,
    one: Search,
    i: int,
)
    requires
        forall|streams: Seq<Stream>| #[trigger]
            given_alike(source, unit, section, version, streams),
        batch::keys_ordered(keys),
        batch::keys_of(keys, keys[0].table),
        0 <= i < keys.len(),
        follows(many, one, keys, i),
        one.found[0] is None,
        source.streams_of(
            unit,
            section,
            version,
            batch::unresolved_streams(keys, many.found, keys.len() as int),
        ) is Ok,
    ensures
        ({
            let rows = source.streams_of(
                unit,
                section,
                version,
                batch::unresolved_streams(keys, many.found, keys.len() as int),
            )->Ok_0;
            let alone = source.streams_of(
                unit,
                section,
                version,
                batch::unresolved_streams(seq![keys[i]], one.found, 1),
            );
            let more = batch::columns_searched(keys, at, rows, many, rows.columns.len() as int);
            let single = batch::columns_searched(
                seq![keys[i]],
                at,
                alone->Ok_0,
                one,
                alone->Ok_0.columns.len() as int,
            );
            &&& alone is Ok
            &&& single is Ok
            &&& more matches Ok(after)
            &&& after.found.len() == keys.len()
            &&& after.unresolved == batch::unknown(after.found, after.found.len() as int)
            &&& after.newer == many.newer
            &&& single->Ok_0.newer == one.newer
            &&& single->Ok_0.found.len() == 1
            &&& single->Ok_0.found[0] == after.found[i]
            &&& single->Ok_0.unresolved == (if after.found[i] is None {
                1int
            } else {
                0
            })
        }),
{
    let streams = batch::unresolved_streams(keys, many.found, keys.len() as int);
    let stream = facts::spec_stream(keys[i]);
    let own = seq![keys[i]];
    assert(given_alike(source, unit, section, version, streams));
    recall::unresolved_facts(keys, many.found, keys.len() as int);
    assert(streams.contains(stream));
    reveal_with_fuel(batch::unresolved_streams, 2);
    assert(batch::unresolved_streams(own, one.found, 1) =~= seq![stream]);
    let rows = source.streams_of(unit, section, version, streams)->Ok_0;
    let alone = source.streams_of(unit, section, version, seq![stream])->Ok_0;
    one_unknown(one.found);
    recall::columns_found(keys, at, rows, many, rows.columns.len() as int);
    recall::columns_found(own, at, alone, one, alone.columns.len() as int);
    let after = batch::columns_searched(keys, at, rows, many, rows.columns.len() as int)->Ok_0;
    let single = batch::columns_searched(
        own,
        at,
        alone,
        one,
        alone.columns.len() as int,
    )->Ok_0;
    assert(rows.columns.take(rows.columns.len() as int) =~= rows.columns);
    assert(alone.columns.take(alone.columns.len() as int) =~= alone.columns);
    assert(after.found[i] == facts::latest_fact(meaning::rows_facts(rows, stream), at));
    assert(single.found[0] == facts::latest_fact(meaning::rows_facts(alone, stream), at));
    one_unknown(single.found);
}

/// What was found already is not looked for again.
proof fn found_stays<S: UnitSource>(
    source: &S,
    table: TailTableView,
    keys: Seq<StreamKey>,
    at: i64,
    unit: UnitMeta,
    section: TableDirectoryEntry,
    many: Search,
    i: int,
)
    requires
        !many.done && many.unresolved != 0 ==> answers_alike(source, table, unit, section),
        batch::keys_ordered(keys),
        batch::keys_of(keys, keys[0].table),
        0 <= i < keys.len(),
        many.found.len() == keys.len(),
        many.unresolved == batch::unknown(many.found, many.found.len() as int),
        many.found[i] is Some,
        batch::section_searched(source, table, keys, at, unit, section, many) is Ok,
    ensures
        ({
            let after = batch::section_searched(
                source,
                table,
                keys,
                at,
                unit,
                section,
                many,
            )->Ok_0;
            &&& after.found.len() == keys.len()
            &&& after.found[i] == many.found[i]
            &&& after.unresolved == batch::unknown(after.found, after.found.len() as int)
        }),
{
    if !many.done && many.unresolved != 0 && section.min_ts <= at {
        let streams = batch::unresolved_streams(keys, many.found, keys.len() as int);
        let version = facts::version_numbered(table.versions, section.version_no)->Some_0;
        let rows = source.streams_of(unit, section, version, streams)->Ok_0;
        let here = Search { newer: Some(section), ..many };
        assert(given_alike(source, unit, section, version, streams));
        recall::columns_found(keys, at, rows, here, rows.columns.len() as int);
        let after = batch::columns_searched(
            keys,
            at,
            rows,
            here,
            rows.columns.len() as int,
        )->Ok_0;
        assert(after.found[i] == many.found[i]);
    }
}

/// One more section.
proof fn section_follows<S: UnitSource>(
    source: &S,
    table: TailTableView,
    keys: Seq<StreamKey>,
    at: i64,
    unit: UnitMeta,
    section: TableDirectoryEntry,
    many: Search,
    one: Search,
    i: int,
)
    requires
        !many.done && many.unresolved != 0 ==> answers_alike(source, table, unit, section),
        batch::keys_ordered(keys),
        batch::keys_of(keys, keys[0].table),
        0 <= i < keys.len(),
        follows(many, one, keys, i),
        batch::section_searched(source, table, keys, at, unit, section, many) is Ok,
    ensures
        ({
            let single = batch::section_searched(
                source,
                table,
                seq![keys[i]],
                at,
                unit,
                section,
                one,
            );
            single is Ok && follows(
                batch::section_searched(source, table, keys, at, unit, section, many)->Ok_0,
                single->Ok_0,
                keys,
                i,
            )
        }),
{
    let own = seq![keys[i]];
    assert(own[0].table == keys[0].table);
    recall::unknown_facts(many.found, many.found.len() as int);
    if one.found[0] is Some {
        found_stays(source, table, keys, at, unit, section, many, i);
    } else {
        assert(many.found[i] is None);
        assert(many.unresolved > 0);
        if section.min_ts <= at {
            let version = facts::version_numbered(table.versions, section.version_no)->Some_0;
            let more = Search { newer: Some(section), ..many };
            let less = Search { newer: Some(section), ..one };
            columns_follow(source, unit, section, version, keys, at, more, less, i);
            let after = batch::section_searched(
                source,
                table,
                keys,
                at,
                unit,
                section,
                many,
            )->Ok_0;
            recall::unknown_facts(after.found, after.found.len() as int);
        }
    }
}

/// A search that is done passes over further sections.
proof fn done_stays<S: UnitSource>(
    source: &S,
    table: TailTableView,
    keys: Seq<StreamKey>,
    at: i64,
    unit: UnitMeta,
    sections: Seq<TableDirectoryEntry>,
    search: Search,
    count: int,
)
    requires
        search.done,
    ensures
        batch::sections_searched(source, table, keys, at, unit, sections, search, count) == Ok::<
            Search,
            Error,
        >(search),
    decreases count,
{
    if count > 0 {
        done_stays(source, table, keys, at, unit, sections, search, count - 1);
    }
}

/// Where something is unknown, the value of some key is.
proof fn unknown_is_some_key(found: Seq<Option<Fact>>, count: int) -> (at: int)
    requires
        0 <= count <= found.len(),
        batch::unknown(found, count) != 0,
    ensures
        0 <= at < count,
        found[at] is None,
    decreases count,
{
    if found[count - 1] is None {
        count - 1
    } else {
        unknown_is_some_key(found, count - 1)
    }
}

/// Whether the searches for the keys alone stand where the search for all of them stands, after so
/// many units.
spec fn units_followed<S: UnitSource>(
    source: &S,
    units: Seq<UnitMeta>,
    state: TailTableView,
    keys: Seq<StreamKey>,
    at: i64,
    many: Search,
    count: int,
) -> bool {
    forall|i: int|
        0 <= i < keys.len() ==> (searched(
            source,
            units,
            state,
            #[trigger] keys[i],
            at,
            count,
        ) matches Ok(one) && follows(many, one, keys, i))
}

/// The same after so many sections of a unit.
spec fn sections_followed<S: UnitSource>(
    source: &S,
    units: Seq<UnitMeta>,
    state: TailTableView,
    keys: Seq<StreamKey>,
    at: i64,
    unit: int,
    many: Search,
    count: int,
) -> bool {
    forall|i: int|
        0 <= i < keys.len() ==> (searched_within(
            source,
            units,
            state,
            #[trigger] keys[i],
            at,
            unit,
            count,
        ) matches Ok(one) && follows(many, one, keys, i))
}

proof fn sections_follow<S: UnitSource>(
    source: &S,
    units: Seq<UnitMeta>,
    state: TailTableView,
    keys: Seq<StreamKey>,
    at: i64,
    unit: int,
    many: Search,
    count: int,
)
    requires
        arrivals_alike(source, units, state, keys, at),
        keys.len() > 0,
        batch::keys_ordered(keys),
        batch::keys_of(keys, keys[0].table),
        0 <= unit < units.len(),
        units[unit].min_ts <= at,
        source.directory(units[unit], keys[0].table) is Ok,
        0 <= count <= source.directory(units[unit], keys[0].table)->Ok_0.len(),
        units_followed(source, units, state, keys, at, many, units.len() - 1 - unit),
        batch::sections_searched(
            source,
            state,
            keys,
            at,
            units[unit],
            source.directory(units[unit], keys[0].table)->Ok_0,
            many,
            count,
        ) is Ok,
    ensures
        sections_followed(
            source,
            units,
            state,
            keys,
            at,
            unit,
            batch::sections_searched(
                source,
                state,
                keys,
                at,
                units[unit],
                source.directory(units[unit], keys[0].table)->Ok_0,
                many,
                count,
            )->Ok_0,
            count,
        ),
    decreases count,
{
    let sections = source.directory(units[unit], keys[0].table)->Ok_0;
    if count > 0 {
        sections_follow(source, units, state, keys, at, unit, many, count - 1);
        let before = batch::sections_searched(
            source,
            state,
            keys,
            at,
            units[unit],
            sections,
            many,
            count - 1,
        )->Ok_0;
        let place = sections.len() - count;
        let section = sections[place];
        assert(keys[0] == keys[0]);
        if !before.done && before.unresolved != 0 {
            let k = unknown_is_some_key(before.found, before.found.len() as int);
            let one = searched_within(
                source,
                units,
                state,
                keys[k],
                at,
                unit,
                count - 1,
            )->Ok_0;
            assert(follows(before, one, keys, k));
            assert(keys[k].table == keys[0].table);
            let start = searched(
                source,
                units,
                state,
                keys[k],
                at,
                units.len() - 1 - unit,
            )->Ok_0;
            if start.done {
                done_stays(
                    source,
                    state,
                    seq![keys[k]],
                    at,
                    units[unit],
                    sections,
                    start,
                    count - 1,
                );
            }
            assert(arrives(source, units, state, keys[k], at, unit, place));
        }
        let after = batch::sections_searched(
            source,
            state,
            keys,
            at,
            units[unit],
            sections,
            many,
            count,
        )->Ok_0;
        assert forall|i: int| 0 <= i < keys.len() implies (searched_within(
            source,
            units,
            state,
            #[trigger] keys[i],
            at,
            unit,
            count,
        ) matches Ok(one) && follows(after, one, keys, i)) by {
            assert(keys[i].table == keys[0].table);
            let single = searched_within(
                source,
                units,
                state,
                keys[i],
                at,
                unit,
                count - 1,
            )->Ok_0;
            section_follows(
                source,
                state,
                keys,
                at,
                units[unit],
                section,
                before,
                single,
                i,
            );
        }
    } else {
        assert forall|i: int| 0 <= i < keys.len() implies (searched_within(
            source,
            units,
            state,
            #[trigger] keys[i],
            at,
            unit,
            0,
        ) matches Ok(one) && follows(many, one, keys, i)) by {
            assert(keys[i].table == keys[0].table);
        }
    }
}

proof fn units_follow<S: UnitSource>(
    source: &S,
    units: Seq<UnitMeta>,
    state: TailTableView,
    keys: Seq<StreamKey>,
    at: i64,
    count: int,
)
    requires
        arrivals_alike(source, units, state, keys, at),
        keys.len() > 0,
        batch::keys_ordered(keys),
        batch::keys_of(keys, keys[0].table),
        0 <= count <= units.len(),
        batch::units_searched(
            source,
            state,
            keys,
            at,
            units,
            batch::search_start(state.rows, keys, at),
            count,
        ) is Ok,
    ensures
        units_followed(
            source,
            units,
            state,
            keys,
            at,
            batch::units_searched(
                source,
                state,
                keys,
                at,
                units,
                batch::search_start(state.rows, keys, at),
                count,
            )->Ok_0,
            count,
        ),
    decreases count,
{
    let start = batch::search_start(state.rows, keys, at);
    if count > 0 {
        units_follow(source, units, state, keys, at, count - 1);
        let before = batch::units_searched(
            source,
            state,
            keys,
            at,
            units,
            start,
            count - 1,
        )->Ok_0;
        let after = batch::units_searched(source, state, keys, at, units, start, count)->Ok_0;
        let u = units.len() - count;
        let unit = units[u];
        if !before.done && unit.min_ts <= at {
            let sections = source.directory(unit, keys[0].table)->Ok_0;
            sections_follow(source, units, state, keys, at, u, before, sections.len() as int);
            assert forall|i: int| 0 <= i < keys.len() implies (searched(
                source,
                units,
                state,
                #[trigger] keys[i],
                at,
                count,
            ) matches Ok(one) && follows(after, one, keys, i)) by {
                assert(keys[i].table == keys[0].table);
                let own = seq![keys[i]];
                assert(own[0] == keys[i]);
                let single = searched(source, units, state, keys[i], at, count - 1)->Ok_0;
                if single.done {
                    done_stays(
                        source,
                        state,
                        own,
                        at,
                        unit,
                        sections,
                        single,
                        sections.len() as int,
                    );
                }
            }
        } else {
            assert forall|i: int| 0 <= i < keys.len() implies (searched(
                source,
                units,
                state,
                #[trigger] keys[i],
                at,
                count,
            ) matches Ok(one) && follows(after, one, keys, i)) by {
                let single = searched(source, units, state, keys[i], at, count - 1)->Ok_0;
                assert(follows(before, single, keys, i));
            }
        }
    } else {
        assert forall|i: int| 0 <= i < keys.len() implies (searched(
            source,
            units,
            state,
            #[trigger] keys[i],
            at,
            0,
        ) matches Ok(one) && follows(start, one, keys, i)) by {
            let own = seq![keys[i]];
            assert(own.len() == 1 && own[0] == keys[i]);
            one_unknown(batch::search_start(state.rows, own, at).found);
        }
    }
}

/// A search for many keys counts what it has not found yet, and ends only where that is nothing.
pub(crate) proof fn searches_count<S: UnitSource>(
    source: &S,
    units: Seq<UnitMeta>,
    state: TailTableView,
    keys: Seq<StreamKey>,
    at: i64,
    count: int,
)
    requires
        arrivals_alike(source, units, state, keys, at),
        keys.len() > 0,
        batch::keys_ordered(keys),
        batch::keys_of(keys, keys[0].table),
        0 <= count <= units.len(),
        batch::units_searched(
            source,
            state,
            keys,
            at,
            units,
            batch::search_start(state.rows, keys, at),
            count,
        ) is Ok,
    ensures
        ({
            let many = batch::units_searched(
                source,
                state,
                keys,
                at,
                units,
                batch::search_start(state.rows, keys, at),
                count,
            )->Ok_0;
            &&& many.found.len() == keys.len()
            &&& many.unresolved == batch::unknown(many.found, many.found.len() as int)
            &&& many.done ==> forall|i: int|
                0 <= i < keys.len() ==> (#[trigger] many.found[i]) is Some
        }),
{
    units_follow(source, units, state, keys, at, count);
    let many = batch::units_searched(
        source,
        state,
        keys,
        at,
        units,
        batch::search_start(state.rows, keys, at),
        count,
    )->Ok_0;
    let one = searched(source, units, state, keys[0], at, count)->Ok_0;
    assert(follows(many, one, keys, 0));
    assert forall|i: int| 0 <= i < keys.len() && many.done implies (
    #[trigger] many.found[i]) is Some by {
        let alone = searched(source, units, state, keys[i], at, count)->Ok_0;
        assert(follows(many, alone, keys, i));
    }
}

/// A search for many keys that succeeds finds of each what a search for it alone finds.
pub proof fn searches_agree<S: UnitSource>(
    source: &S,
    units: Seq<UnitMeta>,
    schemas: TailView,
    keys: Seq<StreamKey>,
    at: i64,
    i: int,
)
    requires
        arrivals_alike(source, units, schemas.tables[keys[0].table], keys, at),
        0 <= i < keys.len(),
        batch::predecessors_of(source, units, schemas, keys, at) is Ok,
    ensures
        batch::predecessors_of(source, units, schemas, keys, at)->Ok_0.len() == keys.len(),
        batch::predecessors_of(source, units, schemas, seq![keys[i]], at) == Ok::<
            Seq<Option<Fact>>,
            Error,
        >(seq![batch::predecessors_of(source, units, schemas, keys, at)->Ok_0[i]]),
{
    let own = seq![keys[i]];
    let table = schemas.tables[keys[0].table];
    assert(keys[i].table == keys[0].table);
    assert(own.len() == 1 && own[0] == keys[i]);
    units_follow(source, units, table, keys, at, units.len() as int);
    assert(batch::keys_refusal(schemas, own, 1) is None) by {
        primitives::accepted_keys(schemas, keys, i);
        reveal_with_fuel(batch::keys_refusal, 2);
    }
    assert(batch::group_refusal(schemas, own[0].table, own) is None);
    let single = searched(source, units, table, keys[i], at, units.len() as int)->Ok_0;
    let found = batch::predecessors_of(source, units, schemas, keys, at)->Ok_0;
    assert(single.found =~= seq![found[i]]);
}

/// The time at which a key is looked up: the given one, or else the latest of its table.
pub open spec fn time_of(schemas: TailView, key: StreamKey, at: Option<i64>) -> Option<i64> {
    primitives::lookup_time(schemas, seq![key], at)
}

/// Whether the source answers alike in every section that a lookup of the key arrives at.
pub open spec fn reads_alike<S: UnitSource>(
    source: &S,
    units: Seq<UnitMeta>,
    schemas: TailView,
    key: StreamKey,
    at: Option<i64>,
) -> bool {
    let state = schemas.tables[key.table];
    time_of(schemas, key, at) matches Some(time) ==> forall|u: int, a: int| #[trigger]
        arrives(source, units, state, key, time, u, a) ==> answers_alike(
            source,
            state,
            units[u],
            listing(source, units, key.table, u, a),
        )
}

/// What a key is answered when it is looked up alone.
spec fn alone<S: UnitSource>(
    source: &S,
    units: Seq<UnitMeta>,
    schemas: TailView,
    heads: Option<HeadsView>,
    at: Option<i64>,
    key: StreamKey,
) -> Lookup {
    match time_of(schemas, key, at) {
        None => Lookup::Missing,
        Some(time) => primitives::lookup_of(
            schemas,
            key,
            primitives::headed(
                batch::predecessors_of(source, units, schemas, seq![key], time)->Ok_0[0],
                heads,
                key,
                time,
            ),
            time,
        )->Ok_0,
    }
}

proof fn looked_up_parts(
    schemas: TailView,
    heads: Option<HeadsView>,
    keys: Seq<StreamKey>,
    found: Seq<Option<Fact>>,
    at: i64,
    count: int,
)
    requires
        0 <= count <= keys.len(),
        primitives::looked_up(schemas, heads, keys, found, at, count) is Ok,
    ensures
        ({
            let list = primitives::looked_up(schemas, heads, keys, found, at, count)->Ok_0;
            &&& list.len() == count
            &&& forall|i: int|
                0 <= i < count ==> primitives::lookup_of(
                    schemas,
                    keys[i],
                    primitives::headed(found[i], heads, keys[i], at),
                    at,
                ) == Ok::<Lookup, Error>(#[trigger] list[i])
        }),
    decreases count,
{
    if count > 0 {
        looked_up_parts(schemas, heads, keys, found, at, count - 1);
    }
}

/// Keys out of others read alike if the others do.
proof fn members_read_alike<S: UnitSource>(
    source: &S,
    units: Seq<UnitMeta>,
    schemas: TailView,
    keys: Seq<StreamKey>,
    members: Seq<StreamKey>,
    at: Option<i64>,
)
    requires
        forall|k: int|
            0 <= k < keys.len() ==> reads_alike(source, units, schemas, #[trigger] keys[k], at),
        forall|k: int| 0 <= k < members.len() ==> keys.contains(#[trigger] members[k]),
    ensures
        forall|k: int|
            0 <= k < members.len() ==> reads_alike(source, units, schemas, #[trigger] members[k], at),
{
    assert forall|k: int| 0 <= k < members.len() implies reads_alike(
        source,
        units,
        schemas,
        #[trigger] members[k],
        at,
    ) by {
        assert(keys.contains(members[k]));
        let p = choose|p: int| 0 <= p < keys.len() && keys[p] == members[k];
        assert(reads_alike(source, units, schemas, keys[p], at));
    }
}

/// A group that is answered answers each of its keys as the key alone.
proof fn group_agrees<S: UnitSource>(
    source: &S,
    units: Seq<UnitMeta>,
    schemas: TailView,
    heads: Option<HeadsView>,
    members: Seq<StreamKey>,
    at: Option<i64>,
    each: spec_fn(StreamKey) -> Lookup,
)
    requires
        members.len() > 0,
        batch::keys_of(members, members[0].table),
        forall|k: int|
            0 <= k < members.len() ==> reads_alike(source, units, schemas, #[trigger] members[k], at),
        each == (|key: StreamKey| alone(source, units, schemas, heads, at, key)),
        primitives::group_lookups(source, units, schemas, heads, members, at) is Ok,
    ensures
        primitives::group_lookups(source, units, schemas, heads, members, at)->Ok_0
            == members.map_values(each),
        forall|i: int|
            0 <= i < members.len() ==> (time_of(schemas, #[trigger] members[i], at) matches Some(
                time,
            ) ==> primitives::group_lookups(
                source,
                units,
                schemas,
                heads,
                seq![members[i]],
                Some(time),
            ) == Ok::<Seq<Lookup>, Error>(seq![each(members[i])])),
{
    let list = primitives::group_lookups(source, units, schemas, heads, members, at)->Ok_0;
    match primitives::lookup_time(schemas, members, at) {
        None => {
            assert forall|i: int| 0 <= i < members.len() implies (#[trigger] list[i]) == each(
                members[i],
            ) by {
                assert(members[i].table == members[0].table);
                assert(seq![members[i]][0].table == members[0].table);
            }
            assert forall|i: int| 0 <= i < members.len() implies time_of(
                schemas,
                #[trigger] members[i],
                at,
            ) is None by {
                assert(members[i].table == members[0].table);
                assert(seq![members[i]][0].table == members[0].table);
            }
        },
        Some(time) => {
            let found = batch::predecessors_of(source, units, schemas, members, time)->Ok_0;
            looked_up_parts(schemas, heads, members, found, time, members.len() as int);
            let state = schemas.tables[members[0].table];
            assert forall|k: int, u: int, a: int|
                0 <= k < members.len() && #[trigger] arrives(
                    source,
                    units,
                    state,
                    members[k],
                    time,
                    u,
                    a,
                ) implies answers_alike(
                source,
                state,
                units[u],
                listing(source, units, members[k].table, u, a),
            ) by {
                assert(members[k].table == members[0].table);
                assert(seq![members[k]][0] == members[k]);
                assert(reads_alike(source, units, schemas, members[k], at));
            }
            assert forall|i: int| 0 <= i < members.len() implies (#[trigger] list[i]) == each(
                members[i],
            ) && time_of(schemas, members[i], at) == Some(time) && primitives::group_lookups(
                source,
                units,
                schemas,
                heads,
                seq![members[i]],
                Some(time),
            ) == Ok::<Seq<Lookup>, Error>(seq![each(members[i])]) by {
                assert(members[i].table == members[0].table);
                let own = seq![members[i]];
                assert(own.len() == 1 && own[0] == members[i]);
                searches_agree(source, units, schemas, members, time, i);
                let single = seq![found[i]];
                assert(single[0] == found[i]);
                reveal_with_fuel(primitives::looked_up, 2);
                assert(Seq::<Lookup>::empty().push(list[i]) =~= seq![list[i]]);
            }
            assert forall|i: int| 0 <= i < members.len() implies (time_of(
                schemas,
                #[trigger] members[i],
                at,
            ) matches Some(moment) ==> primitives::group_lookups(
                source,
                units,
                schemas,
                heads,
                seq![members[i]],
                Some(moment),
            ) == Ok::<Seq<Lookup>, Error>(seq![each(members[i])])) by {
                assert(list[i] == each(members[i]));
            }
        },
    }
    assert(list =~= members.map_values(each));
}

/// One key is a group of its own.
pub(crate) proof fn one_key_is_a_group<S: UnitSource>(
    source: &S,
    units: Seq<UnitMeta>,
    schemas: TailView,
    heads: Option<HeadsView>,
    key: StreamKey,
    time: i64,
    value: Lookup,
)
    requires
        facts::key_refusal(schemas, key) is None,
        limits::memory_refusal(1, vstd::layout::size_of::<Lookup>() as int) is None,
        primitives::group_lookups(source, units, schemas, heads, seq![key], Some(time)) == Ok::<
            Seq<Lookup>,
            Error,
        >(seq![value]),
    ensures
        primitives::lookups(source, units, schemas, heads, seq![key], Some(time)) == Ok::<
            Seq<Lookup>,
            Error,
        >(seq![value]),
{
    let own = seq![key];
    let answer = |members: Seq<StreamKey>|
        primitives::group_lookups(source, units, schemas, heads, members, Some(time));
    let each = |other: StreamKey| value;
    assert(batch::keys_refusal(schemas, own, 1) is None) by {
        reveal_with_fuel(batch::keys_refusal, 2);
    }
    assert forall|members: Seq<StreamKey>|
        members.len() > 0 && batch::keys_ordered(members) && batch::keys_of(
            members,
            members[0].table,
        ) && (forall|i: int| 0 <= i < members.len() ==> own.contains(#[trigger] members[i])) implies (
    #[trigger] answer(members)) == Ok::<Seq<Lookup>, Error>(members.map_values(each)) by {
        assert(own.contains(members[0]));
        assert(members[0] == key);
        if members.len() > 1 {
            assert(own.contains(members[1]));
            assert(members[0].rank() < members[1].rank());
        }
        assert(members =~= own);
        assert(members.map_values(each) =~= seq![value]);
    }
    group::batch_answers_each_key(own, answer, each);
    assert(own.map_values(each) =~= seq![value]);
}

/// A lookup that succeeds gives as many answers as there are keys. A key whose table has no time is
/// missing; every other key is answered as a lookup of it alone at its time.
pub proof fn lookups_agree_with_each_alone<S: UnitSource>(
    source: &S,
    units: Seq<UnitMeta>,
    schemas: TailView,
    heads: Option<HeadsView>,
    keys: Seq<StreamKey>,
    at: Option<i64>,
    i: int,
)
    requires
        forall|k: int|
            0 <= k < keys.len() ==> reads_alike(source, units, schemas, #[trigger] keys[k], at),
        primitives::lookups(source, units, schemas, heads, keys, at) is Ok,
        0 <= i < keys.len(),
    ensures
        ({
            let values = primitives::lookups(source, units, schemas, heads, keys, at)->Ok_0;
            &&& values.len() == keys.len()
            &&& match time_of(schemas, keys[i], at) {
                None => values[i] == Lookup::Missing,
                Some(time) => primitives::lookups(
                    source,
                    units,
                    schemas,
                    heads,
                    seq![keys[i]],
                    Some(time),
                ) == Ok::<Seq<Lookup>, Error>(seq![values[i]]),
            }
        }),
{
    let answer = |members: Seq<StreamKey>|
        primitives::group_lookups(source, units, schemas, heads, members, at);
    let each = |key: StreamKey| alone(source, units, schemas, heads, at, key);
    assert forall|members: Seq<StreamKey>|
        members.len() > 0 && batch::keys_ordered(members) && batch::keys_of(
            members,
            members[0].table,
        ) && (forall|k: int| 0 <= k < members.len() ==> keys.contains(#[trigger] members[k])) && (
        #[trigger] answer(members)) is Ok implies answer(members)->Ok_0 == members.map_values(
        each,
    ) by {
        members_read_alike(source, units, schemas, keys, members, at);
        group_agrees(source, units, schemas, heads, members, at, each);
    }
    group::answered_batch_agrees(keys, answer, each);
    let members = group::group_with(keys, answer, i);
    members_read_alike(source, units, schemas, keys, members, at);
    let p = choose|p: int| 0 <= p < members.len() && members[p] == keys[i];
    group_agrees(source, units, schemas, heads, members, at, each);
    if let Some(time) = time_of(schemas, keys[i], at) {
        assert(time_of(schemas, members[p], at) == Some(time));
        primitives::accepted_keys(schemas, keys, i);
        let size = vstd::layout::size_of::<Lookup>() as int;
        assert(1 * size <= keys.len() * size) by (nonlinear_arith)
            requires
                keys.len() >= 1,
                size >= 0,
        ;
        one_key_is_a_group(source, units, schemas, heads, keys[i], time, each(keys[i]));
    }
}

/// Neither the order of the keys nor the keys beside it nor how often it is asked for changes what a
/// key is answered.
pub proof fn other_keys_change_no_answer<S: UnitSource>(
    source: &S,
    units: Seq<UnitMeta>,
    schemas: TailView,
    heads: Option<HeadsView>,
    keys: Seq<StreamKey>,
    others: Seq<StreamKey>,
    at: Option<i64>,
    i: int,
    j: int,
)
    requires
        forall|k: int|
            0 <= k < keys.len() ==> reads_alike(source, units, schemas, #[trigger] keys[k], at),
        forall|k: int|
            0 <= k < others.len() ==> reads_alike(
                source,
                units,
                schemas,
                #[trigger] others[k],
                at,
            ),
        primitives::lookups(source, units, schemas, heads, keys, at) is Ok,
        primitives::lookups(source, units, schemas, heads, others, at) is Ok,
        0 <= i < keys.len(),
        0 <= j < others.len(),
        keys[i] == others[j],
    ensures
        primitives::lookups(source, units, schemas, heads, keys, at)->Ok_0[i]
            == primitives::lookups(source, units, schemas, heads, others, at)->Ok_0[j],
{
    lookups_agree_with_each_alone(source, units, schemas, heads, keys, at, i);
    lookups_agree_with_each_alone(source, units, schemas, heads, others, at, j);
    let first = primitives::lookups(source, units, schemas, heads, keys, at)->Ok_0;
    let second = primitives::lookups(source, units, schemas, heads, others, at)->Ok_0;
    assert(seq![first[i]][0] == first[i]);
    assert(seq![second[j]][0] == second[j]);
}

} // verus!
