//! A sampling that succeeds has in each slot what a lookup at its time finds.
//!
//! The store need not be sound. Of a section that neither the sampled range nor a lookup at one of
//! its times reaches nothing is asked: it may overlap others, or be unreadable. The sections that are
//! reached fit together: they follow each other in time and precede the tail, their rows lie in their
//! time, and what a source gives of a stream there does not depend on which other streams it is asked
//! for.
use vstd::prelude::*;

use super::alike;
use super::batch::{self, Search};
use super::facts::{self, Fact};
use super::group;
use super::meaning;
use super::plan::{self, PlannedSection};
use super::primitives::{self, Lookup, Slot};
use super::recall;
use super::resample;
use super::sample::{self, RunView, SampleRun, StateView};
use super::walk;
use crate::error::{Error, Result};
use crate::limits;
use crate::manifest::catalog::UnitMeta;
use crate::retention::head::{self, HeadsView};
use crate::tail::{self, Stream, TailTableView, TailView};
use crate::types::{StreamKey, TableId};
use crate::unit::{SectionView, TableDirectoryEntry, UnitSource};

verus! {

/// Whether rows have strictly increasing times, all in the time of their section.
pub open spec fn rows_fit(rows: SectionView, section: TableDirectoryEntry) -> bool {
    &&& forall|i: int, j: int|
        0 <= i < j < rows.timestamps.len() ==> (#[trigger] rows.timestamps[i]) < (
        #[trigger] rows.timestamps[j])
    &&& forall|i: int|
        0 <= i < rows.timestamps.len() ==> section.min_ts <= #[trigger] rows.timestamps[i]
            <= section.max_ts
}

/// Whether everything that a source gives of a section fits: it lies in the section's time, and what
/// it holds of a stream does not depend on what else was asked for.
pub open spec fn section_fits<S: UnitSource>(
    source: &S,
    state: TailTableView,
    unit: UnitMeta,
    section: TableDirectoryEntry,
) -> bool {
    &&& alike::answers_alike(source, state, unit, section)
    &&& facts::version_numbered(state.versions, section.version_no) matches Some(version)
        ==> forall|streams: Seq<Stream>|
        (#[trigger] source.streams_of(unit, section, version, streams)) matches Ok(rows)
            ==> rows_fit(rows, section)
}

/// Whether some sections of a table, each named by its unit and its place there, fit together.
pub open spec fn coherent<S: UnitSource>(
    source: &S,
    units: Seq<UnitMeta>,
    state: TailTableView,
    table: TableId,
    some: spec_fn(int, int) -> bool,
) -> bool {
    &&& forall|u: int, a: int| #[trigger]
        alike::listed(source, units, table, u, a) && some(u, a) ==> {
            let section = alike::listing(source, units, table, u, a);
            &&& section.min_ts <= section.max_ts
            &&& state.rows.len() > 0 ==> section.max_ts < state.rows[0].timestamp
            &&& section_fits(source, state, units[u], section)
        }
    &&& forall|u: int, a: int, v: int, b: int|
        #![trigger alike::listed(source, units, table, u, a), alike::listed(source, units, table, v, b)]
        alike::listed(source, units, table, u, a) && some(u, a) && alike::listed(
            source,
            units,
            table,
            v,
            b,
        ) && some(v, b) && (u < v || (u == v && a < b)) ==> alike::listing(
            source,
            units,
            table,
            u,
            a,
        ).max_ts < alike::listing(source, units, table, v, b).min_ts
}

/// Whether a section that a unit lists has a time of the range, and its unit has too.
pub open spec fn in_range<S: UnitSource>(
    source: &S,
    units: Seq<UnitMeta>,
    table: TableId,
    start: i64,
    end: i64,
    unit: int,
    at: int,
) -> bool {
    &&& start < end
    &&& units[unit].min_ts < end
    &&& units[unit].max_ts >= start
    &&& plan::touches(alike::listing(source, units, table, unit, at), start, end)
}

/// What is asked: a stream of a store in a range of time.
pub struct Query<S: UnitSource> {
    pub source: S,
    pub units: Seq<UnitMeta>,
    pub state: TailTableView,
    pub key: StreamKey,
    pub start: i64,
    pub end: i64,
    /// The sections that fit together.
    pub some: spec_fn(int, int) -> bool,
}

impl<S: UnitSource> Query<S> {
    spec fn fits(self) -> bool {
        &&& coherent(&self.source, self.units, self.state, self.key.table, self.some)
        &&& tail::rows_wf(self.state.rows)
        &&& forall|u: int|
            0 <= u < self.units.len() ==> (#[trigger] self.units[u]).min_ts
                <= self.units[u].max_ts
        &&& forall|u: int, a: int| #[trigger]
            self.listed(u, a) && self.in_range(u, a) ==> (self.some)(u, a)
    }

    /// Whether the search for the stream at a time arrives only at sections that fit.
    spec fn covers(self, at: i64) -> bool {
        forall|u: int, a: int| #[trigger]
            alike::arrives(&self.source, self.units, self.state, self.key, at, u, a) ==> (
            self.some)(u, a)
    }

    spec fn listed(self, u: int, a: int) -> bool {
        alike::listed(&self.source, self.units, self.key.table, u, a)
    }

    spec fn listing(self, u: int, a: int) -> TableDirectoryEntry {
        alike::listing(&self.source, self.units, self.key.table, u, a)
    }

    /// Whether a section is one of the range.
    spec fn in_range(self, u: int, a: int) -> bool {
        in_range(
            &self.source,
            self.units,
            self.key.table,
            self.start,
            self.end,
            u,
            a,
        )
    }

    /// Whether everything that is given of a section fits.
    spec fn settled(self, planned: PlannedSection) -> bool {
        section_fits(&self.source, self.state, planned.unit, planned.section)
    }

    /// The answer of the source for the stream alone.
    spec fn answer(self, planned: PlannedSection) -> Result<SectionView> {
        self.source.streams_of(
            planned.unit,
            planned.section,
            facts::version_numbered(self.state.versions, planned.section.version_no)->Some_0,
            seq![facts::spec_stream(self.key)],
        )
    }

    /// Whether a section can be read.
    spec fn readable(self, planned: PlannedSection) -> bool {
        &&& facts::version_numbered(self.state.versions, planned.section.version_no) is Some
        &&& self.answer(planned) is Ok
    }

    /// The values of the stream in a section.
    spec fn values(self, planned: PlannedSection) -> Seq<Fact> {
        meaning::rows_facts(self.answer(planned)->Ok_0, facts::spec_stream(self.key))
    }

    /// The values of the stream in a section that lie in the range.
    spec fn part(self, planned: PlannedSection) -> Seq<Fact> {
        facts::facts_within(self.values(planned), self.start, self.end)
    }

    spec fn parts(self, sections: Seq<PlannedSection>) -> Seq<Fact>
        decreases sections.len(),
    {
        if sections.len() == 0 {
            Seq::empty()
        } else {
            self.parts(sections.drop_last()) + self.part(sections.last())
        }
    }

    /// The values of the stream in the tail.
    spec fn tail(self) -> Seq<Fact> {
        facts::tail_facts(self.state.rows, facts::spec_stream(self.key))
    }

    /// The sections of the first units that have a time of the range.
    spec fn sections(self, count: int) -> Seq<PlannedSection> {
        walk::sections_within(
            &self.source,
            self.units,
            self.key.table,
            self.start,
            self.end,
            count,
        )
    }

    /// The values of the stream in the range.
    spec fn whole(self) -> Seq<Fact> {
        self.parts(self.sections(self.units.len() as int)) + facts::facts_within(
            self.tail(),
            self.start,
            self.end,
        )
    }

    /// The search for the last value at a time after so many units.
    spec fn search(self, at: i64, count: int) -> Result<Search> {
        alike::searched(&self.source, self.units, self.state, self.key, at, count)
    }

    /// The search after the units behind one and so many sections of that one.
    spec fn search_in(self, at: i64, u: int, count: int) -> Result<Search> {
        alike::searched_within(
            &self.source,
            self.units,
            self.state,
            self.key,
            at,
            u,
            count,
        )
    }

    /// Whether the sections of a unit with a time of the range can be listed.
    spec fn openable(self, unit: int) -> bool {
        let meta = self.units[unit];
        meta.min_ts < self.end && meta.max_ts >= self.start ==> self.source.directory(
            meta,
            self.key.table,
        ) is Ok
    }

    /// Whether what the range needs of a unit can be had.
    spec fn ready(self, unit: int) -> bool {
        let meta = self.units[unit];
        meta.min_ts < self.end && meta.max_ts >= self.start ==> {
            &&& self.source.directory(meta, self.key.table) matches Ok(list)
            &&& forall|a: int|
                0 <= a < list.len() ==> {
                    let section = #[trigger] list[a];
                    &&& plan::loaded_refusal(meta, self.key.table, section) is None
                    &&& plan::touches(section, self.start, self.end) ==> self.readable(
                        PlannedSection { unit: meta, section },
                    )
                }
        }
    }
}

/// The value in force at a time: the last one so far, or else the one before.
pub open spec fn in_force(initial: Option<Fact>, list: Seq<Fact>, at: i64) -> Option<Fact> {
    match facts::latest_fact(list, at) {
        Some(fact) => Some(fact),
        None => initial,
    }
}

/// The last value at a time inside a range is the last of the range so far, or else the last at the
/// start.
proof fn latest_in_range(list: Seq<Fact>, start: i64, end: i64, at: i64)
    requires
        facts::facts_ordered(list),
        start <= at < end,
    ensures
        match facts::latest_fact(list, at) {
            None => facts::latest_fact(facts::facts_within(list, start, end), at) is None
                && facts::latest_fact(list, start) is None,
            Some(fact) => if fact.timestamp >= start {
                facts::latest_fact(facts::facts_within(list, start, end), at) == Some(fact)
            } else {
                facts::latest_fact(facts::facts_within(list, start, end), at) is None
                    && facts::latest_fact(list, start) == Some(fact)
            },
        },
    decreases list.len(),
{
    if list.len() > 0 {
        let front = list.drop_last();
        let last = list.last();
        assert(list[list.len() - 1] == last);
        assert forall|i: int, j: int| 0 <= i < j < front.len() implies (
        #[trigger] front[i]).timestamp < (#[trigger] front[j]).timestamp by {
            assert(list[i].timestamp < list[j].timestamp);
        }
        latest_in_range(front, start, end, at);
        let part = facts::facts_within(list, start, end);
        let earlier = facts::facts_within(front, start, end);
        if last.timestamp <= at {
            if last.timestamp < start {
                assert forall|i: int| 0 <= i < front.len() implies !(start <= (
                #[trigger] front[i]).timestamp && front[i].timestamp < end) by {
                    assert(list[i].timestamp < list[list.len() - 1].timestamp);
                }
                meaning::nothing_within(front, start, end);
            } else {
                assert(part.last() == last);
            }
        } else if last.timestamp < end {
            assert(part.drop_last() =~= earlier);
        }
    }
}

/// The values of a section that fits lie in its time, in order.
proof fn values_fit<S: UnitSource>(query: Query<S>, planned: PlannedSection)
    requires
        query.settled(planned),
        query.readable(planned),
    ensures
        facts::facts_ordered(query.values(planned)),
        forall|i: int|
            0 <= i < query.values(planned).len() ==> planned.section.min_ts <= (
            #[trigger] query.values(planned)[i]).timestamp <= planned.section.max_ts,
{
    let rows = query.answer(planned)->Ok_0;
    let stream = facts::spec_stream(query.key);
    assert(rows_fit(rows, planned.section));
    if meaning::has_column(rows.columns, stream) {
        let at = choose|i: int|
            0 <= i < rows.columns.len() && (#[trigger] rows.columns[i]).stream == stream;
        let cells = rows.columns[at].cells;
        let count = if rows.timestamps.len() < cells.len() {
            rows.timestamps.len() as int
        } else {
            cells.len() as int
        };
        meaning::cell_facts_times(
            rows.timestamps,
            cells,
            count,
            planned.section.min_ts,
            planned.section.max_ts,
        );
    }
}

/// Parts of joined sections.
proof fn parts_join<S: UnitSource>(
    query: Query<S>,
    first: Seq<PlannedSection>,
    second: Seq<PlannedSection>,
)
    ensures
        query.parts(first + second) == query.parts(first) + query.parts(second),
    decreases second.len(),
{
    let both = first + second;
    if second.len() > 0 {
        parts_join(query, first, second.drop_last());
        assert(both.drop_last() =~= first + second.drop_last());
        assert(both.last() == second.last());
        let a = query.parts(first);
        let b = query.parts(second.drop_last());
        let c = query.part(second.last());
        assert((a + b) + c =~= a + (b + c));
    } else {
        assert(both =~= first);
        assert(query.parts(first) + Seq::<Fact>::empty() =~= query.parts(first));
    }
}

/// What one section does to the search for one key that has found nothing.
proof fn one_section<S: UnitSource>(
    query: Query<S>,
    at: i64,
    unit: UnitMeta,
    section: TableDirectoryEntry,
    search: Search,
)
    requires
        query.settled(PlannedSection { unit, section }),
        search.found.len() == 1,
        search.found[0] is None,
        search.unresolved == 1,
        !search.done,
        batch::reverse_refusal(
            unit,
            query.key.table,
            section,
            search.newer,
            batch::first_ts(query.state.rows),
        ) is None,
    ensures
        ({
            let planned = PlannedSection { unit, section };
            let r = batch::section_searched(
                &query.source,
                query.state,
                seq![query.key],
                at,
                unit,
                section,
                search,
            );
            if section.min_ts > at {
                r == Ok::<Search, Error>(Search { newer: Some(section), ..search })
            } else {
                &&& r is Ok <==> query.readable(planned)
                &&& r matches Ok(after) ==> {
                    let found = facts::latest_fact(query.values(planned), at);
                    &&& after.found.len() == 1
                    &&& after.found[0] == found
                    &&& after.unresolved == (if found is None {
                        1int
                    } else {
                        0
                    })
                    &&& after.newer == Some(section)
                    &&& after.done == (found is Some)
                }
            }
        }),
{
    let own = seq![query.key];
    let stream = facts::spec_stream(query.key);
    let planned = PlannedSection { unit, section };
    assert(own.len() == 1 && own[0] == query.key);
    if section.min_ts <= at {
        reveal_with_fuel(batch::unresolved_streams, 2);
        assert(batch::unresolved_streams(own, search.found, 1) =~= seq![stream]);
        if query.readable(planned) {
            let version = facts::version_numbered(
                query.state.versions,
                section.version_no,
            )->Some_0;
            let rows = query.answer(planned)->Ok_0;
            assert(alike::given_alike(&query.source, unit, section, version, seq![stream]));
            let here = Search { newer: Some(section), ..search };
            reveal_with_fuel(batch::unknown, 2);
            recall::columns_found(own, at, rows, here, rows.columns.len() as int);
            assert(rows.columns.take(rows.columns.len() as int) =~= rows.columns);
            let after = batch::columns_searched(
                own,
                at,
                rows,
                here,
                rows.columns.len() as int,
            )->Ok_0;
            assert(after.found[0] == facts::latest_fact(query.values(planned), at));
        }
    }
}

/// Whether a search is for one key.
spec fn single(search: Search) -> bool {
    &&& search.found.len() == 1
    &&& search.unresolved == (if search.found[0] is None {
        1int
    } else {
        0
    })
    &&& search.done ==> search.found[0] is Some
}

/// A search for one key stays one, and keeps what it found.
proof fn single_section<S: UnitSource>(
    query: Query<S>,
    at: i64,
    unit: UnitMeta,
    section: TableDirectoryEntry,
    search: Search,
)
    requires
        !search.done ==> query.settled(PlannedSection { unit, section }),
        single(search),
        batch::section_searched(
            &query.source,
            query.state,
            seq![query.key],
            at,
            unit,
            section,
            search,
        ) is Ok,
    ensures
        ({
            let after = batch::section_searched(
                &query.source,
                query.state,
                seq![query.key],
                at,
                unit,
                section,
                search,
            )->Ok_0;
            &&& single(after)
            &&& search.found[0] is Some ==> after.found == search.found
        }),
{
    assert(seq![query.key][0] == query.key);
    if !search.done && search.found[0] is None {
        one_section(query, at, unit, section, search);
    }
}

/// Where the search arrives, the section fits.
proof fn arrival_fits<S: UnitSource>(query: Query<S>, at: i64, u: int, a: int)
    requires
        query.fits(),
        query.covers(at),
        query.listed(u, a),
        query.units[u].min_ts <= at,
        query.search(at, query.units.len() - 1 - u) is Ok,
        !query.search(at, query.units.len() - 1 - u)->Ok_0.done,
        query.search_in(
            at,
            u,
            query.source.directory(query.units[u], query.key.table)->Ok_0.len() - 1 - a,
        ) matches Ok(here) && !here.done,
    ensures
        (query.some)(u, a),
        query.settled(PlannedSection { unit: query.units[u], section: query.listing(u, a) }),
{
    assert(alike::arrives(&query.source, query.units, query.state, query.key, at, u, a));
    assert(alike::listed(&query.source, query.units, query.key.table, u, a));
}

/// The search over fewer sections of a unit succeeded too, and what it found stays.
proof fn sections_stay<S: UnitSource>(query: Query<S>, at: i64, u: int, few: int, many: int)
    requires
        query.fits(),
        query.covers(at),
        0 <= u < query.units.len(),
        query.units[u].min_ts <= at,
        query.source.directory(query.units[u], query.key.table) is Ok,
        query.search(at, query.units.len() - 1 - u) is Ok,
        single(query.search(at, query.units.len() - 1 - u)->Ok_0),
        !query.search(at, query.units.len() - 1 - u)->Ok_0.done,
        0 <= few <= many <= query.source.directory(
            query.units[u],
            query.key.table,
        )->Ok_0.len(),
        query.search_in(at, u, many) is Ok,
    ensures
        query.search_in(at, u, few) is Ok,
        single(query.search_in(at, u, few)->Ok_0),
        single(query.search_in(at, u, many)->Ok_0),
        query.search_in(at, u, few)->Ok_0.found[0] is Some ==> query.search_in(
            at,
            u,
            many,
        )->Ok_0.found == query.search_in(at, u, few)->Ok_0.found,
    decreases many,
{
    if many > 0 {
        if few < many {
            sections_stay(query, at, u, few, many - 1);
        } else {
            sections_stay(query, at, u, many - 1, many - 1);
        }
        let sections = query.source.directory(query.units[u], query.key.table)->Ok_0;
        let place = sections.len() - many;
        let before = query.search_in(at, u, many - 1)->Ok_0;
        if !before.done {
            assert(query.listed(u, place));
            arrival_fits(query, at, u, place);
        }
        single_section(query, at, query.units[u], sections[place], before);
    }
}

/// The search over fewer units was one for the key, and what it found stays.
proof fn single_units<S: UnitSource>(query: Query<S>, at: i64, few: int, many: int)
    requires
        query.fits(),
        query.covers(at),
        0 <= few <= many <= query.units.len(),
        query.search(at, many) is Ok,
    ensures
        query.search(at, few) is Ok,
        single(query.search(at, few)->Ok_0),
        single(query.search(at, many)->Ok_0),
        query.search(at, few)->Ok_0.found[0] is Some ==> query.search(at, many)->Ok_0.found
            == query.search(at, few)->Ok_0.found,
    decreases many,
{
    let own = seq![query.key];
    assert(own.len() == 1 && own[0] == query.key);
    if many == 0 {
        reveal_with_fuel(batch::unknown, 2);
    } else {
        if few < many {
            single_units(query, at, few, many - 1);
        } else {
            single_units(query, at, many - 1, many - 1);
        }
        let before = query.search(at, many - 1)->Ok_0;
        let u = query.units.len() - many;
        if !before.done && query.units[u].min_ts <= at {
            let total = query.source.directory(
                query.units[u],
                query.key.table,
            )->Ok_0.len() as int;
            sections_stay(query, at, u, 0, total);
        }
    }
}

/// Whether every section that is left precedes the one that was met last.
spec fn ahead<S: UnitSource>(
    query: Query<S>,
    count: int,
    sections: Seq<TableDirectoryEntry>,
    left: int,
    newer: Option<TableDirectoryEntry>,
) -> bool {
    newer matches Some(later) ==> {
        &&& forall|u: int, a: int| #[trigger]
            query.listed(u, a) && (query.some)(u, a) && u < count ==> query.listing(u, a).max_ts
                < later.min_ts
        &&& forall|a: int|
            0 <= a < left && (query.some)(count, a) ==> (#[trigger] sections[a]).max_ts
                < later.min_ts
    }
}

/// Two searches side by side, one at a time inside the range and one at its start. Either the first
/// has found what is in force at its time, or neither has found anything and what is in force is in
/// the parts that are left.
spec fn side_by_side(
    whole: Seq<Fact>,
    initial: Option<Fact>,
    at: i64,
    left: Seq<Fact>,
    inside: Search,
    first: Search,
) -> bool {
    &&& single(inside)
    &&& single(first)
    &&& match inside.found[0] {
        Some(fact) => {
            &&& in_force(initial, whole, at) == Some(fact)
            &&& !inside.done ==> !first.done && inside.newer is None
        },
        None => {
            &&& !first.done
            &&& first.found[0] is None
            &&& facts::latest_fact(whole, at) == facts::latest_fact(left, at)
        },
    }
}

/// One more section for both.
proof fn section_side_by_side<S: UnitSource>(
    query: Query<S>,
    at: i64,
    k: int,
    sections: Seq<TableDirectoryEntry>,
    d: int,
    initial: Option<Fact>,
    left: Seq<Fact>,
    rest: Seq<Fact>,
    inside: Search,
    first: Search,
    next: Search,
)
    requires
        query.fits(),
        0 <= k < query.units.len(),
        query.source.directory(query.units[k], query.key.table) == Ok::<
            Seq<TableDirectoryEntry>,
            Error,
        >(sections),
        1 <= d <= sections.len(),
        query.start <= at < query.end,
        query.units[k].min_ts <= at,
        query.ready(k),
        left == rest + (if query.units[k].max_ts >= query.start && plan::touches(
            sections[d - 1],
            query.start,
            query.end,
        ) {
            query.part(PlannedSection { unit: query.units[k], section: sections[d - 1] })
        } else {
            Seq::empty()
        }),
        side_by_side(query.whole(), initial, at, left, inside, first),
        inside.found[0] is None ==> ahead(query, k, sections, d, inside.newer),
        if query.units[k].min_ts <= query.start {
            batch::section_searched(
                &query.source,
                query.state,
                seq![query.key],
                query.start,
                query.units[k],
                sections[d - 1],
                first,
            ) == Ok::<Search, Error>(next)
        } else {
            next == first
        },
        next.found[0] is Some ==> initial == next.found[0],
        !inside.done ==> (query.some)(k, d - 1),
        !first.done && query.units[k].min_ts <= query.start ==> (query.some)(k, d - 1),
        !inside.done && sections[d - 1].min_ts <= query.start ==> rest.len() == 0,
    ensures
        ({
            let r = batch::section_searched(
                &query.source,
                query.state,
                seq![query.key],
                at,
                query.units[k],
                sections[d - 1],
                inside,
            );
            &&& r matches Ok(after)
            &&& side_by_side(query.whole(), initial, at, rest, after, next)
            &&& after.found[0] is None ==> ahead(query, k, sections, d - 1, after.newer)
        }),
{
    let unit = query.units[k];
    let section = sections[d - 1];
    let planned = PlannedSection { unit, section };
    let table = query.key.table;
    let own = seq![query.key];
    assert(own[0] == query.key);
    assert(query.listed(k, d - 1));
    assert(query.listing(k, d - 1) == section);
    assert(alike::listed(&query.source, query.units, table, k, d - 1));
    if unit.min_ts <= query.start {
        single_section(query, query.start, unit, section, first);
    }
    if !inside.done {
        assert(!first.done);
        assert(plan::loaded_refusal(unit, table, section) is None);
        assert(batch::reverse_refusal(
            unit,
            table,
            section,
            inside.newer,
            batch::first_ts(query.state.rows),
        ) is None);
        if inside.found[0] is None {
            one_section(query, at, unit, section, inside);
            if unit.min_ts <= query.start {
                one_section(query, query.start, unit, section, first);
            }
            assert(ahead(query, k, sections, d - 1, Some(section))) by {
                assert forall|u: int, a: int| #[trigger]
                    query.listed(u, a) && (query.some)(u, a) && u < k implies query.listing(
                    u,
                    a,
                ).max_ts < section.min_ts by {
                    assert(alike::listed(&query.source, query.units, table, u, a));
                }
                assert forall|a: int| 0 <= a < d - 1 && (query.some)(k, a) implies (
                #[trigger] sections[a]).max_ts < section.min_ts by {
                    assert(alike::listed(&query.source, query.units, table, k, a));
                    assert(query.listing(k, a) == sections[a]);
                }
            }
            let touched = unit.max_ts >= query.start && plan::touches(
                section,
                query.start,
                query.end,
            );
            let values = query.values(planned);
            let part = query.part(planned);
            if touched {
                assert(query.readable(planned));
                values_fit(query, planned);
                meaning::latest_join(rest, part, at);
                meaning::within_in_order(values, query.start, query.end);
            } else {
                assert(left =~= rest);
            }
            if section.min_ts > at {
                if touched {
                    assert forall|i: int| 0 <= i < part.len() implies at < (
                    #[trigger] part[i]).timestamp by {
                        let v = choose|v: int| 0 <= v < values.len() && values[v] == part[i];
                        assert(section.min_ts <= values[v].timestamp);
                    }
                    meaning::nothing_latest(part, at);
                }
            } else {
                if !touched {
                    assert(section.max_ts < query.start);
                    assert(unit.min_ts <= query.start);
                    assert(query.readable(planned));
                    values_fit(query, planned);
                }
                latest_in_range(values, query.start, query.end, at);
                if let Some(fact) = facts::latest_fact(values, at) {
                    latest_is_one(values, at);
                    if fact.timestamp < query.start {
                        assert(section.min_ts <= fact.timestamp);
                        assert(rest =~= Seq::<Fact>::empty());
                        assert(unit.min_ts <= query.start);
                        assert(next.found[0] == Some(fact));
                        if !touched {
                            assert(left =~= Seq::<Fact>::empty());
                        }
                    } else {
                        assert(touched);
                    }
                }
            }
        }
    }
}

/// The last value is one of the values.
proof fn latest_is_one(list: Seq<Fact>, at: i64)
    ensures
        facts::latest_fact(list, at) matches Some(fact) ==> exists|i: int|
            0 <= i < list.len() && #[trigger] list[i] == fact,
    decreases list.len(),
{
    if list.len() > 0 {
        assert(list[list.len() - 1] == list.last());
        latest_is_one(list.drop_last(), at);
        if let Some(fact) = facts::latest_fact(list.drop_last(), at) {
            let i = choose|i: int|
                0 <= i < list.drop_last().len() && #[trigger] list.drop_last()[i] == fact;
            assert(list[i] == fact);
        }
    }
}

/// Whether a section is the one that a unit lists at a place.
spec fn stands_at<S: UnitSource>(
    query: Query<S>,
    planned: PlannedSection,
    u: int,
    a: int,
) -> bool {
    &&& query.listed(u, a)
    &&& query.in_range(u, a)
    &&& query.listing(u, a) == planned.section
    &&& query.units[u] == planned.unit
}

/// Units of which everything can be had can be opened.
proof fn ready_opens<S: UnitSource>(query: Query<S>)
    requires
        forall|u: int| 0 <= u < query.units.len() ==> #[trigger] query.ready(u),
    ensures
        forall|u: int| 0 <= u < query.units.len() ==> #[trigger] query.openable(u),
{
    assert forall|u: int| 0 <= u < query.units.len() implies #[trigger] query.openable(u) by {
        assert(query.ready(u));
    }
}

/// Every section with a time of the range is listed, and fits.
proof fn sections_are_listed<S: UnitSource>(query: Query<S>, count: int, s: int) -> (at: (int, int))
    requires
        query.fits(),
        0 <= count <= query.units.len(),
        forall|u: int| 0 <= u < count ==> #[trigger] query.openable(u),
        0 <= s < query.sections(count).len(),
    ensures
        stands_at(query, query.sections(count)[s], at.0, at.1),
        at.0 < count,
        (query.some)(at.0, at.1),
        alike::listed(&query.source, query.units, query.key.table, at.0, at.1),
        query.settled(query.sections(count)[s]),
        query.sections(count)[s].section.min_ts <= query.sections(count)[s].section.max_ts,
        query.state.rows.len() > 0 ==> query.sections(count)[s].section.max_ts
            < query.state.rows[0].timestamp,
    decreases count,
{
    let earlier = query.sections(count - 1);
    let unit = query.units[count - 1];
    if unit.min_ts < query.end && unit.max_ts >= query.start && s >= earlier.len() {
        let here = meaning::unit_plan(&query.source, unit, query.key.table);
        let part = meaning::touching(here, query.start, query.end, here.len() as int);
        assert(query.openable(count - 1));
        touching_touch(here, query.start, query.end, here.len() as int);
        let p = s - earlier.len();
        let a = choose|a: int| 0 <= a < here.len() && (#[trigger] here[a]) == part[p];
        assert(plan::touches(part[p].section, query.start, query.end));
        assert(query.listed(count - 1, a));
        assert(query.listing(count - 1, a) == query.sections(count)[s].section);
        assert(query.in_range(count - 1, a));
        assert(alike::listed(&query.source, query.units, query.key.table, count - 1, a));
        (count - 1, a)
    } else {
        assert(query.sections(count)[s] == earlier[s]);
        sections_are_listed(query, count - 1, s)
    }
}

proof fn touching_touch(sections: Seq<PlannedSection>, start: i64, end: i64, count: int)
    requires
        0 <= count <= sections.len(),
    ensures
        forall|p: int|
            0 <= p < meaning::touching(sections, start, end, count).len() ==> plan::touches(
                (#[trigger] meaning::touching(sections, start, end, count)[p]).section,
                start,
                end,
            ),
        forall|p: int|
            0 <= p < meaning::touching(sections, start, end, count).len() ==> exists|a: int|
                0 <= a < count && (#[trigger] sections[a]) == #[trigger] meaning::touching(
                    sections,
                    start,
                    end,
                    count,
                )[p],
    decreases count,
{
    meaning::touching_facts(sections, start, end, count);
    if count > 0 {
        touching_touch(sections, start, end, count - 1);
        let earlier = meaning::touching(sections, start, end, count - 1);
        let list = meaning::touching(sections, start, end, count);
        assert forall|p: int| 0 <= p < list.len() implies plan::touches(
            (#[trigger] list[p]).section,
            start,
            end,
        ) by {
            if p < earlier.len() {
                assert(list[p] == earlier[p]);
            }
        }
    }
}

/// Nothing in front of a section that begins before the range lies in the range.
proof fn nothing_left<S: UnitSource>(query: Query<S>, k: int, d: int)
    requires
        query.fits(),
        0 <= k < query.units.len(),
        forall|u: int| 0 <= u < query.units.len() ==> #[trigger] query.ready(u),
        query.listed(k, d - 1),
        (query.some)(k, d - 1),
        query.listing(k, d - 1).min_ts <= query.start,
    ensures
        query.sections(k).len() == 0,
        query.start < query.end && query.units[k].min_ts < query.end && query.units[k].max_ts
            >= query.start ==> meaning::touching(
            meaning::unit_plan(&query.source, query.units[k], query.key.table),
            query.start,
            query.end,
            d - 1,
        ).len() == 0,
{
    let table = query.key.table;
    let here = meaning::unit_plan(&query.source, query.units[k], table);
    assert(alike::listed(&query.source, query.units, table, k, d - 1));
    ready_opens(query);
    if query.sections(k).len() > 0 {
        let (u, a) = sections_are_listed(query, k, 0);
        assert(alike::listed(&query.source, query.units, table, u, a));
    }
    let part = meaning::touching(here, query.start, query.end, d - 1);
    if query.start < query.end && query.units[k].min_ts < query.end && query.units[k].max_ts
        >= query.start && part.len() > 0 {
        touching_touch(here, query.start, query.end, d - 1);
        let a = choose|a: int| 0 <= a < d - 1 && (#[trigger] here[a]) == part[0];
        assert(plan::touches(part[0].section, query.start, query.end));
        assert(query.listed(k, a));
        assert(query.listing(k, a) == part[0].section);
        assert(query.in_range(k, a));
        assert(alike::listed(&query.source, query.units, table, k, a));
    }
}

/// What is left of the parts when so many sections of a unit are left.
spec fn left_at<S: UnitSource>(query: Query<S>, k: int, d: int) -> Seq<Fact> {
    let unit = query.units[k];
    let here = meaning::unit_plan(&query.source, unit, query.key.table);
    query.parts(query.sections(k)) + (if unit.min_ts < query.end && unit.max_ts >= query.start {
        query.parts(meaning::touching(here, query.start, query.end, d))
    } else {
        Seq::empty()
    })
}

/// The sections of a unit for both searches.
proof fn sections_side_by_side<S: UnitSource>(
    query: Query<S>,
    at: i64,
    k: int,
    initial: Option<Fact>,
    m: int,
)
    requires
        query.fits(),
        query.covers(at),
        query.covers(query.start),
        forall|u: int| 0 <= u < query.units.len() ==> #[trigger] query.ready(u),
        0 <= k < query.units.len(),
        query.source.directory(query.units[k], query.key.table) is Ok,
        query.start < query.end,
        query.start <= at < query.end,
        query.units[k].min_ts <= at,
        0 <= m <= query.source.directory(query.units[k], query.key.table)->Ok_0.len(),
        query.search(at, query.units.len() - 1 - k) is Ok,
        query.search(query.start, query.units.len() - 1 - k) is Ok,
        !query.search(at, query.units.len() - 1 - k)->Ok_0.done,
        !query.search(query.start, query.units.len() - 1 - k)->Ok_0.done,
        side_by_side(
            query.whole(),
            initial,
            at,
            left_at(
                query,
                k,
                query.source.directory(query.units[k], query.key.table)->Ok_0.len() as int,
            ),
            query.search(at, query.units.len() - 1 - k)->Ok_0,
            query.search(query.start, query.units.len() - 1 - k)->Ok_0,
        ),
        query.search(at, query.units.len() - 1 - k)->Ok_0.found[0] is None ==> ahead(
            query,
            k,
            query.source.directory(query.units[k], query.key.table)->Ok_0,
            query.source.directory(query.units[k], query.key.table)->Ok_0.len() as int,
            query.search(at, query.units.len() - 1 - k)->Ok_0.newer,
        ),
        query.units[k].min_ts <= query.start ==> (query.search_in(
            query.start,
            k,
            query.source.directory(query.units[k], query.key.table)->Ok_0.len() as int,
        ) matches Ok(last) && (last.found[0] is Some ==> initial == last.found[0])),
        query.search(query.start, query.units.len() - 1 - k)->Ok_0.found[0] is Some ==> initial
            == query.search(query.start, query.units.len() - 1 - k)->Ok_0.found[0],
    ensures
        ({
            let sections = query.source.directory(query.units[k], query.key.table)->Ok_0;
            let d = sections.len() - m;
            let other = if query.units[k].min_ts <= query.start {
                query.search_in(query.start, k, m)->Ok_0
            } else {
                query.search(query.start, query.units.len() - 1 - k)->Ok_0
            };
            &&& query.search_in(at, k, m) matches Ok(after)
            &&& side_by_side(query.whole(), initial, at, left_at(query, k, d), after, other)
            &&& after.found[0] is None ==> ahead(query, k, sections, d, after.newer)
        }),
    decreases m,
{
    let unit = query.units[k];
    let table = query.key.table;
    let sections = query.source.directory(unit, table)->Ok_0;
    let here = meaning::unit_plan(&query.source, unit, table);
    let total = sections.len() as int;
    let first = query.search(query.start, query.units.len() - 1 - k)->Ok_0;
    if m > 0 {
        sections_side_by_side(query, at, k, initial, m - 1);
        let d = total - m + 1;
        let before = query.search_in(at, k, m - 1)->Ok_0;
        let earlier = if unit.min_ts <= query.start {
            query.search_in(query.start, k, m - 1)->Ok_0
        } else {
            first
        };
        let next = if unit.min_ts <= query.start {
            query.search_in(query.start, k, m)->Ok_0
        } else {
            first
        };
        if unit.min_ts <= query.start {
            sections_stay(query, query.start, k, m, total);
            sections_stay(query, query.start, k, m - 1, total);
        }
        let section = sections[d - 1];
        assert(sections[total - m] == section);
        assert(here[d - 1] == PlannedSection { unit, section });
        assert(query.listed(k, d - 1));
        assert(query.listing(k, d - 1) == section);
        if !before.done {
            arrival_fits(query, at, k, d - 1);
            if section.min_ts <= query.start {
                nothing_left(query, k, d);
            }
        }
        if !earlier.done && unit.min_ts <= query.start {
            arrival_fits(query, query.start, k, d - 1);
        }
        let left = left_at(query, k, d);
        let rest = left_at(query, k, d - 1);
        let touched = unit.max_ts >= query.start && plan::touches(
            section,
            query.start,
            query.end,
        );
        let base = query.parts(query.sections(k));
        let prior = meaning::touching(here, query.start, query.end, d - 1);
        let part = query.part(here[d - 1]);
        assert(query.ready(k));
        if touched {
            let now = meaning::touching(here, query.start, query.end, d);
            assert(now == prior.push(here[d - 1]));
            assert(now.drop_last() =~= prior);
            assert(query.parts(now) == query.parts(prior) + part);
            assert(base + (query.parts(prior) + part) =~= (base + query.parts(prior)) + part);
        } else {
            assert(left =~= rest + Seq::<Fact>::empty());
        }
        assert(!before.done && section.min_ts <= query.start ==> rest.len() == 0);
        section_side_by_side(
            query,
            at,
            k,
            sections,
            d,
            initial,
            left,
            rest,
            before,
            earlier,
            next,
        );
    }
}

/// The values of the tail lie at or behind its first row.
proof fn tail_fits<S: UnitSource>(query: Query<S>)
    requires
        query.fits(),
    ensures
        facts::facts_ordered(query.tail()),
        forall|i: int|
            0 <= i < query.tail().len() ==> query.state.rows.len() > 0
                && query.state.rows[0].timestamp <= (#[trigger] query.tail()[i]).timestamp,
{
    let stream = facts::spec_stream(query.key);
    let rows = query.state.rows;
    facts::tail_facts_ordered(rows, stream);
    tail::row_indices_facts(rows, stream);
    assert forall|i: int| 0 <= i < query.tail().len() implies rows.len() > 0
        && rows[0].timestamp <= (#[trigger] query.tail()[i]).timestamp by {
        let row = tail::row_indices(rows, stream)[i];
        assert(0 <= row < rows.len());
        if row > 0 {
            assert(rows[0].timestamp < rows[row].timestamp);
        }
    }
}

/// Both searches as they begin.
proof fn beginnings_side_by_side<S: UnitSource>(query: Query<S>, at: i64)
    requires
        query.fits(),
        query.covers(query.start),
        forall|u: int| 0 <= u < query.units.len() ==> #[trigger] query.ready(u),
        query.start <= at < query.end,
        query.search(query.start, query.units.len() as int) is Ok,
    ensures
        side_by_side(
            query.whole(),
            query.search(query.start, query.units.len() as int)->Ok_0.found[0],
            at,
            query.parts(query.sections(query.units.len() as int)),
            query.search(at, 0)->Ok_0,
            query.search(query.start, 0)->Ok_0,
        ),
{
    let n = query.units.len() as int;
    let own = seq![query.key];
    assert(own.len() == 1 && own[0] == query.key);
    let inside = query.search(at, 0)->Ok_0;
    let first = query.search(query.start, 0)->Ok_0;
    reveal_with_fuel(batch::unknown, 2);
    assert(inside.found[0] == facts::latest_fact(query.tail(), at));
    assert(first.found[0] == facts::latest_fact(query.tail(), query.start));
    single_units(query, query.start, 0, n);
    tail_fits(query);
    latest_in_range(query.tail(), query.start, query.end, at);
    let sealed = query.parts(query.sections(n));
    let within = facts::facts_within(query.tail(), query.start, query.end);
    meaning::latest_join(sealed, within, at);
    if let Some(fact) = facts::latest_fact(query.tail(), at) {
        if fact.timestamp < query.start {
            latest_is_one(query.tail(), at);
            let list = query.sections(n);
            if list.len() > 0 {
                ready_opens(query);
                sections_are_listed(query, n, 0);
            }
            assert(sealed =~= Seq::<Fact>::empty());
        }
    }
}

/// The parts of sections that all lie behind a time have no value at or before it.
proof fn parts_behind<S: UnitSource>(
    query: Query<S>,
    sections: Seq<PlannedSection>,
    at: i64,
)
    requires
        forall|i: int|
            0 <= i < sections.len() ==> query.readable(#[trigger] sections[i]) && query.settled(
                sections[i],
            ) && sections[i].section.min_ts > at,
    ensures
        facts::latest_fact(query.parts(sections), at) is None,
    decreases sections.len(),
{
    if sections.len() > 0 {
        let front = sections.drop_last();
        let last = sections.last();
        assert(sections[sections.len() - 1] == last);
        assert forall|i: int| 0 <= i < front.len() implies query.readable(#[trigger] front[i])
            && query.settled(front[i]) && front[i].section.min_ts > at by {
            assert(sections[i] == front[i]);
        }
        parts_behind(query, front, at);
        values_fit(query, last);
        let values = query.values(last);
        let part = query.part(last);
        meaning::within_in_order(values, query.start, query.end);
        assert forall|i: int| 0 <= i < part.len() implies at < (#[trigger] part[i]).timestamp by {
            let v = choose|v: int| 0 <= v < values.len() && values[v] == part[i];
            assert(last.section.min_ts <= values[v].timestamp);
        }
        meaning::nothing_latest(part, at);
        meaning::latest_join(query.parts(front), part, at);
    }
}

/// Both searches over all units.
proof fn units_side_by_side<S: UnitSource>(query: Query<S>, at: i64, count: int)
    requires
        query.fits(),
        query.covers(at),
        query.covers(query.start),
        forall|u: int| 0 <= u < query.units.len() ==> #[trigger] query.ready(u),
        query.start <= at < query.end,
        query.search(query.start, query.units.len() as int) is Ok,
        0 <= count <= query.units.len(),
    ensures
        ({
            let n = query.units.len() as int;
            let k = n - count;
            &&& query.search(at, count) matches Ok(inside)
            &&& side_by_side(
                query.whole(),
                query.search(query.start, n)->Ok_0.found[0],
                at,
                query.parts(query.sections(k)),
                inside,
                query.search(query.start, count)->Ok_0,
            )
            &&& inside.found[0] is None ==> ahead(query, k, Seq::empty(), 0, inside.newer)
        }),
    decreases count,
{
    let n = query.units.len() as int;
    let table = query.key.table;
    let initial = query.search(query.start, n)->Ok_0.found[0];
    assert(seq![query.key][0] == query.key);
    if count == 0 {
        beginnings_side_by_side(query, at);
    } else {
        units_side_by_side(query, at, count - 1);
        let k = n - count;
        let unit = query.units[k];
        let inside = query.search(at, count - 1)->Ok_0;
        let first = query.search(query.start, count - 1)->Ok_0;
        single_units(query, query.start, count - 1, n);
        single_units(query, query.start, count, n);
        let here = meaning::unit_plan(&query.source, unit, table);
        let base = query.sections(k);
        let touched = unit.min_ts < query.end && unit.max_ts >= query.start;
        let added = meaning::touching(here, query.start, query.end, here.len() as int);
        assert(query.ready(k));
        if touched {
            assert(query.sections(k + 1) == base + added);
            parts_join(query, base, added);
        } else {
            assert(query.sections(k + 1) == base);
        }
        if inside.done {
        } else if unit.min_ts > at {
            if touched && inside.found[0] is None {
                touching_touch(here, query.start, query.end, here.len() as int);
                assert forall|i: int| 0 <= i < added.len() implies query.readable(
                    #[trigger] added[i],
                ) && query.settled(added[i]) && added[i].section.min_ts > at by {
                    let a = choose|a: int| 0 <= a < here.len() && (#[trigger] here[a]) == added[i];
                    let section = query.source.directory(unit, table)->Ok_0[a];
                    assert(here[a] == PlannedSection { unit, section });
                    assert(query.listed(k, a));
                    assert(query.in_range(k, a));
                    assert(alike::listed(&query.source, query.units, table, k, a));
                }
                parts_behind(query, added, at);
                meaning::latest_join(query.parts(base), query.parts(added), at);
            }
        } else {
            assert(!first.done);
            let sections = query.source.directory(unit, table)->Ok_0;
            let total = sections.len() as int;
            assert(query.source.directory(unit, table) is Ok);
            assert(here.len() == total);
            let left = left_at(query, k, total);
            assert(left =~= query.parts(query.sections(k + 1)));
            if inside.found[0] is None {
                assert forall|a: int|
                    0 <= a < total && (query.some)(k, a) && inside.newer is Some implies (
                #[trigger] sections[a]).max_ts < inside.newer->Some_0.min_ts by {
                    assert(query.listed(k, a));
                    assert(query.listing(k, a) == sections[a]);
                }
            }
            sections_side_by_side(query, at, k, initial, total);
            let rest = left_at(query, k, 0);
            assert(meaning::touching(here, query.start, query.end, 0).len() == 0);
            assert(rest =~= query.parts(base));
        }
    }
}

/// The search at a time inside the range finds what is in force there: the last value of the range
/// so far, or else what the search at the start of the range finds.
proof fn search_inside<S: UnitSource>(query: Query<S>, at: i64)
    requires
        query.fits(),
        query.covers(at),
        query.covers(query.start),
        forall|u: int| 0 <= u < query.units.len() ==> #[trigger] query.ready(u),
        query.start <= at < query.end,
        query.search(query.start, query.units.len() as int) is Ok,
    ensures
        ({
            let n = query.units.len() as int;
            &&& query.search(at, n) matches Ok(inside)
            &&& inside.found.len() == 1
            &&& inside.found[0] == in_force(
                query.search(query.start, n)->Ok_0.found[0],
                query.whole(),
                at,
            )
        }),
{
    let n = query.units.len() as int;
    units_side_by_side(query, at, n);
    assert(query.sections(0).len() == 0);
    assert(facts::latest_fact(query.parts(query.sections(0)), at) is None);
}

proof fn touching_has(sections: Seq<PlannedSection>, start: i64, end: i64, count: int, a: int)
    requires
        0 <= a < count <= sections.len(),
        plan::touches(sections[a].section, start, end),
    ensures
        meaning::touching(sections, start, end, count).contains(sections[a]),
    decreases count,
{
    let list = meaning::touching(sections, start, end, count);
    if a < count - 1 {
        touching_has(sections, start, end, count - 1, a);
        let earlier = meaning::touching(sections, start, end, count - 1);
        let p = choose|p: int| 0 <= p < earlier.len() && earlier[p] == sections[a];
        assert(list[p] == sections[a]);
    } else {
        assert(list[list.len() - 1] == sections[a]);
    }
}

/// A section of a unit with a time of the range is one of the sections of the range.
proof fn sections_have<S: UnitSource>(query: Query<S>, count: int, u: int, a: int)
    requires
        query.start < query.end,
        0 <= u < count <= query.units.len(),
        query.units[u].min_ts < query.end,
        query.units[u].max_ts >= query.start,
        0 <= a < meaning::unit_plan(&query.source, query.units[u], query.key.table).len(),
        plan::touches(
            meaning::unit_plan(&query.source, query.units[u], query.key.table)[a].section,
            query.start,
            query.end,
        ),
    ensures
        query.sections(count).contains(
            meaning::unit_plan(&query.source, query.units[u], query.key.table)[a],
        ),
    decreases count,
{
    let here = meaning::unit_plan(&query.source, query.units[u], query.key.table);
    let list = query.sections(count);
    let earlier = query.sections(count - 1);
    if u < count - 1 {
        sections_have(query, count - 1, u, a);
        let p = choose|p: int| 0 <= p < earlier.len() && earlier[p] == here[a];
        assert(list[p] == here[a]);
    } else {
        touching_has(here, query.start, query.end, here.len() as int, a);
        let part = meaning::touching(here, query.start, query.end, here.len() as int);
        let p = choose|p: int| 0 <= p < part.len() && part[p] == here[a];
        assert(list[earlier.len() + p] == here[a]);
    }
}

/// A plan that is made has looked at every section of every unit with a time of the range.
proof fn plan_checks<S: UnitSource>(query: Query<S>, count: int, u: int)
    requires
        0 <= u < count <= query.units.len(),
        plan::planned_units(
            &query.source,
            query.units,
            query.key.table,
            query.start,
            query.end,
            count,
        ) is Ok,
        query.units[u].min_ts < query.end,
        query.units[u].max_ts >= query.start,
    ensures
        query.source.directory(query.units[u], query.key.table) matches Ok(list) && forall|a: int|
            0 <= a < list.len() ==> plan::loaded_refusal(
                query.units[u],
                query.key.table,
                #[trigger] list[a],
            ) is None,
    decreases count,
{
    if u < count - 1 {
        plan_checks(query, count - 1, u);
    } else {
        let earlier = plan::planned_units(
            &query.source,
            query.units,
            query.key.table,
            query.start,
            query.end,
            count - 1,
        )->Ok_0;
        let list = query.source.directory(query.units[u], query.key.table)->Ok_0;
        unit_checks(query, earlier, query.units[u], list, list.len() as int);
    }
}

proof fn unit_checks<S: UnitSource>(
    query: Query<S>,
    earlier: Seq<PlannedSection>,
    unit: UnitMeta,
    list: Seq<TableDirectoryEntry>,
    count: int,
)
    requires
        0 <= count <= list.len(),
        plan::planned_sections(
            earlier,
            unit,
            query.key.table,
            query.start,
            query.end,
            list,
            count,
        ) is Ok,
    ensures
        forall|a: int|
            0 <= a < count ==> plan::loaded_refusal(
                unit,
                query.key.table,
                #[trigger] list[a],
            ) is None,
    decreases count,
{
    if count > 0 {
        unit_checks(query, earlier, unit, list, count - 1);
    }
}

/// A range that was planned and whose sections can be read is ready.
proof fn all_ready<S: UnitSource>(query: Query<S>)
    requires
        query.start < query.end,
        plan::planned(
            &query.source,
            query.units,
            query.key.table,
            query.start,
            query.end,
        ) is Ok,
        forall|i: int|
            0 <= i < query.sections(query.units.len() as int).len() ==> query.readable(
                #[trigger] query.sections(query.units.len() as int)[i],
            ),
    ensures
        forall|u: int| 0 <= u < query.units.len() ==> #[trigger] query.ready(u),
{
    let n = query.units.len() as int;
    assert forall|u: int| 0 <= u < query.units.len() implies #[trigger] query.ready(u) by {
        let unit = query.units[u];
        if unit.min_ts < query.end && unit.max_ts >= query.start {
            plan_checks(query, n, u);
            let list = query.source.directory(unit, query.key.table)->Ok_0;
            let here = meaning::unit_plan(&query.source, unit, query.key.table);
            assert forall|a: int| 0 <= a < list.len() implies {
                let section = #[trigger] list[a];
                plan::touches(section, query.start, query.end) ==> query.readable(
                    PlannedSection { unit, section },
                )
            } by {
                assert(here[a] == PlannedSection { unit, section: list[a] });
                if plan::touches(list[a], query.start, query.end) {
                    sections_have(query, n, u, a);
                    let p = choose|p: int|
                        0 <= p < query.sections(n).len() && query.sections(n)[p] == here[a];
                    assert(query.readable(query.sections(n)[p]));
                }
            }
        }
    }
}

/// The sections of a range follow each other in time.
proof fn sections_sorted<S: UnitSource>(query: Query<S>, count: int)
    requires
        query.fits(),
        0 <= count <= query.units.len(),
        forall|u: int| 0 <= u < query.units.len() ==> #[trigger] query.ready(u),
    ensures
        sorted(query.sections(count)),
    decreases count,
{
    if count > 0 {
        sections_sorted(query, count - 1);
        let table = query.key.table;
        let unit = query.units[count - 1];
        let earlier = query.sections(count - 1);
        let list = query.sections(count);
        if query.start < query.end && unit.min_ts < query.end && unit.max_ts >= query.start {
            let here = meaning::unit_plan(&query.source, unit, table);
            let part = meaning::touching(here, query.start, query.end, here.len() as int);
            assert(query.ready(count - 1));
            ready_opens(query);
            touching_sorted(query, count - 1, here.len() as int);
            touching_touch(here, query.start, query.end, here.len() as int);
            assert forall|i: int, j: int| 0 <= i < j < list.len() implies (
            #[trigger] list[i]).section.max_ts < (#[trigger] list[j]).section.min_ts by {
                if j < earlier.len() {
                    assert(earlier[i].section.max_ts < earlier[j].section.min_ts);
                } else if i >= earlier.len() {
                    assert(part[i - earlier.len()].section.max_ts < part[j
                        - earlier.len()].section.min_ts);
                } else {
                    assert(list[i] == earlier[i]);
                    let (u, a) = sections_are_listed(query, count - 1, i);
                    let p = j - earlier.len();
                    let b = choose|b: int| 0 <= b < here.len() && (#[trigger] here[b]) == part[p];
                    assert(plan::touches(part[p].section, query.start, query.end));
                    assert(query.listed(count - 1, b));
                    assert(query.listing(count - 1, b) == list[j].section);
                    assert(query.in_range(count - 1, b));
                    assert(alike::listed(&query.source, query.units, table, count - 1, b));
                    assert(alike::listed(&query.source, query.units, table, u, a));
                }
            }
        }
    }
}

/// Whether sections follow each other in time.
spec fn sorted(sections: Seq<PlannedSection>) -> bool {
    forall|i: int, j: int|
        0 <= i < j < sections.len() ==> (#[trigger] sections[i]).section.max_ts < (
        #[trigger] sections[j]).section.min_ts
}

proof fn touching_sorted<S: UnitSource>(query: Query<S>, k: int, count: int)
    requires
        query.fits(),
        0 <= k < query.units.len(),
        query.start < query.end,
        query.units[k].min_ts < query.end,
        query.units[k].max_ts >= query.start,
        query.source.directory(query.units[k], query.key.table) is Ok,
        0 <= count <= query.source.directory(query.units[k], query.key.table)->Ok_0.len(),
    ensures
        sorted(
            meaning::touching(
                meaning::unit_plan(&query.source, query.units[k], query.key.table),
                query.start,
                query.end,
                count,
            ),
        ),
    decreases count,
{
    if count > 0 {
        let table = query.key.table;
        let here = meaning::unit_plan(&query.source, query.units[k], table);
        touching_sorted(query, k, count - 1);
        touching_touch(here, query.start, query.end, count - 1);
        let earlier = meaning::touching(here, query.start, query.end, count - 1);
        let list = meaning::touching(here, query.start, query.end, count);
        assert forall|i: int, j: int| 0 <= i < j < list.len() implies (
        #[trigger] list[i]).section.max_ts < (#[trigger] list[j]).section.min_ts by {
            if j < earlier.len() {
                assert(earlier[i].section.max_ts < earlier[j].section.min_ts);
            } else {
                assert(list[i] == earlier[i]);
                let a = choose|a: int|
                    0 <= a < count - 1 && (#[trigger] here[a]) == earlier[i];
                assert(plan::touches(earlier[i].section, query.start, query.end));
                assert(query.listed(k, a));
                assert(query.listed(k, count - 1));
                assert(query.listing(k, a) == list[i].section);
                assert(query.listing(k, count - 1) == list[j].section);
                assert(query.in_range(k, a));
                assert(query.in_range(k, count - 1));
                assert(alike::listed(&query.source, query.units, table, k, a));
                assert(alike::listed(&query.source, query.units, table, k, count - 1));
            }
        }
    }
}

/// The parts of sections that follow each other stand in time order.
proof fn parts_ordered<S: UnitSource>(query: Query<S>, sections: Seq<PlannedSection>)
    requires
        sorted(sections),
        forall|i: int|
            0 <= i < sections.len() ==> query.readable(#[trigger] sections[i]) && query.settled(
                sections[i],
            ) && sections[i].section.min_ts <= sections[i].section.max_ts,
    ensures
        facts::facts_ordered(query.parts(sections)),
        forall|i: int|
            0 <= i < query.parts(sections).len() ==> sections.len() > 0 && (
            #[trigger] query.parts(sections)[i]).timestamp <= sections.last().section.max_ts,
    decreases sections.len(),
{
    if sections.len() > 0 {
        let front = sections.drop_last();
        let last = sections.last();
        assert(sections[sections.len() - 1] == last);
        assert forall|i: int| 0 <= i < front.len() implies query.readable(#[trigger] front[i])
            && query.settled(front[i]) && front[i].section.min_ts <= front[i].section.max_ts by {
            assert(sections[i] == front[i]);
        }
        assert forall|i: int, j: int| 0 <= i < j < front.len() implies (
        #[trigger] front[i]).section.max_ts < (#[trigger] front[j]).section.min_ts by {
            assert(sections[i].section.max_ts < sections[j].section.min_ts);
        }
        parts_ordered(query, front);
        values_fit(query, last);
        let values = query.values(last);
        let part = query.part(last);
        meaning::within_in_order(values, query.start, query.end);
        let before = query.parts(front);
        let all = query.parts(sections);
        assert forall|p: int| 0 <= p < part.len() implies last.section.min_ts <= (
        #[trigger] part[p]).timestamp <= last.section.max_ts by {
            let v = choose|v: int| 0 <= v < values.len() && values[v] == part[p];
            assert(last.section.min_ts <= values[v].timestamp <= last.section.max_ts);
        }
        assert forall|i: int| 0 <= i < before.len() implies (#[trigger] before[i]).timestamp
            < last.section.min_ts by {
            assert(front.last() == sections[sections.len() - 2]);
        }
        assert forall|i: int, j: int| 0 <= i < j < all.len() implies (
        #[trigger] all[i]).timestamp < (#[trigger] all[j]).timestamp by {
            if j < before.len() {
                assert(before[i].timestamp < before[j].timestamp);
            } else if i >= before.len() {
                assert(part[i - before.len()].timestamp < part[j - before.len()].timestamp);
            } else {
                assert(all[i] == before[i]);
                assert(all[j] == part[j - before.len()]);
            }
        }
        assert forall|i: int| 0 <= i < all.len() implies (#[trigger] all[i]).timestamp
            <= last.section.max_ts by {
            if i < before.len() {
                assert(all[i] == before[i]);
            } else {
                assert(all[i] == part[i - before.len()]);
            }
        }
    }
}

/// The values of a range stand in time order.
proof fn whole_ordered<S: UnitSource>(query: Query<S>)
    requires
        query.fits(),
        forall|u: int| 0 <= u < query.units.len() ==> #[trigger] query.ready(u),
        forall|i: int|
            0 <= i < query.sections(query.units.len() as int).len() ==> query.readable(
                #[trigger] query.sections(query.units.len() as int)[i],
            ),
    ensures
        facts::facts_ordered(query.whole()),
{
    let n = query.units.len() as int;
    let list = query.sections(n);
    ready_opens(query);
    sections_sorted(query, n);
    assert forall|i: int| 0 <= i < list.len() implies query.readable(#[trigger] list[i])
        && query.settled(list[i]) && list[i].section.min_ts <= list[i].section.max_ts && (query.state.rows.len() > 0
        ==> list[i].section.max_ts < query.state.rows[0].timestamp) by {
        sections_are_listed(query, n, i);
    }
    parts_ordered(query, list);
    tail_fits(query);
    meaning::within_in_order(query.tail(), query.start, query.end);
    let sealed = query.parts(list);
    let rest = facts::facts_within(query.tail(), query.start, query.end);
    let all = query.whole();
    assert forall|i: int, j: int| 0 <= i < j < all.len() implies (#[trigger] all[i]).timestamp < (
    #[trigger] all[j]).timestamp by {
        if j < sealed.len() {
            assert(sealed[i].timestamp < sealed[j].timestamp);
        } else if i >= sealed.len() {
            assert(rest[i - sealed.len()].timestamp < rest[j - sealed.len()].timestamp);
        } else {
            assert(all[i] == sealed[i]);
            assert(all[j] == rest[j - sealed.len()]);
            let fact = rest[j - sealed.len()];
            assert(query.tail().contains(fact));
            let v = choose|v: int| 0 <= v < query.tail().len() && query.tail()[v] == fact;
            assert(query.state.rows[0].timestamp <= query.tail()[v].timestamp);
            assert(list[list.len() - 1] == list.last());
        }
    }
}

/// One of several streams, asked after alone.
spec fn query_of<S: UnitSource>(
    source: &S,
    units: Seq<UnitMeta>,
    schemas: TailView,
    key: StreamKey,
    start: i64,
    end: i64,
    some: spec_fn(int, int) -> bool,
) -> Query<S> {
    Query { source: *source, units, state: schemas.tables[key.table], key, start, end, some }
}

/// A walk over planned sections that does not fail gives each key its parts of them.
proof fn visits_are_parts<S: UnitSource>(
    query: Query<S>,
    keys: Seq<StreamKey>,
    i: int,
    planned: Seq<PlannedSection>,
    count: int,
)
    requires
        forall|k: int| 0 <= k < planned.len() ==> query.settled(#[trigger] planned[k]),
        batch::keys_ordered(keys),
        batch::keys_of(keys, keys[0].table),
        0 <= i < keys.len(),
        query.key == keys[i],
        0 <= count <= planned.len(),
        batch::planned_visits(
            &query.source,
            query.state,
            keys,
            query.start,
            query.end,
            planned,
            count,
        ).failure is None,
    ensures
        ({
            let visits = batch::planned_visits(
                &query.source,
                query.state,
                keys,
                query.start,
                query.end,
                planned,
                count,
            );
            &&& resample::indexed(visits.list, keys.len() as int)
            &&& resample::of_index(visits.list, i) == query.parts(planned.take(count))
        }),
        forall|k: int| 0 <= k < count ==> query.readable(#[trigger] planned[k]),
    decreases count,
{
    if count > 0 {
        let here = planned[count - 1];
        let before = batch::planned_visits(
            &query.source,
            query.state,
            keys,
            query.start,
            query.end,
            planned,
            count - 1,
        );
        let visits = batch::section_visits(
            &query.source,
            query.state,
            keys,
            query.start,
            query.end,
            here,
        );
        visits_are_parts(query, keys, i, planned, count - 1);
        let stream = facts::spec_stream(keys[i]);
        let streams = batch::streams_of_keys(keys);
        let version = facts::version_numbered(
            query.state.versions,
            here.section.version_no,
        )->Some_0;
        let rows = query.source.streams_of(here.unit, here.section, version, streams)->Ok_0;
        assert(alike::given_alike(&query.source, here.unit, here.section, version, streams));
        assert(streams[i] == stream);
        assert(streams.contains(stream));
        resample::columns_visit(
            keys,
            query.start,
            query.end,
            rows,
            rows.columns.len() as int,
        );
        assert(recall::first_columns(rows, rows.columns.len() as int).columns =~= rows.columns);
        assert(recall::first_columns(rows, rows.columns.len() as int) == rows);
        assert(keys[i] == keys[i]);
        assert(resample::of_index(visits.list, i) == query.part(here));
        resample::of_index_join(before.list, visits.list, i);
        assert(planned.take(count).drop_last() =~= planned.take(count - 1));
        assert(planned.take(count).last() == here);
    } else {
        assert(planned.take(0).len() == 0);
    }
}

/// A grid that was filled up to a time: what every new slot shows, and where filling stopped.
proof fn filled_shows(
    schemas: TailView,
    key: StreamKey,
    start: i64,
    step: u32,
    slot_count: int,
    state: StateView,
    until: Option<i64>,
)
    requires
        sample::filled(schemas, key, start, step, slot_count, state, until) is Ok,
        state.slots.len() <= slot_count,
    ensures
        ({
            let after = sample::filled(
                schemas,
                key,
                start,
                step,
                slot_count,
                state,
                until,
            )->Ok_0;
            &&& after.current == state.current
            &&& state.slots.len() <= after.slots.len() <= slot_count
            &&& forall|j: int|
                0 <= j < state.slots.len() ==> #[trigger] after.slots[j] == state.slots[j]
            &&& forall|j: int|
                state.slots.len() <= j < after.slots.len() ==> shows(
                    schemas,
                    key,
                    start,
                    step,
                    j,
                    state.current,
                    #[trigger] after.slots[j],
                ) && (until matches Some(next) ==> start + j * step < next)
            &&& after.slots.len() < slot_count ==> until is Some && start + after.slots.len() * step
                >= until->Some_0
        }),
    decreases slot_count - state.slots.len(),
{
    if state.slots.len() < slot_count {
        let at = state.slots.len() as int;
        let time = sample::grid_time(start, step, at)->Ok_0;
        if until matches Some(next) && time >= next {
        } else {
            let slot = primitives::slot_of(schemas, key, state.current, time)->Ok_0;
            let more = StateView { slots: state.slots.push(slot), ..state };
            filled_shows(schemas, key, start, step, slot_count, more, until);
            let after = sample::filled(
                schemas,
                key,
                start,
                step,
                slot_count,
                state,
                until,
            )->Ok_0;
            assert(sample::filled(schemas, key, start, step, slot_count, more, until) == Ok::<
                StateView,
                Error,
            >(after));
            assert(after.slots[at] == more.slots[at] && more.slots[at] == slot);
            assert(shows(schemas, key, start, step, at, state.current, after.slots[at]));
            assert forall|j: int| state.slots.len() <= j < after.slots.len() implies shows(
                schemas,
                key,
                start,
                step,
                j,
                state.current,
                #[trigger] after.slots[j],
            ) && (until matches Some(next) ==> start + j * step < next) by {
                if j == at {
                    assert(start + j * step == time);
                    if let Some(next) = until {
                        assert(time < next);
                    }
                } else {
                    assert(more.slots.len() <= j);
                }
            }
            assert forall|j: int| 0 <= j < state.slots.len() implies #[trigger] after.slots[j]
                == state.slots[j] by {
                assert(more.slots[j] == state.slots[j]);
            }
        }
    }
}

/// Whether a slot shows a value at its time of the grid.
spec fn shows(
    schemas: TailView,
    key: StreamKey,
    start: i64,
    step: u32,
    j: int,
    fact: Option<Fact>,
    slot: Slot,
) -> bool {
    &&& sample::grid_time(start, step, j) matches Ok(time)
    &&& primitives::slot_of(schemas, key, fact, time) == Ok::<Slot, Error>(slot)
}

/// Whether a slot that was filled before the last value shows what is in force at its time.
spec fn slot_fits(
    schemas: TailView,
    key: StreamKey,
    start: i64,
    step: u32,
    initial: Option<Fact>,
    seen: Seq<Fact>,
    j: int,
    slot: Slot,
) -> bool {
    &&& shows(
        schemas,
        key,
        start,
        step,
        j,
        in_force(initial, seen, (start + j * step) as i64),
        slot,
    )
    &&& seen.len() > 0
    &&& start + j * step < seen.last().timestamp
}

/// A stream that is being sampled: every slot so far shows what is in force at its time, and the
/// slots end where the values so far end.
spec fn in_step(
    schemas: TailView,
    key: StreamKey,
    start: i64,
    step: u32,
    slot_count: int,
    initial: Option<Fact>,
    seen: Seq<Fact>,
    state: StateView,
) -> bool {
    &&& state.slots.len() <= slot_count
    &&& state.current == (if seen.len() == 0 {
        initial
    } else {
        Some(seen.last())
    })
    &&& forall|j: int|
        0 <= j < state.slots.len() ==> slot_fits(
            schemas,
            key,
            start,
            step,
            initial,
            seen,
            j,
            #[trigger] state.slots[j],
        )
    &&& seen.len() > 0 && state.slots.len() < slot_count ==> start + state.slots.len() * step
        >= seen.last().timestamp
}

/// Whether the slots of a stream show what is in force at every time of the grid.
spec fn slots_shown(
    schemas: TailView,
    key: StreamKey,
    start: i64,
    step: u32,
    slot_count: int,
    initial: Option<Fact>,
    seen: Seq<Fact>,
    slots: Seq<Slot>,
) -> bool {
    &&& slots.len() == slot_count
    &&& forall|j: int|
        0 <= j < slot_count ==> shows(
            schemas,
            key,
            start,
            step,
            j,
            in_force(initial, seen, (start + j * step) as i64),
            #[trigger] slots[j],
        )
}

/// Filling a grid keeps it in step, up to the next value or to the end.
proof fn fill_keeps_step(
    schemas: TailView,
    key: StreamKey,
    start: i64,
    step: u32,
    slot_count: int,
    initial: Option<Fact>,
    seen: Seq<Fact>,
    state: StateView,
    next: Option<Fact>,
)
    requires
        step > 0,
        facts::facts_ordered(seen),
        in_step(schemas, key, start, step, slot_count, initial, seen, state),
        next matches Some(fact) ==> (seen.len() > 0 ==> seen.last().timestamp < fact.timestamp),
        sample::filled(
            schemas,
            key,
            start,
            step,
            slot_count,
            state,
            match next {
                Some(fact) => Some(fact.timestamp),
                None => None,
            },
        ) is Ok,
    ensures
        ({
            let after = sample::filled(
                schemas,
                key,
                start,
                step,
                slot_count,
                state,
                match next {
                    Some(fact) => Some(fact.timestamp),
                    None => None,
                },
            )->Ok_0;
            match next {
                Some(fact) => in_step(
                    schemas,
                    key,
                    start,
                    step,
                    slot_count,
                    initial,
                    seen.push(fact),
                    StateView { current: Some(fact), ..after },
                ),
                None => slots_shown(
                    schemas,
                    key,
                    start,
                    step,
                    slot_count,
                    initial,
                    seen,
                    after.slots,
                ),
            }
        }),
{
    let until = match next {
        Some(fact) => Some(fact.timestamp),
        None => None,
    };
    let after = sample::filled(schemas, key, start, step, slot_count, state, until)->Ok_0;
    filled_shows(schemas, key, start, step, slot_count, state, until);
    let old_len = state.slots.len() as int;
    assert forall|j: int| 0 <= j < after.slots.len() implies shows(
        schemas,
        key,
        start,
        step,
        j,
        in_force(initial, seen, (start + j * step) as i64),
        #[trigger] after.slots[j],
    ) && (next matches Some(fact) ==> start + j * step < fact.timestamp) by {
        if j < old_len {
            assert(after.slots[j] == state.slots[j]);
            assert(slot_fits(
                schemas,
                key,
                start,
                step,
                initial,
                seen,
                j,
                state.slots[j],
            ));
        } else {
            assert(shows(schemas, key, start, step, j, state.current, after.slots[j]));
            let time = sample::grid_time(start, step, j)->Ok_0;
            assert(time == start + j * step);
            assert(old_len * step <= j * step) by (nonlinear_arith)
                requires
                    old_len <= j,
                    step > 0,
            ;
            if seen.len() > 0 {
                assert(seen.last().timestamp <= time);
            }
            assert(in_force(initial, seen, time) == state.current);
        }
    }
    if next is None {
        assert(slots_shown(
            schemas,
            key,
            start,
            step,
            slot_count,
            initial,
            seen,
            after.slots,
        ));
    } else {
        let fact = next->Some_0;
        let more = seen.push(fact);
        assert(more.drop_last() =~= seen);
        let state_after = StateView { current: Some(fact), ..after };
        assert forall|j: int| 0 <= j < state_after.slots.len() implies slot_fits(
            schemas,
            key,
            start,
            step,
            initial,
            more,
            j,
            #[trigger] state_after.slots[j],
        ) by {
            assert(shows(
                schemas,
                key,
                start,
                step,
                j,
                in_force(initial, seen, (start + j * step) as i64),
                after.slots[j],
            ));
            assert((start + j * step) as i64 == start + j * step);
        }
        assert(more.last() == fact);
        assert(in_step(
            schemas,
            key,
            start,
            step,
            slot_count,
            initial,
            more,
            state_after,
        ));
    }
}

/// Every stream of a sampling is in step after so many values.
proof fn run_in_step(run: RunView, list: Seq<(int, Fact)>, count: int)
    requires
        0 <= count <= list.len(),
        run.step > 0,
        run.slot_count >= 0,
        run.states.len() == run.keys.len(),
        forall|i: int| 0 <= i < run.states.len() ==> (#[trigger] run.states[i]).slots.len() == 0,
        resample::indexed(list, run.keys.len() as int),
        forall|i: int|
            0 <= i < run.keys.len() ==> facts::facts_ordered(
                #[trigger] resample::of_index(list, i),
            ),
        batch::folded::<SampleRun>(run, list, count) is Ok,
    ensures
        ({
            let after = batch::folded::<SampleRun>(run, list, count)->Ok_0;
            &&& after == (RunView { states: after.states, ..run })
            &&& after.states.len() == run.keys.len()
            &&& forall|i: int|
                0 <= i < run.keys.len() ==> in_step(
                    run.schemas,
                    run.keys[i],
                    run.start,
                    run.step,
                    run.slot_count,
                    run.states[i].current,
                    resample::of_index(list.take(count), i),
                    #[trigger] after.states[i],
                )
        }),
    decreases count,
{
    if count > 0 {
        run_in_step(run, list, count - 1);
        let before = batch::folded::<SampleRun>(run, list, count - 1)->Ok_0;
        let after = batch::folded::<SampleRun>(run, list, count)->Ok_0;
        let (index, fact) = list[count - 1];
        assert(0 <= index < run.keys.len());
        assert(list.take(count).drop_last() =~= list.take(count - 1));
        assert(list.take(count).last() == list[count - 1]);
        let seen = resample::of_index(list.take(count - 1), index);
        let all = resample::of_index(list, index);
        resample::of_index_prefix(list, index, count);
        resample::of_index_prefix(list, index, count - 1);
        let now = resample::of_index(list.take(count), index);
        assert(now == seen.push(fact));
        assert(now[seen.len() as int] == fact);
        assert(facts::facts_ordered(all));
        assert forall|i: int, j: int| 0 <= i < j < seen.len() implies (
        #[trigger] seen[i]).timestamp < (#[trigger] seen[j]).timestamp by {
            assert(all[i].timestamp < all[j].timestamp);
        }
        if seen.len() > 0 {
            assert(seen.last() == all[seen.len() - 1]);
            assert(all[seen.len() as int] == fact);
        }
        assert(in_step(
            run.schemas,
            run.keys[index],
            run.start,
            run.step,
            run.slot_count,
            run.states[index].current,
            seen,
            before.states[index],
        ));
        fill_keeps_step(
            run.schemas,
            run.keys[index],
            run.start,
            run.step,
            run.slot_count,
            run.states[index].current,
            seen,
            before.states[index],
            Some(fact),
        );
        assert forall|i: int| 0 <= i < run.keys.len() implies in_step(
            run.schemas,
            run.keys[i],
            run.start,
            run.step,
            run.slot_count,
            run.states[i].current,
            resample::of_index(list.take(count), i),
            #[trigger] after.states[i],
        ) by {
            assert(before.states[i] == before.states[i]);
            if i != index {
                assert(after.states[i] == before.states[i]);
            }
        }
    } else {
        assert forall|i: int| 0 <= i < run.keys.len() implies in_step(
            run.schemas,
            run.keys[i],
            run.start,
            run.step,
            run.slot_count,
            run.states[i].current,
            resample::of_index(list.take(0), i),
            #[trigger] run.states[i],
        ) by {
            assert(list.take(0).len() == 0);
        }
    }
}

/// Whether the slots of a stream of a sampling show what is in force at every time.
spec fn all_shown(
    run: RunView,
    key: StreamKey,
    initial: Option<Fact>,
    seen: Seq<Fact>,
    slots: Seq<Slot>,
) -> bool {
    slots_shown(run.schemas, key, run.start, run.step, run.slot_count, initial, seen, slots)
}

/// A sampling that ends shows in every slot what is in force there.
proof fn run_shows(
    run: RunView,
    initials: Seq<Option<Fact>>,
    seen: Seq<Seq<Fact>>,
    count: int,
)
    requires
        0 <= count <= run.keys.len(),
        run.step > 0,
        run.states.len() == run.keys.len(),
        seen.len() == run.keys.len(),
        forall|i: int|
            0 <= i < run.keys.len() ==> facts::facts_ordered(#[trigger] seen[i]) && in_step(
                run.schemas,
                run.keys[i],
                run.start,
                run.step,
                run.slot_count,
                initials[i],
                seen[i],
                run.states[i],
            ),
        run.finished(count) is Ok,
    ensures
        ({
            let after = run.finished(count)->Ok_0;
            &&& after == (RunView { states: after.states, ..run })
            &&& after.states.len() == run.states.len()
            &&& forall|i: int|
                0 <= i < count ==> all_shown(
                    run,
                    run.keys[i],
                    initials[i],
                    seen[i],
                    (#[trigger] after.states[i]).slots,
                )
            &&& forall|i: int|
                count <= i < run.states.len() ==> (#[trigger] after.states[i]) == run.states[i]
        }),
    decreases count,
{
    if count > 0 {
        run_shows(run, initials, seen, count - 1);
        let before = run.finished(count - 1)->Ok_0;
        let i = count - 1;
        assert(before.states[i] == run.states[i]);
        assert(facts::facts_ordered(seen[i]));
        fill_keeps_step(
            run.schemas,
            run.keys[i],
            run.start,
            run.step,
            run.slot_count,
            initials[i],
            seen[i],
            run.states[i],
            None,
        );
        let after = run.finished(count)->Ok_0;
        let full = sample::filled(
            run.schemas,
            run.keys[i],
            run.start,
            run.step,
            run.slot_count,
            run.states[i],
            None,
        )->Ok_0;
        assert(after.states[i] == full);
        assert(all_shown(run, run.keys[i], initials[i], seen[i], full.slots));
        assert forall|k: int| 0 <= k < count implies all_shown(
            run,
            run.keys[k],
            initials[k],
            seen[k],
            (#[trigger] after.states[k]).slots,
        ) by {
            if k < count - 1 {
                assert(after.states[k] == before.states[k]);
            }
        }
    }
}

/// What a stream holds at a time when it is looked up alone.
spec fn held_at<S: UnitSource>(
    source: &S,
    units: Seq<UnitMeta>,
    schemas: TailView,
    heads: Option<HeadsView>,
    key: StreamKey,
    time: i64,
) -> Option<Fact> {
    primitives::headed(
        batch::predecessors_of(source, units, schemas, seq![key], time)->Ok_0[0],
        heads,
        key,
        time,
    )
}

/// The slots of a stream by what it holds at their times.
spec fn slots_alone<S: UnitSource>(
    source: &S,
    units: Seq<UnitMeta>,
    schemas: TailView,
    heads: Option<HeadsView>,
    start: i64,
    step: u32,
    slot_count: int,
    key: StreamKey,
) -> Seq<Slot> {
    Seq::new(
        slot_count as nat,
        |j: int|
            primitives::slot_of(
                schemas,
                key,
                held_at(source, units, schemas, heads, key, (start + j * step) as i64),
                (start + j * step) as i64,
            )->Ok_0,
    )
}

/// What is kept of a stream was valid before the range, so it is in force wherever nothing else is.
proof fn heads_in_force(
    heads: Option<HeadsView>,
    key: StreamKey,
    start: i64,
    at: i64,
    initial: Option<Fact>,
    list: Seq<Fact>,
)
    requires
        heads matches Some(kept) ==> kept.valid() && kept.floor <= start,
        start <= at,
    ensures
        in_force(primitives::headed(initial, heads, key, start), list, at) == primitives::headed(
            in_force(initial, list, at),
            heads,
            key,
            at,
        ),
{
    if let Some(kept) = heads {
        if head::head_of(kept.entries, key) is Some {
            let i = choose|i: int|
                0 <= i < kept.entries.len() && (#[trigger] kept.entries[i]).spec_key() == key;
            assert(kept.entries[i].fact_ts < kept.floor);
        }
    }
}

/// Whether everything that the streams of a table need in a range, and at the times of a grid there,
/// is among sections that fit together.
spec fn group_fits<S: UnitSource>(
    source: &S,
    units: Seq<UnitMeta>,
    schemas: TailView,
    keys: Seq<StreamKey>,
    start: i64,
    end: i64,
    step: u32,
    slot_count: int,
    some: spec_fn(int, int) -> bool,
) -> bool {
    forall|k: int|
        0 <= k < keys.len() ==> {
            let query = query_of(source, units, schemas, #[trigger] keys[k], start, end, some);
            &&& query.fits()
            &&& forall|j: int|
                0 <= j < slot_count ==> query.covers(#[trigger] time_at(start, step, j))
        }
}

/// A sampling of streams of one table that succeeds shows of each, at every time, what is in force
/// among its values in the range.
proof fn group_is_shown<S: UnitSource>(
    source: &S,
    units: Seq<UnitMeta>,
    schemas: TailView,
    heads: Option<HeadsView>,
    keys: Seq<StreamKey>,
    start: i64,
    end: i64,
    step: u32,
    slot_count: int,
    i: int,
    some: spec_fn(int, int) -> bool,
)
    requires
        0 <= i < keys.len(),
        group_fits(source, units, schemas, keys, start, end, step, slot_count, some),
        start <= end,
        step > 0,
        slot_count >= 0,
        sample::group_samples(
            source,
            units,
            schemas,
            heads,
            keys,
            start,
            end,
            step,
            slot_count,
        ) is Ok,
    ensures
        ({
            let found = batch::predecessors_of(source, units, schemas, keys, start)->Ok_0;
            let list = sample::group_samples(
                source,
                units,
                schemas,
                heads,
                keys,
                start,
                end,
                step,
                slot_count,
            )->Ok_0;
            &&& list.len() == keys.len()
            &&& all_shown(
                sample::sample_start(schemas, heads, keys, found, start, step, slot_count),
                keys[i],
                primitives::headed(found[i], heads, keys[i], start),
                query_of(source, units, schemas, keys[i], start, end, some).whole(),
                list[i],
            )
        }),
{
    let found = batch::predecessors_of(source, units, schemas, keys, start)->Ok_0;
    let run = sample::sample_start(schemas, heads, keys, found, start, step, slot_count);
    let visits = batch::table_visits(source, units, schemas, keys, start, end);
    let seen = Seq::new(
        keys.len(),
        |k: int| query_of(source, units, schemas, keys[k], start, end, some).whole(),
    );
    let initials = run.states.map_values(|state: StateView| state.current);
    assert forall|k: int| 0 <= k < keys.len() implies facts::facts_ordered(
        #[trigger] resample::of_index(visits.list, k),
    ) && resample::of_index(visits.list, k) == seen[k] by {
        table_visits_are_whole(source, units, schemas, keys, start, end, k, some);
    }
    table_visits_are_whole(source, units, schemas, keys, start, end, i, some);
    run_in_step(run, visits.list, visits.list.len() as int);
    assert(visits.list.take(visits.list.len() as int) =~= visits.list);
    let after = batch::folded::<SampleRun>(run, visits.list, visits.list.len() as int)->Ok_0;
    assert forall|k: int| 0 <= k < keys.len() implies facts::facts_ordered(#[trigger] seen[k])
        && in_step(
        after.schemas,
        after.keys[k],
        after.start,
        after.step,
        after.slot_count,
        initials[k],
        seen[k],
        after.states[k],
    ) by {
        assert(resample::of_index(visits.list, k) == seen[k]);
        assert(after.states[k] == after.states[k]);
        assert(initials[k] == run.states[k].current);
    }
    run_shows(after, initials, seen, keys.len() as int);
    let last = after.finished(keys.len() as int)->Ok_0;
    assert(all_shown(after, keys[i], initials[i], seen[i], last.states[i].slots));
    assert(initials[i] == run.states[i].current);
}

/// A sampling of streams of one table that succeeds has of a stream at every time what it holds
/// there, when it is looked up alone.
proof fn group_shows<S: UnitSource>(
    source: &S,
    units: Seq<UnitMeta>,
    schemas: TailView,
    heads: Option<HeadsView>,
    keys: Seq<StreamKey>,
    start: i64,
    end: i64,
    step: u32,
    slot_count: int,
    i: int,
    j: int,
    some: spec_fn(int, int) -> bool,
)
    requires
        0 <= i < keys.len(),
        0 <= j < slot_count,
        group_fits(source, units, schemas, keys, start, end, step, slot_count, some),
        heads matches Some(kept) ==> kept.valid() && kept.floor <= start,
        sample::grid_slots(start, end, step) == Ok::<int, Error>(slot_count),
        sample::group_samples(
            source,
            units,
            schemas,
            heads,
            keys,
            start,
            end,
            step,
            slot_count,
        ) is Ok,
    ensures
        ({
            let time = (start + j * step) as i64;
            let list = sample::group_samples(
                source,
                units,
                schemas,
                heads,
                keys,
                start,
                end,
                step,
                slot_count,
            )->Ok_0;
            &&& sample::grid_time(start, step, j) == Ok::<i64, Error>(time)
            &&& batch::predecessors_of(source, units, schemas, seq![keys[i]], time) matches Ok(one)
            &&& one.len() == 1
            &&& primitives::slot_of(
                schemas,
                keys[i],
                held_at(source, units, schemas, heads, keys[i], time),
                time,
            ) == Ok::<Slot, Error>(list[i][j])
        }),
{
    let time = (start + j * step) as i64;
    let found = batch::predecessors_of(source, units, schemas, keys, start)->Ok_0;
    let query = query_of(source, units, schemas, keys[i], start, end, some);
    let list = sample::group_samples(
        source,
        units,
        schemas,
        heads,
        keys,
        start,
        end,
        step,
        slot_count,
    )->Ok_0;
    sample::grid_covers_its_range(start, end, step, j);
    assert(j * step >= 0) by (nonlinear_arith)
        requires
            j >= 0,
            step >= 0,
    ;
    assert(time == start + j * step);
    assert(query.covers(time_at(start, step, j)));
    assert forall|k: int| 0 <= k < keys.len() implies {
        let query = query_of(source, units, schemas, #[trigger] keys[k], start, end, some);
        query.fits() && query.covers(start)
    } by {
        let other = query_of(source, units, schemas, keys[k], start, end, some);
        assert(other.covers(time_at(start, step, 0)));
        assert(0 * step == 0) by (nonlinear_arith);
    }
    group_is_shown(source, units, schemas, heads, keys, start, end, step, slot_count, i, some);
    table_visits_are_whole(source, units, schemas, keys, start, end, i, some);
    alone_inside(source, units, schemas, keys, start, end, time, i, some);
    heads_in_force(heads, keys[i], start, time, found[i], query.whole());
    let initial = primitives::headed(found[i], heads, keys[i], start);
    assert(shows(
        schemas,
        keys[i],
        start,
        step,
        j,
        in_force(initial, query.whole(), time),
        list[i][j],
    ));
}

/// The sections of a range that was planned fit.
proof fn planned_settled<S: UnitSource>(query: Query<S>)
    requires
        query.fits(),
        query.start < query.end,
        plan::planned(
            &query.source,
            query.units,
            query.key.table,
            query.start,
            query.end,
        ) is Ok,
    ensures
        forall|s: int|
            0 <= s < query.sections(query.units.len() as int).len() ==> query.settled(
                #[trigger] query.sections(query.units.len() as int)[s],
            ),
{
    let n = query.units.len() as int;
    assert forall|u: int| 0 <= u < n implies #[trigger] query.openable(u) by {
        if query.units[u].min_ts < query.end && query.units[u].max_ts >= query.start {
            plan_checks(query, n, u);
        }
    }
    assert forall|s: int| 0 <= s < query.sections(n).len() implies query.settled(
        #[trigger] query.sections(n)[s],
    ) by {
        sections_are_listed(query, n, s);
    }
}

/// A walk over several streams of a table that does not fail gives each its values in the range.
proof fn table_visits_are_whole<S: UnitSource>(
    source: &S,
    units: Seq<UnitMeta>,
    schemas: TailView,
    keys: Seq<StreamKey>,
    start: i64,
    end: i64,
    i: int,
    some: spec_fn(int, int) -> bool,
)
    requires
        0 <= i < keys.len(),
        query_of(source, units, schemas, keys[i], start, end, some).fits(),
        batch::table_visits(source, units, schemas, keys, start, end).failure is None,
        start <= end,
    ensures
        ({
            let query = query_of(source, units, schemas, keys[i], start, end, some);
            let visits = batch::table_visits(source, units, schemas, keys, start, end);
            &&& resample::of_index(visits.list, i) == query.whole()
            &&& resample::indexed(visits.list, keys.len() as int)
            &&& facts::facts_ordered(query.whole())
            &&& start < end ==> forall|u: int| 0 <= u < units.len() ==> #[trigger] query.ready(u)
        }),
{
    let query = query_of(source, units, schemas, keys[i], start, end, some);
    let state = schemas.tables[keys[0].table];
    assert(batch::group_refusal(schemas, keys[0].table, keys) is None);
    assert(keys[i].table == keys[0].table);
    let planned = plan::planned(source, units, keys[0].table, start, end)->Ok_0;
    let n = units.len() as int;
    if start < end {
        walk::planned_is_within(source, units, keys[0].table, start, end, n);
        planned_settled(query);
    }
    assert(planned =~= query.sections(n));
    visits_are_parts(query, keys, i, planned, planned.len() as int);
    assert(planned.take(planned.len() as int) =~= planned);
    resample::tail_visits_each(state.rows, keys, start, end, keys.len() as int);
    let sealed = batch::planned_visits(
        source,
        state,
        keys,
        start,
        end,
        planned,
        planned.len() as int,
    );
    let rest = batch::tail_visits(state.rows, keys, start, end, keys.len() as int);
    resample::of_index_join(sealed.list, rest, i);
    assert(keys[i] == keys[i]);
    if start < end {
        all_ready(query);
        whole_ordered(query);
    } else {
        tail_fits(query);
        meaning::within_in_order(query.tail(), start, end);
        let part = facts::facts_within(query.tail(), start, end);
        assert(query.whole() =~= part);
    }
}

/// The searches for streams of a table at the start of a range arrive only where the source answers
/// alike.
proof fn group_arrives_alike<S: UnitSource>(
    source: &S,
    units: Seq<UnitMeta>,
    schemas: TailView,
    keys: Seq<StreamKey>,
    start: i64,
    end: i64,
    some: spec_fn(int, int) -> bool,
)
    requires
        keys.len() > 0,
        batch::keys_of(keys, keys[0].table),
        forall|k: int|
            0 <= k < keys.len() ==> {
                let query = query_of(source, units, schemas, #[trigger] keys[k], start, end, some);
                query.fits() && query.covers(start)
            },
    ensures
        alike::arrivals_alike(source, units, schemas.tables[keys[0].table], keys, start),
{
    let state = schemas.tables[keys[0].table];
    assert forall|k: int, u: int, a: int|
        0 <= k < keys.len() && #[trigger] alike::arrives(
            source,
            units,
            state,
            keys[k],
            start,
            u,
            a,
        ) implies alike::answers_alike(
        source,
        state,
        units[u],
        alike::listing(source, units, keys[k].table, u, a),
    ) by {
        let query = query_of(source, units, schemas, keys[k], start, end, some);
        assert(query.state == state);
        assert(query.fits() && query.covers(start));
        assert(alike::arrives(&query.source, query.units, query.state, query.key, start, u, a));
        assert(alike::listed(&query.source, query.units, query.key.table, u, a));
    }
}

/// A search for one stream at a time inside the range finds what is in force there.
proof fn alone_inside<S: UnitSource>(
    source: &S,
    units: Seq<UnitMeta>,
    schemas: TailView,
    keys: Seq<StreamKey>,
    start: i64,
    end: i64,
    time: i64,
    i: int,
    some: spec_fn(int, int) -> bool,
)
    requires
        0 <= i < keys.len(),
        forall|k: int|
            0 <= k < keys.len() ==> {
                let query = query_of(source, units, schemas, #[trigger] keys[k], start, end, some);
                query.fits() && query.covers(start)
            },
        query_of(source, units, schemas, keys[i], start, end, some).covers(time),
        forall|u: int|
            0 <= u < units.len() ==> #[trigger] query_of(
                source,
                units,
                schemas,
                keys[i],
                start,
                end,
                some,
            ).ready(u),
        batch::predecessors_of(source, units, schemas, keys, start) is Ok,
        start <= time < end,
    ensures
        batch::predecessors_of(source, units, schemas, seq![keys[i]], time) == Ok::<
            Seq<Option<Fact>>,
            Error,
        >(
            seq![
                in_force(
                    batch::predecessors_of(source, units, schemas, keys, start)->Ok_0[i],
                    query_of(source, units, schemas, keys[i], start, end, some).whole(),
                    time,
                ),
            ],
        ),
{
    let query = query_of(source, units, schemas, keys[i], start, end, some);
    let own = seq![keys[i]];
    let found = batch::predecessors_of(source, units, schemas, keys, start)->Ok_0;
    assert(own.len() == 1 && own[0] == keys[i]);
    group_arrives_alike(source, units, schemas, keys, start, end, some);
    alike::searches_agree(source, units, schemas, keys, start, i);
    assert(seq![found[i]][0] == found[i]);
    search_inside(query, time);
    let inside = query.search(time, units.len() as int)->Ok_0;
    assert(inside.found =~= seq![in_force(found[i], query.whole(), time)]);
}

/// What a slot has where a lookup at its time has this.
pub open spec fn slot_for(found: Lookup, time: i64) -> Slot {
    match found {
        Lookup::Value { value, at_ts } => Slot::Value {
            value,
            source_ts: at_ts,
            carried: at_ts < time,
        },
        Lookup::Null { at_ts } => Slot::Null { source_ts: at_ts, carried: at_ts < time },
        Lookup::Missing => Slot::Gap,
    }
}

/// A group that is sampled gives each of its keys what the key holds alone.
proof fn group_agrees<S: UnitSource>(
    source: &S,
    units: Seq<UnitMeta>,
    schemas: TailView,
    heads: Option<HeadsView>,
    members: Seq<StreamKey>,
    start: i64,
    end: i64,
    step: u32,
    slot_count: int,
    each: spec_fn(StreamKey) -> Seq<Slot>,
    some: spec_fn(int, int) -> bool,
)
    requires
        members.len() > 0,
        group_fits(source, units, schemas, members, start, end, step, slot_count, some),
        heads matches Some(kept) ==> kept.valid() && kept.floor <= start,
        sample::grid_slots(start, end, step) == Ok::<int, Error>(slot_count),
        each == (|key: StreamKey|
            slots_alone(source, units, schemas, heads, start, step, slot_count, key)),
        sample::group_samples(
            source,
            units,
            schemas,
            heads,
            members,
            start,
            end,
            step,
            slot_count,
        ) is Ok,
    ensures
        sample::group_samples(
            source,
            units,
            schemas,
            heads,
            members,
            start,
            end,
            step,
            slot_count,
        )->Ok_0 == members.map_values(each),
{
    let list = sample::group_samples(
        source,
        units,
        schemas,
        heads,
        members,
        start,
        end,
        step,
        slot_count,
    )->Ok_0;
    slots_are_counted(start, end, step, slot_count);
    group_is_shown(source, units, schemas, heads, members, start, end, step, slot_count, 0, some);
    assert forall|i: int| 0 <= i < members.len() implies (#[trigger] list[i]) == each(
        members[i],
    ) by {
        group_is_shown(
            source,
            units,
            schemas,
            heads,
            members,
            start,
            end,
            step,
            slot_count,
            i,
            some,
        );
        let slots = each(members[i]);
        assert forall|j: int| 0 <= j < slot_count implies (#[trigger] slots[j]) == list[i][j] by {
            group_shows(
                source,
                units,
                schemas,
                heads,
                members,
                start,
                end,
                step,
                slot_count,
                i,
                j,
                some,
            );
        }
        assert(list[i] =~= slots);
    }
    assert(list =~= members.map_values(each));
}

proof fn slots_are_counted(start: i64, end: i64, step: u32, slot_count: int)
    requires
        sample::grid_slots(start, end, step) == Ok::<int, Error>(slot_count),
    ensures
        slot_count >= 0,
        step > 0,
        start <= end,
{
    if start < end {
        vstd::arithmetic::div_mod::lemma_div_pos_is_pos(end - start + step - 1, step as int);
    }
}

/// A time of a grid.
pub open spec fn time_at(start: i64, step: u32, j: int) -> i64 {
    (start + j * step) as i64
}

/// Whether a section is read by a sampling or by a lookup of one of its keys at one of its times:
/// it and its unit have a time of the range, or the lookup arrives at it.
pub open spec fn reached<S: UnitSource>(
    source: &S,
    units: Seq<UnitMeta>,
    schemas: TailView,
    keys: Seq<StreamKey>,
    start: i64,
    end: i64,
    step: u32,
    table: TableId,
    unit: int,
    at: int,
) -> bool {
    ||| in_range(source, units, table, start, end, unit, at)
    ||| exists|k: int, j: int|
        0 <= k < keys.len() && keys[k].table == table && 0 <= j < sample::grid_slots(
            start,
            end,
            step,
        )->Ok_0 && #[trigger] alike::arrives(
            source,
            units,
            schemas.tables[table],
            keys[k],
            time_at(start, step, j),
            unit,
            at,
        )
}

/// The sections of a table that a sampling or a lookup at one of its times reads.
pub open spec fn reach<S: UnitSource>(
    source: &S,
    units: Seq<UnitMeta>,
    schemas: TailView,
    keys: Seq<StreamKey>,
    start: i64,
    end: i64,
    step: u32,
    table: TableId,
) -> spec_fn(int, int) -> bool {
    |unit: int, at: int|
        reached(source, units, schemas, keys, start, end, step, table, unit, at)
}

/// Members of the keys need only sections that are reached.
proof fn members_fit<S: UnitSource>(
    source: &S,
    units: Seq<UnitMeta>,
    schemas: TailView,
    keys: Seq<StreamKey>,
    start: i64,
    end: i64,
    step: u32,
    members: Seq<StreamKey>,
)
    requires
        sample::grid_slots(start, end, step) is Ok,
        members.len() > 0,
        batch::keys_of(members, members[0].table),
        forall|k: int| 0 <= k < members.len() ==> keys.contains(#[trigger] members[k]),
        forall|u: int| 0 <= u < units.len() ==> (#[trigger] units[u]).min_ts <= units[u].max_ts,
        tail::rows_wf(schemas.tables[members[0].table].rows),
        coherent(
            source,
            units,
            schemas.tables[members[0].table],
            members[0].table,
            reach(source, units, schemas, keys, start, end, step, members[0].table),
        ),
    ensures
        group_fits(
            source,
            units,
            schemas,
            members,
            start,
            end,
            step,
            sample::grid_slots(start, end, step)->Ok_0,
            reach(source, units, schemas, keys, start, end, step, members[0].table),
        ),
{
    let table = members[0].table;
    let slot_count = sample::grid_slots(start, end, step)->Ok_0;
    let some = reach(source, units, schemas, keys, start, end, step, table);
    assert forall|k: int| 0 <= k < members.len() implies {
        let query = query_of(source, units, schemas, #[trigger] members[k], start, end, some);
        &&& query.fits()
        &&& forall|j: int| 0 <= j < slot_count ==> query.covers(#[trigger] time_at(start, step, j))
    } by {
        let key = members[k];
        let query = query_of(source, units, schemas, key, start, end, some);
        assert(keys.contains(members[k]));
        let p = choose|p: int| 0 <= p < keys.len() && keys[p] == key;
        assert(key.table == table);
        assert forall|u: int, a: int| #[trigger]
            query.listed(u, a) && query.in_range(u, a) implies (query.some)(u, a) by {
            assert(reached(source, units, schemas, keys, start, end, step, table, u, a));
        }
        assert forall|j: int| 0 <= j < slot_count implies query.covers(
            #[trigger] time_at(start, step, j),
        ) by {
            let at = time_at(start, step, j);
            assert forall|u: int, a: int| #[trigger]
                alike::arrives(
                    &query.source,
                    query.units,
                    query.state,
                    query.key,
                    at,
                    u,
                    a,
                ) implies (query.some)(u, a) by {
                assert(alike::arrives(source, units, schemas.tables[table], keys[p], at, u, a));
                assert(reached(source, units, schemas, keys, start, end, step, table, u, a));
            }
        }
    }
}

/// What a lookup of a key alone has where what the key holds can be put into a slot.
proof fn slot_is_lookup<S: UnitSource>(
    source: &S,
    units: Seq<UnitMeta>,
    schemas: TailView,
    heads: Option<HeadsView>,
    key: StreamKey,
    time: i64,
)
    requires
        facts::key_refusal(schemas, key) is None,
        batch::predecessors_of(source, units, schemas, seq![key], time) matches Ok(one)
            && one.len() == 1,
        primitives::slot_of(
            schemas,
            key,
            held_at(source, units, schemas, heads, key, time),
            time,
        ) is Ok,
    ensures
        ({
            let alone = primitives::lookups(source, units, schemas, heads, seq![key], Some(time));
            match limits::memory_refusal(1, vstd::layout::size_of::<Lookup>() as int) {
                Some(e) => alone == Err::<Seq<Lookup>, Error>(e),
                None => alone matches Ok(found) && found.len() == 1 && primitives::slot_of(
                    schemas,
                    key,
                    held_at(source, units, schemas, heads, key, time),
                    time,
                ) == Ok::<Slot, Error>(slot_for(found[0], time)),
            }
        }),
{
    let own = seq![key];
    assert(own.len() == 1 && own[0] == key);
    let fact = held_at(source, units, schemas, heads, key, time);
    let found = primitives::lookup_of(schemas, key, fact, time);
    assert(found is Ok);
    if limits::memory_refusal(1, vstd::layout::size_of::<Lookup>() as int) is Some {
        reveal_with_fuel(batch::keys_refusal, 2);
    } else {
        assert(primitives::group_lookups(source, units, schemas, heads, own, Some(time)) == Ok::<
            Seq<Lookup>,
            Error,
        >(seq![found->Ok_0])) by {
            reveal_with_fuel(primitives::looked_up, 2);
            assert(Seq::<Lookup>::empty().push(found->Ok_0) =~= seq![found->Ok_0]);
        }
        alike::one_key_is_a_group(source, units, schemas, heads, key, time, found->Ok_0);
        assert(seq![found->Ok_0][0] == found->Ok_0);
    }
}

/// A sampling that succeeds has for every key a slot for every time of the grid, and each slot has
/// what a lookup of the key at its time finds, unless a single answer is over the memory budget. A
/// value or a null is carried exactly if it is from before that time, and where the lookup finds
/// nothing there is a gap.
///
/// Only the sections that the sampling or those lookups reach need fit together.
pub proof fn samples_agree_with_lookups<S: UnitSource>(
    source: &S,
    units: Seq<UnitMeta>,
    schemas: TailView,
    heads: Option<HeadsView>,
    keys: Seq<StreamKey>,
    start: i64,
    end: i64,
    step: u32,
    i: int,
    j: int,
)
    requires
        sample::samples(source, units, schemas, heads, keys, start, end, step) is Ok,
        heads matches Some(kept) ==> kept.valid() && kept.floor <= start,
        forall|u: int| 0 <= u < units.len() ==> (#[trigger] units[u]).min_ts <= units[u].max_ts,
        forall|k: int|
            0 <= k < keys.len() ==> tail::rows_wf(
                schemas.tables[(#[trigger] keys[k]).table].rows,
            ) && coherent(
                source,
                units,
                schemas.tables[keys[k].table],
                keys[k].table,
                reach(source, units, schemas, keys, start, end, step, keys[k].table),
            ),
        0 <= i < keys.len(),
    ensures
        ({
            let slots = sample::samples(
                source,
                units,
                schemas,
                heads,
                keys,
                start,
                end,
                step,
            )->Ok_0;
            &&& slots.len() == keys.len()
            &&& slots[i].len() == sample::grid_slots(start, end, step)->Ok_0
            &&& 0 <= j < slots[i].len() ==> {
                let time = time_at(start, step, j);
                let alone = primitives::lookups(
                    source,
                    units,
                    schemas,
                    heads,
                    seq![keys[i]],
                    Some(time),
                );
                &&& time == start + j * step
                &&& match limits::memory_refusal(
                    1,
                    vstd::layout::size_of::<Lookup>() as int,
                ) {
                    Some(e) => alone == Err::<Seq<Lookup>, Error>(e),
                    None => alone matches Ok(found) && found.len() == 1 && slots[i][j] == slot_for(
                        found[0],
                        time,
                    ),
                }
            }
        }),
{
    let slot_count = sample::grid_slots(start, end, step)->Ok_0;
    slots_are_counted(start, end, step, slot_count);
    let answer = |members: Seq<StreamKey>|
        sample::group_samples(
            source,
            units,
            schemas,
            heads,
            members,
            start,
            end,
            step,
            slot_count,
        );
    let each = |key: StreamKey|
        slots_alone(source, units, schemas, heads, start, step, slot_count, key);
    assert forall|members: Seq<StreamKey>|
        members.len() > 0 && batch::keys_ordered(members) && batch::keys_of(
            members,
            members[0].table,
        ) && (forall|k: int| 0 <= k < members.len() ==> keys.contains(#[trigger] members[k])) && (
        #[trigger] answer(members)) is Ok implies answer(members)->Ok_0 == members.map_values(
        each,
    ) by {
        assert(keys.contains(members[0]));
        let p = choose|p: int| 0 <= p < keys.len() && keys[p] == members[0];
        assert(tail::rows_wf(schemas.tables[keys[p].table].rows));
        members_fit(source, units, schemas, keys, start, end, step, members);
        group_agrees(
            source,
            units,
            schemas,
            heads,
            members,
            start,
            end,
            step,
            slot_count,
            each,
            reach(source, units, schemas, keys, start, end, step, members[0].table),
        );
    }
    group::answered_batch_agrees(keys, answer, each);
    if 0 <= j < slot_count {
        primitives::accepted_keys(schemas, keys, i);
        let members = group::group_with(keys, answer, i);
        let p = choose|p: int| 0 <= p < members.len() && members[p] == keys[i];
        assert(members[p].table == members[0].table);
        assert(tail::rows_wf(schemas.tables[keys[i].table].rows));
        members_fit(source, units, schemas, keys, start, end, step, members);
        group_shows(
            source,
            units,
            schemas,
            heads,
            members,
            start,
            end,
            step,
            slot_count,
            p,
            j,
            reach(source, units, schemas, keys, start, end, step, members[0].table),
        );
        slot_is_lookup(source, units, schemas, heads, keys[i], time_at(start, step, j));
    }
}

} // verus!
