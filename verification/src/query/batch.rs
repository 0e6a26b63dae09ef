//! Reading several streams of one table together, so that each section is read once.
use vstd::prelude::*;

use super::facts::{self, Fact};
use super::plan::{self, PlannedSection};
use crate::error::{self, Error, Result};
use crate::manifest::catalog::UnitMeta;
use crate::ordmap::OrderedKey;
use crate::tail::{self, RowView, Stream, TailIndex, TailTable, TailTableView, TailView};
use crate::types::{self, CellValue, StreamKey, TableId, TableVersion};
use crate::unit::{self, DecodedSection, SectionView, TableDirectoryEntry, UnitSource};

verus! {

/// Whether keys strictly increase.
pub open spec fn keys_ordered(keys: Seq<StreamKey>) -> bool {
    forall|i: int, j: int|
        0 <= i < j < keys.len() ==> (#[trigger] keys[i]).rank() < (#[trigger] keys[j]).rank()
}

/// Whether every key is of the table.
pub open spec fn keys_of(keys: Seq<StreamKey>, table: TableId) -> bool {
    forall|i: int| 0 <= i < keys.len() ==> (#[trigger] keys[i]).table == table
}

/// Why some key cannot be queried, by the first among `count` that cannot.
pub open spec fn keys_refusal(schemas: TailView, keys: Seq<StreamKey>, count: int) -> Option<Error>
    decreases count,
{
    if count <= 0 {
        None
    } else {
        let earlier = keys_refusal(schemas, keys, count - 1);
        if earlier is Some {
            earlier
        } else {
            facts::key_refusal(schemas, keys[count - 1])
        }
    }
}

pub(crate) proof fn keys_refusal_is_final(schemas: TailView, keys: Seq<StreamKey>, count: int)
    requires
        0 <= count <= keys.len(),
    ensures
        keys_refusal(schemas, keys, count) is Some ==> keys_refusal(
            schemas,
            keys,
            keys.len() as int,
        ) == keys_refusal(schemas, keys, count),
    decreases keys.len() - count,
{
    if count < keys.len() {
        keys_refusal_is_final(schemas, keys, count + 1);
    }
}

/// Accepts keys that can all be queried.
pub fn validate_keys(schemas: &TailIndex, keys: &[StreamKey]) -> (r: Result<()>)
    requires
        schemas.wf(),
    ensures
        error::refuses(r, keys_refusal(schemas@, keys@, keys@.len() as int)),
{
    let mut index: usize = 0;
    while index < keys.len()
        invariant
            schemas.wf(),
            index <= keys@.len(),
            keys_refusal(schemas@, keys@, index as int) is None,
        decreases keys@.len() - index,
    {
        proof {
            keys_refusal_is_final(schemas@, keys@, index + 1);
        }
        if let Err(e) = facts::validate_key(schemas, keys[index]) {
            return Err(e);
        }
        index += 1;
    }
    Ok(())
}

/// Why keys cannot be read together.
pub open spec fn group_refusal(schemas: TailView, table: TableId, keys: Seq<StreamKey>) -> Option<
    Error,
> {
    if !keys_ordered(keys) || !keys_of(keys, table) {
        Some(
            error::invalid(
                "keys",
                "batch execution keys must be unique, ordered, and from one table",
            ),
        )
    } else {
        keys_refusal(schemas, keys, keys.len() as int)
    }
}

fn check_keys(keys: &[StreamKey], table: TableId) -> (good: bool)
    ensures
        good == (keys_ordered(keys@) && keys_of(keys@, table)),
{
    let mut index: usize = 0;
    while index < keys.len()
        invariant
            index <= keys@.len(),
            keys_ordered(keys@.take(index as int)),
            keys_of(keys@.take(index as int), table),
        decreases keys@.len() - index,
    {
        if keys[index].table != table {
            return false;
        }
        if index > 0 && !keys[index - 1].precedes(&keys[index]) {
            assert(!(keys@[index - 1].rank() < keys@[index as int].rank()));
            return false;
        }
        proof {
            let before = keys@.take(index as int);
            let after = keys@.take(index + 1);
            assert forall|i: int, j: int| 0 <= i < j < after.len() implies (
            #[trigger] after[i]).rank() < (#[trigger] after[j]).rank() by {
                if j < index {
                    assert(before[i].rank() < before[j].rank());
                } else if i < index - 1 {
                    assert(before[i].rank() < before[index - 1].rank());
                }
            }
            assert forall|i: int| 0 <= i < after.len() implies (#[trigger] after[i]).table
                == table by {
                if i < index {
                    assert(before[i].table == table);
                }
            }
        }
        index += 1;
    }
    assert(keys@.take(index as int) =~= keys@);
    true
}

fn validate_group(schemas: &TailIndex, table: TableId, keys: &[StreamKey]) -> (r: Result<()>)
    requires
        schemas.wf(),
    ensures
        error::refuses(r, group_refusal(schemas@, table, keys@)),
{
    if !check_keys(keys, table) {
        return Err(
            Error::invalid(
                "keys",
                "batch execution keys must be unique, ordered, and from one table",
            ),
        );
    }
    validate_keys(schemas, keys)
}

/// Where the key stands.
pub open spec fn key_position(keys: Seq<StreamKey>, key: StreamKey) -> int {
    choose|i: int| 0 <= i < keys.len() && keys[i] == key
}

/// Looks a key up among ordered keys.
pub fn find_key(keys: &[StreamKey], key: StreamKey) -> (found: Option<usize>)
    requires
        keys_ordered(keys@),
    ensures
        match found {
            Some(at) => at < keys@.len() && keys@[at as int] == key && keys@.contains(key) && at
                == key_position(keys@, key),
            None => !keys@.contains(key),
        },
{
    let mut low: usize = 0;
    let mut high: usize = keys.len();
    while low < high
        invariant
            keys_ordered(keys@),
            low <= high <= keys@.len(),
            forall|i: int| 0 <= i < low ==> (#[trigger] keys@[i]).rank() < key.rank(),
            forall|i: int|
                high <= i < keys@.len() ==> key.rank() <= (#[trigger] keys@[i]).rank(),
        decreases high - low,
    {
        let middle: usize = low + (high - low) / 2;
        if keys[middle].precedes(&key) {
            assert forall|i: int| 0 <= i < middle + 1 implies (#[trigger] keys@[i]).rank()
                < key.rank() by {
                if i < middle {
                    assert(keys@[i].rank() < keys@[middle as int].rank());
                }
            }
            low = middle + 1;
        } else {
            assert forall|i: int| middle <= i < keys@.len() implies key.rank() <= (
            #[trigger] keys@[i]).rank() by {
                if middle < i {
                    assert(keys@[middle as int].rank() < keys@[i].rank());
                }
            }
            high = middle;
        }
    }
    proof {
        if keys@.contains(key) {
            let i = key_position(keys@, key);
            assert(0 <= i < keys@.len() && keys@[i] == key);
            if low < i {
                assert(keys@[low as int].rank() < keys@[i].rank());
            }
            assert(i == low);
        }
    }
    if low < keys.len() && !key.precedes(&keys[low]) {
        proof {
            StreamKey::rank_injective(keys@[low as int], key);
            assert(keys@.contains(key));
        }
        Some(low)
    } else {
        None
    }
}

/// The streams whose value is still unknown, among the first `count`.
pub open spec fn unresolved_streams(
    keys: Seq<StreamKey>,
    found: Seq<Option<Fact>>,
    count: int,
) -> Seq<Stream>
    decreases count,
{
    if count <= 0 {
        Seq::empty()
    } else {
        let earlier = unresolved_streams(keys, found, count - 1);
        if found[count - 1] is None {
            earlier.push(facts::spec_stream(keys[count - 1]))
        } else {
            earlier
        }
    }
}

/// The last values in the tail at or before a time, of every key.
pub open spec fn tail_latest(rows: Seq<RowView>, keys: Seq<StreamKey>, at: i64) -> Seq<
    Option<Fact>,
> {
    keys.map_values(
        |key: StreamKey|
            facts::latest_fact(facts::tail_facts(rows, facts::spec_stream(key)), at),
    )
}

/// A backward walk through sections in search of last values.
pub struct Search {
    pub found: Seq<Option<Fact>>,
    pub unresolved: int,
    pub newer: Option<TableDirectoryEntry>,
    pub done: bool,
}

pub open spec fn first_ts(rows: Seq<RowView>) -> Option<i64> {
    if rows.len() == 0 {
        None
    } else {
        Some(rows[0].timestamp)
    }
}

/// Why a section cannot stand where the backward walk meets it.
pub open spec fn reverse_refusal(
    unit: UnitMeta,
    table: TableId,
    section: TableDirectoryEntry,
    newer: Option<TableDirectoryEntry>,
    tail_min: Option<i64>,
) -> Option<Error> {
    match plan::loaded_refusal(unit, table, section) {
        Some(e) => Some(e),
        None => match newer {
            Some(later) => plan::after_refusal(Some(section), later),
            None => if tail_min matches Some(minimum) && section.max_ts >= minimum {
                Some(error::corruption("batch predecessor", "Seal and WAL tail ranges overlap"))
            } else {
                None
            },
        },
    }
}

/// What was found, with the last values of the first `count` columns of a section.
pub open spec fn columns_searched(
    keys: Seq<StreamKey>,
    at: i64,
    rows: SectionView,
    search: Search,
    count: int,
) -> Result<Search>
    decreases count,
{
    if count <= 0 {
        Ok(search)
    } else {
        match columns_searched(keys, at, rows, search, count - 1) {
            Err(e) => Err(e),
            Ok(before) => {
                let column = rows.columns[count - 1];
                let key = StreamKey {
                    table: keys[0].table,
                    series: column.stream.series,
                    field: column.stream.field,
                };
                if !keys.contains(key) {
                    Err(error::corruption("batch predecessor", "decoded key was not requested"))
                } else {
                    match facts::latest_fact(
                        facts::column_facts(rows.timestamps, column.cells),
                        at,
                    ) {
                        None => Ok(before),
                        Some(fact) => Ok(
                            Search {
                                found: before.found.update(key_position(keys, key), Some(fact)),
                                unresolved: if before.unresolved > 0 {
                                    before.unresolved - 1
                                } else {
                                    0
                                },
                                ..before
                            },
                        ),
                    }
                }
            },
        }
    }
}

pub open spec fn lost_version() -> Error {
    error::corruption("batch query", "section version disappeared")
}

/// The walk after one more section.
pub open spec fn section_searched<S: UnitSource>(
    source: &S,
    table: TailTableView,
    keys: Seq<StreamKey>,
    at: i64,
    unit: UnitMeta,
    section: TableDirectoryEntry,
    search: Search,
) -> Result<Search> {
    if search.done {
        Ok(search)
    } else {
        match reverse_refusal(
            unit,
            keys[0].table,
            section,
            search.newer,
            first_ts(table.rows),
        ) {
            Some(e) => Err(e),
            None => {
                let here = Search { newer: Some(section), ..search };
                if search.unresolved == 0 {
                    Ok(Search { done: true, ..here })
                } else if section.min_ts > at {
                    Ok(here)
                } else {
                    match facts::version_numbered(table.versions, section.version_no) {
                        None => Err(lost_version()),
                        Some(version) => match source.streams_of(
                            unit,
                            section,
                            version,
                            unresolved_streams(keys, search.found, keys.len() as int),
                        ) {
                            Err(e) => Err(e),
                            Ok(rows) => match columns_searched(
                                keys,
                                at,
                                rows,
                                here,
                                rows.columns.len() as int,
                            ) {
                                Err(e) => Err(e),
                                Ok(after) => Ok(Search { done: after.unresolved == 0, ..after }),
                            },
                        },
                    }
                }
            },
        }
    }
}

/// The walk after the last `count` sections of a unit.
pub open spec fn sections_searched<S: UnitSource>(
    source: &S,
    table: TailTableView,
    keys: Seq<StreamKey>,
    at: i64,
    unit: UnitMeta,
    sections: Seq<TableDirectoryEntry>,
    search: Search,
    count: int,
) -> Result<Search>
    decreases count,
{
    if count <= 0 {
        Ok(search)
    } else {
        match sections_searched(source, table, keys, at, unit, sections, search, count - 1) {
            Err(e) => Err(e),
            Ok(before) => section_searched(
                source,
                table,
                keys,
                at,
                unit,
                sections[sections.len() - count],
                before,
            ),
        }
    }
}

/// The walk after the last `count` units.
pub open spec fn units_searched<S: UnitSource>(
    source: &S,
    table: TailTableView,
    keys: Seq<StreamKey>,
    at: i64,
    units: Seq<UnitMeta>,
    search: Search,
    count: int,
) -> Result<Search>
    decreases count,
{
    if count <= 0 {
        Ok(search)
    } else {
        match units_searched(source, table, keys, at, units, search, count - 1) {
            Err(e) => Err(e),
            Ok(before) => {
                let unit = units[units.len() - count];
                if before.done || unit.min_ts > at {
                    Ok(before)
                } else {
                    match source.directory(unit, keys[0].table) {
                        Err(e) => Err(e),
                        Ok(sections) => sections_searched(
                            source,
                            table,
                            keys,
                            at,
                            unit,
                            sections,
                            before,
                            sections.len() as int,
                        ),
                    }
                }
            },
        }
    }
}

/// How many of the first `count` values are unknown.
pub open spec fn unknown(found: Seq<Option<Fact>>, count: int) -> int
    decreases count,
{
    if count <= 0 {
        0
    } else {
        unknown(found, count - 1) + if found[count - 1] is None {
            1int
        } else {
            0
        }
    }
}

pub open spec fn search_start(rows: Seq<RowView>, keys: Seq<StreamKey>, at: i64) -> Search {
    let found = tail_latest(rows, keys, at);
    Search { found, unresolved: unknown(found, found.len() as int), newer: None, done: false }
}

/// The last value at or before a time of each of several streams of one table.
pub open spec fn predecessors_of<S: UnitSource>(
    source: &S,
    units: Seq<UnitMeta>,
    schemas: TailView,
    keys: Seq<StreamKey>,
    at: i64,
) -> Result<Seq<Option<Fact>>> {
    if keys.len() == 0 {
        Ok(Seq::empty())
    } else {
        match group_refusal(schemas, keys[0].table, keys) {
            Some(e) => Err(e),
            None => match plan::units_refusal(units) {
                Some(e) => Err(e),
                None => {
                    let table = schemas.tables[keys[0].table];
                    match units_searched(
                        source,
                        table,
                        keys,
                        at,
                        units,
                        search_start(table.rows, keys, at),
                        units.len() as int,
                    ) {
                        Err(e) => Err(e),
                        Ok(search) => Ok(search.found),
                    }
                },
            },
        }
    }
}

proof fn columns_end(
    keys: Seq<StreamKey>,
    at: i64,
    rows: SectionView,
    search: Search,
    count: int,
)
    requires
        0 <= count <= rows.columns.len(),
        columns_searched(keys, at, rows, search, count) is Err,
    ensures
        columns_searched(keys, at, rows, search, rows.columns.len() as int) == columns_searched(
            keys,
            at,
            rows,
            search,
            count,
        ),
    decreases rows.columns.len() - count,
{
    if count < rows.columns.len() {
        columns_end(keys, at, rows, search, count + 1);
    }
}

/// A walk that failed or is done changes no more.
proof fn sections_end<S: UnitSource>(
    source: &S,
    table: TailTableView,
    keys: Seq<StreamKey>,
    at: i64,
    unit: UnitMeta,
    sections: Seq<TableDirectoryEntry>,
    search: Search,
    count: int,
)
    requires
        0 <= count <= sections.len(),
        sections_searched(source, table, keys, at, unit, sections, search, count) matches Ok(
            after,
        ) ==> after.done,
    ensures
        sections_searched(
            source,
            table,
            keys,
            at,
            unit,
            sections,
            search,
            sections.len() as int,
        ) == sections_searched(source, table, keys, at, unit, sections, search, count),
    decreases sections.len() - count,
{
    if count < sections.len() {
        sections_end(source, table, keys, at, unit, sections, search, count + 1);
    }
}

/// A walk that failed or is done changes no more.
proof fn units_end<S: UnitSource>(
    source: &S,
    table: TailTableView,
    keys: Seq<StreamKey>,
    at: i64,
    units: Seq<UnitMeta>,
    search: Search,
    count: int,
)
    requires
        0 <= count <= units.len(),
        units_searched(source, table, keys, at, units, search, count) matches Ok(after)
            ==> after.done,
    ensures
        units_searched(source, table, keys, at, units, search, units.len() as int)
            == units_searched(source, table, keys, at, units, search, count),
    decreases units.len() - count,
{
    if count < units.len() {
        units_end(source, table, keys, at, units, search, count + 1);
    }
}

fn validate_reverse_section(
    unit: UnitMeta,
    table: TableId,
    section: TableDirectoryEntry,
    newer: Option<TableDirectoryEntry>,
    tail_min: Option<i64>,
) -> (r: Result<()>)
    ensures
        error::refuses(r, reverse_refusal(unit, table, section, newer, tail_min)),
{
    if let Err(e) = plan::validate_loaded(unit, table, section) {
        return Err(e);
    }
    if let Some(later) = newer {
        return plan::validate_after(Some(section), later);
    }
    if let Some(minimum) = tail_min {
        if section.max_ts >= minimum {
            return Err(Error::corruption("batch predecessor", "Seal and WAL tail ranges overlap"));
        }
    }
    Ok(())
}

/// The version of a schema that a section was written under.
pub fn section_version<'a>(versions: &'a [TableVersion], section: TableDirectoryEntry) -> (r: Result<
    &'a TableVersion,
>)
    requires
        tail::versions_numbered(types::version_views(versions@)),
    ensures
        match facts::version_numbered(types::version_views(versions@), section.version_no) {
            Some(version) => r matches Ok(found) && found@ == version,
            None => r matches Err(e) && e == lost_version(),
        },
{
    match facts::find_version(versions, section.version_no) {
        Some(version) => Ok(version),
        None => Err(Error::corruption("batch query", "section version disappeared")),
    }
}

fn unresolved_of(keys: &[StreamKey], found: &[Option<Fact>]) -> (streams: Vec<Stream>)
    requires
        keys@.len() == found@.len(),
    ensures
        streams@ == unresolved_streams(keys@, found@, keys@.len() as int),
{
    let mut streams: Vec<Stream> = Vec::new();
    let mut index: usize = 0;
    while index < keys.len()
        invariant
            keys@.len() == found@.len(),
            index <= keys@.len(),
            streams@ == unresolved_streams(keys@, found@, index as int),
        decreases keys@.len() - index,
    {
        if found[index].is_none() {
            streams.push(facts::stream_of(keys[index]));
        }
        index += 1;
    }
    streams
}

/// The last value of a column at or before a time.
fn column_latest(timestamps: &[i64], cells: &[Option<CellValue>], at: i64) -> (found:
    Option<Fact>)
    ensures
        found == facts::latest_fact(facts::column_facts(timestamps@, cells@), at),
{
    let mut index: usize = if timestamps.len() < cells.len() {
        timestamps.len()
    } else {
        cells.len()
    };
    let ghost whole = facts::column_facts(timestamps@, cells@);
    while index > 0
        invariant
            index <= timestamps@.len(),
            index <= cells@.len(),
            whole == facts::column_facts(timestamps@, cells@),
            facts::latest_fact(whole, at) == facts::latest_fact(
                facts::cell_facts(timestamps@, cells@, index as int),
                at,
            ),
        decreases index,
    {
        let row: usize = index - 1;
        if let Some(value) = cells[row] {
            let fact = Fact { timestamp: timestamps[row], value };
            let ghost earlier = facts::cell_facts(timestamps@, cells@, row as int);
            assert(earlier.push(fact).drop_last() =~= earlier);
            if timestamps[row] <= at {
                return Some(fact);
            }
        }
        index = row;
    }
    None
}

/// Adds the last values of a section's columns to what was found.
fn search_columns(
    keys: &[StreamKey],
    at: i64,
    rows: &DecodedSection,
    found: &mut Vec<Option<Fact>>,
    unresolved: &mut usize,
    Ghost(search): Ghost<Search>,
) -> (r: Result<()>)
    requires
        keys@.len() > 0,
        keys_ordered(keys@),
        old(found)@.len() == keys@.len(),
        search.found == old(found)@,
        search.unresolved == *old(unresolved),
    ensures
        match columns_searched(keys@, at, rows@, search, rows@.columns.len() as int) {
            Err(e) => r matches Err(f) && f == e,
            Ok(after) => {
                &&& r is Ok
                &&& after.found == final(found)@
                &&& after.unresolved == *final(unresolved)
                &&& after.newer == search.newer
                &&& final(found)@.len() == keys@.len()
            },
        },
{
    let mut index: usize = 0;
    while index < rows.columns.len()
        invariant
            keys@.len() > 0,
            keys_ordered(keys@),
            found@.len() == keys@.len(),
            rows@.columns.len() == rows.columns@.len(),
            index <= rows.columns@.len(),
            columns_searched(keys@, at, rows@, search, index as int) == Ok::<Search, Error>(
                Search { found: found@, unresolved: *unresolved as int, ..search },
            ),
        decreases rows.columns@.len() - index,
    {
        let column = &rows.columns[index];
        assert(rows@.columns[index as int] == column@);
        proof {
            if columns_searched(keys@, at, rows@, search, index + 1) is Err {
                columns_end(keys@, at, rows@, search, index + 1);
            }
        }
        let key = StreamKey { table: keys[0].table, series: column.series, field: column.field };
        match find_key(keys, key) {
            None => {
                return Err(Error::corruption("batch predecessor", "decoded key was not requested"));
            },
            Some(position) => {
                if let Some(fact) = column_latest(
                    rows.timestamps.as_slice(),
                    column.cells.as_slice(),
                    at,
                ) {
                    found.set(position, Some(fact));
                    *unresolved = if *unresolved > 0 {
                        *unresolved - 1
                    } else {
                        0
                    };
                }
            },
        }
        index += 1;
    }
    Ok(())
}

/// The last value at or before a time of each of several streams of one table.
pub fn predecessors<S: UnitSource>(
    units: &[UnitMeta],
    source: &S,
    schemas: &TailIndex,
    keys: &[StreamKey],
    at: i64,
) -> (r: Result<Vec<Option<Fact>>>)
    requires
        schemas.wf(),
    ensures
        error::lists(r, predecessors_of(source, units@, schemas@, keys@, at)),
        r matches Ok(list) ==> list@.len() == keys@.len(),
{
    if keys.len() == 0 {
        return Ok(Vec::new());
    }
    let first = keys[0];
    if let Err(e) = validate_group(schemas, first.table, keys) {
        return Err(e);
    }
    if let Err(e) = plan::validate_units(units) {
        return Err(e);
    }
    proof {
        keys_refusal_is_final(schemas@, keys@, 1);
        assert(keys_refusal(schemas@, keys@, 0) is None);
    }
    let table = match facts::validate_key(schemas, first) {
        Ok(table) => table,
        Err(e) => return Err(e),
    };
    let ghost view = table@;
    let mut found: Vec<Option<Fact>> = Vec::new();
    let mut unresolved: usize = 0;
    let mut index: usize = 0;
    let ghost start = tail_latest(view.rows, keys@, at);
    while index < keys.len()
        invariant
            table.wf(),
            view == table@,
            start == tail_latest(view.rows, keys@, at),
            index <= keys@.len(),
            found@ == start.take(index as int),
            unresolved == unknown(start, index as int),
            unresolved <= index,
        decreases keys@.len() - index,
    {
        match facts::tail_predecessor(table, keys[index], at) {
            Ok(fact) => {
                assert(start[index as int] == fact);
                if fact.is_none() {
                    unresolved += 1;
                }
                found.push(fact);
            },
            Err(e) => {
                assert(false);
                return Err(e);
            },
        }
        index += 1;
        assert(found@ =~= start.take(index as int));
    }
    assert(found@ =~= start);
    let ghost begin = search_start(view.rows, keys@, at);
    let tail_min: Option<i64> = if table.rows.len() == 0 {
        None
    } else {
        assert(view.rows[0] == table.rows@[0]@);
        Some(table.rows[0].timestamp)
    };
    assert(tail_min == first_ts(view.rows));
    let mut newer: Option<TableDirectoryEntry> = None;
    let mut left: usize = units.len();
    while left > 0
        invariant
            table.wf(),
            view == table@,
            keys@.len() > 0,
            first == keys@[0],
            keys_ordered(keys@),
            tail_min == first_ts(view.rows),
            left <= units@.len(),
            found@.len() == keys@.len(),
            units_searched(source, view, keys@, at, units@, begin, units@.len() - left) == Ok::<
                Search,
                Error,
            >(Search { found: found@, unresolved: unresolved as int, newer, done: false }),
            predecessors_of(source, units@, schemas@, keys@, at) == (match units_searched(
                source,
                view,
                keys@,
                at,
                units@,
                begin,
                units@.len() as int,
            ) {
                Err(e) => Err::<Seq<Option<Fact>>, Error>(e),
                Ok(search) => Ok(search.found),
            }),
        decreases left,
    {
        let unit = units[left - 1];
        let ghost before = Search {
            found: found@,
            unresolved: unresolved as int,
            newer,
            done: false,
        };
        let ghost walked = units@.len() - left + 1;
        if unit.min_ts <= at {
            let sections = match source.table_sections(unit, first.table) {
                Ok(sections) => sections,
                Err(e) => {
                    proof {
                        units_end(source, view, keys@, at, units@, begin, walked);
                    }
                    return Err(e);
                },
            };
            let mut rest: usize = sections.len();
            while rest > 0
                invariant
                    table.wf(),
                    view == table@,
                    keys@.len() > 0,
                    first == keys@[0],
                    keys_ordered(keys@),
                    tail_min == first_ts(view.rows),
                    0 < left <= units@.len(),
                    unit == units@[left - 1],
                    unit.min_ts <= at,
                    walked == units@.len() - left + 1,
                    rest <= sections@.len(),
                    found@.len() == keys@.len(),
                    !before.done,
                    source.directory(unit, first.table) == Ok::<Seq<TableDirectoryEntry>, Error>(
                        sections@,
                    ),
                    units_searched(source, view, keys@, at, units@, begin, walked - 1) == Ok::<
                        Search,
                        Error,
                    >(before),
                    sections_searched(
                        source,
                        view,
                        keys@,
                        at,
                        unit,
                        sections@,
                        before,
                        sections@.len() - rest,
                    ) == Ok::<Search, Error>(
                        Search { found: found@, unresolved: unresolved as int, newer, done: false },
                    ),
                    predecessors_of(source, units@, schemas@, keys@, at) == (
                    match units_searched(
                        source,
                        view,
                        keys@,
                        at,
                        units@,
                        begin,
                        units@.len() as int,
                    ) {
                        Err(e) => Err::<Seq<Option<Fact>>, Error>(e),
                        Ok(search) => Ok(search.found),
                    }),
                decreases rest,
            {
                let section = sections[rest - 1];
                let ghost done = sections@.len() - rest + 1;
                proof {
                    let after = sections_searched(
                        source,
                        view,
                        keys@,
                        at,
                        unit,
                        sections@,
                        before,
                        done,
                    );
                    if after matches Ok(search) ==> search.done {
                        sections_end(source, view, keys@, at, unit, sections@, before, done);
                        units_end(source, view, keys@, at, units@, begin, walked);
                    }
                }
                if let Err(e) = validate_reverse_section(
                    unit,
                    first.table,
                    section,
                    newer,
                    tail_min,
                ) {
                    return Err(e);
                }
                newer = Some(section);
                if unresolved == 0 {
                    return Ok(found);
                }
                if section.min_ts <= at {
                    let streams = unresolved_of(keys, found.as_slice());
                    let version = match section_version(table.versions.as_slice(), section) {
                        Ok(version) => version,
                        Err(e) => return Err(e),
                    };
                    let rows = match source.decode_streams(
                        unit,
                        section,
                        version,
                        streams.as_slice(),
                    ) {
                        Ok(rows) => rows,
                        Err(e) => return Err(e),
                    };
                    let ghost here = Search {
                        found: found@,
                        unresolved: unresolved as int,
                        newer,
                        done: false,
                    };
                    if let Err(e) = search_columns(
                        keys,
                        at,
                        &rows,
                        &mut found,
                        &mut unresolved,
                        Ghost(here),
                    ) {
                        return Err(e);
                    }
                    if unresolved == 0 {
                        return Ok(found);
                    }
                }
                rest -= 1;
            }
        }
        left -= 1;
    }
    Ok(found)
}

/// Values in the order in which they are met, each with the position of its key, and the failure
/// that ends the walk, if one does.
#[verifier::ext_equal]
pub struct Visits {
    pub list: Seq<(int, Fact)>,
    pub failure: Option<Error>,
}

/// The values of one key.
pub open spec fn visits_of(index: int, list: Seq<Fact>) -> Seq<(int, Fact)> {
    list.map_values(|fact: Fact| (index, fact))
}

/// The values in the first `count` columns of a section.
pub open spec fn column_visits(
    keys: Seq<StreamKey>,
    start: i64,
    end: i64,
    rows: SectionView,
    count: int,
) -> Visits
    decreases count,
{
    if count <= 0 {
        Visits { list: Seq::empty(), failure: None }
    } else {
        let before = column_visits(keys, start, end, rows, count - 1);
        let column = rows.columns[count - 1];
        let key = StreamKey {
            table: keys[0].table,
            series: column.stream.series,
            field: column.stream.field,
        };
        if before.failure is Some {
            before
        } else if !keys.contains(key) {
            Visits {
                failure: Some(error::corruption("batch scan", "decoded key was not requested")),
                ..before
            }
        } else {
            Visits {
                list: before.list + visits_of(
                    key_position(keys, key),
                    facts::facts_within(
                        facts::column_facts(rows.timestamps, column.cells),
                        start,
                        end,
                    ),
                ),
                failure: None,
            }
        }
    }
}

pub open spec fn streams_of_keys(keys: Seq<StreamKey>) -> Seq<Stream> {
    keys.map_values(|key: StreamKey| facts::spec_stream(key))
}

/// The values in one planned section.
pub open spec fn section_visits<S: UnitSource>(
    source: &S,
    table: TailTableView,
    keys: Seq<StreamKey>,
    start: i64,
    end: i64,
    planned: PlannedSection,
) -> Visits {
    match facts::version_numbered(table.versions, planned.section.version_no) {
        None => Visits { list: Seq::empty(), failure: Some(lost_version()) },
        Some(version) => match source.streams_of(
            planned.unit,
            planned.section,
            version,
            streams_of_keys(keys),
        ) {
            Err(e) => Visits { list: Seq::empty(), failure: Some(e) },
            Ok(rows) => column_visits(keys, start, end, rows, rows.columns.len() as int),
        },
    }
}

/// One walk after another. A failure ends both.
pub open spec fn joined(first: Visits, second: Visits) -> Visits {
    if first.failure is Some {
        first
    } else {
        Visits { list: first.list + second.list, failure: second.failure }
    }
}

/// The values in the first `count` planned sections.
pub open spec fn planned_visits<S: UnitSource>(
    source: &S,
    table: TailTableView,
    keys: Seq<StreamKey>,
    start: i64,
    end: i64,
    planned: Seq<PlannedSection>,
    count: int,
) -> Visits
    decreases count,
{
    if count <= 0 {
        Visits { list: Seq::empty(), failure: None }
    } else {
        joined(
            planned_visits(source, table, keys, start, end, planned, count - 1),
            section_visits(source, table, keys, start, end, planned[count - 1]),
        )
    }
}

/// The values of the first `count` keys in the tail.
pub open spec fn tail_visits(
    rows: Seq<RowView>,
    keys: Seq<StreamKey>,
    start: i64,
    end: i64,
    count: int,
) -> Seq<(int, Fact)>
    decreases count,
{
    if count <= 0 {
        Seq::empty()
    } else {
        tail_visits(rows, keys, start, end, count - 1) + visits_of(
            count - 1,
            facts::facts_within(
                facts::tail_facts(rows, facts::spec_stream(keys[count - 1])),
                start,
                end,
            ),
        )
    }
}

/// Why the planned sections cannot precede the tail.
pub open spec fn tail_join_refusal(
    planned: Seq<PlannedSection>,
    tail_min: Option<i64>,
) -> Option<Error> {
    if planned.len() > 0 && (tail_min matches Some(minimum) && planned.last().section.max_ts
        >= minimum) {
        Some(error::corruption("batch scan", "Seal and WAL tail ranges overlap"))
    } else {
        None
    }
}

/// Every value of several streams of one table inside a range of time.
pub open spec fn table_visits<S: UnitSource>(
    source: &S,
    units: Seq<UnitMeta>,
    schemas: TailView,
    keys: Seq<StreamKey>,
    start: i64,
    end: i64,
) -> Visits {
    let none = Seq::<(int, Fact)>::empty();
    if keys.len() == 0 {
        Visits { list: none, failure: None }
    } else {
        match group_refusal(schemas, keys[0].table, keys) {
            Some(e) => Visits { list: none, failure: Some(e) },
            None => match plan::planned(source, units, keys[0].table, start, end) {
                Err(e) => Visits { list: none, failure: Some(e) },
                Ok(planned) => {
                    let table = schemas.tables[keys[0].table];
                    match tail_join_refusal(planned, first_ts(table.rows)) {
                        Some(e) => Visits { list: none, failure: Some(e) },
                        None => joined(
                            planned_visits(
                                source,
                                table,
                                keys,
                                start,
                                end,
                                planned,
                                planned.len() as int,
                            ),
                            Visits {
                                list: tail_visits(
                                    table.rows,
                                    keys,
                                    start,
                                    end,
                                    keys.len() as int,
                                ),
                                failure: None,
                            },
                        ),
                    }
                },
            },
        }
    }
}

/// Something that takes in values one after the other.
pub trait FactVisitor: View {
    /// How many keys it takes values for.
    spec fn width(&self) -> nat;

    spec fn wf(&self) -> bool;

    /// Its state after a value, or why it refuses the value.
    spec fn visited(state: <Self as View>::V, index: int, fact: Fact) -> Result<
        <Self as View>::V,
    >;

    fn visit(&mut self, index: usize, fact: Fact) -> (r: Result<()>)
        requires
            old(self).wf(),
            index < old(self).width(),
        ensures
            final(self).width() == old(self).width(),
            match Self::visited(old(self)@, index as int, fact) {
                Ok(after) => r is Ok && final(self).wf() && final(self)@ == after,
                Err(e) => r matches Err(f) && f == e,
            },
    ;
}

/// A visitor's state after the first `count` values.
pub open spec fn folded<V: FactVisitor>(
    state: <V as View>::V,
    list: Seq<(int, Fact)>,
    count: int,
) -> Result<<V as View>::V>
    decreases count,
{
    if count <= 0 {
        Ok(state)
    } else {
        match folded::<V>(state, list, count - 1) {
            Err(e) => Err(e),
            Ok(before) => V::visited(before, list[count - 1].0, list[count - 1].1),
        }
    }
}

/// A visitor's state after a walk: its own refusal comes first, then the failure of the walk.
pub open spec fn walked<V: FactVisitor>(state: <V as View>::V, visits: Visits) -> Result<
    <V as View>::V,
> {
    match folded::<V>(state, visits.list, visits.list.len() as int) {
        Err(e) => Err(e),
        Ok(after) => match visits.failure {
            Some(e) => Err(e),
            None => Ok(after),
        },
    }
}

/// What is folded over a beginning is final where it fails, and otherwise goes on from there.
pub(crate) proof fn folded_prefix<V: FactVisitor>(
    state: <V as View>::V,
    front: Seq<(int, Fact)>,
    list: Seq<(int, Fact)>,
    count: int,
)
    requires
        0 <= count <= front.len() <= list.len(),
        front == list.take(front.len() as int),
    ensures
        folded::<V>(state, list, count) == folded::<V>(state, front, count),
    decreases count,
{
    if count > 0 {
        folded_prefix::<V>(state, front, list, count - 1);
        assert(front[count - 1] == list[count - 1]);
    }
}

pub(crate) proof fn folded_refusal_is_final<V: FactVisitor>(
    state: <V as View>::V,
    list: Seq<(int, Fact)>,
    count: int,
)
    requires
        0 <= count <= list.len(),
        folded::<V>(state, list, count) is Err,
    ensures
        folded::<V>(state, list, list.len() as int) == folded::<V>(state, list, count),
    decreases list.len() - count,
{
    if count < list.len() {
        folded_refusal_is_final::<V>(state, list, count + 1);
    }
}

/// Folding over one list and then another.
pub(crate) proof fn folded_join<V: FactVisitor>(
    state: <V as View>::V,
    first: Seq<(int, Fact)>,
    second: Seq<(int, Fact)>,
    count: int,
)
    requires
        0 <= count <= second.len(),
    ensures
        folded::<V>(state, first + second, first.len() + count) == (match folded::<V>(
            state,
            first,
            first.len() as int,
        ) {
            Err(e) => Err::<<V as View>::V, Error>(e),
            Ok(middle) => folded::<V>(middle, second, count),
        }),
    decreases count,
{
    let list = first + second;
    if count > 0 {
        folded_join::<V>(state, first, second, count - 1);
        assert(list[first.len() + count - 1] == second[count - 1]);
    } else {
        assert(list.take(first.len() as int) =~= first);
        folded_prefix::<V>(state, first, list, first.len() as int);
    }
}

/// One walk after another, as the visitor sees it.
pub(crate) proof fn walked_join<V: FactVisitor>(
    state: <V as View>::V,
    first: Visits,
    second: Visits,
)
    ensures
        walked::<V>(state, joined(first, second)) == (match walked::<V>(state, first) {
            Err(e) => Err::<<V as View>::V, Error>(e),
            Ok(middle) => walked::<V>(middle, second),
        }),
{
    if first.failure is None {
        folded_join::<V>(state, first.list, second.list, second.list.len() as int);
    }
}

/// Whether a visitor ended up as expected.
pub open spec fn ended<V: FactVisitor>(
    r: Result<()>,
    visitor: &V,
    expected: Result<<V as View>::V>,
) -> bool {
    match expected {
        Ok(after) => r is Ok && visitor.wf() && visitor@ == after,
        Err(e) => r matches Err(f) && f == e,
    }
}

proof fn one_more<V: FactVisitor>(
    state: <V as View>::V,
    index: int,
    list: Seq<Fact>,
    fact: Fact,
)
    ensures
        folded::<V>(state, visits_of(index, list.push(fact)), (list.len() + 1) as int) == (
        match folded::<V>(state, visits_of(index, list), list.len() as int) {
            Err(e) => Err::<<V as View>::V, Error>(e),
            Ok(before) => V::visited(before, index, fact),
        }),
{
    let more = visits_of(index, list.push(fact));
    assert(more.take(list.len() as int) =~= visits_of(index, list));
    folded_prefix::<V>(state, visits_of(index, list), more, list.len() as int);
    assert(more[list.len() as int] == (index, fact));
}

/// More rows only append values.
proof fn cells_grow(
    timestamps: Seq<i64>,
    cells: Seq<Option<CellValue>>,
    start: i64,
    end: i64,
    few: int,
    many: int,
)
    requires
        0 <= few <= many,
    ensures
        ({
            let front = facts::facts_within(facts::cell_facts(timestamps, cells, few), start, end);
            let list = facts::facts_within(facts::cell_facts(timestamps, cells, many), start, end);
            front.len() <= list.len() && list.take(front.len() as int) == front
        }),
    decreases many - few,
{
    let front = facts::facts_within(facts::cell_facts(timestamps, cells, few), start, end);
    if few < many {
        cells_grow(timestamps, cells, start, end, few, many - 1);
        let earlier = facts::cell_facts(timestamps, cells, many - 1);
        let shorter = facts::facts_within(earlier, start, end);
        let list = facts::facts_within(facts::cell_facts(timestamps, cells, many), start, end);
        if let Some(value) = cells[many - 1] {
            let fact = Fact { timestamp: timestamps[many - 1], value };
            assert(earlier.push(fact).drop_last() =~= earlier);
        }
        assert(list.take(front.len() as int) =~= shorter.take(front.len() as int));
    } else {
        assert(front.take(front.len() as int) =~= front);
    }
}

fn visit_column<V: FactVisitor>(
    visitor: &mut V,
    index: usize,
    timestamps: &[i64],
    cells: &[Option<CellValue>],
    start: i64,
    end: i64,
) -> (r: Result<()>)
    requires
        old(visitor).wf(),
        index < old(visitor).width(),
    ensures
        final(visitor).width() == old(visitor).width(),
        ended(
            r,
            final(visitor),
            walked::<V>(
                old(visitor)@,
                Visits {
                    list: visits_of(
                        index as int,
                        facts::facts_within(
                            facts::column_facts(timestamps@, cells@),
                            start,
                            end,
                        ),
                    ),
                    failure: None,
                },
            ),
        ),
{
    let ghost state = visitor@;
    let ghost all = facts::facts_within(facts::column_facts(timestamps@, cells@), start, end);
    let ghost total = if timestamps@.len() < cells@.len() {
        timestamps@.len() as int
    } else {
        cells@.len() as int
    };
    let mut row: usize = 0;
    while row < timestamps.len() && row < cells.len()
        invariant
            state == old(visitor)@,
            total == (if timestamps@.len() < cells@.len() {
                timestamps@.len() as int
            } else {
                cells@.len() as int
            }),
            all == facts::facts_within(
                facts::cell_facts(timestamps@, cells@, total),
                start,
                end,
            ),
            row <= total,
            visitor.wf(),
            visitor.width() == old(visitor).width(),
            index < visitor.width(),
            folded::<V>(
                state,
                visits_of(
                    index as int,
                    facts::facts_within(
                        facts::cell_facts(timestamps@, cells@, row as int),
                        start,
                        end,
                    ),
                ),
                facts::facts_within(
                    facts::cell_facts(timestamps@, cells@, row as int),
                    start,
                    end,
                ).len() as int,
            ) == Ok::<<V as View>::V, Error>(visitor@),
        decreases total - row,
    {
        let timestamp: i64 = timestamps[row];
        let ghost earlier = facts::cell_facts(timestamps@, cells@, row as int);
        let ghost before = facts::facts_within(earlier, start, end);
        if let Some(value) = cells[row] {
            let fact = Fact { timestamp, value };
            assert(earlier.push(fact).drop_last() =~= earlier);
            if timestamp >= start && timestamp < end {
                proof {
                    one_more::<V>(state, index as int, before, fact);
                }
                if let Err(e) = visitor.visit(index, fact) {
                    proof {
                        let front = before.push(fact);
                        cells_grow(timestamps@, cells@, start, end, row + 1, total);
                        assert(visits_of(index as int, all).take(front.len() as int)
                            =~= visits_of(index as int, front));
                        folded_prefix::<V>(
                            state,
                            visits_of(index as int, front),
                            visits_of(index as int, all),
                            front.len() as int,
                        );
                        folded_refusal_is_final::<V>(
                            state,
                            visits_of(index as int, all),
                            front.len() as int,
                        );
                    }
                    return Err(e);
                }
            }
        }
        row += 1;
    }
    Ok(())
}

fn visit_rows<V: FactVisitor>(
    visitor: &mut V,
    keys: &[StreamKey],
    rows: &DecodedSection,
    start: i64,
    end: i64,
) -> (r: Result<()>)
    requires
        keys@.len() > 0,
        keys_ordered(keys@),
        old(visitor).wf(),
        old(visitor).width() == keys@.len(),
    ensures
        final(visitor).width() == old(visitor).width(),
        ended(
            r,
            final(visitor),
            walked::<V>(
                old(visitor)@,
                column_visits(keys@, start, end, rows@, rows@.columns.len() as int),
            ),
        ),
{
    let ghost state = visitor@;
    let mut index: usize = 0;
    while index < rows.columns.len()
        invariant
            keys@.len() > 0,
            keys_ordered(keys@),
            state == old(visitor)@,
            visitor.wf(),
            visitor.width() == old(visitor).width(),
            visitor.width() == keys@.len(),
            rows@.columns.len() == rows.columns@.len(),
            index <= rows.columns@.len(),
            walked::<V>(state, column_visits(keys@, start, end, rows@, index as int)) == Ok::<
                <V as View>::V,
                Error,
            >(visitor@),
        decreases rows.columns@.len() - index,
    {
        let column = &rows.columns[index];
        assert(rows@.columns[index as int] == column@);
        let key = StreamKey { table: keys[0].table, series: column.series, field: column.field };
        let ghost before = column_visits(keys@, start, end, rows@, index as int);
        let ghost after = column_visits(keys@, start, end, rows@, index + 1);
        match find_key(keys, key) {
            None => {
                proof {
                    columns_stop::<V>(keys@, start, end, rows@, state, index + 1);
                }
                return Err(Error::corruption("batch scan", "decoded key was not requested"));
            },
            Some(position) => {
                proof {
                    let here = Visits {
                        list: visits_of(
                            position as int,
                            facts::facts_within(
                                facts::column_facts(rows@.timestamps, column@.cells),
                                start,
                                end,
                            ),
                        ),
                        failure: None,
                    };
                    walked_join::<V>(state, before, here);
                    assert(joined(before, here) =~= after);
                    if walked::<V>(state, after) is Err {
                        columns_stop::<V>(keys@, start, end, rows@, state, index + 1);
                    }
                }
                if let Err(e) = visit_column(
                    visitor,
                    position,
                    rows.timestamps.as_slice(),
                    column.cells.as_slice(),
                    start,
                    end,
                ) {
                    return Err(e);
                }
            },
        }
        index += 1;
    }
    Ok(())
}

/// Columns behind a failure or a refusal do not matter.
proof fn columns_stop<V: FactVisitor>(
    keys: Seq<StreamKey>,
    start: i64,
    end: i64,
    rows: SectionView,
    state: <V as View>::V,
    count: int,
)
    requires
        0 <= count <= rows.columns.len(),
        walked::<V>(state, column_visits(keys, start, end, rows, count)) is Err,
    ensures
        walked::<V>(state, column_visits(keys, start, end, rows, rows.columns.len() as int))
            == walked::<V>(state, column_visits(keys, start, end, rows, count)),
    decreases rows.columns.len() - count,
{
    if count < rows.columns.len() {
        let before = column_visits(keys, start, end, rows, count);
        let after = column_visits(keys, start, end, rows, count + 1);
        if before.failure is None {
            let column = rows.columns[count];
            let key = StreamKey {
                table: keys[0].table,
                series: column.stream.series,
                field: column.stream.field,
            };
            if keys.contains(key) {
                let here = Visits {
                    list: visits_of(
                        key_position(keys, key),
                        facts::facts_within(
                            facts::column_facts(rows.timestamps, column.cells),
                            start,
                            end,
                        ),
                    ),
                    failure: None,
                };
                assert(joined(before, here) =~= after);
                walked_join::<V>(state, before, here);
            }
        }
        columns_stop::<V>(keys, start, end, rows, state, count + 1);
    }
}

/// Sections behind a failure or a refusal do not matter.
proof fn planned_stop<S: UnitSource, V: FactVisitor>(
    source: &S,
    table: TailTableView,
    keys: Seq<StreamKey>,
    start: i64,
    end: i64,
    planned: Seq<PlannedSection>,
    state: <V as View>::V,
    count: int,
)
    requires
        0 <= count <= planned.len(),
        walked::<V>(
            state,
            planned_visits(source, table, keys, start, end, planned, count),
        ) is Err,
    ensures
        walked::<V>(
            state,
            planned_visits(source, table, keys, start, end, planned, planned.len() as int),
        ) == walked::<V>(state, planned_visits(source, table, keys, start, end, planned, count)),
    decreases planned.len() - count,
{
    if count < planned.len() {
        walked_join::<V>(
            state,
            planned_visits(source, table, keys, start, end, planned, count),
            section_visits(source, table, keys, start, end, planned[count]),
        );
        planned_stop::<S, V>(source, table, keys, start, end, planned, state, count + 1);
    }
}

fn validate_tail_join(planned: &[PlannedSection], tail_min: Option<i64>) -> (r: Result<()>)
    ensures
        error::refuses(r, tail_join_refusal(planned@, tail_min)),
{
    let count: usize = planned.len();
    if count > 0 {
        if let Some(minimum) = tail_min {
            if planned[count - 1].section.max_ts >= minimum {
                return Err(Error::corruption("batch scan", "Seal and WAL tail ranges overlap"));
            }
        }
    }
    Ok(())
}

/// Hands every value of several streams of one table inside a range of time to a visitor, each
/// stream's values in time order.
pub fn visit_facts<S: UnitSource, V: FactVisitor>(
    units: &[UnitMeta],
    source: &S,
    schemas: &TailIndex,
    keys: &[StreamKey],
    start: i64,
    end: i64,
    visitor: &mut V,
) -> (r: Result<()>)
    requires
        schemas.wf(),
        old(visitor).wf(),
        old(visitor).width() == keys@.len(),
    ensures
        final(visitor).width() == old(visitor).width(),
        ended(
            r,
            final(visitor),
            walked::<V>(
                old(visitor)@,
                table_visits(source, units@, schemas@, keys@, start, end),
            ),
        ),
{
    if keys.len() == 0 {
        return Ok(());
    }
    let first = keys[0];
    if let Err(e) = validate_group(schemas, first.table, keys) {
        return Err(e);
    }
    proof {
        keys_refusal_is_final(schemas@, keys@, 1);
        assert(keys_refusal(schemas@, keys@, 0) is None);
    }
    let table = match facts::validate_key(schemas, first) {
        Ok(table) => table,
        Err(e) => return Err(e),
    };
    let ghost view = table@;
    let planned = match plan::range(units, first.table, start, end, source) {
        Ok(planned) => planned,
        Err(e) => return Err(e),
    };
    let tail_min: Option<i64> = if table.rows.len() == 0 {
        None
    } else {
        assert(view.rows[0] == table.rows@[0]@);
        Some(table.rows[0].timestamp)
    };
    if let Err(e) = validate_tail_join(planned.as_slice(), tail_min) {
        return Err(e);
    }
    let mut streams: Vec<Stream> = Vec::new();
    let mut index: usize = 0;
    while index < keys.len()
        invariant
            index <= keys@.len(),
            streams@ == streams_of_keys(keys@).take(index as int),
        decreases keys@.len() - index,
    {
        streams.push(facts::stream_of(keys[index]));
        index += 1;
        assert(streams@ =~= streams_of_keys(keys@).take(index as int));
    }
    assert(streams@ =~= streams_of_keys(keys@));
    let ghost state = visitor@;
    let ghost tail_part = Visits {
        list: tail_visits(view.rows, keys@, start, end, keys@.len() as int),
        failure: None,
    };
    let ghost sealed_part = planned_visits(
        source,
        view,
        keys@,
        start,
        end,
        planned@,
        planned@.len() as int,
    );
    proof {
        walked_join::<V>(state, sealed_part, tail_part);
    }
    let mut at: usize = 0;
    while at < planned.len()
        invariant
            table.wf(),
            view == table@,
            keys@.len() > 0,
            keys_ordered(keys@),
            streams@ == streams_of_keys(keys@),
            state == old(visitor)@,
            visitor.wf(),
            visitor.width() == old(visitor).width(),
            visitor.width() == keys@.len(),
            sealed_part == planned_visits(
                source,
                view,
                keys@,
                start,
                end,
                planned@,
                planned@.len() as int,
            ),
            table_visits(source, units@, schemas@, keys@, start, end) == joined(
                sealed_part,
                tail_part,
            ),
            walked::<V>(state, joined(sealed_part, tail_part)) == (match walked::<V>(
                state,
                sealed_part,
            ) {
                Err(e) => Err::<<V as View>::V, Error>(e),
                Ok(middle) => walked::<V>(middle, tail_part),
            }),
            at <= planned@.len(),
            walked::<V>(
                state,
                planned_visits(source, view, keys@, start, end, planned@, at as int),
            ) == Ok::<<V as View>::V, Error>(visitor@),
        decreases planned@.len() - at,
    {
        let section = planned[at].section;
        let unit = planned[at].unit;
        proof {
            let before = planned_visits(source, view, keys@, start, end, planned@, at as int);
            let here = section_visits(source, view, keys@, start, end, planned@[at as int]);
            walked_join::<V>(state, before, here);
            if walked::<V>(
                state,
                planned_visits(source, view, keys@, start, end, planned@, at + 1),
            ) is Err {
                planned_stop::<S, V>(source, view, keys@, start, end, planned@, state, at + 1);
            }
        }
        let version = match section_version(table.versions.as_slice(), section) {
            Ok(version) => version,
            Err(e) => return Err(e),
        };
        let rows = match source.decode_streams(unit, section, version, streams.as_slice()) {
            Ok(rows) => rows,
            Err(e) => return Err(e),
        };
        if let Err(e) = visit_rows(visitor, keys, &rows, start, end) {
            return Err(e);
        }
        at += 1;
    }
    visit_tail(visitor, table, keys, start, end)
}

/// Keys behind a refusal do not matter.
proof fn tail_stop<V: FactVisitor>(
    rows: Seq<RowView>,
    keys: Seq<StreamKey>,
    start: i64,
    end: i64,
    state: <V as View>::V,
    count: int,
)
    requires
        0 <= count <= keys.len(),
        folded::<V>(
            state,
            tail_visits(rows, keys, start, end, count),
            tail_visits(rows, keys, start, end, count).len() as int,
        ) is Err,
    ensures
        folded::<V>(
            state,
            tail_visits(rows, keys, start, end, keys.len() as int),
            tail_visits(rows, keys, start, end, keys.len() as int).len() as int,
        ) == folded::<V>(
            state,
            tail_visits(rows, keys, start, end, count),
            tail_visits(rows, keys, start, end, count).len() as int,
        ),
    decreases keys.len() - count,
{
    if count < keys.len() {
        let here = visits_of(
            count,
            facts::facts_within(
                facts::tail_facts(rows, facts::spec_stream(keys[count])),
                start,
                end,
            ),
        );
        folded_join::<V>(
            state,
            tail_visits(rows, keys, start, end, count),
            here,
            here.len() as int,
        );
        tail_stop::<V>(rows, keys, start, end, state, count + 1);
    }
}

fn visit_tail<V: FactVisitor>(
    visitor: &mut V,
    table: &TailTable,
    keys: &[StreamKey],
    start: i64,
    end: i64,
) -> (r: Result<()>)
    requires
        table.wf(),
        start <= end,
        old(visitor).wf(),
        old(visitor).width() == keys@.len(),
    ensures
        final(visitor).width() == old(visitor).width(),
        ended(
            r,
            final(visitor),
            walked::<V>(
                old(visitor)@,
                Visits {
                    list: tail_visits(table@.rows, keys@, start, end, keys@.len() as int),
                    failure: None,
                },
            ),
        ),
{
    let ghost state = visitor@;
    let ghost rows = table@.rows;
    let mut index: usize = 0;
    while index < keys.len()
        invariant
            table.wf(),
            rows == table@.rows,
            start <= end,
            state == old(visitor)@,
            visitor.wf(),
            visitor.width() == old(visitor).width(),
            visitor.width() == keys@.len(),
            index <= keys@.len(),
            folded::<V>(
                state,
                tail_visits(rows, keys@, start, end, index as int),
                tail_visits(rows, keys@, start, end, index as int).len() as int,
            ) == Ok::<<V as View>::V, Error>(visitor@),
        decreases keys@.len() - index,
    {
        let stream = facts::stream_of(keys[index]);
        let list = facts::tail_postings(table, stream, start, end);
        let ghost before = visitor@;
        let ghost within = facts::facts_within(facts::tail_facts(rows, stream), start, end);
        let ghost here = visits_of(index as int, within);
        proof {
            folded_join::<V>(
                state,
                tail_visits(rows, keys@, start, end, index as int),
                here,
                here.len() as int,
            );
        }
        let mut at: usize = 0;
        while at < list.len()
            invariant
                table.wf(),
                rows == table@.rows,
                facts::postings_hold(rows, list@, stream),
                within == facts::posting_facts(rows, list@, stream),
                here == visits_of(index as int, within),
                stream == facts::spec_stream(keys@[index as int]),
                state == old(visitor)@,
                visitor.wf(),
                visitor.width() == old(visitor).width(),
                visitor.width() == keys@.len(),
                index < keys@.len(),
                at <= list@.len(),
                folded::<V>(before, here, at as int) == Ok::<<V as View>::V, Error>(visitor@),
                folded::<V>(
                    state,
                    tail_visits(rows, keys@, start, end, index + 1),
                    tail_visits(rows, keys@, start, end, index + 1).len() as int,
                ) == folded::<V>(before, here, here.len() as int),
            decreases list@.len() - at,
        {
            let fact = facts::posted_fact(table, list[at], stream);
            assert(here[at as int] == (index as int, fact));
            if let Err(e) = visitor.visit(index, fact) {
                proof {
                    folded_refusal_is_final::<V>(before, here, at + 1);
                    tail_stop::<V>(rows, keys@, start, end, state, index + 1);
                }
                return Err(e);
            }
            at += 1;
        }
        index += 1;
    }
    Ok(())
}

} // verus!
