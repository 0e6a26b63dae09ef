//! Folding expired units into retention heads.
use vstd::prelude::*;

use super::head::{self, HeadsView, RetentionHead, RetentionHeads};
use crate::error::{self, Error, Result};
use crate::manifest::catalog::{self, UnitMeta};
use crate::ordmap::{self, OrderedKey, OrderedMap};
use crate::query::contract::{self, VersionContract};
use crate::query::facts;
use crate::tail::{self, TailIndex, TailTable, TailTableView, TailView};
use crate::types::{CellValue, StreamKey, TableId};
use crate::unit::{self, DecodedSection, SectionView, TableDirectoryEntry, UnitSource};

verus! {

pub open spec fn fold_corruption(reason: &'static str) -> Error {
    error::corruption("retention fold", reason)
}

/// Whether the units can expire under the new floor: in order, all below it, and it rises.
pub open spec fn advances(prior: Option<HeadsView>, expired: Seq<UnitMeta>, floor: i64) -> bool {
    &&& expired.len() > 0
    &&& prior matches Some(heads) ==> heads.floor < floor
    &&& forall|i: int| 0 <= i < expired.len() ==> (#[trigger] expired[i]).max_ts < floor
    &&& catalog::units_ordered(expired)
}

/// The latest value of every stream met so far, in stream order.
pub type Latest = Seq<(StreamKey, RetentionHead)>;

/// The state of a fold: the latest values, what was seen of each unit, and where the table that is
/// being read stands.
pub struct FoldState {
    pub latest: Latest,
    pub sections: Seq<u32>,
    pub rows: Seq<u64>,
    pub previous: Option<i64>,
}

/// The latest values with one more. Values of a stream must come in time order.
pub open spec fn value_applied(
    latest: Latest,
    table: TableId,
    stream: tail::Stream,
    timestamp: i64,
    value: CellValue,
) -> Result<Latest> {
    let key = StreamKey { table, series: stream.series, field: stream.field };
    if ordmap::as_map(latest).contains_key(key) && ordmap::as_map(latest)[key].fact_ts
        >= timestamp {
        Err(fold_corruption("Facts are duplicate or out of order"))
    } else {
        Ok(
            ordmap::placed(
                latest,
                key,
                RetentionHead {
                    table,
                    series: stream.series,
                    field: stream.field,
                    fact_ts: timestamp,
                    value,
                },
            ),
        )
    }
}

/// The latest values with those of one row in the first `count` columns.
pub open spec fn row_applied(
    latest: Latest,
    table: TableId,
    rows: SectionView,
    row: int,
    count: int,
) -> Result<Latest>
    decreases count,
{
    if count <= 0 {
        Ok(latest)
    } else {
        match row_applied(latest, table, rows, row, count - 1) {
            Err(e) => Err(e),
            Ok(before) => {
                let column = rows.columns[count - 1];
                if row < column.cells.len() && column.cells[row] is Some {
                    value_applied(
                        before,
                        table,
                        column.stream,
                        rows.timestamps[row],
                        column.cells[row]->Some_0,
                    )
                } else {
                    Ok(before)
                }
            },
        }
    }
}

/// The latest values with those of the first `count` rows of a section.
pub open spec fn rows_applied(
    latest: Latest,
    table: TableId,
    rows: SectionView,
    count: int,
) -> Result<Latest>
    decreases count,
{
    if count <= 0 {
        Ok(latest)
    } else {
        match rows_applied(latest, table, rows, count - 1) {
            Err(e) => Err(e),
            Ok(before) => row_applied(
                before,
                table,
                rows,
                count - 1,
                rows.columns.len() as int,
            ),
        }
    }
}

/// The fold after one more section.
pub open spec fn section_folded<S: UnitSource>(
    source: &S,
    table: TableId,
    state: TailTableView,
    unit: UnitMeta,
    index: int,
    section: TableDirectoryEntry,
    fold: FoldState,
) -> Result<FoldState> {
    if section.table != table || section.min_ts < unit.min_ts || section.max_ts > unit.max_ts || (
    fold.previous matches Some(maximum) && maximum >= section.min_ts) {
        Err(fold_corruption("source section contradicts unit or table ordering"))
    } else {
        match facts::version_numbered(state.versions, section.version_no) {
            None => Err(fold_corruption("version is absent")),
            Some(version) => if fold.sections[index] + 1 > u32::MAX {
                Err(fold_corruption("section count overflow"))
            } else if fold.rows[index] + section.row_count > u64::MAX {
                Err(fold_corruption("row count overflow"))
            } else {
                match source.rows_of(unit, section, version) {
                    Err(e) => Err(e),
                    Ok(rows) => match rows_applied(
                        fold.latest,
                        table,
                        rows,
                        rows.timestamps.len() as int,
                    ) {
                        Err(e) => Err(e),
                        Ok(latest) => Ok(
                            FoldState {
                                latest,
                                sections: fold.sections.update(
                                    index,
                                    (fold.sections[index] + 1) as u32,
                                ),
                                rows: fold.rows.update(
                                    index,
                                    (fold.rows[index] + section.row_count) as u64,
                                ),
                                previous: Some(section.max_ts),
                            },
                        ),
                    },
                }
            },
        }
    }
}

/// The fold after the first `count` sections of a unit.
pub open spec fn sections_folded<S: UnitSource>(
    source: &S,
    table: TableId,
    state: TailTableView,
    unit: UnitMeta,
    index: int,
    sections: Seq<TableDirectoryEntry>,
    fold: FoldState,
    count: int,
) -> Result<FoldState>
    decreases count,
{
    if count <= 0 {
        Ok(fold)
    } else {
        match sections_folded(source, table, state, unit, index, sections, fold, count - 1) {
            Err(e) => Err(e),
            Ok(before) => section_folded(
                source,
                table,
                state,
                unit,
                index,
                sections[count - 1],
                before,
            ),
        }
    }
}

/// The fold after the first `count` units of a table.
pub open spec fn units_folded<S: UnitSource>(
    source: &S,
    table: TableId,
    state: TailTableView,
    expired: Seq<UnitMeta>,
    fold: FoldState,
    count: int,
) -> Result<FoldState>
    decreases count,
{
    if count <= 0 {
        Ok(fold)
    } else {
        match units_folded(source, table, state, expired, fold, count - 1) {
            Err(e) => Err(e),
            Ok(before) => match source.directory(expired[count - 1], table) {
                Err(e) => Err(e),
                Ok(sections) => sections_folded(
                    source,
                    table,
                    state,
                    expired[count - 1],
                    count - 1,
                    sections,
                    before,
                    sections.len() as int,
                ),
            },
        }
    }
}

/// The tables of a tail, in order.
pub open spec fn ordered_tables(schemas: &TailIndex) -> Seq<(TableId, TailTableView)> {
    schemas.tables.entries@.map_values(|entry: (TableId, TailTable)| (entry.0, entry.1@))
}

/// The fold after the first `count` tables.
pub open spec fn tables_folded<S: UnitSource>(
    source: &S,
    tables: Seq<(TableId, TailTableView)>,
    expired: Seq<UnitMeta>,
    fold: FoldState,
    count: int,
) -> Result<FoldState>
    decreases count,
{
    if count <= 0 {
        Ok(fold)
    } else {
        match tables_folded(source, tables, expired, fold, count - 1) {
            Err(e) => Err(e),
            Ok(before) => units_folded(
                source,
                tables[count - 1].0,
                tables[count - 1].1,
                expired,
                FoldState { previous: None, ..before },
                expired.len() as int,
            ),
        }
    }
}

/// The latest values that an earlier fold left.
pub open spec fn kept_values(entries: Seq<RetentionHead>) -> Latest {
    entries.map_values(|head: RetentionHead| (head.spec_key(), head))
}

pub open spec fn fold_start(prior: Option<HeadsView>, units: nat) -> FoldState {
    FoldState {
        latest: match prior {
            Some(heads) => kept_values(heads.entries),
            None => Seq::empty(),
        },
        sections: Seq::new(units, |i: int| 0u32),
        rows: Seq::new(units, |i: int| 0u64),
        previous: None,
    }
}

/// Whether every unit was seen whole.
pub open spec fn totals_agree(expired: Seq<UnitMeta>, fold: FoldState) -> bool {
    forall|i: int|
        0 <= i < expired.len() ==> fold.sections[i] == (#[trigger] expired[i]).section_count
            && fold.rows[i] == expired[i].total_rows
}

/// Whether a value still stands at the floor.
pub open spec fn head_live(table: TailTableView, head: RetentionHead, floor: i64) -> Result<bool> {
    match contract::resolved(table.versions, head.field, head.fact_ts) {
        Err(e) => Err(e),
        Ok(found) => if !head.value.spec_matches(found.value_type) {
            Err(fold_corruption("head payload disagrees with historical schema"))
        } else {
            Ok(
                !(table.cutoff(facts::spec_stream(head.spec_key())) matches Some(cutoff) && floor
                    > cutoff && head.fact_ts <= cutoff) && contract::live(
                    found.version.validity,
                    head.fact_ts,
                    floor,
                ),
            )
        },
    }
}

/// Those of the first `count` values that still stand at the floor and whose table is known.
pub open spec fn live_heads(tail: TailView, latest: Latest, floor: i64, count: int) -> Result<
    Seq<RetentionHead>,
>
    decreases count,
{
    if count <= 0 {
        Ok(Seq::empty())
    } else {
        match live_heads(tail, latest, floor, count - 1) {
            Err(e) => Err(e),
            Ok(list) => {
                let (key, head) = latest[count - 1];
                if !tail.tables.contains_key(key.table) {
                    Ok(list)
                } else {
                    match head_live(tail.tables[key.table], head, floor) {
                        Err(e) => Err(e),
                        Ok(live) => Ok(
                            if live {
                                list.push(head)
                            } else {
                                list
                            },
                        ),
                    }
                }
            },
        }
    }
}

/// The heads under the new floor.
pub open spec fn folded<S: UnitSource>(
    prior: Option<HeadsView>,
    expired: Seq<UnitMeta>,
    source: &S,
    schemas: &TailIndex,
    floor: i64,
) -> Result<HeadsView> {
    if !advances(prior, expired, floor) {
        Err(
            error::invalid(
                "retention",
                "expired units and floor do not form an advancing ordered prefix",
            ),
        )
    } else {
        let tables = ordered_tables(schemas);
        match tables_folded(
            source,
            tables,
            expired,
            fold_start(prior, expired.len()),
            tables.len() as int,
        ) {
            Err(e) => Err(e),
            Ok(fold) => if !totals_agree(expired, fold) {
                Err(fold_corruption("source directory totals disagree with MANIFEST"))
            } else {
                match live_heads(schemas@, fold.latest, floor, fold.latest.len() as int) {
                    Err(e) => Err(e),
                    Ok(entries) => match (HeadsView { floor, entries }).refusal() {
                        Some(e) => Err(e),
                        None => Ok(HeadsView { floor, entries }),
                    },
                }
            },
        }
    }
}

fn check_advances(prior: Option<&RetentionHeads>, expired: &[UnitMeta], floor: i64) -> (good: bool)
    ensures
        good == advances(head::view_of(prior), expired@, floor),
{
    if expired.len() == 0 {
        return false;
    }
    if let Some(heads) = prior {
        if heads.floor >= floor {
            return false;
        }
    }
    let mut index: usize = 0;
    while index < expired.len()
        invariant
            index <= expired@.len(),
            forall|i: int| 0 <= i < index ==> (#[trigger] expired@[i]).max_ts < floor,
        decreases expired@.len() - index,
    {
        if expired[index].max_ts >= floor {
            return false;
        }
        index += 1;
    }
    catalog::check_units_ordered(expired)
}

proof fn row_refusal_is_final(
    latest: Latest,
    table: TableId,
    rows: SectionView,
    row: int,
    count: int,
)
    requires
        0 <= count <= rows.columns.len(),
        row_applied(latest, table, rows, row, count) is Err,
    ensures
        row_applied(latest, table, rows, row, rows.columns.len() as int) == row_applied(
            latest,
            table,
            rows,
            row,
            count,
        ),
    decreases rows.columns.len() - count,
{
    if count < rows.columns.len() {
        row_refusal_is_final(latest, table, rows, row, count + 1);
    }
}

proof fn rows_refusal_is_final(latest: Latest, table: TableId, rows: SectionView, count: int)
    requires
        0 <= count <= rows.timestamps.len(),
        rows_applied(latest, table, rows, count) is Err,
    ensures
        rows_applied(latest, table, rows, rows.timestamps.len() as int) == rows_applied(
            latest,
            table,
            rows,
            count,
        ),
    decreases rows.timestamps.len() - count,
{
    if count < rows.timestamps.len() {
        rows_refusal_is_final(latest, table, rows, count + 1);
    }
}

fn apply_section(
    table: TableId,
    decoded: &DecodedSection,
    latest: &mut OrderedMap<StreamKey, RetentionHead>,
) -> (r: Result<()>)
    requires
        old(latest).wf(),
    ensures
        final(latest).wf(),
        match rows_applied(
            old(latest).entries@,
            table,
            decoded@,
            decoded@.timestamps.len() as int,
        ) {
            Ok(after) => r is Ok && final(latest).entries@ == after,
            Err(e) => r matches Err(f) && f == e,
        },
{
    let ghost begin = latest.entries@;
    let ghost rows = decoded@;
    let mut row: usize = 0;
    while row < decoded.timestamps.len()
        invariant
            latest.wf(),
            begin == old(latest).entries@,
            rows == decoded@,
            row <= rows.timestamps.len(),
            rows_applied(begin, table, rows, row as int) == Ok::<Latest, Error>(latest.entries@),
        decreases rows.timestamps.len() - row,
    {
        let timestamp: i64 = decoded.timestamps[row];
        let ghost before = latest.entries@;
        let mut at: usize = 0;
        while at < decoded.columns.len()
            invariant
                latest.wf(),
                begin == old(latest).entries@,
                rows == decoded@,
                rows.columns.len() == decoded.columns@.len(),
                row < rows.timestamps.len(),
                timestamp == rows.timestamps[row as int],
                rows_applied(begin, table, rows, row as int) == Ok::<Latest, Error>(before),
                at <= rows.columns.len(),
                row_applied(before, table, rows, row as int, at as int) == Ok::<Latest, Error>(
                    latest.entries@,
                ),
            decreases rows.columns.len() - at,
        {
            let column = &decoded.columns[at];
            assert(rows.columns[at as int] == column@);
            if row < column.cells.len() {
                if let Some(value) = column.cells[row] {
                    let key = StreamKey { table, series: column.series, field: column.field };
                    if let Some(known) = latest.get(&key) {
                        if known.fact_ts >= timestamp {
                            proof {
                                row_refusal_is_final(before, table, rows, row as int, at + 1);
                                rows_refusal_is_final(begin, table, rows, row + 1);
                            }
                            return Err(
                                Error::corruption(
                                    "retention fold",
                                    "Facts are duplicate or out of order",
                                ),
                            );
                        }
                    }
                    latest.insert(
                        key,
                        RetentionHead {
                            table,
                            series: column.series,
                            field: column.field,
                            fact_ts: timestamp,
                            value,
                        },
                    );
                }
            }
            at += 1;
        }
        row += 1;
    }
    Ok(())
}

fn is_live(table: &TailTable, head: RetentionHead, floor: i64) -> (r: Result<bool>)
    requires
        table.wf(),
    ensures
        r == head_live(table@, head, floor),
{
    proof {
        assert forall|i: int| 0 <= i < table.versions@.len() implies (
        #[trigger] table.versions@[i]).wf() by {
            assert(table@.versions[i] == table.versions@[i]@);
            assert(table@.versions[i].wf());
        }
    }
    let found = match VersionContract::resolve(
        table.versions.as_slice(),
        head.field,
        head.fact_ts,
    ) {
        Ok(found) => found,
        Err(e) => return Err(e),
    };
    if !head.value.matches(found.interpretation()) {
        return Err(
            Error::corruption("retention fold", "head payload disagrees with historical schema"),
        );
    }
    if let Some(cutoff) = table.cutoff(facts::stream_of(head.key())) {
        if floor > cutoff && head.fact_ts <= cutoff {
            return Ok(false);
        }
    }
    Ok(found.is_live(head.fact_ts, floor))
}

proof fn sections_refusal_is_final<S: UnitSource>(
    source: &S,
    table: TableId,
    state: TailTableView,
    unit: UnitMeta,
    index: int,
    sections: Seq<TableDirectoryEntry>,
    fold: FoldState,
    count: int,
)
    requires
        0 <= count <= sections.len(),
        sections_folded(source, table, state, unit, index, sections, fold, count) is Err,
    ensures
        sections_folded(
            source,
            table,
            state,
            unit,
            index,
            sections,
            fold,
            sections.len() as int,
        ) == sections_folded(source, table, state, unit, index, sections, fold, count),
    decreases sections.len() - count,
{
    if count < sections.len() {
        sections_refusal_is_final(source, table, state, unit, index, sections, fold, count + 1);
    }
}

proof fn units_refusal_is_final<S: UnitSource>(
    source: &S,
    table: TableId,
    state: TailTableView,
    expired: Seq<UnitMeta>,
    fold: FoldState,
    count: int,
)
    requires
        0 <= count <= expired.len(),
        units_folded(source, table, state, expired, fold, count) is Err,
    ensures
        units_folded(source, table, state, expired, fold, expired.len() as int) == units_folded(
            source,
            table,
            state,
            expired,
            fold,
            count,
        ),
    decreases expired.len() - count,
{
    if count < expired.len() {
        units_refusal_is_final(source, table, state, expired, fold, count + 1);
    }
}

proof fn tables_refusal_is_final<S: UnitSource>(
    source: &S,
    tables: Seq<(TableId, TailTableView)>,
    expired: Seq<UnitMeta>,
    fold: FoldState,
    count: int,
)
    requires
        0 <= count <= tables.len(),
        tables_folded(source, tables, expired, fold, count) is Err,
    ensures
        tables_folded(source, tables, expired, fold, tables.len() as int) == tables_folded(
            source,
            tables,
            expired,
            fold,
            count,
        ),
    decreases tables.len() - count,
{
    if count < tables.len() {
        tables_refusal_is_final(source, tables, expired, fold, count + 1);
    }
}

/// A fold under way.
struct Folding {
    latest: OrderedMap<StreamKey, RetentionHead>,
    sections: Vec<u32>,
    rows: Vec<u64>,
    previous: Option<i64>,
}

impl Folding {
    spec fn wf(&self, units: nat) -> bool {
        self.latest.wf() && self.sections@.len() == units && self.rows@.len() == units
    }
}

impl View for Folding {
    type V = FoldState;

    closed spec fn view(&self) -> FoldState {
        FoldState {
            latest: self.latest.entries@,
            sections: self.sections@,
            rows: self.rows@,
            previous: self.previous,
        }
    }
}

impl Folding {
    fn fold_section<S: UnitSource>(
        &mut self,
        source: &S,
        table: TableId,
        state: &TailTable,
        unit: UnitMeta,
        index: usize,
        section: TableDirectoryEntry,
        Ghost(units): Ghost<nat>,
    ) -> (r: Result<()>)
        requires
            state.wf(),
            old(self).wf(units),
            index < units,
        ensures
            match section_folded(
                source,
                table,
                state@,
                unit,
                index as int,
                section,
                old(self)@,
            ) {
                Ok(after) => r is Ok && final(self).wf(units) && final(self)@ == after,
                Err(e) => r matches Err(f) && f == e,
            },
    {
        let misplaced = match self.previous {
            Some(maximum) => maximum >= section.min_ts,
            None => false,
        };
        if section.table != table || section.min_ts < unit.min_ts || section.max_ts > unit.max_ts
            || misplaced {
            return Err(
                Error::corruption(
                    "retention fold",
                    "source section contradicts unit or table ordering",
                ),
            );
        }
        let version = match facts::find_version(state.versions.as_slice(), section.version_no) {
            Some(version) => version,
            None => return Err(Error::corruption("retention fold", "version is absent")),
        };
        let sections: u32 = match self.sections[index].checked_add(1) {
            Some(sections) => sections,
            None => return Err(Error::corruption("retention fold", "section count overflow")),
        };
        let rows: u64 = match self.rows[index].checked_add(section.row_count as u64) {
            Some(rows) => rows,
            None => return Err(Error::corruption("retention fold", "row count overflow")),
        };
        let decoded = match source.decode_section(unit, section, version) {
            Ok(decoded) => decoded,
            Err(e) => return Err(e),
        };
        if let Err(e) = apply_section(table, &decoded, &mut self.latest) {
            return Err(e);
        }
        self.sections.set(index, sections);
        self.rows.set(index, rows);
        self.previous = Some(section.max_ts);
        Ok(())
    }

    fn fold_table<S: UnitSource>(
        &mut self,
        source: &S,
        table: TableId,
        state: &TailTable,
        expired: &[UnitMeta],
    ) -> (r: Result<()>)
        requires
            state.wf(),
            old(self).wf(expired@.len()),
        ensures
            match units_folded(
                source,
                table,
                state@,
                expired@,
                old(self)@,
                expired@.len() as int,
            ) {
                Ok(after) => r is Ok && final(self).wf(expired@.len()) && final(self)@ == after,
                Err(e) => r matches Err(f) && f == e,
            },
    {
        let ghost begin = self@;
        let mut index: usize = 0;
        while index < expired.len()
            invariant
                state.wf(),
                begin == old(self)@,
                self.wf(expired@.len()),
                index <= expired@.len(),
                units_folded(source, table, state@, expired@, begin, index as int) == Ok::<
                    FoldState,
                    Error,
                >(self@),
            decreases expired@.len() - index,
        {
            let unit = expired[index];
            let ghost before = self@;
            let sections = match source.table_sections(unit, table) {
                Ok(sections) => sections,
                Err(e) => {
                    proof {
                        units_refusal_is_final(
                            source,
                            table,
                            state@,
                            expired@,
                            begin,
                            index + 1,
                        );
                    }
                    return Err(e);
                },
            };
            let mut at: usize = 0;
            while at < sections.len()
                invariant
                    state.wf(),
                    begin == old(self)@,
                    self.wf(expired@.len()),
                    index < expired@.len(),
                    unit == expired@[index as int],
                    source.directory(unit, table) == Ok::<Seq<TableDirectoryEntry>, Error>(
                        sections@,
                    ),
                    units_folded(source, table, state@, expired@, begin, index as int) == Ok::<
                        FoldState,
                        Error,
                    >(before),
                    at <= sections@.len(),
                    sections_folded(
                        source,
                        table,
                        state@,
                        unit,
                        index as int,
                        sections@,
                        before,
                        at as int,
                    ) == Ok::<FoldState, Error>(self@),
                decreases sections@.len() - at,
            {
                proof {
                    if sections_folded(
                        source,
                        table,
                        state@,
                        unit,
                        index as int,
                        sections@,
                        before,
                        at + 1,
                    ) is Err {
                        sections_refusal_is_final(
                            source,
                            table,
                            state@,
                            unit,
                            index as int,
                            sections@,
                            before,
                            at + 1,
                        );
                        units_refusal_is_final(
                            source,
                            table,
                            state@,
                            expired@,
                            begin,
                            index + 1,
                        );
                    }
                }
                if let Err(e) = self.fold_section(
                    source,
                    table,
                    state,
                    unit,
                    index,
                    sections[at],
                    Ghost(expired@.len()),
                ) {
                    return Err(e);
                }
                at += 1;
            }
            index += 1;
        }
        Ok(())
    }
}

fn start_folding(prior: Option<&RetentionHeads>, units: usize) -> (folding: Folding)
    requires
        prior matches Some(heads) ==> heads.valid(),
    ensures
        folding.wf(units as nat),
        folding@ == fold_start(head::view_of(prior), units as nat),
{
    let mut entries: Vec<(StreamKey, RetentionHead)> = Vec::new();
    let ghost wanted = fold_start(head::view_of(prior), units as nat).latest;
    if let Some(heads) = prior {
        let mut index: usize = 0;
        while index < heads.entries.len()
            invariant
                heads.valid(),
                wanted == kept_values(heads.entries@),
                index <= heads.entries@.len(),
                entries@ == wanted.take(index as int),
            decreases heads.entries@.len() - index,
        {
            entries.push((heads.entries[index].key(), heads.entries[index]));
            index += 1;
            assert(entries@ =~= wanted.take(index as int));
        }
        assert(entries@ =~= wanted);
        assert forall|i: int, j: int| 0 <= i < j < entries@.len() implies (
        #[trigger] entries@[i]).0.rank() < (#[trigger] entries@[j]).0.rank() by {
            assert(heads.entries@[i].spec_key().rank() < heads.entries@[j].spec_key().rank());
        }
    } else {
        assert(entries@ =~= wanted);
    }
    let mut sections: Vec<u32> = Vec::new();
    let mut rows: Vec<u64> = Vec::new();
    let mut index: usize = 0;
    while index < units
        invariant
            index <= units,
            sections@ == Seq::new(index as nat, |i: int| 0u32),
            rows@ == Seq::new(index as nat, |i: int| 0u64),
        decreases units - index,
    {
        sections.push(0);
        rows.push(0);
        index += 1;
        assert(sections@ =~= Seq::new(index as nat, |i: int| 0u32));
        assert(rows@ =~= Seq::new(index as nat, |i: int| 0u64));
    }
    Folding { latest: OrderedMap { entries }, sections, rows, previous: None }
}

fn check_totals(expired: &[UnitMeta], folding: &Folding) -> (good: bool)
    requires
        folding.wf(expired@.len()),
    ensures
        good == totals_agree(expired@, folding@),
{
    let mut index: usize = 0;
    while index < expired.len()
        invariant
            folding.wf(expired@.len()),
            index <= expired@.len(),
            forall|i: int|
                0 <= i < index ==> folding@.sections[i] == (#[trigger] expired@[i]).section_count
                    && folding@.rows[i] == expired@[i].total_rows,
        decreases expired@.len() - index,
    {
        if folding.sections[index] != expired[index].section_count || folding.rows[index]
            != expired[index].total_rows {
            assert(!(folding@.sections[index as int] == expired@[index as int].section_count
                && folding@.rows[index as int] == expired@[index as int].total_rows));
            return false;
        }
        index += 1;
    }
    true
}

proof fn live_refusal_is_final(tail: TailView, latest: Latest, floor: i64, count: int)
    requires
        0 <= count <= latest.len(),
        live_heads(tail, latest, floor, count) is Err,
    ensures
        live_heads(tail, latest, floor, latest.len() as int) == live_heads(
            tail,
            latest,
            floor,
            count,
        ),
    decreases latest.len() - count,
{
    if count < latest.len() {
        live_refusal_is_final(tail, latest, floor, count + 1);
    }
}

/// Folds expired units into the heads that stand under a new floor: the latest value of every
/// stream, as far as it is still live there.
pub fn fold<S: UnitSource>(
    prior: Option<&RetentionHeads>,
    expired: &[UnitMeta],
    source: &S,
    schemas: &TailIndex,
    floor: i64,
) -> (r: Result<RetentionHeads>)
    requires
        schemas.wf(),
        prior matches Some(heads) ==> heads.valid(),
    ensures
        match (r, folded(head::view_of(prior), expired@, source, schemas, floor)) {
            (Ok(heads), Ok(view)) => heads@ == view && heads.valid(),
            (Err(e), Err(f)) => e == f,
            _ => false,
        },
{
    if !check_advances(prior, expired, floor) {
        return Err(
            Error::invalid(
                "retention",
                "expired units and floor do not form an advancing ordered prefix",
            ),
        );
    }
    let mut folding = start_folding(prior, expired.len());
    let ghost begin = folding@;
    let ghost tables = ordered_tables(schemas);
    let mut index: usize = 0;
    while index < schemas.tables.entries.len()
        invariant
            schemas.wf(),
            tables == ordered_tables(schemas),
            tables.len() == schemas.tables.entries@.len(),
            advances(head::view_of(prior), expired@, floor),
            begin == fold_start(head::view_of(prior), expired@.len()),
            folding.wf(expired@.len()),
            index <= tables.len(),
            tables_folded(source, tables, expired@, begin, index as int) == Ok::<
                FoldState,
                Error,
            >(folding@),
        decreases tables.len() - index,
    {
        let entry = &schemas.tables.entries[index];
        assert(tables[index as int] == (entry.0, entry.1@));
        proof {
            if tables_folded(source, tables, expired@, begin, index + 1) is Err {
                tables_refusal_is_final(source, tables, expired@, begin, index + 1);
            }
        }
        folding.previous = None;
        if let Err(e) = folding.fold_table(source, entry.0, &entry.1, expired) {
            return Err(e);
        }
        index += 1;
    }
    if !check_totals(expired, &folding) {
        return Err(
            Error::corruption("retention fold", "source directory totals disagree with MANIFEST"),
        );
    }
    let ghost latest = folding@.latest;
    let mut entries: Vec<RetentionHead> = Vec::new();
    let mut index: usize = 0;
    while index < folding.latest.entries.len()
        invariant
            schemas.wf(),
            latest == folding@.latest,
            latest == folding.latest.entries@,
            index <= latest.len(),
            live_heads(schemas@, latest, floor, index as int) == Ok::<
                Seq<RetentionHead>,
                Error,
            >(entries@),
            folded(head::view_of(prior), expired@, source, schemas, floor) == (match live_heads(
                schemas@,
                latest,
                floor,
                latest.len() as int,
            ) {
                Err(e) => Err::<HeadsView, Error>(e),
                Ok(entries) => match (HeadsView { floor, entries }).refusal() {
                    Some(e) => Err(e),
                    None => Ok(HeadsView { floor, entries }),
                },
            }),
        decreases latest.len() - index,
    {
        let pair = folding.latest.entries[index];
        proof {
            if live_heads(schemas@, latest, floor, index + 1) is Err {
                live_refusal_is_final(schemas@, latest, floor, index + 1);
            }
        }
        if let Some(table) = schemas.table(pair.0.table) {
            match is_live(table, pair.1, floor) {
                Ok(live) => {
                    if live {
                        entries.push(pair.1);
                    }
                },
                Err(e) => return Err(e),
            }
        }
        index += 1;
    }
    RetentionHeads::new(floor, entries)
}

} // verus!
