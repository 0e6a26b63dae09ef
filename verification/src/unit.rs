//! What a sealed unit holds, and where it is read from.
use vstd::prelude::*;

use crate::error::{self, Error, Result};
use crate::manifest::catalog::UnitMeta;
use crate::tail::Stream;
use crate::types::{CellValue, FieldId, SeriesId, TableId, TableVersion, VersionView};

verus! {

/// One section of a unit: rows of one table under one version of its schema.
#[derive(Clone, Copy, Debug, PartialEq, Eq, Structural)]
pub struct TableDirectoryEntry {
    pub table: TableId,
    pub version_no: u32,
    pub min_ts: i64,
    pub max_ts: i64,
    pub row_count: u32,
    pub section_offset: u64,
    pub section_len: u64,
}

impl TableDirectoryEntry {
    pub open spec fn valid(self) -> bool {
        self.version_no > 0 && self.min_ts <= self.max_ts && self.row_count > 0 && self.section_len
            > 0
    }

    pub fn new(
        table: TableId,
        version_no: u32,
        min_ts: i64,
        max_ts: i64,
        row_count: u32,
        section_offset: u64,
        section_len: u64,
    ) -> (r: Result<Self>)
        ensures
            ({
                let entry = TableDirectoryEntry {
                    table,
                    version_no,
                    min_ts,
                    max_ts,
                    row_count,
                    section_offset,
                    section_len,
                };
                r == (if entry.valid() {
                    Ok(entry)
                } else {
                    Err::<TableDirectoryEntry, Error>(
                        error::corruption(
                            "unit directory",
                            "version, time range, row count, or length is invalid",
                        ),
                    )
                })
            }),
    {
        if version_no == 0 || min_ts > max_ts || row_count == 0 || section_len == 0 {
            return Err(
                Error::corruption(
                    "unit directory",
                    "version, time range, row count, or length is invalid",
                ),
            );
        }
        Ok(
            TableDirectoryEntry {
                table,
                version_no,
                min_ts,
                max_ts,
                row_count,
                section_offset,
                section_len,
            },
        )
    }

    pub fn table(self) -> (table: TableId)
        ensures
            table == self.table,
    {
        self.table
    }

    pub fn version_no(self) -> (number: u32)
        ensures
            number == self.version_no,
    {
        self.version_no
    }

    pub fn min_ts(self) -> (ts: i64)
        ensures
            ts == self.min_ts,
    {
        self.min_ts
    }

    pub fn max_ts(self) -> (ts: i64)
        ensures
            ts == self.max_ts,
    {
        self.max_ts
    }

    pub fn row_count(self) -> (count: u32)
        ensures
            count == self.row_count,
    {
        self.row_count
    }

    pub fn section_offset(self) -> (offset: u64)
        ensures
            offset == self.section_offset,
    {
        self.section_offset
    }

    pub fn section_len(self) -> (len: u64)
        ensures
            len == self.section_len,
    {
        self.section_len
    }
}

/// The cells of one stream, one for each row of its section.
#[derive(Clone, Debug, PartialEq, Eq)]
pub struct DecodedColumn {
    pub series: SeriesId,
    pub field: FieldId,
    pub cells: Vec<Option<CellValue>>,
}

pub struct ColumnView {
    pub stream: Stream,
    pub cells: Seq<Option<CellValue>>,
}

impl View for DecodedColumn {
    type V = ColumnView;

    open spec fn view(&self) -> ColumnView {
        ColumnView {
            stream: Stream { series: self.series, field: self.field },
            cells: self.cells@,
        }
    }
}

impl DecodedColumn {
    pub fn new(series: SeriesId, field: FieldId, cells: Vec<Option<CellValue>>) -> (column: Self)
        ensures
            column@ == (ColumnView { stream: Stream { series, field }, cells: cells@ }),
    {
        DecodedColumn { series, field, cells }
    }

    pub fn series(&self) -> (series: SeriesId)
        ensures
            series == self@.stream.series,
    {
        self.series
    }

    pub fn field(&self) -> (field: FieldId)
        ensures
            field == self@.stream.field,
    {
        self.field
    }

    pub fn cells(&self) -> (cells: &[Option<CellValue>])
        ensures
            cells@ == self@.cells,
    {
        self.cells.as_slice()
    }

    pub fn stream(&self) -> (stream: Stream)
        ensures
            stream == self@.stream,
    {
        Stream { series: self.series, field: self.field }
    }
}

/// The rows of a section, by column.
#[derive(Clone, Debug, PartialEq, Eq)]
pub struct DecodedSection {
    pub timestamps: Vec<i64>,
    pub columns: Vec<DecodedColumn>,
}

pub struct SectionView {
    pub timestamps: Seq<i64>,
    pub columns: Seq<ColumnView>,
}

pub open spec fn column_views(columns: Seq<DecodedColumn>) -> Seq<ColumnView> {
    columns.map_values(|column: DecodedColumn| column@)
}

impl View for DecodedSection {
    type V = SectionView;

    open spec fn view(&self) -> SectionView {
        SectionView { timestamps: self.timestamps@, columns: column_views(self.columns@) }
    }
}

impl DecodedSection {
    pub fn new(timestamps: Vec<i64>, columns: Vec<DecodedColumn>) -> (section: Self)
        ensures
            section@ == (SectionView {
                timestamps: timestamps@,
                columns: column_views(columns@),
            }),
    {
        DecodedSection { timestamps, columns }
    }

    pub fn timestamps(&self) -> (timestamps: &[i64])
        ensures
            timestamps@ == self@.timestamps,
    {
        self.timestamps.as_slice()
    }

    pub fn columns(&self) -> (columns: &[DecodedColumn])
        ensures
            column_views(columns@) == self@.columns,
    {
        self.columns.as_slice()
    }
}

/// Whether what was decoded is what the source holds.
pub open spec fn read_rows(read: Result<DecodedSection>, held: Result<SectionView>) -> bool {
    match (read, held) {
        (Ok(section), Ok(view)) => section@ == view,
        (Err(e), Err(f)) => e == f,
        _ => false,
    }
}

/// A reader of sealed units. What it holds does not change while it is in use.
pub trait UnitSource {
    /// The sections of a table in a unit.
    closed spec fn directory(&self, unit: UnitMeta, table: TableId) -> Result<Seq<TableDirectoryEntry>> {
        arbitrary()
    }

    /// The rows of a section.
    closed spec fn rows_of(
        &self,
        unit: UnitMeta,
        section: TableDirectoryEntry,
        version: VersionView,
    ) -> Result<SectionView> {
        arbitrary()
    }

    /// The rows of a section, restricted to some streams.
    closed spec fn streams_of(
        &self,
        unit: UnitMeta,
        section: TableDirectoryEntry,
        version: VersionView,
        streams: Seq<Stream>,
    ) -> Result<SectionView> {
        arbitrary()
    }

    fn table_sections(&self, unit: UnitMeta, table: TableId) -> (r: Result<
        Vec<TableDirectoryEntry>,
    >)
        ensures
            error::lists(r, self.directory(unit, table)),
    ;

    fn decode_section(
        &self,
        unit: UnitMeta,
        section: TableDirectoryEntry,
        version: &TableVersion,
    ) -> (r: Result<DecodedSection>)
        ensures
            read_rows(r, self.rows_of(unit, section, version@)),
    ;

    fn decode_streams(
        &self,
        unit: UnitMeta,
        section: TableDirectoryEntry,
        version: &TableVersion,
        streams: &[Stream],
    ) -> (r: Result<DecodedSection>)
        ensures
            read_rows(r, self.streams_of(unit, section, version@, streams@)),
    ;
}

/// The sections among the first `count` that belong to the table.
pub open spec fn sections_of(
    sections: Seq<(TableDirectoryEntry, SectionView)>,
    table: TableId,
    count: int,
) -> Seq<TableDirectoryEntry>
    decreases count,
{
    if count <= 0 {
        Seq::empty()
    } else {
        let earlier = sections_of(sections, table, count - 1);
        if sections[count - 1].0.table == table {
            earlier.push(sections[count - 1].0)
        } else {
            earlier
        }
    }
}

/// The columns among the first `count` that were asked for.
pub open spec fn columns_of(columns: Seq<ColumnView>, streams: Seq<Stream>, count: int) -> Seq<
    ColumnView,
>
    decreases count,
{
    if count <= 0 {
        Seq::empty()
    } else {
        let earlier = columns_of(columns, streams, count - 1);
        if streams.contains(columns[count - 1].stream) {
            earlier.push(columns[count - 1])
        } else {
            earlier
        }
    }
}

/// The first position at which the section stands, or the end.
pub open spec fn section_position(
    sections: Seq<(TableDirectoryEntry, SectionView)>,
    section: TableDirectoryEntry,
    from: int,
) -> int
    decreases sections.len() - from,
{
    if from < 0 || from >= sections.len() || sections[from].0 == section {
        from
    } else {
        section_position(sections, section, from + 1)
    }
}

/// A unit that is held in memory in decoded form.
pub struct MemoryUnit {
    pub meta: UnitMeta,
    pub sections: Vec<(TableDirectoryEntry, DecodedSection)>,
}

pub open spec fn held_sections(sections: Seq<(TableDirectoryEntry, DecodedSection)>) -> Seq<
    (TableDirectoryEntry, SectionView),
> {
    sections.map_values(|pair: (TableDirectoryEntry, DecodedSection)| (pair.0, pair.1@))
}

impl MemoryUnit {
    pub fn new(meta: UnitMeta, sections: Vec<(TableDirectoryEntry, DecodedSection)>) -> (unit: Self)
        ensures
            unit.meta == meta,
            unit.sections == sections,
    {
        MemoryUnit { meta, sections }
    }

    fn find(&self, section: TableDirectoryEntry) -> (at: usize)
        ensures
            at == section_position(held_sections(self.sections@), section, 0),
            at <= self.sections@.len(),
    {
        let ghost held = held_sections(self.sections@);
        let mut at: usize = 0;
        while at < self.sections.len() && self.sections[at].0 != section
            invariant
                held == held_sections(self.sections@),
                at <= self.sections@.len(),
                section_position(held, section, 0) == section_position(held, section, at as int),
            decreases self.sections@.len() - at,
        {
            assert(held[at as int].0 == self.sections@[at as int].0);
            at += 1;
        }
        at
    }
}

fn copy_cells(cells: &[Option<CellValue>]) -> (copies: Vec<Option<CellValue>>)
    ensures
        copies@ == cells@,
{
    let mut copies: Vec<Option<CellValue>> = Vec::new();
    let mut index: usize = 0;
    while index < cells.len()
        invariant
            index <= cells@.len(),
            copies@ == cells@.take(index as int),
        decreases cells@.len() - index,
    {
        copies.push(cells[index]);
        index += 1;
        assert(copies@ =~= cells@.take(index as int));
    }
    assert(copies@ =~= cells@);
    copies
}

fn copy_timestamps(timestamps: &[i64]) -> (copies: Vec<i64>)
    ensures
        copies@ == timestamps@,
{
    let mut copies: Vec<i64> = Vec::new();
    let mut index: usize = 0;
    while index < timestamps.len()
        invariant
            index <= timestamps@.len(),
            copies@ == timestamps@.take(index as int),
        decreases timestamps@.len() - index,
    {
        copies.push(timestamps[index]);
        index += 1;
        assert(copies@ =~= timestamps@.take(index as int));
    }
    assert(copies@ =~= timestamps@);
    copies
}

fn contains_stream(streams: &[Stream], stream: Stream) -> (present: bool)
    ensures
        present == streams@.contains(stream),
{
    let mut index: usize = 0;
    while index < streams.len()
        invariant
            index <= streams@.len(),
            forall|i: int| 0 <= i < index ==> streams@[i] != stream,
        decreases streams@.len() - index,
    {
        if streams[index] == stream {
            return true;
        }
        index += 1;
    }
    false
}

pub open spec fn missing_unit() -> Error {
    error::corruption("unit source", "unit metadata is unknown")
}

pub open spec fn missing_section() -> Error {
    error::corruption("unit source", "section is absent")
}

pub open spec fn wrong_version() -> Error {
    error::corruption("unit source", "section has another version")
}

impl UnitSource for MemoryUnit {
    open spec fn directory(&self, unit: UnitMeta, table: TableId) -> Result<
        Seq<TableDirectoryEntry>,
    > {
        if unit == self.meta {
            Ok(
                sections_of(
                    held_sections(self.sections@),
                    table,
                    self.sections@.len() as int,
                ),
            )
        } else {
            Err(missing_unit())
        }
    }

    open spec fn rows_of(
        &self,
        unit: UnitMeta,
        section: TableDirectoryEntry,
        version: VersionView,
    ) -> Result<SectionView> {
        let held = held_sections(self.sections@);
        let at = section_position(held, section, 0);
        if unit != self.meta {
            Err(missing_unit())
        } else if at == held.len() {
            Err(missing_section())
        } else if version.version_no != section.version_no {
            Err(wrong_version())
        } else {
            Ok(held[at].1)
        }
    }

    open spec fn streams_of(
        &self,
        unit: UnitMeta,
        section: TableDirectoryEntry,
        version: VersionView,
        streams: Seq<Stream>,
    ) -> Result<SectionView> {
        match self.rows_of(unit, section, version) {
            Err(e) => Err(e),
            Ok(rows) => Ok(
                SectionView {
                    timestamps: rows.timestamps,
                    columns: columns_of(rows.columns, streams, rows.columns.len() as int),
                },
            ),
        }
    }

    fn table_sections(&self, unit: UnitMeta, table: TableId) -> (r: Result<
        Vec<TableDirectoryEntry>,
    >) {
        if unit != self.meta {
            return Err(Error::corruption("unit source", "unit metadata is unknown"));
        }
        let ghost held = held_sections(self.sections@);
        let mut list: Vec<TableDirectoryEntry> = Vec::new();
        let mut index: usize = 0;
        while index < self.sections.len()
            invariant
                held == held_sections(self.sections@),
                index <= self.sections@.len(),
                list@ == sections_of(held, table, index as int),
            decreases self.sections@.len() - index,
        {
            assert(held[index as int].0 == self.sections@[index as int].0);
            if self.sections[index].0.table == table {
                list.push(self.sections[index].0);
            }
            index += 1;
        }
        Ok(list)
    }

    fn decode_section(
        &self,
        unit: UnitMeta,
        section: TableDirectoryEntry,
        version: &TableVersion,
    ) -> (r: Result<DecodedSection>) {
        if unit != self.meta {
            return Err(Error::corruption("unit source", "unit metadata is unknown"));
        }
        let at: usize = self.find(section);
        if at == self.sections.len() {
            return Err(Error::corruption("unit source", "section is absent"));
        }
        if version.version_no != section.version_no {
            return Err(Error::corruption("unit source", "section has another version"));
        }
        let rows = &self.sections[at].1;
        let mut columns: Vec<DecodedColumn> = Vec::new();
        let mut index: usize = 0;
        while index < rows.columns.len()
            invariant
                index <= rows.columns@.len(),
                columns@.len() == index,
                forall|i: int| 0 <= i < index ==> (#[trigger] columns@[i])@ == rows.columns@[i]@,
            decreases rows.columns@.len() - index,
        {
            let column = &rows.columns[index];
            columns.push(
                DecodedColumn::new(column.series, column.field, copy_cells(column.cells.as_slice())),
            );
            index += 1;
        }
        assert(column_views(columns@) =~= column_views(rows.columns@));
        assert(held_sections(self.sections@)[at as int].1 == rows@);
        Ok(DecodedSection::new(copy_timestamps(rows.timestamps.as_slice()), columns))
    }

    fn decode_streams(
        &self,
        unit: UnitMeta,
        section: TableDirectoryEntry,
        version: &TableVersion,
        streams: &[Stream],
    ) -> (r: Result<DecodedSection>) {
        let whole = match self.decode_section(unit, section, version) {
            Ok(whole) => whole,
            Err(e) => return Err(e),
        };
        let ghost held = whole@.columns;
        let mut columns: Vec<DecodedColumn> = Vec::new();
        let mut index: usize = 0;
        while index < whole.columns.len()
            invariant
                held == column_views(whole.columns@),
                index <= whole.columns@.len(),
                column_views(columns@) == columns_of(held, streams@, index as int),
            decreases whole.columns@.len() - index,
        {
            let column = &whole.columns[index];
            assert(held[index as int] == column@);
            if contains_stream(streams, column.stream()) {
                let ghost before = columns@;
                columns.push(
                    DecodedColumn::new(
                        column.series,
                        column.field,
                        copy_cells(column.cells.as_slice()),
                    ),
                );
                assert(column_views(columns@) =~= column_views(before).push(column@));
            }
            index += 1;
        }
        Ok(DecodedSection::new(whole.timestamps, columns))
    }
}

/// A section can be listed exactly if its version is numbered from one, it ends no earlier than it
/// starts, and it has rows and bytes.
pub proof fn sections_can_be_listed(entry: TableDirectoryEntry)
    ensures
        entry.valid() <==> entry.version_no >= 1 && entry.min_ts <= entry.max_ts && entry.row_count
            >= 1 && entry.section_len >= 1,
{
}

proof fn listed_sections(
    sections: Seq<(TableDirectoryEntry, SectionView)>,
    table: TableId,
    count: int,
    entry: TableDirectoryEntry,
)
    requires
        0 <= count <= sections.len(),
    ensures
        sections_of(sections, table, count).contains(entry) <==> entry.table == table && exists|
            i: int,
        |
            0 <= i < count && (#[trigger] sections[i]).0 == entry,
    decreases count,
{
    if count > 0 {
        listed_sections(sections, table, count - 1, entry);
        let earlier = sections_of(sections, table, count - 1);
        let all = sections_of(sections, table, count);
        if all.contains(entry) {
            let k = choose|k: int| 0 <= k < all.len() && all[k] == entry;
            if k < earlier.len() {
                assert(earlier[k] == entry);
                assert(earlier.contains(entry));
            } else {
                assert(sections[count - 1].0 == entry);
            }
        }
        if entry.table == table && exists|i: int|
            0 <= i < count && (#[trigger] sections[i]).0 == entry {
            let i = choose|i: int| 0 <= i < count && (#[trigger] sections[i]).0 == entry;
            if i < count - 1 {
                assert(earlier.contains(entry));
                let k = choose|k: int| 0 <= k < earlier.len() && earlier[k] == entry;
                assert(all[k] == entry);
            } else {
                assert(all[all.len() - 1] == entry);
            }
        }
    }
}

proof fn listed_columns(columns: Seq<ColumnView>, streams: Seq<Stream>, count: int, column: ColumnView)
    requires
        0 <= count <= columns.len(),
    ensures
        columns_of(columns, streams, count).contains(column) <==> streams.contains(column.stream)
            && exists|i: int| 0 <= i < count && #[trigger] columns[i] == column,
    decreases count,
{
    if count > 0 {
        listed_columns(columns, streams, count - 1, column);
        let earlier = columns_of(columns, streams, count - 1);
        let all = columns_of(columns, streams, count);
        if all.contains(column) {
            let k = choose|k: int| 0 <= k < all.len() && all[k] == column;
            if k < earlier.len() {
                assert(earlier[k] == column);
                assert(earlier.contains(column));
            } else {
                assert(columns[count - 1] == column);
            }
        }
        if streams.contains(column.stream) && exists|i: int|
            0 <= i < count && #[trigger] columns[i] == column {
            let i = choose|i: int| 0 <= i < count && #[trigger] columns[i] == column;
            if i < count - 1 {
                assert(earlier.contains(column));
                let k = choose|k: int| 0 <= k < earlier.len() && earlier[k] == column;
                assert(all[k] == column);
            } else {
                assert(all[all.len() - 1] == column);
            }
        }
    }
}

proof fn held_position(
    sections: Seq<(TableDirectoryEntry, SectionView)>,
    section: TableDirectoryEntry,
    from: int,
    at: int,
)
    requires
        0 <= from <= at < sections.len(),
        sections[at].0 == section,
        forall|i: int| 0 <= i < at ==> (#[trigger] sections[i]).0 != section,
    ensures
        section_position(sections, section, from) == at,
    decreases at - from,
{
    if from < at {
        held_position(sections, section, from + 1, at);
    }
}

proof fn absent_position(
    sections: Seq<(TableDirectoryEntry, SectionView)>,
    section: TableDirectoryEntry,
    from: int,
)
    requires
        0 <= from <= sections.len(),
        forall|i: int| 0 <= i < sections.len() ==> (#[trigger] sections[i]).0 != section,
    ensures
        section_position(sections, section, from) == sections.len(),
    decreases sections.len() - from,
{
    if from < sections.len() {
        absent_position(sections, section, from + 1);
    }
}

/// A unit in memory lists of a table exactly the sections that it was made with, and knows no other
/// unit.
pub proof fn units_list_their_sections(
    unit: &MemoryUnit,
    meta: UnitMeta,
    table: TableId,
    entry: TableDirectoryEntry,
)
    ensures
        unit.directory(meta, table) is Ok <==> meta == unit.meta,
        unit.directory(meta, table) matches Ok(list) ==> (list.contains(entry) <==> entry.table
            == table && exists|i: int|
            0 <= i < unit.sections@.len() && (#[trigger] unit.sections@[i]).0 == entry),
{
    let held = held_sections(unit.sections@);
    listed_sections(held, table, unit.sections@.len() as int, entry);
    if exists|i: int| 0 <= i < held.len() && (#[trigger] held[i]).0 == entry {
        let i = choose|i: int| 0 <= i < held.len() && (#[trigger] held[i]).0 == entry;
        assert(unit.sections@[i].0 == entry);
    }
    if exists|i: int| 0 <= i < unit.sections@.len() && (#[trigger] unit.sections@[i]).0 == entry {
        let i = choose|i: int|
            0 <= i < unit.sections@.len() && (#[trigger] unit.sections@[i]).0 == entry;
        assert(held[i].0 == entry);
    }
}

/// A unit in memory gives the rows of a section as it was made with them, to whoever asks with the
/// version of the section; restricted to some streams it gives all times and exactly the columns
/// of these streams. What it does not have, it refuses.
pub proof fn units_give_their_rows(
    unit: &MemoryUnit,
    meta: UnitMeta,
    section: TableDirectoryEntry,
    version: VersionView,
    streams: Seq<Stream>,
    at: int,
    column: ColumnView,
)
    requires
        0 <= at < unit.sections@.len(),
        unit.sections@[at].0 == section,
        forall|i: int| 0 <= i < at ==> (#[trigger] unit.sections@[i]).0 != section,
    ensures
        unit.rows_of(meta, section, version) is Ok <==> meta == unit.meta && version.version_no
            == section.version_no,
        unit.rows_of(meta, section, version) matches Ok(rows) ==> rows == unit.sections@[at].1@,
        unit.streams_of(meta, section, version, streams) is Ok <==> meta == unit.meta
            && version.version_no == section.version_no,
        unit.streams_of(meta, section, version, streams) matches Ok(rows) ==> rows.timestamps
            == unit.sections@[at].1@.timestamps && (rows.columns.contains(column)
            <==> streams.contains(column.stream) && unit.sections@[at].1@.columns.contains(column)),
{
    let held = held_sections(unit.sections@);
    assert forall|i: int| 0 <= i < at implies (#[trigger] held[i]).0 != section by {
        assert(unit.sections@[i].0 != section);
    }
    held_position(held, section, 0, at);
    let columns = held[at].1.columns;
    listed_columns(columns, streams, columns.len() as int, column);
    if columns.contains(column) {
        let i = choose|i: int| 0 <= i < columns.len() && columns[i] == column;
        assert(columns[i] == column);
    }
}

/// A unit in memory gives no rows of a section that it does not have.
pub proof fn units_give_no_other_rows(
    unit: &MemoryUnit,
    meta: UnitMeta,
    section: TableDirectoryEntry,
    version: VersionView,
    streams: Seq<Stream>,
)
    requires
        forall|i: int| 0 <= i < unit.sections@.len() ==> (#[trigger] unit.sections@[i]).0 != section,
    ensures
        unit.rows_of(meta, section, version) is Err,
        unit.streams_of(meta, section, version, streams) is Err,
{
    let held = held_sections(unit.sections@);
    assert forall|i: int| 0 <= i < held.len() implies (#[trigger] held[i]).0 != section by {
        assert(unit.sections@[i].0 != section);
    }
    absent_position(held, section, 0);
}

} // verus!
