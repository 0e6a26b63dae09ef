//! The values that are in the log but not yet in a sealed unit.
use vstd::prelude::*;

use crate::error::{self, Error, Result};
use crate::manifest::catalog::{self, FieldRetirement, SeriesRetirement};
use crate::ordmap::{self, OrderedKey, OrderedMap};
use crate::types::{
    self, CellValue, FieldId, FieldSchema, SeriesId, TableId, TableVersion, VersionSpec,
    VersionView,
};

verus! {

/// One value of an observation.
#[derive(Clone, Copy, Debug, PartialEq, Eq, Structural)]
pub struct ObservationEntry {
    pub series: SeriesId,
    pub field: FieldId,
    pub value: CellValue,
}

impl ObservationEntry {
    pub fn new(series: SeriesId, field: FieldId, value: CellValue) -> (entry: Self)
        ensures
            entry == (ObservationEntry { series, field, value }),
    {
        ObservationEntry { series, field, value }
    }

    pub open spec fn stream(self) -> Stream {
        Stream { series: self.series, field: self.field }
    }
}

/// A stream inside a table.
#[derive(Clone, Copy, Debug, PartialEq, Eq, Structural)]
pub struct Stream {
    pub series: SeriesId,
    pub field: FieldId,
}

impl OrderedKey for Stream {
    open spec fn rank(self) -> int {
        types::stream_rank(self.series, self.field)
    }

    proof fn rank_injective(left: Self, right: Self) {
    }

    fn precedes(&self, other: &Self) -> (before: bool) {
        self.series.value < other.series.value || (self.series.value == other.series.value
            && self.field.value < other.field.value)
    }
}

/// Whether the streams of the entries strictly increase.
pub open spec fn entries_ordered(entries: Seq<ObservationEntry>) -> bool {
    forall|i: int, j: int|
        0 <= i < j < entries.len() ==> (#[trigger] entries[i]).stream().rank() < (
        #[trigger] entries[j]).stream().rank()
}

/// Whether some entry is of the stream.
pub open spec fn has_stream(entries: Seq<ObservationEntry>, stream: Stream) -> bool {
    exists|i: int| 0 <= i < entries.len() && (#[trigger] entries[i]).stream() == stream
}

/// The value of the stream, if the entries have one.
pub open spec fn cell_of(entries: Seq<ObservationEntry>, stream: Stream) -> Option<CellValue> {
    if has_stream(entries, stream) {
        Some(
            entries[choose|i: int|
                0 <= i < entries.len() && (#[trigger] entries[i]).stream() == stream].value,
        )
    } else {
        None
    }
}

pub(crate) proof fn cell_at(entries: Seq<ObservationEntry>, i: int)
    requires
        entries_ordered(entries),
        0 <= i < entries.len(),
    ensures
        has_stream(entries, entries[i].stream()),
        cell_of(entries, entries[i].stream()) == Some(entries[i].value),
{
    let stream = entries[i].stream();
    assert(entries[i].stream() == stream);
    let j = choose|j: int| 0 <= j < entries.len() && (#[trigger] entries[j]).stream() == stream;
    if i < j {
        assert(entries[i].stream().rank() < entries[j].stream().rank());
    } else if j < i {
        assert(entries[j].stream().rank() < entries[i].stream().rank());
    }
}

fn check_entries(entries: &[ObservationEntry]) -> (good: bool)
    ensures
        good == entries_ordered(entries@),
{
    let mut index: usize = 1;
    while index < entries.len()
        invariant
            1 <= index,
            index <= entries@.len() || entries@.len() == 0,
            forall|i: int, j: int|
                0 <= i < j < index && j < entries@.len() ==> (
                #[trigger] entries@[i]).stream().rank() < (#[trigger] entries@[j]).stream().rank(),
        decreases entries@.len() - index,
    {
        let left = Stream {
            series: entries[index - 1].series,
            field: entries[index - 1].field,
        };
        let right = Stream { series: entries[index].series, field: entries[index].field };
        if !left.precedes(&right) {
            assert(!(entries@[index - 1].stream().rank() < entries@[index as int].stream().rank()));
            return false;
        }
        assert forall|i: int, j: int| 0 <= i < j < index + 1 && j < entries@.len() implies (
        #[trigger] entries@[i]).stream().rank() < (#[trigger] entries@[j]).stream().rank() by {
            if j == index && i < index - 1 {
                assert(entries@[i].stream().rank() < entries@[index - 1].stream().rank());
            }
        }
        index += 1;
    }
    true
}

/// Looks a stream up in ordered entries.
pub fn find_entry(entries: &[ObservationEntry], stream: Stream) -> (found: Option<usize>)
    requires
        entries_ordered(entries@),
    ensures
        match found {
            Some(at) => at < entries@.len() && entries@[at as int].stream() == stream && cell_of(
                entries@,
                stream,
            ) == Some(entries@[at as int].value),
            None => cell_of(entries@, stream) is None,
        },
{
    let mut low: usize = 0;
    let mut high: usize = entries.len();
    while low < high
        invariant
            entries_ordered(entries@),
            low <= high <= entries@.len(),
            forall|i: int|
                0 <= i < low ==> (#[trigger] entries@[i]).stream().rank() < stream.rank(),
            forall|i: int|
                high <= i < entries@.len() ==> stream.rank() <= (
                #[trigger] entries@[i]).stream().rank(),
        decreases high - low,
    {
        let middle: usize = low + (high - low) / 2;
        let candidate = Stream { series: entries[middle].series, field: entries[middle].field };
        if candidate.precedes(&stream) {
            assert forall|i: int| 0 <= i < middle + 1 implies (
            #[trigger] entries@[i]).stream().rank() < stream.rank() by {
                if i < middle {
                    assert(entries@[i].stream().rank() < entries@[middle as int].stream().rank());
                }
            }
            low = middle + 1;
        } else {
            assert forall|i: int| middle <= i < entries@.len() implies stream.rank() <= (
            #[trigger] entries@[i]).stream().rank() by {
                if middle < i {
                    assert(entries@[middle as int].stream().rank() < entries@[i].stream().rank());
                }
            }
            high = middle;
        }
    }
    if low < entries.len() && entries[low].series == stream.series && entries[low].field
        == stream.field {
        proof {
            cell_at(entries@, low as int);
        }
        Some(low)
    } else {
        proof {
            if has_stream(entries@, stream) {
                let i = choose|i: int|
                    0 <= i < entries@.len() && (#[trigger] entries@[i]).stream() == stream;
                if low < i {
                    assert(entries@[low as int].stream().rank() < entries@[i].stream().rank());
                }
            }
        }
        None
    }
}

/// The values that one table took at one time.
#[derive(Clone, Debug, PartialEq, Eq)]
pub struct Observation {
    pub timestamp: i64,
    pub entries: Vec<ObservationEntry>,
}

impl Observation {
    pub fn new(timestamp: i64, entries: Vec<ObservationEntry>) -> (r: Result<Self>)
        ensures
            match r {
                Ok(observation) => entries@.len() > 0 && entries_ordered(entries@)
                    && observation.timestamp == timestamp && observation.entries == entries,
                Err(e) => (entries@.len() == 0 || !entries_ordered(entries@)) && e
                    == error::invalid(
                    "observation",
                    "entries must be present and strictly ordered",
                ),
            },
    {
        if entries.len() == 0 || !check_entries(entries.as_slice()) {
            return Err(
                Error::invalid("observation", "entries must be present and strictly ordered"),
            );
        }
        Ok(Observation { timestamp, entries })
    }
}

/// One row of the tail.
pub struct TailRow {
    pub timestamp: i64,
    pub entries: Vec<ObservationEntry>,
}

pub struct RowView {
    pub timestamp: i64,
    pub entries: Seq<ObservationEntry>,
}

impl View for TailRow {
    type V = RowView;

    open spec fn view(&self) -> RowView {
        RowView { timestamp: self.timestamp, entries: self.entries@ }
    }
}

impl TailRow {
    pub fn timestamp(&self) -> (timestamp: i64)
        ensures
            timestamp == self.timestamp,
    {
        self.timestamp
    }
}

pub open spec fn row_views(rows: Seq<TailRow>) -> Seq<RowView> {
    rows.map_values(|row: TailRow| row@)
}

/// Whether timestamps strictly increase and every row's entries are ordered.
pub open spec fn rows_wf(rows: Seq<RowView>) -> bool {
    &&& forall|i: int, j: int|
        0 <= i < j < rows.len() ==> (#[trigger] rows[i]).timestamp < (#[trigger] rows[j]).timestamp
    &&& forall|i: int| 0 <= i < rows.len() ==> entries_ordered((#[trigger] rows[i]).entries)
}

/// The rows that hold a value of the stream, in order.
pub open spec fn row_indices(rows: Seq<RowView>, stream: Stream) -> Seq<int>
    decreases rows.len(),
{
    if rows.len() == 0 {
        Seq::empty()
    } else {
        let earlier = row_indices(rows.drop_last(), stream);
        if has_stream(rows.last().entries, stream) {
            earlier.push(rows.len() - 1)
        } else {
            earlier
        }
    }
}

/// What `row_indices` lists: increasing positions of exactly the rows that hold the stream.
pub(crate) proof fn row_indices_facts(rows: Seq<RowView>, stream: Stream)
    ensures
        forall|j: int|
            0 <= j < row_indices(rows, stream).len() ==> 0 <= #[trigger] row_indices(
                rows,
                stream,
            )[j] < rows.len() && has_stream(rows[row_indices(rows, stream)[j]].entries, stream),
        forall|j: int, k: int|
            0 <= j < k < row_indices(rows, stream).len() ==> (#[trigger] row_indices(
                rows,
                stream,
            )[j]) < (#[trigger] row_indices(rows, stream)[k]),
        forall|i: int|
            0 <= i < rows.len() && has_stream((#[trigger] rows[i]).entries, stream) ==> row_indices(
                rows,
                stream,
            ).contains(i),
    decreases rows.len(),
{
    if rows.len() > 0 {
        let front = rows.drop_last();
        row_indices_facts(front, stream);
        let earlier = row_indices(front, stream);
        let all = row_indices(rows, stream);
        assert forall|j: int| 0 <= j < all.len() implies 0 <= #[trigger] all[j] < rows.len()
            && has_stream(rows[all[j]].entries, stream) by {
            if j < earlier.len() {
                assert(all[j] == earlier[j]);
                assert(rows[all[j]] == front[earlier[j]]);
            }
        }
        assert forall|j: int, k: int| 0 <= j < k < all.len() implies (#[trigger] all[j]) < (
        #[trigger] all[k]) by {
            assert(all[j] == earlier[j]);
            if k < earlier.len() {
                assert(all[k] == earlier[k]);
            }
        }
        assert forall|i: int|
            0 <= i < rows.len() && has_stream(
                (#[trigger] rows[i]).entries,
                stream,
            ) implies all.contains(i) by {
            if i < rows.len() - 1 {
                assert(front[i] == rows[i]);
                assert(earlier.contains(i));
                let j = choose|j: int| 0 <= j < earlier.len() && earlier[j] == i;
                assert(all[j] == i);
            } else {
                assert(all[all.len() - 1] == i);
            }
        }
    }
}

/// What the tail knows of one table: its schema history, its clock, its rows, and for each stream
/// the rows that hold it.
pub struct TailTable {
    pub last_ts: Option<i64>,
    pub versions: Vec<TableVersion>,
    pub retired_series: Vec<SeriesRetirement>,
    pub retired_fields: Vec<FieldRetirement>,
    pub rows: Vec<TailRow>,
    pub postings: OrderedMap<Stream, Vec<u32>>,
}

/// The rows listed for a stream.
pub open spec fn listed_rows(postings: Map<Stream, Vec<u32>>, stream: Stream) -> Seq<int> {
    if postings.contains_key(stream) {
        postings[stream]@.map_values(|row: u32| row as int)
    } else {
        Seq::empty()
    }
}

pub struct TailTableView {
    pub last_ts: Option<i64>,
    pub versions: Seq<VersionView>,
    pub retired_series: Seq<SeriesRetirement>,
    pub retired_fields: Seq<FieldRetirement>,
    pub rows: Seq<RowView>,
}

impl View for TailTable {
    type V = TailTableView;

    open spec fn view(&self) -> TailTableView {
        TailTableView {
            last_ts: self.last_ts,
            versions: types::version_views(self.versions@),
            retired_series: self.retired_series@,
            retired_fields: self.retired_fields@,
            rows: row_views(self.rows@),
        }
    }
}

/// Whether version numbers strictly increase.
pub open spec fn versions_numbered(versions: Seq<VersionView>) -> bool {
    forall|i: int, j: int|
        0 <= i < j < versions.len() ==> (#[trigger] versions[i]).version_no < (
        #[trigger] versions[j]).version_no
}

impl TailTableView {
    pub open spec fn wf(self) -> bool {
        &&& self.versions.len() > 0
        &&& versions_numbered(self.versions)
        &&& forall|i: int| 0 <= i < self.versions.len() ==> (#[trigger] self.versions[i]).wf()
        &&& catalog::series_ordered(self.retired_series)
        &&& catalog::retired_fields_ordered(self.retired_fields)
        &&& rows_wf(self.rows)
        &&& self.rows.len() > 0 ==> self.last_ts == Some(self.rows.last().timestamp)
    }

    /// When the series was retired, if it was.
    pub open spec fn series_cutoff(self, series: SeriesId) -> Option<i64> {
        if exists|i: int|
            0 <= i < self.retired_series.len() && (#[trigger] self.retired_series[i]).series
                == series {
            Some(
                self.retired_series[choose|i: int|
                    0 <= i < self.retired_series.len() && (
                    #[trigger] self.retired_series[i]).series == series].retire_ts,
            )
        } else {
            None
        }
    }

    /// When the field was retired, if it was.
    pub open spec fn field_cutoff(self, field: FieldId) -> Option<i64> {
        if exists|i: int|
            0 <= i < self.retired_fields.len() && (#[trigger] self.retired_fields[i]).field
                == field {
            Some(
                self.retired_fields[choose|i: int|
                    0 <= i < self.retired_fields.len() && (
                    #[trigger] self.retired_fields[i]).field == field].retire_ts,
            )
        } else {
            None
        }
    }

    /// The later of the two retirements that concern a stream.
    pub open spec fn cutoff(self, stream: Stream) -> Option<i64> {
        match (self.series_cutoff(stream.series), self.field_cutoff(stream.field)) {
            (None, None) => None,
            (Some(ts), None) => Some(ts),
            (None, Some(ts)) => Some(ts),
            (Some(left), Some(right)) => Some(
                if left < right {
                    right
                } else {
                    left
                },
            ),
        }
    }
}

impl TailTable {
    pub open spec fn wf(&self) -> bool {
        &&& self@.wf()
        &&& self.postings.wf()
        &&& self.rows@.len() <= u32::MAX
        &&& forall|stream: Stream| #[trigger]
            row_indices(self@.rows, stream) == listed_rows(self.postings@, stream)
    }

    pub fn last_ts(&self) -> (last_ts: Option<i64>)
        ensures
            last_ts == self.last_ts,
    {
        self.last_ts
    }

    pub fn versions(&self) -> (versions: &[TableVersion])
        ensures
            versions@ == self.versions@,
    {
        self.versions.as_slice()
    }

    pub fn rows(&self) -> (rows: &[TailRow])
        ensures
            rows@ == self.rows@,
    {
        self.rows.as_slice()
    }

    /// The rows that hold the stream, if there are any.
    pub fn stream_rows(&self, stream: Stream) -> (rows: Option<&[u32]>)
        requires
            self.wf(),
        ensures
            match rows {
                Some(list) => list@.map_values(|row: u32| row as int) == row_indices(
                    self@.rows,
                    stream,
                ),
                None => row_indices(self@.rows, stream).len() == 0,
            },
    {
        match self.postings.get(&stream) {
            Some(list) => {
                assert(row_indices(self@.rows, stream) == listed_rows(self.postings@, stream));
                Some(list.as_slice())
            },
            None => {
                assert(row_indices(self@.rows, stream) == listed_rows(self.postings@, stream));
                None
            },
        }
    }

    pub fn retired_series_at(&self, series: SeriesId) -> (ts: Option<i64>)
        requires
            self.wf(),
        ensures
            ts == self@.series_cutoff(series),
    {
        let mut index: usize = 0;
        while index < self.retired_series.len()
            invariant
                self.wf(),
                index <= self.retired_series@.len(),
                forall|i: int|
                    0 <= i < index ==> (#[trigger] self.retired_series@[i]).series != series,
            decreases self.retired_series@.len() - index,
        {
            if self.retired_series[index].series == series {
                proof {
                    let list = self@.retired_series;
                    assert(list[index as int].series == series);
                    let i = choose|i: int|
                        0 <= i < list.len() && (#[trigger] list[i]).series == series;
                    if i < index {
                    } else if index < i {
                        assert(list[index as int].series.value < list[i].series.value);
                    }
                }
                return Some(self.retired_series[index].retire_ts);
            }
            index += 1;
        }
        None
    }

    pub fn retired_field_at(&self, field: FieldId) -> (ts: Option<i64>)
        requires
            self.wf(),
        ensures
            ts == self@.field_cutoff(field),
    {
        let mut index: usize = 0;
        while index < self.retired_fields.len()
            invariant
                self.wf(),
                index <= self.retired_fields@.len(),
                forall|i: int|
                    0 <= i < index ==> (#[trigger] self.retired_fields@[i]).field != field,
            decreases self.retired_fields@.len() - index,
        {
            if self.retired_fields[index].field == field {
                proof {
                    let list = self@.retired_fields;
                    assert(list[index as int].field == field);
                    let i = choose|i: int|
                        0 <= i < list.len() && (#[trigger] list[i]).field == field;
                    if i < index {
                    } else if index < i {
                        assert(list[index as int].field.value < list[i].field.value);
                    }
                }
                return Some(self.retired_fields[index].retire_ts);
            }
            index += 1;
        }
        None
    }

    /// The later of the two retirements that concern a stream.
    pub fn cutoff(&self, stream: Stream) -> (ts: Option<i64>)
        requires
            self.wf(),
        ensures
            ts == self@.cutoff(stream),
    {
        match (self.retired_series_at(stream.series), self.retired_field_at(stream.field)) {
            (None, None) => None,
            (Some(ts), None) => Some(ts),
            (None, Some(ts)) => Some(ts),
            (Some(left), Some(right)) => Some(
                if left < right {
                    right
                } else {
                    left
                },
            ),
        }
    }
}

/// A table as a catalog hands it to the tail.
pub struct RecoveredTable {
    pub table: TableId,
    pub last_ts: Option<i64>,
    pub versions: Vec<TableVersion>,
    pub retired_series: Vec<SeriesRetirement>,
    pub retired_fields: Vec<FieldRetirement>,
}

impl RecoveredTable {
    pub fn new(
        table: TableId,
        last_ts: Option<i64>,
        versions: Vec<TableVersion>,
        retired_series: Vec<SeriesRetirement>,
        retired_fields: Vec<FieldRetirement>,
    ) -> (recovered: Self)
        ensures
            recovered == (RecoveredTable {
                table,
                last_ts,
                versions,
                retired_series,
                retired_fields,
            }),
    {
        RecoveredTable { table, last_ts, versions, retired_series, retired_fields }
    }

    /// What the tail holds of the table before any record was replayed.
    pub open spec fn empty_view(&self) -> TailTableView {
        TailTableView {
            last_ts: self.last_ts,
            versions: types::version_views(self.versions@),
            retired_series: self.retired_series@,
            retired_fields: self.retired_fields@,
            rows: Seq::empty(),
        }
    }
}

/// A mutation that a record carries.
pub enum RecordBody {
    CreateTable { table: TableId, spec: VersionSpec },
    AppendObservation { table: TableId, observation: Observation },
    RetireSeries { table: TableId, series: SeriesId, retire_ts: i64 },
}

/// Everything that the log holds behind the catalog.
pub struct TailIndex {
    pub table_high_water: u32,
    pub next_seq: u64,
    pub tables: OrderedMap<TableId, TailTable>,
}

pub struct TailView {
    pub table_high_water: u32,
    pub next_seq: u64,
    pub tables: Map<TableId, TailTableView>,
}

pub open spec fn tail_tables(tables: Map<TableId, TailTable>) -> Map<TableId, TailTableView> {
    tables.map_values(|table: TailTable| table@)
}

impl View for TailIndex {
    type V = TailView;

    open spec fn view(&self) -> TailView {
        TailView {
            table_high_water: self.table_high_water,
            next_seq: self.next_seq,
            tables: tail_tables(self.tables@),
        }
    }
}

pub open spec fn tail_corruption(reason: &'static str) -> Error {
    error::corruption("tail", reason)
}

/// Whether every value of an observation fits the schema.
pub open spec fn values_fit(entries: Seq<ObservationEntry>, fields: Seq<FieldSchema>) -> bool {
    forall|i: int|
        0 <= i < entries.len() ==> types::has_field(fields, (#[trigger] entries[i]).field)
            && entries[i].value.spec_matches(types::field_type(fields, entries[i].field))
}

/// The versions once a value arrived at `timestamp`: a latest version that was inactive is active
/// from then on.
pub open spec fn activated(versions: Seq<VersionView>, timestamp: i64) -> Seq<VersionView> {
    let last = versions.len() - 1;
    if versions[last].effective_from is None {
        versions.update(
            last,
            VersionView { effective_from: Some(timestamp), ..versions[last] },
        )
    } else {
        versions
    }
}

/// A table after an observation.
pub open spec fn observed(table: TailTableView, timestamp: i64, entries: Seq<ObservationEntry>)
    -> TailTableView {
    TailTableView {
        last_ts: Some(timestamp),
        versions: activated(table.versions, timestamp),
        rows: table.rows.push(RowView { timestamp, entries }),
        ..table
    }
}

impl TailIndex {
    pub open spec fn wf(&self) -> bool {
        &&& self.tables.wf()
        &&& forall|i: int|
            0 <= i < self.tables.entries@.len() ==> (#[trigger] self.tables.entries@[i]).1.wf()
    }

    pub fn new(table_high_water: u32, next_seq: u64) -> (tail: Self)
        ensures
            tail.wf(),
            tail@ == (TailView { table_high_water, next_seq, tables: Map::empty() }),
    {
        let tail = TailIndex { table_high_water, next_seq, tables: OrderedMap::new() };
        assert(tail@.tables =~= Map::empty());
        tail
    }

    pub fn table_high_water(&self) -> (high_water: u32)
        ensures
            high_water == self.table_high_water,
    {
        self.table_high_water
    }

    pub fn next_seq(&self) -> (next_seq: u64)
        ensures
            next_seq == self.next_seq,
    {
        self.next_seq
    }

    pub fn table(&self, table: TableId) -> (found: Option<&TailTable>)
        requires
            self.wf(),
        ensures
            match found {
                Some(state) => self@.tables.contains_key(table) && state@ == self@.tables[table]
                    && state.wf(),
                None => !self@.tables.contains_key(table),
            },
    {
        match self.tables.find(&table) {
            Some(at) => Some(&self.tables.entries[at].1),
            None => None,
        }
    }
}

/// Setting a table keeps the tail well-formed.
proof fn tail_set(tail: &TailIndex, before: Map<TableId, TailTable>, id: TableId, table: TailTable)
    requires
        tail.tables@ == before.insert(id, table),
    ensures
        tail@.tables == tail_tables(before).insert(id, table@),
{
    assert(tail@.tables =~= tail_tables(before).insert(id, table@));
}

/// Entries of a table map after one was set: each is the new one or was there before.
proof fn placed_entries(
    entries: Seq<(TableId, TailTable)>,
    id: TableId,
    table: TailTable,
    i: int,
)
    requires
        0 <= i < ordmap::placed(entries, id, table).len(),
    ensures
        ordmap::placed(entries, id, table)[i].1 == table || exists|j: int|
            0 <= j < entries.len() && (#[trigger] entries[j]) == ordmap::placed(
                entries,
                id,
                table,
            )[i],
    decreases entries.len(),
{
    let after = ordmap::placed(entries, id, table);
    if entries.len() == 0 {
    } else if entries.last().0.rank() < id.rank() {
        if i < entries.len() {
            assert(entries[i] == after[i]);
        }
    } else if entries.last().0.rank() == id.rank() {
        if i < entries.len() - 1 {
            assert(entries[i] == after[i]);
        }
    } else {
        let front = ordmap::placed(entries.drop_last(), id, table);
        if i < front.len() {
            placed_entries(entries.drop_last(), id, table, i);
            if front[i].1 != table {
                let j = choose|j: int|
                    0 <= j < entries.drop_last().len() && (#[trigger] entries.drop_last()[j])
                        == front[i];
                assert(entries[j] == after[i]);
            }
        } else {
            assert(entries[entries.len() - 1] == after[i]);
        }
    }
}

impl TailIndex {
    /// Sets the state of a table.
    fn set_table(&mut self, id: TableId, table: TailTable)
        requires
            old(self).wf(),
            table.wf(),
        ensures
            final(self).wf(),
            final(self).table_high_water == old(self).table_high_water,
            final(self).next_seq == old(self).next_seq,
            final(self)@.tables == old(self)@.tables.insert(id, table@),
    {
        let ghost before = self.tables.entries@;
        let ghost map = self.tables@;
        self.tables.insert(id, table);
        proof {
            tail_set(self, map, id, table);
            assert forall|i: int| 0 <= i < self.tables.entries@.len() implies (
            #[trigger] self.tables.entries@[i]).1.wf() by {
                placed_entries(before, id, table, i);
                if self.tables.entries@[i].1 != table {
                    let j = choose|j: int|
                        0 <= j < before.len() && (#[trigger] before[j])
                            == self.tables.entries@[i];
                    assert(before[j].1.wf());
                }
            }
        }
    }
}

/// Why the tables of a catalog cannot be restored, by the first that cannot.
pub open spec fn restore_refusal(tables: Seq<RecoveredTable>, count: int) -> Option<Error>
    decreases count,
{
    if count <= 0 {
        None
    } else {
        let earlier = restore_refusal(tables, count - 1);
        if earlier is Some {
            earlier
        } else if !tables[count - 1].empty_view().wf() {
            Some(tail_corruption("recovered table is malformed"))
        } else {
            None
        }
    }
}

/// The tables of a catalog as the tail starts out with them.
pub open spec fn restored_tables(tables: Seq<RecoveredTable>, count: int) -> Map<
    TableId,
    TailTableView,
>
    decreases count,
{
    if count <= 0 {
        Map::empty()
    } else {
        restored_tables(tables, count - 1).insert(
            tables[count - 1].table,
            tables[count - 1].empty_view(),
        )
    }
}

proof fn restore_refusal_is_final(tables: Seq<RecoveredTable>, count: int)
    requires
        0 <= count <= tables.len(),
    ensures
        restore_refusal(tables, count) is Some ==> restore_refusal(tables, tables.len() as int)
            == restore_refusal(tables, count),
    decreases tables.len() - count,
{
    if count < tables.len() {
        restore_refusal_is_final(tables, count + 1);
    }
}

fn check_recovered(table: &RecoveredTable) -> (good: bool)
    ensures
        good == table.empty_view().wf(),
{
    let ghost view = table.empty_view();
    if table.versions.len() == 0 {
        return false;
    }
    let mut index: usize = 0;
    while index < table.versions.len()
        invariant
            index <= table.versions@.len(),
            view == table.empty_view(),
            view.versions.len() == table.versions@.len(),
            forall|i: int| 0 <= i < index ==> (#[trigger] view.versions[i]).wf(),
            forall|i: int, j: int|
                0 <= i < j < index ==> (#[trigger] view.versions[i]).version_no < (
                #[trigger] view.versions[j]).version_no,
        decreases table.versions@.len() - index,
    {
        let version = &table.versions[index];
        assert(view.versions[index as int] == version@);
        let positive: bool = match version.validity.duration() {
            Some(seconds) => seconds > 0,
            None => true,
        };
        if !positive || !types::check_fields(version.fields.as_slice()) {
            assert(!view.versions[index as int].wf());
            return false;
        }
        if index > 0 {
            assert(view.versions[index - 1] == table.versions@[index - 1]@);
            if table.versions[index - 1].version_no >= version.version_no {
                assert(!(view.versions[index - 1].version_no
                    < view.versions[index as int].version_no));
                return false;
            }
        }
        assert forall|i: int, j: int| 0 <= i < j < index + 1 implies (
        #[trigger] view.versions[i]).version_no < (#[trigger] view.versions[j]).version_no by {
            if j == index && i < index - 1 {
                assert(view.versions[i].version_no < view.versions[index - 1].version_no);
            }
        }
        index += 1;
    }
    catalog::check_series(table.retired_series.as_slice()) && catalog::check_retired_fields(
        table.retired_fields.as_slice(),
    )
}

impl TailIndex {
    /// Starts a tail behind a catalog.
    pub fn restore(table_high_water: u32, next_seq: u64, tables: Vec<RecoveredTable>) -> (r: Result<
        Self,
    >)
        ensures
            match restore_refusal(tables@, tables@.len() as int) {
                Some(e) => r matches Err(found) && found == e,
                None => r matches Ok(tail) && tail.wf() && tail@ == (TailView {
                    table_high_water,
                    next_seq,
                    tables: restored_tables(tables@, tables@.len() as int),
                }),
            },
    {
        let mut tail = TailIndex::new(table_high_water, next_seq);
        let mut index: usize = 0;
        while index < tables.len()
            invariant
                index <= tables@.len(),
                tail.wf(),
                tail.table_high_water == table_high_water,
                tail.next_seq == next_seq,
                restore_refusal(tables@, index as int) is None,
                tail@.tables == restored_tables(tables@, index as int),
            decreases tables@.len() - index,
        {
            let source = &tables[index];
            proof {
                restore_refusal_is_final(tables@, index + 1);
            }
            if !check_recovered(source) {
                return Err(Error::corruption("tail", "recovered table is malformed"));
            }
            let table = TailTable {
                last_ts: source.last_ts,
                versions: types::copy_versions(source.versions.as_slice()),
                retired_series: catalog::copy_slice(source.retired_series.as_slice()),
                retired_fields: catalog::copy_slice(source.retired_fields.as_slice()),
                rows: Vec::new(),
                postings: OrderedMap::new(),
            };
            proof {
                assert(row_views(table.rows@) =~= Seq::<RowView>::empty());
                assert(table@ == source.empty_view());
            }
            tail.set_table(source.table, table);
            index += 1;
        }
        Ok(tail)
    }
}

/// Adds the row number to the list of every stream in the entries.
fn post_row(postings: &mut OrderedMap<Stream, Vec<u32>>, entries: &[ObservationEntry], row: u32)
    requires
        old(postings).wf(),
        entries_ordered(entries@),
    ensures
        final(postings).wf(),
        forall|stream: Stream| #[trigger]
            listed_rows(final(postings)@, stream) == (if has_stream(entries@, stream) {
                listed_rows(old(postings)@, stream).push(row as int)
            } else {
                listed_rows(old(postings)@, stream)
            }),
{
    let mut index: usize = 0;
    assert(entries@.take(0) =~= Seq::<ObservationEntry>::empty());
    while index < entries.len()
        invariant
            index <= entries@.len(),
            postings.wf(),
            entries_ordered(entries@),
            forall|stream: Stream| #[trigger]
                listed_rows(postings@, stream) == (if has_stream(
                    entries@.take(index as int),
                    stream,
                ) {
                    listed_rows(old(postings)@, stream).push(row as int)
                } else {
                    listed_rows(old(postings)@, stream)
                }),
        decreases entries@.len() - index,
    {
        let stream = Stream { series: entries[index].series, field: entries[index].field };
        let ghost before = postings@;
        let ghost list_before = listed_rows(before, stream);
        let ghost table = postings.entries@;
        proof {
            let front = entries@.take(index as int);
            assert(!has_stream(front, stream)) by {
                if has_stream(front, stream) {
                    let i = choose|i: int|
                        0 <= i < front.len() && (#[trigger] front[i]).stream() == stream;
                    assert(entries@[i].stream().rank() < entries@[index as int].stream().rank());
                }
            }
        }
        match postings.find(&stream) {
            Some(at) => {
                let list = postings.value_mut(at);
                list.push(row);
                proof {
                    let after = postings.entries@[at as int].1;
                    assert(postings.entries@ =~= table.update(at as int, (stream, after)));
                    ordmap::update_is_insert(table, at as int, after);
                    assert(postings@ == before.insert(stream, after));
                }
            },
            None => {
                let mut list: Vec<u32> = Vec::new();
                list.push(row);
                postings.insert(stream, list);
            },
        }
        proof {
            assert(listed_rows(postings@, stream) =~= list_before.push(row as int));
            let front = entries@.take(index as int);
            let next = entries@.take(index + 1);
            assert forall|other: Stream| #[trigger] listed_rows(postings@, other) == (
            if has_stream(next, other) {
                listed_rows(old(postings)@, other).push(row as int)
            } else {
                listed_rows(old(postings)@, other)
            }) by {
                if has_stream(front, other) {
                    let i = choose|i: int|
                        0 <= i < front.len() && (#[trigger] front[i]).stream() == other;
                    assert(next[i].stream() == other);
                }
                if has_stream(next, other) {
                    let i = choose|i: int|
                        0 <= i < next.len() && (#[trigger] next[i]).stream() == other;
                    if i < index {
                        assert(front[i].stream() == other);
                    }
                }
                assert(next[index as int].stream() == stream);
                if other != stream {
                    assert(listed_rows(postings@, other) == listed_rows(before, other));
                }
            }
        }
        index += 1;
    }
    assert(entries@.take(entries@.len() as int) =~= entries@);
}

impl TailTable {
    /// Takes an observation that was found acceptable.
    fn observe(&mut self, observation: Observation)
        requires
            old(self).wf(),
            entries_ordered(observation.entries@),
            old(self)@.last_ts matches Some(last) ==> last < observation.timestamp,
            old(self).rows@.len() < u32::MAX,
        ensures
            final(self).wf(),
            final(self)@ == observed(
                old(self)@,
                observation.timestamp,
                observation.entries@,
            ),
    {
        let timestamp: i64 = observation.timestamp;
        let ghost before = self@;
        let ghost posted = self.postings@;
        let row: u32 = self.rows.len() as u32;
        post_row(&mut self.postings, observation.entries.as_slice(), row);
        let last: usize = self.versions.len() - 1;
        assert(before.versions[last as int] == self.versions@[last as int]@);
        if self.versions[last].effective_from.is_none() {
            let mut version = self.versions[last].copy();
            version.effective_from = Some(timestamp);
            self.versions[last] = version;
        }
        let ghost entries = observation.entries@;
        self.rows.push(TailRow { timestamp, entries: observation.entries });
        self.last_ts = Some(timestamp);
        proof {
            let after = self@;
            assert(after.versions =~= activated(before.versions, timestamp));
            assert(after.rows =~= before.rows.push(RowView { timestamp, entries }));
            assert(after.rows.drop_last() =~= before.rows);
            assert forall|i: int, j: int| 0 <= i < j < after.rows.len() implies (
            #[trigger] after.rows[i]).timestamp < (#[trigger] after.rows[j]).timestamp by {
                if j == after.rows.len() - 1 {
                    if i < before.rows.len() - 1 {
                        assert(before.rows[i].timestamp
                            < before.rows[before.rows.len() - 1].timestamp);
                    }
                }
            }
            assert forall|i: int| 0 <= i < after.versions.len() implies (
            #[trigger] after.versions[i]).wf() by {
                assert(before.versions[i].wf());
            }
            assert forall|i: int, j: int| 0 <= i < j < after.versions.len() implies (
            #[trigger] after.versions[i]).version_no < (#[trigger] after.versions[j]).version_no by {
                assert(before.versions[i].version_no < before.versions[j].version_no);
            }
            assert forall|stream: Stream| #[trigger]
                row_indices(after.rows, stream) == listed_rows(self.postings@, stream) by {
                assert(row_indices(before.rows, stream) == listed_rows(posted, stream));
                assert(listed_rows(self.postings@, stream) == (if has_stream(entries, stream) {
                    listed_rows(posted, stream).push(row as int)
                } else {
                    listed_rows(posted, stream)
                }));
            }
        }
    }
}

/// Retirements with one more, in series order; a series that was retired before is retired anew.
pub open spec fn with_retirement(
    list: Seq<SeriesRetirement>,
    series: SeriesId,
    retire_ts: i64,
) -> Seq<SeriesRetirement>
    decreases list.len(),
{
    let entry = SeriesRetirement { series, retire_ts };
    if list.len() == 0 {
        seq![entry]
    } else if list.last().series.value < series.value {
        list.push(entry)
    } else if list.last().series.value == series.value {
        list.drop_last().push(entry)
    } else {
        with_retirement(list.drop_last(), series, retire_ts).push(list.last())
    }
}

proof fn retirement_at(list: Seq<SeriesRetirement>, at: int, series: SeriesId, retire_ts: i64)
    requires
        catalog::series_ordered(list),
        0 <= at <= list.len(),
        forall|j: int| 0 <= j < at ==> (#[trigger] list[j]).series.value < series.value,
        forall|j: int| at <= j < list.len() ==> series.value <= (#[trigger] list[j]).series.value,
    ensures
        ({
            let entry = SeriesRetirement { series, retire_ts };
            with_retirement(list, series, retire_ts) == (if at < list.len() && list[at].series
                == series {
                list.update(at, entry)
            } else {
                list.insert(at, entry)
            })
        }),
    decreases list.len(),
{
    let entry = SeriesRetirement { series, retire_ts };
    if list.len() == 0 {
        assert(list.insert(at, entry) =~= seq![entry]);
    } else if list.last().series.value < series.value {
        assert(at == list.len());
        assert(list.insert(at, entry) =~= list.push(entry));
    } else if list.last().series.value == series.value {
        assert(at == list.len() - 1) by {
            assert(at < list.len());
            if at < list.len() - 1 {
                assert(list[at].series.value < list[list.len() - 1].series.value);
            }
        }
        assert(list.update(at, entry) =~= list.drop_last().push(entry));
    } else {
        assert(at < list.len());
        let rest = list.drop_last();
        assert(catalog::series_ordered(rest));
        retirement_at(rest, at, series, retire_ts);
        if at < rest.len() && rest[at].series == series {
            assert(list.update(at, entry) =~= rest.update(at, entry).push(list.last()));
        } else {
            assert(list.insert(at, entry) =~= rest.insert(at, entry).push(list.last()));
        }
    }
}

impl TailTable {
    /// Retires a series.
    fn retire_series(&mut self, series: SeriesId, retire_ts: i64)
        requires
            old(self).wf(),
        ensures
            final(self).wf(),
            final(self)@ == (TailTableView {
                retired_series: with_retirement(old(self)@.retired_series, series, retire_ts),
                ..old(self)@
            }),
    {
        let ghost before = self.retired_series@;
        let mut at: usize = self.retired_series.len();
        while at > 0 && self.retired_series[at - 1].series.value >= series.value
            invariant
                self == old(self),
                self.wf(),
                at <= self.retired_series@.len(),
                forall|j: int|
                    at <= j < self.retired_series@.len() ==> series.value <= (
                    #[trigger] self.retired_series@[j]).series.value,
            decreases at,
        {
            at -= 1;
        }
        proof {
            assert forall|j: int| 0 <= j < at implies (#[trigger] before[j]).series.value
                < series.value by {
                if j < at - 1 {
                    assert(before[j].series.value < before[at - 1].series.value);
                }
            }
            retirement_at(before, at as int, series, retire_ts);
        }
        let entry = SeriesRetirement { series, retire_ts };
        if at < self.retired_series.len() && self.retired_series[at].series == series {
            self.retired_series[at] = entry;
            proof {
                let after = self.retired_series@;
                assert forall|i: int, j: int| 0 <= i < j < after.len() implies (
                #[trigger] after[i]).series.value < (#[trigger] after[j]).series.value by {
                    assert(before[i].series.value < before[j].series.value);
                }
            }
        } else {
            self.retired_series.insert(at, entry);
            proof {
                let after = self.retired_series@;
                assert forall|i: int, j: int| 0 <= i < j < after.len() implies (
                #[trigger] after[i]).series.value < (#[trigger] after[j]).series.value by {
                    let left = if i < at {
                        i
                    } else {
                        i - 1
                    };
                    let right = if j < at {
                        j
                    } else {
                        j - 1
                    };
                    if i != at && j != at {
                        assert(before[left].series.value < before[right].series.value);
                    } else if i == at {
                        assert(before[right].series.value >= series.value);
                        if right == at {
                            assert(before[at as int].series != series);
                        } else {
                            assert(before[at as int].series.value < before[right].series.value);
                        }
                    } else {
                        assert(before[left].series.value < series.value);
                    }
                }
            }
        }
        proof {
            assert(self@.rows == old(self)@.rows);
            assert forall|stream: Stream| #[trigger]
                row_indices(self@.rows, stream) == listed_rows(self.postings@, stream) by {
                assert(row_indices(old(self)@.rows, stream) == listed_rows(
                    old(self).postings@,
                    stream,
                ));
            }
        }
    }
}

/// Whether an observation's values fit a schema.
fn check_values(entries: &[ObservationEntry], fields: &[FieldSchema]) -> (fits: bool)
    requires
        types::fields_ordered(fields@),
    ensures
        fits == values_fit(entries@, fields@),
{
    let mut index: usize = 0;
    while index < entries.len()
        invariant
            index <= entries@.len(),
            types::fields_ordered(fields@),
            forall|i: int|
                0 <= i < index ==> types::has_field(fields@, (#[trigger] entries@[i]).field)
                    && entries@[i].value.spec_matches(
                    types::field_type(fields@, entries@[i].field),
                ),
        decreases entries@.len() - index,
    {
        let entry = entries[index];
        match types::find_field(fields, entry.field) {
            None => {
                assert(!types::has_field(fields@, entries@[index as int].field));
                return false;
            },
            Some(at) => {
                if !entry.value.matches(fields[at].value_type) {
                    assert(!entries@[index as int].value.spec_matches(
                        types::field_type(fields@, entries@[index as int].field),
                    ));
                    return false;
                }
            },
        }
        index += 1;
    }
    true
}

/// A table that was just created: one version, still inactive.
pub open spec fn created(spec: VersionSpec) -> TailTableView {
    TailTableView {
        last_ts: None,
        versions: seq![
            VersionView {
                version_no: 1,
                validity: spec.validity,
                fields: spec.fields@,
                effective_from: None,
            },
        ],
        retired_series: Seq::empty(),
        retired_fields: Seq::empty(),
        rows: Seq::empty(),
    }
}

/// The tail after a record, or why the record is refused.
pub open spec fn applied(tail: TailView, seq: u64, body: RecordBody) -> Result<TailView> {
    if seq != tail.next_seq || seq == u64::MAX {
        Err(tail_corruption("record sequence is not the next one"))
    } else {
        let next_seq = (seq + 1) as u64;
        match body {
            RecordBody::CreateTable { table, spec } => if table.value <= tail.table_high_water
                || tail.tables.contains_key(table) {
                Err(tail_corruption("table identifier was already allocated"))
            } else if !spec.validity.wf() || !types::fields_ordered(spec.fields@) {
                Err(tail_corruption("table schema is malformed"))
            } else {
                Ok(
                    TailView {
                        table_high_water: table.value,
                        next_seq,
                        tables: tail.tables.insert(table, created(spec)),
                    },
                )
            },
            RecordBody::AppendObservation { table, observation } => if !tail.tables.contains_key(
                table,
            ) {
                Err(tail_corruption("table is absent"))
            } else {
                let state = tail.tables[table];
                let entries = observation.entries@;
                if state.last_ts matches Some(last) && observation.timestamp <= last {
                    Err(tail_corruption("observation is not newer than the table clock"))
                } else if entries.len() == 0 || !entries_ordered(entries) || !values_fit(
                    entries,
                    state.versions.last().fields,
                ) {
                    Err(tail_corruption("observation contradicts the schema"))
                } else if state.rows.len() >= u32::MAX {
                    Err(error::limit("tail_rows", u32::MAX as u64, u32::MAX as u64))
                } else {
                    Ok(
                        TailView {
                            next_seq,
                            tables: tail.tables.insert(
                                table,
                                observed(state, observation.timestamp, entries),
                            ),
                            ..tail
                        },
                    )
                }
            },
            RecordBody::RetireSeries { table, series, retire_ts } => if !tail.tables.contains_key(
                table,
            ) {
                Err(tail_corruption("table is absent"))
            } else {
                let state = tail.tables[table];
                Ok(
                    TailView {
                        next_seq,
                        tables: tail.tables.insert(
                            table,
                            TailTableView {
                                retired_series: with_retirement(
                                    state.retired_series,
                                    series,
                                    retire_ts,
                                ),
                                ..state
                            },
                        ),
                        ..tail
                    },
                )
            },
        }
    }
}

impl TailIndex {
    /// Takes the mutation of the next record. A refused record changes nothing.
    pub fn apply(&mut self, seq: u64, body: RecordBody) -> (r: Result<()>)
        requires
            old(self).wf(),
        ensures
            final(self).wf(),
            match applied(old(self)@, seq, body) {
                Err(e) => r == Err::<(), Error>(e) && final(self)@ == old(self)@,
                Ok(after) => r == Ok::<(), Error>(()) && final(self)@ == after,
            },
    {
        if seq != self.next_seq || seq == u64::MAX {
            return Err(Error::corruption("tail", "record sequence is not the next one"));
        }
        match body {
            RecordBody::CreateTable { table, spec } => {
                if table.value <= self.table_high_water || self.tables.contains_key(&table) {
                    return Err(
                        Error::corruption("tail", "table identifier was already allocated"),
                    );
                }
                let positive: bool = match spec.validity.duration() {
                    Some(seconds) => seconds > 0,
                    None => true,
                };
                if !positive || !types::check_fields(spec.fields.as_slice()) {
                    return Err(Error::corruption("tail", "table schema is malformed"));
                }
                let ghost expected = created(spec);
                let mut versions: Vec<TableVersion> = Vec::new();
                versions.push(
                    TableVersion {
                        version_no: 1,
                        validity: spec.validity,
                        fields: spec.fields,
                        effective_from: None,
                    },
                );
                let state = TailTable {
                    last_ts: None,
                    versions,
                    retired_series: Vec::new(),
                    retired_fields: Vec::new(),
                    rows: Vec::new(),
                    postings: OrderedMap::new(),
                };
                proof {
                    assert(state@.versions =~= expected.versions);
                    assert(state@.rows =~= Seq::<RowView>::empty());
                    assert(state@.retired_series =~= Seq::<SeriesRetirement>::empty());
                    assert(state@.retired_fields =~= Seq::<FieldRetirement>::empty());
                }
                self.set_table(table, state);
                self.table_high_water = table.value;
            },
            RecordBody::AppendObservation { table, observation } => {
                let at: usize = match self.tables.find(&table) {
                    Some(at) => at,
                    None => return Err(Error::corruption("tail", "table is absent")),
                };
                let state = &self.tables.entries[at].1;
                match state.last_ts {
                    Some(last) => {
                        if observation.timestamp <= last {
                            return Err(
                                Error::corruption(
                                    "tail",
                                    "observation is not newer than the table clock",
                                ),
                            );
                        }
                    },
                    None => {},
                }
                let last: usize = state.versions.len() - 1;
                assert(state@.versions.last() == state.versions@[last as int]@);
                if observation.entries.len() == 0 || !check_entries(
                    observation.entries.as_slice(),
                ) || !check_values(
                    observation.entries.as_slice(),
                    state.versions[last].fields.as_slice(),
                ) {
                    return Err(Error::corruption("tail", "observation contradicts the schema"));
                }
                if state.rows.len() >= u32::MAX as usize {
                    return Err(Error::limit("tail_rows", u32::MAX as u64, u32::MAX as u64));
                }
                let ghost entries = self.tables.entries@;
                let ghost map = self.tables@;
                let target = self.tables.value_mut(at);
                target.observe(observation);
                proof {
                    self.updated_at(entries, map, at as int);
                }
            },
            RecordBody::RetireSeries { table, series, retire_ts } => {
                let at: usize = match self.tables.find(&table) {
                    Some(at) => at,
                    None => return Err(Error::corruption("tail", "table is absent")),
                };
                let ghost entries = self.tables.entries@;
                let ghost map = self.tables@;
                let target = self.tables.value_mut(at);
                target.retire_series(series, retire_ts);
                proof {
                    self.updated_at(entries, map, at as int);
                }
            },
        }
        self.next_seq = seq + 1;
        Ok(())
    }

    /// A table that was updated in place.
    proof fn updated_at(
        &self,
        entries: Seq<(TableId, TailTable)>,
        map: Map<TableId, TailTable>,
        at: int,
    )
        requires
            ordmap::ordered(entries),
            map == ordmap::as_map(entries),
            0 <= at < entries.len(),
            forall|i: int| 0 <= i < entries.len() ==> (#[trigger] entries[i]).1.wf(),
            self.tables.entries@ == entries.update(at, (entries[at].0, self.tables.entries@[at].1)),
            self.tables.entries@[at].1.wf(),
        ensures
            self.wf(),
            self@.tables == tail_tables(map).insert(
                entries[at].0,
                self.tables.entries@[at].1@,
            ),
    {
        let after = self.tables.entries@[at].1;
        ordmap::update_is_insert(entries, at, after);
        assert(self@.tables =~= tail_tables(map).insert(entries[at].0, after@));
        assert forall|i: int| 0 <= i < self.tables.entries@.len() implies (
        #[trigger] self.tables.entries@[i]).1.wf() by {
            if i != at {
                assert(entries[i].1.wf());
            }
        }
    }
}

} // verus!
