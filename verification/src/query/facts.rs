//! Values of one stream, and where the tail and a section keep them.
use vstd::prelude::*;

use crate::error::{self, Error, Result};
use crate::ordmap::OrderedKey;
use crate::tail::{self, RowView, Stream, TailIndex, TailTable, TailView};
use crate::types::{self, CellValue, StreamKey, TableVersion, VersionView};

verus! {

/// A value of a stream and the time from which it holds.
#[derive(Clone, Copy, Debug, PartialEq, Eq, Structural)]
pub struct Fact {
    pub timestamp: i64,
    pub value: CellValue,
}

impl Fact {
    pub fn new(timestamp: i64, value: CellValue) -> (fact: Self)
        ensures
            fact == (Fact { timestamp, value }),
    {
        Fact { timestamp, value }
    }

    pub fn timestamp(self) -> (timestamp: i64)
        ensures
            timestamp == self.timestamp,
    {
        self.timestamp
    }

    pub fn value(self) -> (value: CellValue)
        ensures
            value == self.value,
    {
        self.value
    }
}

/// Whether times strictly increase.
pub open spec fn facts_ordered(facts: Seq<Fact>) -> bool {
    forall|i: int, j: int|
        0 <= i < j < facts.len() ==> (#[trigger] facts[i]).timestamp < (
        #[trigger] facts[j]).timestamp
}

/// The values of the half-open range, in the given order.
pub open spec fn facts_within(facts: Seq<Fact>, start: i64, end: i64) -> Seq<Fact>
    decreases facts.len(),
{
    if facts.len() == 0 {
        Seq::empty()
    } else {
        let earlier = facts_within(facts.drop_last(), start, end);
        if start <= facts.last().timestamp < end {
            earlier.push(facts.last())
        } else {
            earlier
        }
    }
}

/// The last value at or before the time.
pub open spec fn latest_fact(facts: Seq<Fact>, at: i64) -> Option<Fact>
    decreases facts.len(),
{
    if facts.len() == 0 {
        None
    } else if facts.last().timestamp <= at {
        Some(facts.last())
    } else {
        latest_fact(facts.drop_last(), at)
    }
}

/// In time order the range is one piece.
pub(crate) proof fn within_is_subrange(facts: Seq<Fact>, start: i64, end: i64, first: int, last: int)
    requires
        0 <= first <= last <= facts.len(),
        forall|i: int| 0 <= i < first ==> (#[trigger] facts[i]).timestamp < start,
        forall|i: int|
            first <= i < last ==> start <= (#[trigger] facts[i]).timestamp && facts[i].timestamp
                < end,
        forall|i: int| last <= i < facts.len() ==> end <= (#[trigger] facts[i]).timestamp,
    ensures
        facts_within(facts, start, end) == facts.subrange(first, last),
    decreases facts.len(),
{
    if facts.len() > 0 {
        let front = facts.drop_last();
        let n = front.len() as int;
        if last == facts.len() {
            if first == last {
                within_is_subrange(front, start, end, n, n);
                assert(facts[n].timestamp < start);
                assert(front.subrange(n, n) =~= facts.subrange(first, last));
            } else {
                within_is_subrange(front, start, end, first, n);
                assert(start <= facts[n].timestamp && facts[n].timestamp < end);
                assert(front.subrange(first, n).push(facts[n]) =~= facts.subrange(first, last));
            }
        } else {
            within_is_subrange(front, start, end, first, last);
            assert(end <= facts[n].timestamp);
            assert(front.subrange(first, last) =~= facts.subrange(first, last));
        }
    } else {
        assert(facts.subrange(first, last) =~= Seq::empty());
    }
}

/// In time order the last value at or before a time is where the later ones begin.
pub(crate) proof fn latest_is_last_below(facts: Seq<Fact>, at: i64, upper: int)
    requires
        0 <= upper <= facts.len(),
        forall|i: int| 0 <= i < upper ==> (#[trigger] facts[i]).timestamp <= at,
        forall|i: int| upper <= i < facts.len() ==> at < (#[trigger] facts[i]).timestamp,
    ensures
        latest_fact(facts, at) == (if upper == 0 {
            None
        } else {
            Some(facts[upper - 1])
        }),
    decreases facts.len(),
{
    if facts.len() > upper {
        assert(at < facts[facts.len() - 1].timestamp);
        latest_is_last_below(facts.drop_last(), at, upper);
    }
}

/// The value of a stream in a row that has one.
pub open spec fn row_fact(rows: Seq<RowView>, row: int, stream: Stream) -> Fact {
    Fact {
        timestamp: rows[row].timestamp,
        value: tail::cell_of(rows[row].entries, stream)->Some_0,
    }
}

/// The values of a stream in the tail, in time order.
pub open spec fn tail_facts(rows: Seq<RowView>, stream: Stream) -> Seq<Fact> {
    tail::row_indices(rows, stream).map_values(|row: int| row_fact(rows, row, stream))
}

pub(crate) proof fn tail_facts_ordered(rows: Seq<RowView>, stream: Stream)
    requires
        tail::rows_wf(rows),
    ensures
        facts_ordered(tail_facts(rows, stream)),
{
    tail::row_indices_facts(rows, stream);
    let list = tail::row_indices(rows, stream);
    let facts = tail_facts(rows, stream);
    assert forall|i: int, j: int| 0 <= i < j < facts.len() implies (
    #[trigger] facts[i]).timestamp < (#[trigger] facts[j]).timestamp by {
        assert(list[i] < list[j]);
        assert(rows[list[i]].timestamp < rows[list[j]].timestamp);
    }
}

/// The values among the first `count` rows of a column, in row order.
pub open spec fn cell_facts(
    timestamps: Seq<i64>,
    cells: Seq<Option<CellValue>>,
    count: int,
) -> Seq<Fact>
    decreases count,
{
    if count <= 0 {
        Seq::empty()
    } else {
        let earlier = cell_facts(timestamps, cells, count - 1);
        match cells[count - 1] {
            Some(value) => earlier.push(Fact { timestamp: timestamps[count - 1], value }),
            None => earlier,
        }
    }
}

/// The values of a column, one row after the other as far as both times and cells go.
pub open spec fn column_facts(timestamps: Seq<i64>, cells: Seq<Option<CellValue>>) -> Seq<Fact> {
    cell_facts(
        timestamps,
        cells,
        if timestamps.len() < cells.len() {
            timestamps.len() as int
        } else {
            cells.len() as int
        },
    )
}

/// The version with the number, if there is one.
pub open spec fn version_numbered(versions: Seq<VersionView>, number: u32) -> Option<VersionView> {
    if exists|i: int| 0 <= i < versions.len() && (#[trigger] versions[i]).version_no == number {
        Some(
            versions[choose|i: int|
                0 <= i < versions.len() && (#[trigger] versions[i]).version_no == number],
        )
    } else {
        None
    }
}

/// The version with the number, if there is one.
pub fn find_version<'a>(versions: &'a [TableVersion], number: u32) -> (found: Option<
    &'a TableVersion,
>)
    requires
        tail::versions_numbered(types::version_views(versions@)),
    ensures
        match found {
            Some(version) => version_numbered(types::version_views(versions@), number) == Some(
                version@,
            ) && version@.version_no == number && versions@.contains(*version),
            None => version_numbered(types::version_views(versions@), number) is None,
        },
{
    let ghost views = types::version_views(versions@);
    let mut low: usize = 0;
    let mut high: usize = versions.len();
    while low < high
        invariant
            views == types::version_views(versions@),
            tail::versions_numbered(views),
            low <= high <= versions@.len(),
            forall|i: int| 0 <= i < low ==> (#[trigger] views[i]).version_no < number,
            forall|i: int| high <= i < views.len() ==> number <= (#[trigger] views[i]).version_no,
        decreases high - low,
    {
        let middle: usize = low + (high - low) / 2;
        assert(views[middle as int] == versions@[middle as int]@);
        if versions[middle].version_no < number {
            assert forall|i: int| 0 <= i < middle + 1 implies (#[trigger] views[i]).version_no
                < number by {
                if i < middle {
                    assert(views[i].version_no < views[middle as int].version_no);
                }
            }
            low = middle + 1;
        } else {
            assert forall|i: int| middle <= i < views.len() implies number <= (
            #[trigger] views[i]).version_no by {
                if middle < i {
                    assert(views[middle as int].version_no < views[i].version_no);
                }
            }
            high = middle;
        }
    }
    proof {
        if exists|i: int| 0 <= i < views.len() && (#[trigger] views[i]).version_no == number {
            let i = choose|i: int|
                0 <= i < views.len() && (#[trigger] views[i]).version_no == number;
            if low < i {
                assert(views[low as int].version_no < views[i].version_no);
            }
            assert(i == low);
        }
        if low < versions@.len() {
            assert(views[low as int] == versions@[low as int]@);
        }
    }
    if low < versions.len() && versions[low].version_no == number {
        assert(versions@.contains(versions@[low as int]));
        Some(&versions[low])
    } else {
        None
    }
}

/// Why a stream cannot be queried.
pub open spec fn key_refusal(tail: TailView, key: StreamKey) -> Option<Error> {
    if !tail.tables.contains_key(key.table) {
        Some(error::invalid("key", "table is absent"))
    } else if !types::has_field(tail.tables[key.table].versions.last().fields, key.field) {
        Some(error::invalid("key", "field is absent"))
    } else {
        None
    }
}

/// The table of a stream that can be queried.
pub fn validate_key(schemas: &TailIndex, key: StreamKey) -> (r: Result<&TailTable>)
    requires
        schemas.wf(),
    ensures
        match r {
            Ok(table) => key_refusal(schemas@, key) is None && table@
                == schemas@.tables[key.table] && table.wf(),
            Err(e) => key_refusal(schemas@, key) == Some(e),
        },
{
    let table = match schemas.table(key.table) {
        Some(table) => table,
        None => return Err(Error::invalid("key", "table is absent")),
    };
    let count: usize = table.versions.len();
    assert(table@.versions.len() == count);
    let latest = &table.versions[count - 1];
    assert(table@.versions[count - 1] == latest@);
    if types::find_field(latest.fields.as_slice(), key.field).is_none() {
        return Err(Error::invalid("key", "field is absent"));
    }
    Ok(table)
}

/// The stream of a key inside its table.
pub open spec fn spec_stream(key: StreamKey) -> Stream {
    Stream { series: key.series, field: key.field }
}

pub fn stream_of(key: StreamKey) -> (stream: Stream)
    ensures
        stream == spec_stream(key),
{
    Stream { series: key.series, field: key.field }
}

/// The value of a stream in a row that is listed for it.
pub fn posted_fact(table: &TailTable, index: u32, stream: Stream) -> (fact: Fact)
    requires
        table.wf(),
        index < table@.rows.len(),
        tail::has_stream(table@.rows[index as int].entries, stream),
    ensures
        fact == row_fact(table@.rows, index as int, stream),
{
    let row = &table.rows[index as usize];
    assert(table@.rows[index as int] == row@);
    match tail::find_entry(row.entries.as_slice(), stream) {
        Some(at) => {
            proof {
                tail::cell_at(row.entries@, at as int);
            }
            Fact { timestamp: row.timestamp, value: row.entries[at].value }
        },
        None => {
            assert(false);
            Fact { timestamp: row.timestamp, value: CellValue::Null }
        },
    }
}

pub open spec fn below(ts: i64, bound: i64, inclusive: bool) -> bool {
    ts < bound || (inclusive && ts == bound)
}

/// How many of the listed rows lie below the bound.
pub fn postings_below(
    table: &TailTable,
    list: &[u32],
    stream: Stream,
    bound: i64,
    inclusive: bool,
) -> (count: usize)
    requires
        table.wf(),
        list@.map_values(|row: u32| row as int) == tail::row_indices(table@.rows, stream),
    ensures
        count <= list@.len(),
        forall|i: int|
            0 <= i < count ==> below(
                (#[trigger] tail_facts(table@.rows, stream)[i]).timestamp,
                bound,
                inclusive,
            ),
        forall|i: int|
            count <= i < list@.len() ==> !below(
                (#[trigger] tail_facts(table@.rows, stream)[i]).timestamp,
                bound,
                inclusive,
            ),
{
    let ghost facts = tail_facts(table@.rows, stream);
    let ghost rows = tail::row_indices(table@.rows, stream);
    let mut low: usize = 0;
    let mut high: usize = list.len();
    proof {
        tail_facts_ordered(table@.rows, stream);
        tail::row_indices_facts(table@.rows, stream);
    }
    while low < high
        invariant
            table.wf(),
            facts == tail_facts(table@.rows, stream),
            rows == tail::row_indices(table@.rows, stream),
            list@.map_values(|row: u32| row as int) == rows,
            rows.len() == list@.len(),
            facts.len() == list@.len(),
            facts_ordered(facts),
            forall|j: int| 0 <= j < rows.len() ==> 0 <= #[trigger] rows[j] < table@.rows.len(),
            low <= high <= list@.len(),
            forall|i: int|
                0 <= i < low ==> below((#[trigger] facts[i]).timestamp, bound, inclusive),
            forall|i: int|
                high <= i < facts.len() ==> !below(
                    (#[trigger] facts[i]).timestamp,
                    bound,
                    inclusive,
                ),
        decreases high - low,
    {
        let middle: usize = low + (high - low) / 2;
        let row: u32 = list[middle];
        assert(list@.map_values(|row: u32| row as int)[middle as int] == row as int);
        assert(rows[middle as int] == row);
        let ts: i64 = table.rows[row as usize].timestamp;
        assert(table@.rows[row as int] == table.rows@[row as int]@);
        assert(facts[middle as int].timestamp == ts);
        if ts < bound || (inclusive && ts == bound) {
            assert forall|i: int| 0 <= i < middle + 1 implies below(
                (#[trigger] facts[i]).timestamp,
                bound,
                inclusive,
            ) by {
                if i < middle {
                    assert(facts[i].timestamp < facts[middle as int].timestamp);
                }
            }
            low = middle + 1;
        } else {
            assert forall|i: int| middle <= i < facts.len() implies !below(
                (#[trigger] facts[i]).timestamp,
                bound,
                inclusive,
            ) by {
                if middle < i {
                    assert(facts[middle as int].timestamp < facts[i].timestamp);
                }
            }
            high = middle;
        }
    }
    low
}

/// The last value of a stream in the tail at or before a time.
pub fn tail_predecessor(table: &TailTable, key: StreamKey, at: i64) -> (r: Result<Option<Fact>>)
    requires
        table.wf(),
    ensures
        r == Ok::<Option<Fact>, Error>(
            latest_fact(tail_facts(table@.rows, spec_stream(key)), at),
        ),
{
    let stream = stream_of(key);
    let ghost facts = tail_facts(table@.rows, stream);
    proof {
        tail::row_indices_facts(table@.rows, stream);
    }
    match table.stream_rows(stream) {
        None => {
            assert(facts.len() == 0);
            Ok(None)
        },
        Some(list) => {
            let ghost rows = tail::row_indices(table@.rows, stream);
            assert(rows.len() == list@.len());
            let upper: usize = postings_below(table, list, stream, at, true);
            proof {
                latest_is_last_below(facts, at, upper as int);
            }
            if upper == 0 {
                return Ok(None);
            }
            assert(rows[upper - 1] == list@[upper - 1]);
            Ok(Some(posted_fact(table, list[upper - 1], stream)))
        },
    }
}

/// The rows that hold a stream inside the half-open range.
pub fn tail_postings<'a>(
    table: &'a TailTable,
    stream: Stream,
    start: i64,
    end: i64,
) -> (list: &'a [u32])
    requires
        table.wf(),
        start <= end,
    ensures
        posting_facts(table@.rows, list@, stream) == facts_within(
            tail_facts(table@.rows, stream),
            start,
            end,
        ),
        postings_hold(table@.rows, list@, stream),
{
    let ghost facts = tail_facts(table@.rows, stream);
    let ghost rows = tail::row_indices(table@.rows, stream);
    proof {
        tail::row_indices_facts(table@.rows, stream);
    }
    match table.stream_rows(stream) {
        None => {
            let list: &[u32] = &[];
            assert(posting_facts(table@.rows, list@, stream) =~= Seq::empty());
            assert(facts.len() == 0);
            list
        },
        Some(all) => {
            assert(rows.len() == all@.len());
            let first: usize = postings_below(table, all, stream, start, false);
            let last: usize = postings_below(table, all, stream, end, false);
            proof {
                if last < first {
                    assert(!below(facts[last as int].timestamp, end, false));
                    assert(below(facts[last as int].timestamp, start, false));
                }
                within_is_subrange(facts, start, end, first as int, last as int);
            }
            let list = vstd::slice::slice_subrange(all, first, last);
            proof {
                assert forall|i: int| 0 <= i < list@.len() implies #[trigger] list@[i]
                    == rows[first + i] by {
                    assert(all@.map_values(|row: u32| row as int)[first + i] == all@[first + i]);
                }
                assert(posting_facts(table@.rows, list@, stream) =~= facts.subrange(
                    first as int,
                    last as int,
                ));
            }
            list
        },
    }
}

/// The values of a stream in the listed rows.
pub open spec fn posting_facts(rows: Seq<RowView>, list: Seq<u32>, stream: Stream) -> Seq<Fact> {
    list.map_values(|row: u32| row_fact(rows, row as int, stream))
}

/// Whether every listed row holds the stream.
pub open spec fn postings_hold(rows: Seq<RowView>, list: Seq<u32>, stream: Stream) -> bool {
    forall|i: int|
        0 <= i < list.len() ==> (#[trigger] list[i]) < rows.len() && tail::has_stream(
            rows[list[i] as int].entries,
            stream,
        )
}

} // verus!
