//! Retention heads and the file that holds them.
use vstd::prelude::*;

use crate::bytes;
use crate::checksum;
use crate::error::{self, Error, Result};
use crate::limits::MAX_RETENTION_HEADS;
use crate::names;
use crate::ordmap::OrderedKey;
use crate::types::{self, CellValue, F32Bits, FieldId, SeriesId, Sq1, StreamKey, TableId};

verus! {

pub const HEADER_BYTES: usize = 24;

pub const TABLE_HEADER_BYTES: usize = 8;

pub const ENTRY_BYTES: usize = 27;

pub const FOOTER_BYTES: usize = 4;

pub const FORMAT_VERSION: u16 = 1;

/// The last value of a stream before the retention floor.
#[derive(Clone, Copy, Debug, PartialEq, Eq, Structural)]
pub struct RetentionHead {
    pub table: TableId,
    pub series: SeriesId,
    pub field: FieldId,
    pub fact_ts: i64,
    pub value: CellValue,
}

impl RetentionHead {
    pub fn new(
        table: TableId,
        series: SeriesId,
        field: FieldId,
        fact_ts: i64,
        value: CellValue,
    ) -> (head: Self)
        ensures
            head == (RetentionHead { table, series, field, fact_ts, value }),
    {
        RetentionHead { table, series, field, fact_ts, value }
    }

    pub fn table(self) -> (table: TableId)
        ensures
            table == self.table,
    {
        self.table
    }

    pub fn series(self) -> (series: SeriesId)
        ensures
            series == self.series,
    {
        self.series
    }

    pub fn field(self) -> (field: FieldId)
        ensures
            field == self.field,
    {
        self.field
    }

    pub fn fact_ts(self) -> (fact_ts: i64)
        ensures
            fact_ts == self.fact_ts,
    {
        self.fact_ts
    }

    pub fn value(self) -> (value: CellValue)
        ensures
            value == self.value,
    {
        self.value
    }

    pub open spec fn spec_key(self) -> StreamKey {
        StreamKey { table: self.table, series: self.series, field: self.field }
    }

    pub fn key(self) -> (key: StreamKey)
        ensures
            key == self.spec_key(),
    {
        StreamKey { table: self.table, series: self.series, field: self.field }
    }
}

/// Whether the streams strictly increase.
pub open spec fn heads_ordered(entries: Seq<RetentionHead>) -> bool {
    forall|i: int, j: int|
        0 <= i < j < entries.len() ==> (#[trigger] entries[i]).spec_key().rank() < (
        #[trigger] entries[j]).spec_key().rank()
}

/// Whether every value predates the floor.
pub open spec fn heads_below(entries: Seq<RetentionHead>, floor: i64) -> bool {
    forall|i: int| 0 <= i < entries.len() ==> (#[trigger] entries[i]).fact_ts < floor
}

/// Whether the values can be written down.
pub open spec fn heads_wf(entries: Seq<RetentionHead>) -> bool {
    forall|i: int| 0 <= i < entries.len() ==> (#[trigger] entries[i]).value.wf()
}

/// The head of a stream, if there is one.
pub open spec fn head_of(entries: Seq<RetentionHead>, key: StreamKey) -> Option<RetentionHead> {
    if exists|i: int| 0 <= i < entries.len() && (#[trigger] entries[i]).spec_key() == key {
        Some(
            entries[choose|i: int|
                0 <= i < entries.len() && (#[trigger] entries[i]).spec_key() == key],
        )
    } else {
        None
    }
}

/// In an ordered list the head of a stream is the only one.
pub(crate) proof fn head_at(entries: Seq<RetentionHead>, at: int)
    requires
        heads_ordered(entries),
        0 <= at < entries.len(),
    ensures
        head_of(entries, entries[at].spec_key()) == Some(entries[at]),
{
    let key = entries[at].spec_key();
    let i = choose|i: int| 0 <= i < entries.len() && (#[trigger] entries[i]).spec_key() == key;
    assert(entries[at].spec_key() == key);
    if i < at {
        assert(entries[i].spec_key().rank() < entries[at].spec_key().rank());
    } else if at < i {
        assert(entries[at].spec_key().rank() < entries[i].spec_key().rank());
    }
}

/// The heads below one retention floor, in stream order.
#[derive(Clone, Debug, PartialEq, Eq)]
pub struct RetentionHeads {
    pub floor: i64,
    pub entries: Vec<RetentionHead>,
}

pub struct HeadsView {
    pub floor: i64,
    pub entries: Seq<RetentionHead>,
}

impl View for RetentionHeads {
    type V = HeadsView;

    open spec fn view(&self) -> HeadsView {
        HeadsView { floor: self.floor, entries: self.entries@ }
    }
}

pub open spec fn view_of(heads: Option<&RetentionHeads>) -> Option<HeadsView> {
    match heads {
        Some(list) => Some(list@),
        None => None,
    }
}

impl HeadsView {
    pub open spec fn valid(self) -> bool {
        &&& self.entries.len() <= MAX_RETENTION_HEADS
        &&& heads_below(self.entries, self.floor)
        &&& heads_ordered(self.entries)
    }

    /// Why these heads are refused, if they are.
    pub open spec fn refusal(self) -> Option<Error> {
        if self.entries.len() > MAX_RETENTION_HEADS {
            Some(
                error::limit(
                    "retention_heads",
                    if self.entries.len() > u32::MAX {
                        u64::MAX
                    } else {
                        self.entries.len() as u64
                    },
                    MAX_RETENTION_HEADS as u64,
                ),
            )
        } else if !heads_below(self.entries, self.floor) || !heads_ordered(self.entries) {
            Some(
                error::invalid(
                    "retention heads",
                    "Facts must predate the floor and keys must be strictly ordered",
                ),
            )
        } else {
            None
        }
    }
}

fn check_entries(floor: i64, entries: &[RetentionHead]) -> (good: bool)
    ensures
        good == (heads_below(entries@, floor) && heads_ordered(entries@)),
{
    let mut index: usize = 0;
    while index < entries.len()
        invariant
            index <= entries@.len(),
            heads_below(entries@.take(index as int), floor),
            heads_ordered(entries@.take(index as int)),
        decreases entries@.len() - index,
    {
        if entries[index].fact_ts >= floor {
            return false;
        }
        if index > 0 && !entries[index - 1].key().precedes(&entries[index].key()) {
            assert(!(entries@[index - 1].spec_key().rank() < entries@[index as int].spec_key().rank()));
            return false;
        }
        proof {
            let before = entries@.take(index as int);
            let after = entries@.take(index + 1);
            assert forall|i: int| 0 <= i < after.len() implies (
            #[trigger] after[i]).fact_ts < floor by {
                if i < index {
                    assert(before[i].fact_ts < floor);
                }
            }
            assert forall|i: int, j: int| 0 <= i < j < after.len() implies (
            #[trigger] after[i]).spec_key().rank() < (#[trigger] after[j]).spec_key().rank() by {
                if j < index {
                    assert(before[i].spec_key().rank() < before[j].spec_key().rank());
                } else if i < index - 1 {
                    assert(before[i].spec_key().rank() < before[index - 1].spec_key().rank());
                }
            }
        }
        index += 1;
    }
    assert(entries@.take(index as int) =~= entries@);
    true
}

impl RetentionHeads {
    pub open spec fn valid(&self) -> bool {
        self@.valid()
    }

    pub fn new(floor: i64, entries: Vec<RetentionHead>) -> (r: Result<Self>)
        ensures
            match r {
                Ok(heads) => heads@ == (HeadsView { floor, entries: entries@ }) && heads.valid()
                    && heads@.refusal() is None,
                Err(e) => (HeadsView { floor, entries: entries@ }).refusal() == Some(e),
            },
    {
        let count: usize = entries.len();
        if count as u64 > u32::MAX as u64 {
            return Err(Error::limit("retention_heads", u64::MAX, MAX_RETENTION_HEADS as u64));
        }
        if count as u64 > MAX_RETENTION_HEADS as u64 {
            return Err(Error::limit("retention_heads", count as u64, MAX_RETENTION_HEADS as u64));
        }
        if !check_entries(floor, entries.as_slice()) {
            return Err(
                Error::invalid(
                    "retention heads",
                    "Facts must predate the floor and keys must be strictly ordered",
                ),
            );
        }
        Ok(RetentionHeads { floor, entries })
    }

    pub fn floor(&self) -> (floor: i64)
        ensures
            floor == self@.floor,
    {
        self.floor
    }

    pub fn entries(&self) -> (entries: &[RetentionHead])
        ensures
            entries@ == self@.entries,
    {
        self.entries.as_slice()
    }

    /// The head of a stream.
    pub fn find(&self, key: StreamKey) -> (found: Option<RetentionHead>)
        requires
            self.valid(),
        ensures
            found == head_of(self@.entries, key),
    {
        let mut low: usize = 0;
        let mut high: usize = self.entries.len();
        while low < high
            invariant
                self.valid(),
                low <= high <= self.entries@.len(),
                forall|i: int|
                    0 <= i < low ==> (#[trigger] self.entries@[i]).spec_key().rank() < key.rank(),
                forall|i: int|
                    high <= i < self.entries@.len() ==> key.rank() <= (
                    #[trigger] self.entries@[i]).spec_key().rank(),
            decreases high - low,
        {
            let middle: usize = low + (high - low) / 2;
            if self.entries[middle].key().precedes(&key) {
                assert forall|i: int| 0 <= i < middle + 1 implies (
                #[trigger] self.entries@[i]).spec_key().rank() < key.rank() by {
                    if i < middle {
                        assert(self.entries@[i].spec_key().rank()
                            < self.entries@[middle as int].spec_key().rank());
                    }
                }
                low = middle + 1;
            } else {
                assert forall|i: int| middle <= i < self.entries@.len() implies key.rank() <= (
                #[trigger] self.entries@[i]).spec_key().rank() by {
                    if middle < i {
                        assert(self.entries@[middle as int].spec_key().rank()
                            < self.entries@[i].spec_key().rank());
                    }
                }
                high = middle;
            }
        }
        if low < self.entries.len() && !key.precedes(&self.entries[low].key()) {
            proof {
                StreamKey::rank_injective(self.entries@[low as int].spec_key(), key);
                head_at(self.entries@, low as int);
            }
            Some(self.entries[low])
        } else {
            proof {
                if exists|i: int|
                    0 <= i < self.entries@.len() && (#[trigger] self.entries@[i]).spec_key()
                        == key {
                    let i = choose|i: int|
                        0 <= i < self.entries@.len() && (#[trigger] self.entries@[i]).spec_key()
                            == key;
                    if low < i {
                        assert(self.entries@[low as int].spec_key().rank()
                            < self.entries@[i].spec_key().rank());
                    }
                }
            }
            None
        }
    }
}

pub open spec fn zeros(count: nat) -> Seq<u8> {
    Seq::new(count, |i: int| 0u8)
}

/// A value as it is written: a tag, then eight bytes.
pub open spec fn value_bytes(value: CellValue) -> Seq<u8> {
    match value {
        CellValue::Null => seq![0u8] + zeros(8),
        CellValue::UInt(number) => seq![1u8] + bytes::le64(number),
        CellValue::Sq1(quality) => seq![2u8, quality.code] + zeros(7),
        CellValue::F32Bits(pattern) => seq![3u8] + bytes::le32(pattern.bits) + zeros(4),
    }
}

pub open spec fn entry_bytes(entry: RetentionHead) -> Seq<u8> {
    bytes::le64(entry.series.value) + bytes::le16(entry.field.value) + bytes::lei64(entry.fact_ts)
        + value_bytes(entry.value)
}

/// Entries one after the other.
pub open spec fn entries_bytes(entries: Seq<RetentionHead>) -> Seq<u8>
    decreases entries.len(),
{
    if entries.len() == 0 {
        Seq::empty()
    } else {
        entry_bytes(entries[0]) + entries_bytes(entries.skip(1))
    }
}

/// How many leading entries belong to the table.
pub open spec fn leading(entries: Seq<RetentionHead>, table: TableId) -> nat
    decreases entries.len(),
{
    if entries.len() == 0 || entries[0].table != table {
        0
    } else {
        1 + leading(entries.skip(1), table)
    }
}

pub proof fn leading_facts(entries: Seq<RetentionHead>, table: TableId)
    ensures
        leading(entries, table) <= entries.len(),
        forall|i: int|
            0 <= i < leading(entries, table) ==> (#[trigger] entries[i]).table == table,
        leading(entries, table) < entries.len() ==> entries[leading(entries, table) as int].table
            != table,
    decreases entries.len(),
{
    if entries.len() > 0 && entries[0].table == table {
        let rest = entries.skip(1);
        leading_facts(rest, table);
        assert forall|i: int| 0 <= i < leading(entries, table) implies (
        #[trigger] entries[i]).table == table by {
            if i > 0 {
                assert(rest[i - 1].table == table);
            }
        }
        if leading(entries, table) < entries.len() {
            assert(rest[leading(rest, table) as int] == entries[leading(entries, table) as int]);
        }
    }
}

/// The entries grouped by table: each group is the table, its count and its entries.
pub open spec fn body_bytes(entries: Seq<RetentionHead>) -> Seq<u8>
    decreases entries.len(),
{
    if entries.len() == 0 {
        Seq::empty()
    } else {
        proof {
            leading_facts(entries, entries[0].table);
        }
        let count = leading(entries, entries[0].table);
        bytes::le32(entries[0].table.value) + bytes::le32(count as u32) + entries_bytes(
            entries.take(count as int),
        ) + body_bytes(entries.skip(count as int))
    }
}

pub open spec fn header_bytes(floor: i64, total: u32) -> Seq<u8> {
    seq![76u8, 83u8, 82u8, 49u8] + bytes::le16(FORMAT_VERSION) + bytes::le16(0) + bytes::lei64(
        floor,
    ) + bytes::le32(total)
}

/// The file that holds the heads.
pub open spec fn file_bytes(heads: HeadsView) -> Seq<u8> {
    let header = header_bytes(heads.floor, heads.entries.len() as u32);
    let body = body_bytes(heads.entries);
    header + bytes::le32(checksum::crc32(header)) + body + bytes::le32(checksum::crc32(body))
}

pub open spec fn heads_corruption(reason: &'static str) -> Error {
    error::corruption("retention heads", reason)
}

pub open spec fn all_zeros(bytes: Seq<u8>) -> bool {
    forall|k: int| 0 <= k < bytes.len() ==> bytes[k] == 0
}

/// The value that a tag and eight bytes stand for.
pub open spec fn value_read(tag: u8, payload: Seq<u8>) -> Result<CellValue> {
    if tag == 0 && all_zeros(payload) {
        Ok(CellValue::Null)
    } else if tag == 1 {
        Ok(CellValue::UInt(bytes::un64(payload)))
    } else if tag == 2 && all_zeros(payload.skip(1)) && payload[0] != 255 {
        Ok(CellValue::Sq1(Sq1 { code: payload[0] }))
    } else if tag == 3 && all_zeros(payload.skip(4)) {
        Ok(CellValue::F32Bits(F32Bits { bits: bytes::un32(payload.take(4)) }))
    } else {
        Err(heads_corruption("value tag or payload padding is invalid"))
    }
}

/// The entry at the front of the bytes, which must follow the previous stream of its table.
pub open spec fn entry_read(
    source: Seq<u8>,
    table: TableId,
    floor: i64,
    previous: Option<int>,
) -> Result<RetentionHead> {
    let series = SeriesId { value: bytes::un64(source.subrange(0, 8)) };
    let field = FieldId { value: bytes::un16(source.subrange(8, 10)) };
    let fact_ts = bytes::uni64(source.subrange(10, 18));
    if source.len() < ENTRY_BYTES {
        Err(heads_corruption("file is truncated"))
    } else if previous matches Some(rank) && rank >= types::stream_rank(series, field) {
        Err(heads_corruption("stream keys are not strictly ordered"))
    } else if fact_ts >= floor {
        Err(heads_corruption("Fact does not predate floor"))
    } else {
        match value_read(source[18], source.subrange(19, 27)) {
            Err(e) => Err(e),
            Ok(value) => Ok(RetentionHead { table, series, field, fact_ts, value }),
        }
    }
}

/// A list in front of what else was read.
pub open spec fn prepend(front: Seq<RetentionHead>, rest: Result<Seq<RetentionHead>>) -> Result<
    Seq<RetentionHead>,
> {
    match rest {
        Err(e) => Err(e),
        Ok(list) => Ok(front + list),
    }
}

/// So many entries of one table from the front of the bytes.
pub open spec fn entries_read(
    source: Seq<u8>,
    count: nat,
    table: TableId,
    floor: i64,
    previous: Option<int>,
) -> Result<Seq<RetentionHead>>
    decreases count,
{
    if count == 0 {
        Ok(Seq::empty())
    } else {
        match entry_read(source, table, floor, previous) {
            Err(e) => Err(e),
            Ok(entry) => prepend(
                seq![entry],
                entries_read(
                    source.skip(ENTRY_BYTES as int),
                    (count - 1) as nat,
                    table,
                    floor,
                    Some(types::stream_rank(entry.series, entry.field)),
                ),
            ),
        }
    }
}

/// Every group of the body, whose tables must strictly increase.
pub open spec fn groups_read(source: Seq<u8>, floor: i64, previous: Option<TableId>) -> Result<
    Seq<RetentionHead>,
>
    decreases source.len(),
{
    let table = TableId { value: bytes::un32(source.subrange(0, 4)) };
    let count = bytes::un32(source.subrange(4, 8));
    if source.len() == 0 {
        Ok(Seq::empty())
    } else if source.len() < TABLE_HEADER_BYTES {
        Err(heads_corruption("file is truncated"))
    } else if count == 0 || (previous matches Some(last) && last.value >= table.value) {
        Err(heads_corruption("table groups are empty or unordered"))
    } else {
        match entries_read(source.skip(8), count as nat, table, floor, None) {
            Err(e) => Err(e),
            Ok(list) => if 8 + count * 27 > source.len() {
                Err(heads_corruption("file is truncated"))
            } else {
                prepend(list, groups_read(source.skip(8 + count * 27), floor, Some(table)))
            },
        }
    }
}

/// What a file of heads says, if it is one.
pub open spec fn file_read(file: Seq<u8>, expected_floor: i64) -> Result<HeadsView> {
    let total = bytes::un32(file.subrange(16, 20));
    let body = file.subrange(24, file.len() - 4);
    if file.len() < 28 || file.subrange(0, 4) != seq![76u8, 83u8, 82u8, 49u8] || bytes::un16(
        file.subrange(4, 6),
    ) != FORMAT_VERSION || bytes::un16(file.subrange(6, 8)) != 0 || checksum::crc32(
        file.subrange(0, 20),
    ) != bytes::un32(file.subrange(20, 24)) {
        Err(heads_corruption("header, version, reserved bytes, or CRC is invalid"))
    } else if bytes::uni64(file.subrange(8, 16)) != expected_floor {
        Err(heads_corruption("floor disagrees with MANIFEST"))
    } else if total > MAX_RETENTION_HEADS {
        Err(error::limit("retention_heads", total as u64, MAX_RETENTION_HEADS as u64))
    } else if checksum::crc32(body) != bytes::un32(
        file.subrange(file.len() - 4, file.len() as int),
    ) {
        Err(heads_corruption("body CRC mismatch"))
    } else if total * ENTRY_BYTES > body.len() {
        Err(heads_corruption("file is truncated"))
    } else {
        match groups_read(body, expected_floor, None) {
            Err(e) => Err(e),
            Ok(entries) => if entries.len() != total {
                Err(heads_corruption("entry total disagrees with table groups"))
            } else {
                Ok(HeadsView { floor: expected_floor, entries })
            },
        }
    }
}

/// What one group holds.
proof fn entries_read_facts(
    source: Seq<u8>,
    count: nat,
    table: TableId,
    floor: i64,
    previous: Option<int>,
)
    requires
        entries_read(source, count, table, floor, previous) is Ok,
    ensures
        ({
            let list = entries_read(source, count, table, floor, previous)->Ok_0;
            &&& list.len() == count
            &&& count * 27 <= source.len()
            &&& heads_ordered(list)
            &&& heads_below(list, floor)
            &&& heads_wf(list)
            &&& forall|i: int|
                0 <= i < list.len() ==> (#[trigger] list[i]).table == table && (
                previous matches Some(rank) ==> rank < types::stream_rank(
                    list[i].series,
                    list[i].field,
                ))
        }),
    decreases count,
{
    if count > 0 {
        let entry = entry_read(source, table, floor, previous)->Ok_0;
        let here = types::stream_rank(entry.series, entry.field);
        let next = source.skip(ENTRY_BYTES as int);
        entries_read_facts(next, (count - 1) as nat, table, floor, Some(here));
        let rest = entries_read(next, (count - 1) as nat, table, floor, Some(here))->Ok_0;
        let list = seq![entry] + rest;
        assert(list == entries_read(source, count, table, floor, previous)->Ok_0);
        assert forall|i: int| 0 <= i < list.len() implies (#[trigger] list[i]).table == table && (
        previous matches Some(rank) ==> rank < types::stream_rank(list[i].series, list[i].field))
            && list[i].fact_ts < floor && list[i].value.wf() by {
            if i > 0 {
                assert(list[i] == rest[i - 1]);
            }
        }
        assert forall|i: int, j: int| 0 <= i < j < list.len() implies (
        #[trigger] list[i]).spec_key().rank() < (#[trigger] list[j]).spec_key().rank() by {
            assert(list[j] == rest[j - 1]);
            if i > 0 {
                assert(rest[i - 1].spec_key().rank() < rest[j - 1].spec_key().rank());
            }
        }
    }
}

/// What a body holds: heads in order and below the floor.
proof fn groups_read_facts(source: Seq<u8>, floor: i64, previous: Option<TableId>)
    requires
        groups_read(source, floor, previous) is Ok,
    ensures
        ({
            let list = groups_read(source, floor, previous)->Ok_0;
            &&& heads_ordered(list)
            &&& heads_below(list, floor)
            &&& heads_wf(list)
            &&& forall|i: int|
                0 <= i < list.len() ==> (previous matches Some(last) ==> last.value < (
                #[trigger] list[i]).table.value)
        }),
    decreases source.len(),
{
    if source.len() > 0 {
        let table = TableId { value: bytes::un32(source.subrange(0, 4)) };
        let count = bytes::un32(source.subrange(4, 8));
        let next = source.skip(8 + count * 27);
        entries_read_facts(source.skip(8), count as nat, table, floor, None);
        groups_read_facts(next, floor, Some(table));
        let front = entries_read(source.skip(8), count as nat, table, floor, None)->Ok_0;
        let rest = groups_read(next, floor, Some(table))->Ok_0;
        let list = front + rest;
        assert(list == groups_read(source, floor, previous)->Ok_0);
        assert forall|i: int| 0 <= i < list.len() implies (#[trigger] list[i]).fact_ts < floor
            && list[i].value.wf() && (previous matches Some(last) ==> last.value
            < list[i].table.value) by {
            if i < front.len() {
                assert(list[i] == front[i]);
            } else {
                assert(list[i] == rest[i - front.len()]);
            }
        }
        assert forall|i: int, j: int| 0 <= i < j < list.len() implies (
        #[trigger] list[i]).spec_key().rank() < (#[trigger] list[j]).spec_key().rank() by {
            if j < front.len() {
                assert(front[i].spec_key().rank() < front[j].spec_key().rank());
            } else if i < front.len() {
                assert(list[i] == front[i]);
                assert(list[j] == rest[j - front.len()]);
                assert(list[i].table.value < list[j].table.value);
            } else {
                assert(rest[i - front.len()].spec_key().rank()
                    < rest[j - front.len()].spec_key().rank());
            }
        }
    }
}

/// A written value reads back.
proof fn value_round_trip(value: CellValue)
    requires
        value.wf(),
    ensures
        value_bytes(value).len() == 9,
        value_read(value_bytes(value)[0], value_bytes(value).subrange(1, 9)) == Ok::<
            CellValue,
            Error,
        >(value),
{
    bytes::scalars_round_trip();
    let written = value_bytes(value);
    let payload = written.subrange(1, 9);
    match value {
        CellValue::Null => {
            assert(all_zeros(payload));
        },
        CellValue::UInt(number) => {
            assert(payload =~= bytes::le64(number));
        },
        CellValue::Sq1(quality) => {
            assert(payload.skip(1) =~= zeros(7));
            assert(all_zeros(payload.skip(1)));
        },
        CellValue::F32Bits(pattern) => {
            assert(bytes::le32(pattern.bits).len() == 4);
            assert(payload.skip(4) =~= zeros(4));
            assert(all_zeros(payload.skip(4)));
            assert(payload.take(4) =~= bytes::le32(pattern.bits));
        },
    }
}

proof fn entry_round_trip(
    entry: RetentionHead,
    tail: Seq<u8>,
    floor: i64,
    previous: Option<int>,
)
    requires
        entry.value.wf(),
        entry.fact_ts < floor,
        previous matches Some(rank) ==> rank < types::stream_rank(entry.series, entry.field),
    ensures
        entry_bytes(entry).len() == ENTRY_BYTES,
        entry_read(entry_bytes(entry) + tail, entry.table, floor, previous) == Ok::<
            RetentionHead,
            Error,
        >(entry),
{
    bytes::scalars_round_trip();
    value_round_trip(entry.value);
    let source = entry_bytes(entry) + tail;
    assert(bytes::le64(entry.series.value).len() == 8);
    assert(bytes::le16(entry.field.value).len() == 2);
    assert(bytes::lei64(entry.fact_ts).len() == 8);
    assert(source.subrange(0, 8) =~= bytes::le64(entry.series.value));
    assert(source.subrange(8, 10) =~= bytes::le16(entry.field.value));
    assert(source.subrange(10, 18) =~= bytes::lei64(entry.fact_ts));
    assert(source[18] == value_bytes(entry.value)[0]);
    assert(source.subrange(19, 27) =~= value_bytes(entry.value).subrange(1, 9));
}

proof fn entries_round_trip(
    list: Seq<RetentionHead>,
    tail: Seq<u8>,
    table: TableId,
    floor: i64,
    previous: Option<int>,
)
    requires
        heads_wf(list),
        heads_below(list, floor),
        heads_ordered(list),
        forall|i: int| 0 <= i < list.len() ==> (#[trigger] list[i]).table == table,
        list.len() > 0 ==> (previous matches Some(rank) ==> rank < types::stream_rank(
            list[0].series,
            list[0].field,
        )),
    ensures
        entries_bytes(list).len() == 27 * list.len(),
        entries_read(entries_bytes(list) + tail, list.len(), table, floor, previous) == Ok::<
            Seq<RetentionHead>,
            Error,
        >(list),
    decreases list.len(),
{
    if list.len() > 0 {
        let entry = list[0];
        let rest = list.skip(1);
        let here = types::stream_rank(entry.series, entry.field);
        assert(heads_wf(rest));
        assert(heads_below(rest, floor));
        assert forall|i: int, j: int| 0 <= i < j < rest.len() implies (
        #[trigger] rest[i]).spec_key().rank() < (#[trigger] rest[j]).spec_key().rank() by {
            assert(list[i + 1].spec_key().rank() < list[j + 1].spec_key().rank());
        }
        if rest.len() > 0 {
            assert(list[0].spec_key().rank() < list[1].spec_key().rank());
        }
        entries_round_trip(rest, tail, table, floor, Some(here));
        entry_round_trip(entry, entries_bytes(rest) + tail, floor, previous);
        let source = entries_bytes(list) + tail;
        assert(source =~= entry_bytes(entry) + (entries_bytes(rest) + tail));
        assert(source.skip(ENTRY_BYTES as int) =~= entries_bytes(rest) + tail);
        assert(seq![entry] + rest =~= list);
    } else {
        assert(list =~= Seq::empty());
    }
}

proof fn body_round_trip(entries: Seq<RetentionHead>, floor: i64, previous: Option<TableId>)
    requires
        entries.len() <= MAX_RETENTION_HEADS,
        heads_wf(entries),
        heads_below(entries, floor),
        heads_ordered(entries),
        entries.len() > 0 ==> (previous matches Some(last) ==> last.value < entries[0].table.value),
    ensures
        body_bytes(entries).len() >= 27 * entries.len(),
        groups_read(body_bytes(entries), floor, previous) == Ok::<Seq<RetentionHead>, Error>(
            entries,
        ),
    decreases entries.len(),
{
    if entries.len() > 0 {
        bytes::scalars_round_trip();
        let table = entries[0].table;
        leading_facts(entries, table);
        let count = leading(entries, table);
        let group = entries.take(count as int);
        let rest = entries.skip(count as int);
        assert forall|i: int, j: int| 0 <= i < j < rest.len() implies (
        #[trigger] rest[i]).spec_key().rank() < (#[trigger] rest[j]).spec_key().rank() by {
            assert(entries[i + count].spec_key().rank() < entries[j + count].spec_key().rank());
        }
        if rest.len() > 0 {
            assert(rest[0] == entries[count as int]);
            assert(entries[0].spec_key().rank() < entries[count as int].spec_key().rank());
        }
        body_round_trip(rest, floor, Some(table));
        entries_round_trip(group, body_bytes(rest), table, floor, None);
        let source = body_bytes(entries);
        assert(bytes::le32(table.value).len() == 4);
        assert(bytes::le32(count as u32).len() == 4);
        assert(source.subrange(0, 4) =~= bytes::le32(table.value));
        assert(source.subrange(4, 8) =~= bytes::le32(count as u32));
        assert(source.skip(8) =~= entries_bytes(group) + body_bytes(rest));
        assert(source.skip((8 + count * 27) as int) =~= body_bytes(rest));
        assert(group + rest =~= entries);
    } else {
        assert(entries =~= Seq::empty());
    }
}

/// Written heads read back bit for bit, under the floor they were written with.
pub proof fn heads_round_trip(heads: HeadsView)
    requires
        heads.valid(),
        heads_wf(heads.entries),
    ensures
        file_read(file_bytes(heads), heads.floor) == Ok::<HeadsView, Error>(heads),
{
    bytes::scalars_round_trip();
    let total = heads.entries.len() as u32;
    let header = header_bytes(heads.floor, total);
    let body = body_bytes(heads.entries);
    let file = file_bytes(heads);
    body_round_trip(heads.entries, heads.floor, None);
    assert(bytes::le16(FORMAT_VERSION).len() == 2);
    assert(bytes::le16(0).len() == 2);
    assert(bytes::lei64(heads.floor).len() == 8);
    assert(bytes::le32(total).len() == 4);
    assert(bytes::le32(checksum::crc32(header)).len() == 4);
    assert(bytes::le32(checksum::crc32(body)).len() == 4);
    assert(file.subrange(0, 4) =~= seq![76u8, 83u8, 82u8, 49u8]);
    assert(file.subrange(4, 6) =~= bytes::le16(FORMAT_VERSION));
    assert(file.subrange(6, 8) =~= bytes::le16(0));
    assert(file.subrange(8, 16) =~= bytes::lei64(heads.floor));
    assert(file.subrange(16, 20) =~= bytes::le32(total));
    assert(file.subrange(0, 20) =~= header);
    assert(file.subrange(20, 24) =~= bytes::le32(checksum::crc32(header)));
    assert(file.subrange(24, file.len() - 4) =~= body);
    assert(file.subrange(file.len() - 4, file.len() as int) =~= bytes::le32(checksum::crc32(body)));
}

/// Only what was written is read: no byte of an accepted file is free.
pub proof fn accepted_heads_are_canonical(file: Seq<u8>, floor: i64)
    requires
        file_read(file, floor) is Ok,
    ensures
        ({
            let heads = file_read(file, floor)->Ok_0;
            &&& heads.valid()
            &&& heads_wf(heads.entries)
            &&& file == file_bytes(heads)
        }),
{
    bytes::scalars_round_trip();
    let heads = file_read(file, floor)->Ok_0;
    let body = file.subrange(24, file.len() - 4);
    groups_read_facts(body, floor, None);
    body_is_canonical(body, floor, None);
    let total = heads.entries.len() as u32;
    let header = header_bytes(floor, total);
    assert(bytes::le16(FORMAT_VERSION) == file.subrange(4, 6));
    assert(bytes::le16(0) == file.subrange(6, 8));
    assert(bytes::lei64(floor) == file.subrange(8, 16));
    assert(bytes::le32(total) == file.subrange(16, 20));
    assert(header =~= file.subrange(0, 20));
    assert(bytes::le32(checksum::crc32(header)) == file.subrange(20, 24));
    assert(bytes::le32(checksum::crc32(body)) == file.subrange(file.len() - 4, file.len() as int));
    assert(file =~= file_bytes(heads));
}

proof fn value_is_canonical(tag: u8, payload: Seq<u8>)
    requires
        payload.len() == 8,
        value_read(tag, payload) is Ok,
    ensures
        value_bytes(value_read(tag, payload)->Ok_0) == seq![tag] + payload,
{
    bytes::scalars_round_trip();
    let value = value_read(tag, payload)->Ok_0;
    match value {
        CellValue::Null => {
            assert(payload =~= zeros(8));
        },
        CellValue::UInt(_) => {},
        CellValue::Sq1(_) => {
            assert(payload.skip(1) =~= zeros(7));
            assert(payload =~= seq![payload[0]] + payload.skip(1));
            assert(value_bytes(value) =~= seq![tag] + payload);
        },
        CellValue::F32Bits(pattern) => {
            assert(payload.skip(4) =~= zeros(4));
            assert(bytes::le32(pattern.bits) == payload.take(4));
            assert(payload =~= payload.take(4) + payload.skip(4));
            assert(value_bytes(value) =~= seq![tag] + payload);
        },
    }
}

proof fn entries_are_canonical(
    source: Seq<u8>,
    count: nat,
    table: TableId,
    floor: i64,
    previous: Option<int>,
)
    requires
        entries_read(source, count, table, floor, previous) is Ok,
    ensures
        source.len() >= 27 * count,
        source.take(27 * count as int) == entries_bytes(
            entries_read(source, count, table, floor, previous)->Ok_0,
        ),
    decreases count,
{
    if count > 0 {
        bytes::scalars_round_trip();
        let entry = entry_read(source, table, floor, previous)->Ok_0;
        let here = types::stream_rank(entry.series, entry.field);
        let next = source.skip(ENTRY_BYTES as int);
        entries_are_canonical(next, (count - 1) as nat, table, floor, Some(here));
        value_is_canonical(source[18], source.subrange(19, 27));
        let rest = entries_read(next, (count - 1) as nat, table, floor, Some(here))->Ok_0;
        assert(bytes::le64(entry.series.value) == source.subrange(0, 8));
        assert(bytes::le16(entry.field.value) == source.subrange(8, 10));
        assert(bytes::lei64(entry.fact_ts) == source.subrange(10, 18));
        assert(entry_bytes(entry) =~= source.take(27));
        assert((seq![entry] + rest).skip(1) =~= rest);
        assert(source.take(27 * count as int) =~= source.take(27) + next.take(
            27 * (count - 1) as int,
        ));
    } else {
        assert(source.take(0) =~= Seq::empty());
    }
}

proof fn leading_of_join(front: Seq<RetentionHead>, rest: Seq<RetentionHead>, table: TableId)
    requires
        forall|i: int| 0 <= i < front.len() ==> (#[trigger] front[i]).table == table,
        rest.len() > 0 ==> rest[0].table != table,
    ensures
        leading(front + rest, table) == front.len(),
    decreases front.len(),
{
    let all = front + rest;
    if front.len() > 0 {
        leading_of_join(front.skip(1), rest, table);
        assert(all.skip(1) =~= front.skip(1) + rest);
        assert(all[0] == front[0]);
    } else {
        assert(all =~= rest);
    }
}

proof fn body_is_canonical(source: Seq<u8>, floor: i64, previous: Option<TableId>)
    requires
        groups_read(source, floor, previous) is Ok,
    ensures
        source == body_bytes(groups_read(source, floor, previous)->Ok_0),
    decreases source.len(),
{
    if source.len() > 0 {
        bytes::scalars_round_trip();
        let table = TableId { value: bytes::un32(source.subrange(0, 4)) };
        let count = bytes::un32(source.subrange(4, 8));
        let next = source.skip(8 + count * 27);
        entries_read_facts(source.skip(8), count as nat, table, floor, None);
        entries_are_canonical(source.skip(8), count as nat, table, floor, None);
        groups_read_facts(next, floor, Some(table));
        body_is_canonical(next, floor, Some(table));
        let front = entries_read(source.skip(8), count as nat, table, floor, None)->Ok_0;
        let rest = groups_read(next, floor, Some(table))->Ok_0;
        let list = front + rest;
        leading_of_join(front, rest, table);
        assert(list[0] == front[0]);
        assert(list.take(count as int) =~= front);
        assert(list.skip(count as int) =~= rest);
        assert(bytes::le32(table.value) == source.subrange(0, 4));
        assert(bytes::le32(count) == source.subrange(4, 8));
        assert(source =~= source.subrange(0, 4) + source.subrange(4, 8) + source.skip(8).take(
            27 * count as int,
        ) + next);
    } else {
        assert(source =~= Seq::empty());
    }
}

fn put_zeros(output: &mut Vec<u8>, count: usize)
    ensures
        final(output)@ == old(output)@ + zeros(count as nat),
{
    let mut index: usize = 0;
    assert(output@ =~= old(output)@ + zeros(0));
    while index < count
        invariant
            index <= count,
            output@ == old(output)@ + zeros(index as nat),
        decreases count - index,
    {
        output.push(0);
        index += 1;
        assert(output@ =~= old(output)@ + zeros(index as nat));
    }
}

fn encode_value(value: CellValue, output: &mut Vec<u8>)
    ensures
        final(output)@ == old(output)@ + value_bytes(value),
{
    match value {
        CellValue::Null => {
            output.push(0);
            put_zeros(output, 8);
        },
        CellValue::UInt(number) => {
            output.push(1);
            bytes::put_u64(output, number);
        },
        CellValue::Sq1(quality) => {
            output.push(2);
            output.push(quality.code);
            put_zeros(output, 7);
        },
        CellValue::F32Bits(pattern) => {
            output.push(3);
            bytes::put_u32(output, pattern.bits);
            put_zeros(output, 4);
        },
    }
    assert(output@ =~= old(output)@ + value_bytes(value));
}

fn encode_entry(entry: RetentionHead, output: &mut Vec<u8>)
    ensures
        final(output)@ == old(output)@ + entry_bytes(entry),
{
    bytes::put_u64(output, entry.series.value);
    bytes::put_u16(output, entry.field.value);
    bytes::put_i64(output, entry.fact_ts);
    encode_value(entry.value, output);
    assert(output@ =~= old(output)@ + entry_bytes(entry));
}

fn encode_body(entries: &[RetentionHead]) -> (body: Vec<u8>)
    requires
        entries@.len() <= MAX_RETENTION_HEADS,
    ensures
        body@ == body_bytes(entries@),
{
    let mut body: Vec<u8> = Vec::new();
    let mut start: usize = 0;
    assert(entries@.skip(0) =~= entries@);
    assert(body@ + body_bytes(entries@) =~= body_bytes(entries@));
    while start < entries.len()
        invariant
            start <= entries@.len() <= MAX_RETENTION_HEADS,
            body@ + body_bytes(entries@.skip(start as int)) == body_bytes(entries@),
        decreases entries@.len() - start,
    {
        let table = entries[start].table;
        let ghost rest = entries@.skip(start as int);
        let ghost count = leading(rest, table);
        let mut end: usize = start;
        while end < entries.len() && entries[end].table == table
            invariant
                start <= end <= entries@.len(),
                rest == entries@.skip(start as int),
                count == leading(rest, table),
                count == (end - start) + leading(entries@.skip(end as int), table),
            decreases entries@.len() - end,
        {
            assert(entries@.skip(end as int).skip(1) =~= entries@.skip(end + 1));
            assert(entries@.skip(end as int)[0] == entries@[end as int]);
            end += 1;
        }
        proof {
            leading_facts(rest, table);
            assert(rest[0] == entries@[start as int]);
            if end < entries@.len() {
                assert(entries@.skip(end as int)[0] == entries@[end as int]);
            }
            assert(leading(entries@.skip(end as int), table) == 0);
        }
        let ghost before = body@;
        let ghost group = rest.take(count as int);
        bytes::put_u32(&mut body, table.value);
        bytes::put_u32(&mut body, (end - start) as u32);
        let ghost headed = body@;
        let mut index: usize = start;
        assert(group.skip(0) =~= group);
        while index < end
            invariant
                start <= index <= end <= entries@.len(),
                rest == entries@.skip(start as int),
                count == end - start,
                group == rest.take(count as int),
                body@ + entries_bytes(group.skip(index - start)) == headed + entries_bytes(group),
            decreases end - index,
        {
            proof {
                let left = group.skip(index - start);
                assert(left[0] == entries@[index as int]);
                assert(left.skip(1) =~= group.skip(index + 1 - start));
                assert(body@ + entries_bytes(left) =~= body@ + entry_bytes(left[0])
                    + entries_bytes(left.skip(1)));
            }
            encode_entry(entries[index], &mut body);
            index += 1;
        }
        proof {
            assert(group.skip(count as int) =~= Seq::empty());
            assert(body@ =~= headed + entries_bytes(group));
            assert(rest.skip(count as int) =~= entries@.skip(end as int));
            assert(before + body_bytes(rest) =~= body@ + body_bytes(entries@.skip(end as int)));
        }
        start = end;
    }
    assert(entries@.skip(start as int) =~= Seq::empty());
    assert(body@ =~= body_bytes(entries@));
    body
}

/// The file that holds the heads.
pub fn encode(heads: &RetentionHeads) -> (r: Result<Vec<u8>>)
    requires
        heads.valid(),
    ensures
        r matches Ok(file) && file@ == file_bytes(heads@),
{
    let body = encode_body(heads.entries.as_slice());
    let mut file: Vec<u8> = Vec::new();
    file.push(76);
    file.push(83);
    file.push(82);
    file.push(49);
    bytes::put_u16(&mut file, FORMAT_VERSION);
    bytes::put_u16(&mut file, 0);
    bytes::put_i64(&mut file, heads.floor);
    bytes::put_u32(&mut file, heads.entries.len() as u32);
    assert(file@ =~= header_bytes(heads.floor, heads@.entries.len() as u32));
    let crc: u32 = checksum::crc32_of(file.as_slice());
    bytes::put_u32(&mut file, crc);
    bytes::put_slice(&mut file, body.as_slice());
    let crc: u32 = checksum::crc32_of(body.as_slice());
    bytes::put_u32(&mut file, crc);
    Ok(file)
}

fn decode_value(tag: u8, payload: &[u8]) -> (r: Result<CellValue>)
    requires
        payload@.len() == 8,
    ensures
        r == value_read(tag, payload@),
{
    if tag == 0 && bytes::all_zero(payload) {
        return Ok(CellValue::Null);
    }
    if tag == 1 {
        assert(payload@.subrange(0, 8) =~= payload@);
        return Ok(CellValue::UInt(bytes::u64_at(payload, 0)));
    }
    if tag == 2 {
        let padding = vstd::slice::slice_subrange(payload, 1, 8);
        assert(padding@ =~= payload@.skip(1));
        if bytes::all_zero(padding) && payload[0] != 255 {
            return Ok(CellValue::Sq1(Sq1 { code: payload[0] }));
        }
    }
    if tag == 3 {
        let padding = vstd::slice::slice_subrange(payload, 4, 8);
        assert(padding@ =~= payload@.skip(4));
        if bytes::all_zero(padding) {
            assert(payload@.subrange(0, 4) =~= payload@.take(4));
            return Ok(CellValue::F32Bits(F32Bits { bits: bytes::u32_at(payload, 0) }));
        }
    }
    Err(Error::corruption("retention heads", "value tag or payload padding is invalid"))
}

fn decode_entry(
    body: &[u8],
    offset: usize,
    table: TableId,
    floor: i64,
    previous: Option<(SeriesId, FieldId)>,
) -> (r: Result<RetentionHead>)
    requires
        offset <= body@.len(),
    ensures
        r == entry_read(
            body@.skip(offset as int),
            table,
            floor,
            match previous {
                Some((series, field)) => Some(types::stream_rank(series, field)),
                None => None,
            },
        ),
{
    let ghost source = body@.skip(offset as int);
    let length: usize = body.len();
    if length - offset < ENTRY_BYTES {
        return Err(Error::corruption("retention heads", "file is truncated"));
    }
    assert(source.subrange(0, 8) =~= body@.subrange(offset as int, offset + 8));
    assert(source.subrange(8, 10) =~= body@.subrange(offset + 8, offset + 10));
    assert(source.subrange(10, 18) =~= body@.subrange(offset + 10, offset + 18));
    assert(source.subrange(19, 27) =~= body@.subrange(offset + 19, offset + 27));
    let series = SeriesId { value: bytes::u64_at(body, offset) };
    let field = FieldId { value: bytes::u16_at(body, offset + 8) };
    if let Some((last_series, last_field)) = previous {
        if last_series.value > series.value || (last_series.value == series.value
            && last_field.value >= field.value) {
            return Err(
                Error::corruption("retention heads", "stream keys are not strictly ordered"),
            );
        }
    }
    let fact_ts: i64 = bytes::i64_at(body, offset + 10);
    if fact_ts >= floor {
        return Err(Error::corruption("retention heads", "Fact does not predate floor"));
    }
    let payload = vstd::slice::slice_subrange(body, offset + 19, offset + 27);
    match decode_value(body[offset + 18], payload) {
        Err(e) => Err(e),
        Ok(value) => Ok(RetentionHead { table, series, field, fact_ts, value }),
    }
}

proof fn prepend_twice(
    front: Seq<RetentionHead>,
    middle: Seq<RetentionHead>,
    rest: Result<Seq<RetentionHead>>,
)
    ensures
        prepend(front, prepend(middle, rest)) == prepend(front + middle, rest),
{
    if rest is Ok {
        assert(front + (middle + rest->Ok_0) =~= (front + middle) + rest->Ok_0);
    }
}

fn decode_body(body: &[u8], total: u32, floor: i64) -> (r: Result<Vec<RetentionHead>>)
    ensures
        match (r, groups_read(body@, floor, None)) {
            (Err(e), Err(f)) => e == f,
            (Ok(entries), Ok(list)) => entries@ == list && list.len() == total,
            (Err(e), Ok(list)) => list.len() != total && e == heads_corruption(
                "entry total disagrees with table groups",
            ),
            (Ok(_), Err(_)) => false,
        },
{
    let mut entries: Vec<RetentionHead> = Vec::new();
    let mut offset: usize = 0;
    let mut previous_table: Option<TableId> = None;
    let ghost whole = groups_read(body@, floor, None);
    let length: usize = body.len();
    proof {
        assert(body@.skip(0) =~= body@);
        if whole is Ok {
            assert(Seq::<RetentionHead>::empty() + whole->Ok_0 =~= whole->Ok_0);
        }
    }
    while offset < length
        invariant
            length == body@.len(),
            offset <= length,
            whole == groups_read(body@, floor, None),
            whole == prepend(
                entries@,
                groups_read(body@.skip(offset as int), floor, previous_table),
            ),
        decreases length - offset,
    {
        let ghost source = body@.skip(offset as int);
        let ghost before = entries@;
        if length - offset < TABLE_HEADER_BYTES {
            return Err(Error::corruption("retention heads", "file is truncated"));
        }
        assert(source.subrange(0, 4) =~= body@.subrange(offset as int, offset + 4));
        assert(source.subrange(4, 8) =~= body@.subrange(offset + 4, offset + 8));
        let table = TableId { value: bytes::u32_at(body, offset) };
        let count: u32 = bytes::u32_at(body, offset + 4);
        let unordered = match previous_table {
            Some(last) => last.value >= table.value,
            None => false,
        };
        if count == 0 || unordered {
            return Err(
                Error::corruption("retention heads", "table groups are empty or unordered"),
            );
        }
        offset += TABLE_HEADER_BYTES;
        let ghost start = offset as int;
        let ghost group = entries_read(source.skip(8), count as nat, table, floor, None);
        let mut previous: Option<(SeriesId, FieldId)> = None;
        let mut index: u32 = 0;
        proof {
            assert(body@.skip(offset as int) =~= source.skip(8));
            if group is Ok {
                assert(Seq::<RetentionHead>::empty() + group->Ok_0 =~= group->Ok_0);
            }
            assert(entries@ =~= before + Seq::<RetentionHead>::empty());
            assert(entries@.skip(before.len() as int) =~= Seq::empty());
        }
        while index < count
            invariant
                length == body@.len(),
                index <= count,
                start <= offset <= length,
                offset == start + 27 * index,
                before.len() <= entries@.len(),
                entries@.take(before.len() as int) == before,
                group == prepend(
                    entries@.skip(before.len() as int),
                    entries_read(
                        body@.skip(offset as int),
                        (count - index) as nat,
                        table,
                        floor,
                        match previous {
                            Some((series, field)) => Some(types::stream_rank(series, field)),
                            None => None,
                        },
                    ),
                ),
                whole == groups_read(body@, floor, None),
                group is Err ==> whole == Err::<Seq<RetentionHead>, Error>(group->Err_0),
            decreases count - index,
        {
            let entry = match decode_entry(body, offset, table, floor, previous) {
                Ok(entry) => entry,
                Err(e) => return Err(e),
            };
            proof {
                let done = entries@.skip(before.len() as int);
                let here = types::stream_rank(entry.series, entry.field);
                let rest = entries_read(
                    body@.skip(offset as int).skip(27),
                    (count - index - 1) as nat,
                    table,
                    floor,
                    Some(here),
                );
                assert(body@.skip(offset as int).skip(27) =~= body@.skip(offset + 27));
                prepend_twice(done, seq![entry], rest);
                assert(entries@.push(entry).skip(before.len() as int) =~= done + seq![entry]);
                assert(entries@.push(entry).take(before.len() as int) =~= before);
            }
            entries.push(entry);
            previous = Some((entry.series, entry.field));
            offset += ENTRY_BYTES;
            index += 1;
        }
        proof {
            let done = entries@.skip(before.len() as int);
            assert(done + Seq::<RetentionHead>::empty() =~= done);
            assert(group == Ok::<Seq<RetentionHead>, Error>(done));
            assert(entries@ =~= before + done);
            assert(source.skip(8 + count * 27) =~= body@.skip(offset as int));
            prepend_twice(
                before,
                done,
                groups_read(body@.skip(offset as int), floor, Some(table)),
            );
        }
        previous_table = Some(table);
    }
    proof {
        assert(body@.skip(offset as int) =~= Seq::empty());
        assert(entries@ + Seq::<RetentionHead>::empty() =~= entries@);
    }
    if entries.len() as u64 != total as u64 {
        return Err(Error::corruption("retention heads", "entry total disagrees with table groups"));
    }
    Ok(entries)
}

/// Reads a file of heads that were kept under the expected floor.
pub fn decode(file: &[u8], expected_floor: i64) -> (r: Result<RetentionHeads>)
    ensures
        match (r, file_read(file@, expected_floor)) {
            (Ok(heads), Ok(view)) => heads@ == view && heads.valid() && heads_wf(view.entries),
            (Err(e), Err(f)) => e == f,
            _ => false,
        },
{
    let length: usize = file.len();
    if length < HEADER_BYTES + FOOTER_BYTES {
        return Err(
            Error::corruption(
                "retention heads",
                "header, version, reserved bytes, or CRC is invalid",
            ),
        );
    }
    let magic = vstd::slice::slice_subrange(file, 0, 4);
    let marked = magic[0] == 76 && magic[1] == 83 && magic[2] == 82 && magic[3] == 49;
    assert(marked == (magic@ =~= seq![76u8, 83u8, 82u8, 49u8]));
    let header = vstd::slice::slice_subrange(file, 0, 20);
    if !marked || bytes::u16_at(file, 4) != FORMAT_VERSION || bytes::u16_at(file, 6) != 0
        || checksum::crc32_of(header) != bytes::u32_at(file, 20) {
        return Err(
            Error::corruption(
                "retention heads",
                "header, version, reserved bytes, or CRC is invalid",
            ),
        );
    }
    let floor: i64 = bytes::i64_at(file, 8);
    if floor != expected_floor {
        return Err(Error::corruption("retention heads", "floor disagrees with MANIFEST"));
    }
    let total: u32 = bytes::u32_at(file, 16);
    if total > MAX_RETENTION_HEADS {
        return Err(Error::limit("retention_heads", total as u64, MAX_RETENTION_HEADS as u64));
    }
    let footer: usize = length - FOOTER_BYTES;
    let body = vstd::slice::slice_subrange(file, HEADER_BYTES, footer);
    if checksum::crc32_of(body) != bytes::u32_at(file, footer) {
        return Err(Error::corruption("retention heads", "body CRC mismatch"));
    }
    if total as usize * ENTRY_BYTES > body.len() {
        return Err(Error::corruption("retention heads", "file is truncated"));
    }
    let entries = match decode_body(body, total, floor) {
        Ok(entries) => entries,
        Err(e) => return Err(e),
    };
    proof {
        groups_read_facts(body@, floor, None);
    }
    match RetentionHeads::new(floor, entries) {
        Ok(heads) => Ok(heads),
        Err(_) => Err(Error::corruption("retention heads", "entry ordering or floor is invalid")),
    }
}

/// The name of the file that holds one generation of heads.
pub open spec fn head_file(generation: u64) -> Seq<u8> {
    names::hexadecimal(generation as nat, 16) + seq![46u8, 108u8, 115u8, 114u8]
}

/// The name of the file that holds one generation of heads.
pub fn head_name(generation: u64) -> (name: Vec<u8>)
    ensures
        name@ == head_file(generation),
{
    let mut name: Vec<u8> = Vec::new();
    names::put_hexadecimal(&mut name, generation, 16);
    name.push(46);
    name.push(108);
    name.push(115);
    name.push(114);
    assert(name@ =~= head_file(generation));
    name
}

/// The name and the bytes under which a generation of heads is to be stored. A generation that
/// is there already is never overwritten.
pub fn publish(generation: u64, heads: &RetentionHeads, exists_already: bool) -> (r: Result<
    (Vec<u8>, Vec<u8>),
>)
    requires
        heads.valid(),
    ensures
        match r {
            Ok((name, file)) => !exists_already && name@ == head_file(generation) && file@
                == file_bytes(heads@),
            Err(e) => exists_already && e == error::invalid(
                "heads_generation",
                "retention-head file already exists",
            ),
        },
{
    if exists_already {
        return Err(Error::invalid("heads_generation", "retention-head file already exists"));
    }
    match encode(heads) {
        Ok(file) => Ok((head_name(generation), file)),
        Err(e) => Err(e),
    }
}

} // verus!
