use std::cell::Cell;

use litesdb::manifest::UnitMeta;
use litesdb::query::primitives::{latest, value_at};
use litesdb::query::sample::sample;
use litesdb::tail::{RecordBody, RecoveredTable, Stream, TailIndex};
use litesdb::unit::{
    DecodedColumn, DecodedSection, MemoryUnit, TableDirectoryEntry, UnitSource,
};
use litesdb::{
    CellValue, ErrorKind, Fact, FactCursor, FieldId, FieldSchema, Lookup, Observation,
    ObservationEntry, Result, SeriesId, Slot, StreamKey, TableId, TableVersion, Validity,
    ValueType, VersionSpec,
};

/// A unit in memory that counts how often it is read.
struct CountingUnit {
    meta: UnitMeta,
    unit: MemoryUnit,
    directory_reads: Cell<u32>,
    section_reads: Cell<u32>,
}

impl CountingUnit {
    fn new(unit: MemoryUnit) -> Self {
        Self {
            meta: unit.meta,
            unit,
            directory_reads: Cell::new(0),
            section_reads: Cell::new(0),
        }
    }

    fn take_section_reads(&self) -> u32 {
        self.section_reads.replace(0)
    }

    fn take_directory_reads(&self) -> u32 {
        self.directory_reads.replace(0)
    }
}

impl UnitSource for CountingUnit {
    fn table_sections(&self, unit: UnitMeta, table: TableId) -> Result<Vec<TableDirectoryEntry>> {
        self.directory_reads
            .set(self.directory_reads.get().saturating_add(1));
        self.unit.table_sections(unit, table)
    }

    fn decode_section(
        &self,
        unit: UnitMeta,
        section: TableDirectoryEntry,
        version: &TableVersion,
    ) -> Result<DecodedSection> {
        self.section_reads
            .set(self.section_reads.get().saturating_add(1));
        self.unit.decode_section(unit, section, version)
    }

    fn decode_streams(
        &self,
        unit: UnitMeta,
        section: TableDirectoryEntry,
        version: &TableVersion,
        streams: &[Stream],
    ) -> Result<DecodedSection> {
        self.section_reads
            .set(self.section_reads.get().saturating_add(1));
        self.unit.decode_streams(unit, section, version, streams)
    }
}

/// Turns the rows of a tail into one unit in memory, one section for each table.
fn seal_snapshot(tail: &TailIndex, unit_id: u64) -> MemoryUnit {
    let mut sections = Vec::new();
    let mut rows_total = 0_u64;
    let mut bounds: Option<(i64, i64)> = None;
    for (table, state) in &tail.tables.entries {
        let timestamps: Vec<i64> = state.rows().iter().map(|row| row.timestamp).collect();
        let (Some(first), Some(last)) = (timestamps.first().copied(), timestamps.last().copied())
        else {
            continue;
        };
        let columns = state
            .postings
            .entries
            .iter()
            .map(|(stream, _)| {
                DecodedColumn::new(
                    stream.series,
                    stream.field,
                    state
                        .rows()
                        .iter()
                        .map(|row| {
                            row.entries
                                .iter()
                                .find(|entry| {
                                    entry.series == stream.series && entry.field == stream.field
                                })
                                .map(|entry| entry.value)
                        })
                        .collect(),
                )
            })
            .collect();
        let count = u32::try_from(timestamps.len()).unwrap_or(u32::MAX);
        rows_total += u64::from(count);
        bounds = Some(match bounds {
            Some((low, high)) => (low.min(first), high.max(last)),
            None => (first, last),
        });
        sections.push((
            TableDirectoryEntry::new(*table, 1, first, last, count, 100, 1)
                .unwrap_or_else(|_| unreachable!("valid section rejected")),
            DecodedSection::new(timestamps, columns),
        ));
    }
    let (low, high) = bounds.unwrap_or((0, 0));
    let count = u32::try_from(sections.len()).unwrap_or(u32::MAX);
    let meta = UnitMeta::new(unit_id, 0, low, high, count, rows_total, 1, 0)
        .unwrap_or_else(|_| unreachable!("valid unit rejected"));
    MemoryUnit::new(meta, sections)
}

fn spec() -> VersionSpec {
    VersionSpec::new(
        Validity::Forever,
        vec![
            FieldSchema::new(FieldId::new(1), ValueType::UInt),
            FieldSchema::new(FieldId::new(2), ValueType::UInt),
        ],
    )
    .unwrap_or_else(|_| unreachable!("valid schema rejected"))
}

fn observation(timestamp: i64, values: &[(u64, u16, CellValue)]) -> Observation {
    Observation::new(
        timestamp,
        values
            .iter()
            .map(|(series, field, value)| {
                ObservationEntry::new(SeriesId::new(*series), FieldId::new(*field), *value)
            })
            .collect(),
    )
    .unwrap_or_else(|_| unreachable!("valid observation rejected"))
}

fn apply(tail: &mut TailIndex, seq: u64, body: RecordBody) {
    tail.apply(seq, body)
        .unwrap_or_else(|_| unreachable!("valid replay mutation rejected"));
}

fn fixture() -> (CountingUnit, TailIndex) {
    let table = TableId::new(1);
    let mut sealed_tail = TailIndex::new(0, 1);
    apply(
        &mut sealed_tail,
        1,
        RecordBody::CreateTable {
            table,
            spec: spec(),
        },
    );
    apply(
        &mut sealed_tail,
        2,
        RecordBody::AppendObservation {
            table,
            observation: observation(10, &[(7, 1, CellValue::UInt(11))]),
        },
    );
    apply(
        &mut sealed_tail,
        3,
        RecordBody::AppendObservation {
            table,
            observation: observation(20, &[(7, 2, CellValue::UInt(99))]),
        },
    );
    let sealed = seal_snapshot(&sealed_tail, 1);
    let versions = sealed_tail
        .table(table)
        .unwrap_or_else(|| unreachable!())
        .versions()
        .to_vec();
    let mut tail = TailIndex::restore(
        1,
        4,
        vec![RecoveredTable::new(
            table,
            Some(20),
            versions,
            vec![],
            vec![],
        )],
    )
    .unwrap_or_else(|_| unreachable!("restore failed"));
    apply(
        &mut tail,
        4,
        RecordBody::AppendObservation {
            table,
            observation: observation(30, &[(7, 1, CellValue::Null)]),
        },
    );
    apply(
        &mut tail,
        5,
        RecordBody::AppendObservation {
            table,
            observation: observation(40, &[(7, 1, CellValue::UInt(44))]),
        },
    );
    (CountingUnit::new(sealed), tail)
}

fn collect(cursor: &mut FactCursor<'_, CountingUnit>) -> Vec<Fact> {
    let mut facts = Vec::new();
    while let Some(fact) = cursor
        .next_fact()
        .unwrap_or_else(|_| unreachable!("valid cursor failed"))
    {
        facts.push(fact);
    }
    facts
}

#[test]
fn cursor_concatenates_seal_and_tail_bit_exactly() {
    let (source, tail) = fixture();
    let key = StreamKey::new(TableId::new(1), SeriesId::new(7), FieldId::new(1));
    let mut cursor = FactCursor::new(&[source.meta], &source, &tail, key, 0, 50)
        .unwrap_or_else(|_| unreachable!("cursor construction failed"));
    let facts = collect(&mut cursor);
    assert_eq!(
        facts
            .iter()
            .map(|fact| (fact.timestamp(), fact.value()))
            .collect::<Vec<_>>(),
        [
            (10, CellValue::UInt(11)),
            (30, CellValue::Null),
            (40, CellValue::UInt(44)),
        ]
    );
}

#[test]
fn batch_primitives_share_same_table_section_reads() {
    let (source, tail) = fixture();
    let keys = [
        StreamKey::new(TableId::new(1), SeriesId::new(7), FieldId::new(1)),
        StreamKey::new(TableId::new(1), SeriesId::new(7), FieldId::new(2)),
    ];
    let units = [source.meta];

    let _ = value_at(&units, &source, &tail, &keys, 20)
        .unwrap_or_else(|_| unreachable!("batch value_at failed"));
    assert_eq!(source.take_directory_reads(), 1);
    assert_eq!(source.take_section_reads(), 1);
    let _ = latest(&units, &source, &tail, &keys)
        .unwrap_or_else(|_| unreachable!("batch latest failed"));
    assert_eq!(source.take_directory_reads(), 1);
    assert_eq!(source.take_section_reads(), 1);
    let _ = sample(&units, &source, &tail, &keys, 0, 25, 5)
        .unwrap_or_else(|_| unreachable!("batch sample failed"));
    assert_eq!(source.take_directory_reads(), 1);
    assert_eq!(source.take_section_reads(), 1);
}

#[test]
fn ranges_and_keys_are_strict() {
    let (source, tail) = fixture();
    let key = StreamKey::new(TableId::new(1), SeriesId::new(7), FieldId::new(1));
    let mut cursor = FactCursor::new(&[source.meta], &source, &tail, key, 30, 40)
        .unwrap_or_else(|_| unreachable!());
    assert_eq!(
        collect(&mut cursor),
        [Fact {
            timestamp: 30,
            value: CellValue::Null
        }]
    );
    for key in [
        StreamKey::new(TableId::new(2), SeriesId::new(7), FieldId::new(1)),
        StreamKey::new(TableId::new(1), SeriesId::new(7), FieldId::new(9)),
    ] {
        assert_eq!(
            FactCursor::new(&[source.meta], &source, &tail, key, 0, 50)
                .err()
                .map(|error| error.kind()),
            Some(ErrorKind::InvalidArgument)
        );
    }
}

#[test]
fn seal_tail_overlap_is_corruption() {
    let (source, tail) = fixture();
    let table = TableId::new(1);
    let versions = tail
        .table(table)
        .unwrap_or_else(|| unreachable!())
        .versions()
        .to_vec();
    let mut overlap = TailIndex::restore(
        1,
        4,
        vec![RecoveredTable::new(
            table,
            Some(10),
            versions,
            vec![],
            vec![],
        )],
    )
    .unwrap_or_else(|_| unreachable!());
    apply(
        &mut overlap,
        4,
        RecordBody::AppendObservation {
            table,
            observation: observation(15, &[(7, 1, CellValue::UInt(1))]),
        },
    );
    let key = StreamKey::new(table, SeriesId::new(7), FieldId::new(1));
    assert_eq!(
        FactCursor::new(&[source.meta], &source, &overlap, key, 0, 50)
            .err()
            .map(|error| error.kind()),
        Some(ErrorKind::Corruption)
    );
}

#[test]
fn five_primitives_match_one_snapshot_oracle() {
    let (source, tail) = fixture();
    let key = StreamKey::new(TableId::new(1), SeriesId::new(7), FieldId::new(1));
    let units = [source.meta];

    let mut cursor =
        FactCursor::new(&units, &source, &tail, key, 0, 50).unwrap_or_else(|_| unreachable!());
    assert_eq!(
        collect(&mut cursor),
        [
            Fact {
                timestamp: 10,
                value: CellValue::UInt(11),
            },
            Fact {
                timestamp: 30,
                value: CellValue::Null,
            },
            Fact {
                timestamp: 40,
                value: CellValue::UInt(44),
            },
        ]
    );
    assert_eq!(
        value_at(&units, &source, &tail, &[key], 35).ok(),
        Some(vec![Lookup::Null { at_ts: 30 }])
    );
    assert_eq!(
        latest(&units, &source, &tail, &[key]).ok(),
        Some(vec![Lookup::Value {
            value: CellValue::UInt(44),
            at_ts: 40,
        }])
    );
    assert_eq!(
        sample(&units, &source, &tail, &[key], 10, 50, 10).ok(),
        Some(vec![vec![
            Slot::Value {
                value: CellValue::UInt(11),
                source_ts: 10,
                carried: false,
            },
            Slot::Value {
                value: CellValue::UInt(11),
                source_ts: 10,
                carried: true,
            },
            Slot::Null {
                source_ts: 30,
                carried: false,
            },
            Slot::Value {
                value: CellValue::UInt(44),
                source_ts: 40,
                carried: false,
            },
        ]])
    );
}
