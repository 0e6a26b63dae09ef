use litesdb::manifest::UnitMeta;
use litesdb::retention::fold::fold;
use litesdb::retention::{RetentionHead, RetentionHeads};
use litesdb::tail::{RecordBody, TailIndex};
use litesdb::unit::{DecodedColumn, DecodedSection, MemoryUnit, TableDirectoryEntry};
use litesdb::{
    CellValue, ErrorKind, F32Bits, FieldId, FieldSchema, Observation, ObservationEntry, SeriesId,
    Sq1, StreamKey, TableId, Validity, ValueType, VersionSpec,
};

/// Turns the rows of a tail into one unit in memory, one section for each table.
fn seal_snapshot(tail: &TailIndex, unit_id: u64) -> MemoryUnit {
    let mut sections = Vec::new();
    let mut rows_total = 0_u64;
    let mut bounds: Option<(i64, i64)> = None;
    for (table, state) in &tail.tables.entries {
        let timestamps: Vec<i64> = state.rows().iter().map(|row| row.timestamp).collect();
        let (Some(first), Some(last)) = (timestamps.first().copied(), timestamps.last().copied())
        else {
            continue;
        };
        let columns = state
            .postings
            .entries
            .iter()
            .map(|(stream, _)| {
                DecodedColumn::new(
                    stream.series,
                    stream.field,
                    state
                        .rows()
                        .iter()
                        .map(|row| {
                            row.entries
                                .iter()
                                .find(|entry| {
                                    entry.series == stream.series && entry.field == stream.field
                                })
                                .map(|entry| entry.value)
                        })
                        .collect(),
                )
            })
            .collect();
        let count = u32::try_from(timestamps.len()).unwrap_or(u32::MAX);
        rows_total += u64::from(count);
        bounds = Some(match bounds {
            Some((low, high)) => (low.min(first), high.max(last)),
            None => (first, last),
        });
        sections.push((
            TableDirectoryEntry::new(*table, 1, first, last, count, 100, 1)
                .unwrap_or_else(|_| unreachable!("valid section rejected")),
            DecodedSection::new(timestamps, columns),
        ));
    }
    let (low, high) = bounds.unwrap_or((0, 0));
    let count = u32::try_from(sections.len()).unwrap_or(u32::MAX);
    let meta = UnitMeta::new(unit_id, 0, low, high, count, rows_total, 1, 0)
        .unwrap_or_else(|_| unreachable!("valid unit rejected"));
    MemoryUnit::new(meta, sections)
}

fn spec(validity: Validity, fields: &[(u16, ValueType)]) -> VersionSpec {
    VersionSpec::new(
        validity,
        fields
            .iter()
            .map(|(field, value_type)| FieldSchema::new(FieldId::new(*field), *value_type))
            .collect(),
    )
    .unwrap_or_else(|_| unreachable!("valid schema rejected"))
}

fn observation(timestamp: i64, values: &[(u64, u16, CellValue)]) -> Observation {
    Observation::new(
        timestamp,
        values
            .iter()
            .map(|(series, field, value)| {
                ObservationEntry::new(SeriesId::new(*series), FieldId::new(*field), *value)
            })
            .collect(),
    )
    .unwrap_or_else(|_| unreachable!("valid observation rejected"))
}

fn apply(tail: &mut TailIndex, seq: u64, body: RecordBody) {
    tail.apply(seq, body)
        .unwrap_or_else(|_| unreachable!("valid mutation rejected"));
}

fn fixture() -> (MemoryUnit, TailIndex, RetentionHeads) {
    let mut tail = TailIndex::new(0, 1);
    apply(
        &mut tail,
        1,
        RecordBody::CreateTable {
            table: TableId::new(1),
            spec: spec(
                Validity::Forever,
                &[(1, ValueType::UInt), (2, ValueType::F32Bits)],
            ),
        },
    );
    apply(
        &mut tail,
        2,
        RecordBody::AppendObservation {
            table: TableId::new(1),
            observation: observation(
                10,
                &[
                    (1, 1, CellValue::UInt(7)),
                    (1, 2, CellValue::F32Bits(F32Bits::from_bits(0x7fc0_1234))),
                ],
            ),
        },
    );
    apply(
        &mut tail,
        3,
        RecordBody::AppendObservation {
            table: TableId::new(1),
            observation: observation(20, &[(1, 1, CellValue::Null)]),
        },
    );
    apply(
        &mut tail,
        4,
        RecordBody::CreateTable {
            table: TableId::new(2),
            spec: spec(
                Validity::duration_seconds(1).unwrap_or(Validity::Forever),
                &[(1, ValueType::Sq1)],
            ),
        },
    );
    apply(
        &mut tail,
        5,
        RecordBody::AppendObservation {
            table: TableId::new(2),
            observation: observation(
                20,
                &[(
                    1,
                    1,
                    CellValue::Sq1(Sq1::new(42).unwrap_or_else(|| unreachable!())),
                )],
            ),
        },
    );
    let sealed = seal_snapshot(&tail, 1);
    let prior = RetentionHeads::new(
        15,
        vec![RetentionHead::new(
            TableId::new(1),
            SeriesId::new(9),
            FieldId::new(1),
            10,
            CellValue::UInt(99),
        )],
    )
    .unwrap_or_else(|_| unreachable!("valid prior heads rejected"));
    (sealed, tail, prior)
}

#[test]
fn fold_preserves_only_latest_live_typed_facts() {
    let (source, schemas, prior) = fixture();
    let heads = fold(Some(&prior), &[source.meta], &source, &schemas, 21)
        .unwrap_or_else(|_| unreachable!("fold failed"));
    let actual: Vec<(StreamKey, i64, CellValue)> = heads
        .entries()
        .iter()
        .map(|head| {
            (
                StreamKey::new(head.table(), head.series(), head.field()),
                head.fact_ts(),
                head.value(),
            )
        })
        .collect();
    assert_eq!(
        actual,
        [
            (
                StreamKey::new(TableId::new(1), SeriesId::new(1), FieldId::new(1)),
                20,
                CellValue::Null,
            ),
            (
                StreamKey::new(TableId::new(1), SeriesId::new(1), FieldId::new(2)),
                10,
                CellValue::F32Bits(F32Bits::from_bits(0x7fc0_1234)),
            ),
            (
                StreamKey::new(TableId::new(1), SeriesId::new(9), FieldId::new(1)),
                10,
                CellValue::UInt(99),
            ),
        ]
    );
}

#[test]
fn fold_rejects_invalid_floor_and_missing_sections() {
    let (mut source, schemas, prior) = fixture();
    assert_eq!(
        fold(Some(&prior), &[source.meta], &source, &schemas, 15)
            .err()
            .map(|error| error.kind()),
        Some(ErrorKind::InvalidArgument)
    );
    source.sections.pop();
    assert_eq!(
        fold(Some(&prior), &[source.meta], &source, &schemas, 21)
            .err()
            .map(|error| error.kind()),
        Some(ErrorKind::Corruption)
    );
}
