use litesdb::manifest::{codec, Manifest, ManifestIdentity, RetentionState, TableCatalog, UnitMeta};
use litesdb::query::cursor::predecessor_fact;
use litesdb::query::plan;
use litesdb::query::primitives::{latest, value_at};
use litesdb::query::sample::sample;
use litesdb::tail::{RecordBody, RecoveredTable, Stream, TailIndex};
use litesdb::unit::{DecodedColumn, DecodedSection, MemoryUnit, TableDirectoryEntry, UnitSource};
use litesdb::wal::Checkpoint;
use litesdb::{
    CellValue, Error, ErrorKind, Fact, FactCursor, FieldId, FieldSchema, Lookup, Observation,
    ObservationEntry, Result, SeriesId, Slot, StreamKey, TableId, TableVersion, Validity,
    ValueType,
};

struct Store {
    units: Vec<MemoryUnit>,
}

impl Store {
    fn find(&self, unit: UnitMeta) -> Result<&MemoryUnit> {
        self.units
            .iter()
            .find(|held| held.meta == unit)
            .ok_or_else(|| Error::corruption("store", "unit is absent"))
    }

    fn metas(&self) -> Vec<UnitMeta> {
        self.units.iter().map(|unit| unit.meta).collect()
    }
}

impl UnitSource for Store {
    fn table_sections(&self, unit: UnitMeta, table: TableId) -> Result<Vec<TableDirectoryEntry>> {
        self.find(unit)?.table_sections(unit, table)
    }

    fn decode_section(
        &self,
        unit: UnitMeta,
        section: TableDirectoryEntry,
        version: &TableVersion,
    ) -> Result<DecodedSection> {
        self.find(unit)?.decode_section(unit, section, version)
    }

    fn decode_streams(
        &self,
        unit: UnitMeta,
        section: TableDirectoryEntry,
        version: &TableVersion,
        streams: &[Stream],
    ) -> Result<DecodedSection> {
        self.find(unit)?.decode_streams(unit, section, version, streams)
    }
}

const TABLE: TableId = TableId { value: 1 };

fn key(series: u64) -> StreamKey {
    StreamKey::new(TABLE, SeriesId::new(series), FieldId::new(1))
}

/// A section with the values of two series, each in every row that the mask names.
fn section(times: &[i64], first: &[bool], second: &[bool]) -> (TableDirectoryEntry, DecodedSection) {
    let column = |series: u64, mask: &[bool]| {
        let cells = times
            .iter()
            .zip(mask)
            .map(|(time, held)| {
                if *held {
                    Some(CellValue::UInt(1000 * series + u64::try_from(*time).unwrap()))
                } else {
                    None
                }
            })
            .collect();
        DecodedColumn::new(SeriesId::new(series), FieldId::new(1), cells)
    };
    let count = u32::try_from(times.len()).unwrap();
    let entry =
        TableDirectoryEntry::new(TABLE, 1, times[0], times[times.len() - 1], count, 64, 8).unwrap();
    let rows = DecodedSection::new(times.to_vec(), vec![column(1, first), column(2, second)]);
    (entry, rows)
}

fn unit(id: u64, sections: Vec<(TableDirectoryEntry, DecodedSection)>) -> MemoryUnit {
    let low = sections.iter().map(|(entry, _)| entry.min_ts()).min().unwrap();
    let high = sections.iter().map(|(entry, _)| entry.max_ts()).max().unwrap();
    let rows = sections.iter().map(|(entry, _)| u64::from(entry.row_count())).sum();
    let count = u32::try_from(sections.len()).unwrap();
    MemoryUnit::new(UnitMeta::new(id, 0, low, high, count, rows, 100, 0).unwrap(), sections)
}

fn observe(tail: &mut TailIndex, seq: u64, time: i64, series: &[u64]) {
    let entries = series
        .iter()
        .map(|series| {
            let value = CellValue::UInt(1000 * series + u64::try_from(time).unwrap());
            ObservationEntry::new(SeriesId::new(*series), FieldId::new(1), value)
        })
        .collect();
    let observation = Observation::new(time, entries).unwrap();
    tail.apply(seq, RecordBody::AppendObservation { table: TABLE, observation })
        .unwrap();
}

fn version(validity: Validity) -> TableVersion {
    let fields = vec![FieldSchema::new(FieldId::new(1), ValueType::UInt)];
    TableVersion::restore(1, validity, fields, Some(0)).unwrap()
}

/// Two units and a tail: series 1 at 10, 20, 40, 60, 70 and series 2 at 20, 30, 50, 70.
fn store(validity: Validity) -> (Store, TailIndex) {
    let units = vec![
        unit(
            1,
            vec![
                section(&[10, 20], &[true, true], &[false, true]),
                section(&[30, 40], &[false, true], &[true, false]),
            ],
        ),
        unit(2, vec![section(&[50], &[false], &[true])]),
    ];
    let known = RecoveredTable::new(TABLE, Some(50), vec![version(validity)], vec![], vec![]);
    let mut tail = TailIndex::restore(1, 1, vec![known]).unwrap();
    observe(&mut tail, 1, 60, &[1]);
    observe(&mut tail, 2, 70, &[1, 2]);
    (Store { units }, tail)
}

fn history(series: u64) -> Vec<i64> {
    match series {
        1 => vec![10, 20, 40, 60, 70],
        2 => vec![20, 30, 50, 70],
        _ => vec![],
    }
}

fn held(series: u64, at: i64) -> Lookup {
    match history(series).into_iter().filter(|time| *time <= at).last() {
        Some(time) => Lookup::Value {
            value: CellValue::UInt(1000 * series + u64::try_from(time).unwrap()),
            at_ts: time,
        },
        None => Lookup::Missing,
    }
}

#[test]
fn a_scan_delivers_the_values_of_its_range() {
    let (store, tail) = store(Validity::Forever);
    let units = store.metas();
    for series in 1..=3 {
        for start in (0..90).step_by(5) {
            for end in (start..90).step_by(5) {
                let mut cursor =
                    FactCursor::new(&units, &store, &tail, key(series), start, end).unwrap();
                let mut found = Vec::new();
                while let Some(fact) = cursor.next_fact().unwrap() {
                    found.push(fact.timestamp());
                }
                let expected: Vec<i64> = history(series)
                    .into_iter()
                    .filter(|time| start <= *time && *time < end)
                    .collect();
                assert_eq!(found, expected);
            }
        }
    }
}

#[test]
fn a_plan_has_every_section_that_touches_its_range() {
    let (store, _) = store(Validity::Forever);
    let units = store.metas();
    let all = [(10, 20), (30, 40), (50, 50)];
    for start in 0..60 {
        for end in start + 1..60 {
            let planned = plan::range(&units, TABLE, start, end, &store).unwrap();
            let found: Vec<(i64, i64)> = planned
                .iter()
                .map(|planned| (planned.section.min_ts(), planned.section.max_ts()))
                .collect();
            let expected: Vec<(i64, i64)> = all
                .into_iter()
                .filter(|(low, high)| *low < end && *high >= start)
                .collect();
            assert_eq!(found, expected);
        }
    }
}

#[test]
fn a_batch_answers_each_key_as_if_it_were_alone() {
    let (store, tail) = store(Validity::Forever);
    let units = store.metas();
    let asked = [2, 1, 3, 2, 2, 1];
    let keys: Vec<StreamKey> = asked.iter().map(|series| key(*series)).collect();
    for at in (0..90).step_by(5) {
        let together = value_at(&units, &store, &tail, &keys, at).unwrap();
        for (index, series) in asked.iter().enumerate() {
            let alone = value_at(&units, &store, &tail, &[key(*series)], at).unwrap();
            assert_eq!(together[index], alone[0]);
            assert_eq!(alone[0], held(*series, at));
        }
    }
    let last = latest(&units, &store, &tail, &keys).unwrap();
    for (index, series) in asked.iter().enumerate() {
        assert_eq!(last[index], held(*series, 70));
    }
}

#[test]
fn a_sampling_has_at_each_time_what_a_lookup_finds() {
    let short = Validity::duration_seconds(15).unwrap();
    for validity in [Validity::Forever, short] {
        let (store, tail) = store(validity);
        let units = store.metas();
        let keys = [key(2), key(1), key(2)];
        let rows = sample(&units, &store, &tail, &keys, 5, 90, 7).unwrap();
        for (row, key) in rows.iter().zip(keys) {
            assert_eq!(row.len(), 13);
            for (index, slot) in row.iter().enumerate() {
                let time = 5 + 7 * i64::try_from(index).unwrap();
                let found = value_at(&units, &store, &tail, &[key], time).unwrap();
                match (*slot, found[0]) {
                    (Slot::Gap, Lookup::Missing) => {}
                    (
                        Slot::Value { value, source_ts, carried },
                        Lookup::Value { value: other, at_ts },
                    ) => {
                        assert_eq!((value, source_ts), (other, at_ts));
                        assert_eq!(carried, source_ts < time);
                    }
                    pair => panic!("{pair:?} at {time}"),
                }
            }
        }
    }
}

#[test]
fn a_sampling_agrees_with_lookups_whatever_neither_reads() {
    let (mut store, tail) = store(Validity::Forever);
    let (entry, rows) = section(&[10, 20], &[true, true], &[true, true]);
    let turned = DecodedSection::new(vec![900, 800], rows.columns().to_vec());
    let (late, held) = section(&[15, 35], &[true, true], &[true, true]);
    store.units[0] = unit(1, vec![(late, held), (entry, turned)]);
    store.units[1] = unit(2, vec![
        section(&[42, 48], &[true, true], &[true, true]),
        section(&[50, 58], &[false, true], &[true, false]),
    ]);
    let units = store.metas();
    let keys = [key(2), key(1)];
    let rows = sample(&units, &store, &tail, &keys, 45, 75, 5).unwrap();
    for (row, (key, times)) in rows.iter().zip([
        (key(2), [42, 50, 50, 50, 50, 70]),
        (key(1), [42, 48, 48, 60, 60, 70]),
    ]) {
        assert_eq!(row.len(), 6);
        for (index, (slot, expected)) in row.iter().zip(times).enumerate() {
            let time = 45 + 5 * i64::try_from(index).unwrap();
            let found = value_at(&units, &store, &tail, &[key], time).unwrap()[0];
            let Lookup::Value { value, at_ts } = found else {
                panic!("{found:?} at {time}");
            };
            assert_eq!(at_ts, expected);
            assert_eq!(*slot, Slot::Value { value, source_ts: at_ts, carried: at_ts < time });
        }
    }
    assert!(value_at(&units, &store, &tail, &keys, 35).is_err());
}

#[test]
fn the_predecessor_is_the_last_value_of_the_stream() {
    let (store, tail) = store(Validity::Forever);
    let units = store.metas();
    for series in 1..=2 {
        for at in (0..90).step_by(5) {
            let found = predecessor_fact(&units, &store, &tail, key(series), at).unwrap();
            let expected = history(series).into_iter().filter(|time| *time <= at).last();
            assert_eq!(found.map(|fact| fact.timestamp()), expected);
        }
    }
}

#[test]
fn a_written_value_is_read_back() {
    let (store, mut tail) = store(Validity::Forever);
    let units = store.metas();
    let before = value_at(&units, &store, &tail, &[key(1), key(2)], 79).unwrap();
    observe(&mut tail, 3, 80, &[2]);
    assert_eq!(value_at(&units, &store, &tail, &[key(1), key(2)], 79).unwrap(), before);
    let after = value_at(&units, &store, &tail, &[key(1), key(2)], 80).unwrap();
    assert_eq!(after[0], before[0]);
    assert_eq!(after[1], Lookup::Value { value: CellValue::UInt(2080), at_ts: 80 });
    let stale = Observation::new(
        80,
        vec![ObservationEntry::new(SeriesId::new(1), FieldId::new(1), CellValue::UInt(1))],
    )
    .unwrap();
    let refused = tail.apply(4, RecordBody::AppendObservation { table: TABLE, observation: stale });
    assert!(refused.is_err());
    assert_eq!(tail.next_seq(), 4);
}

#[test]
fn retirement_hides_earlier_values_and_spares_later_ones() {
    let (store, mut tail) = store(Validity::Forever);
    let units = store.metas();
    tail.apply(
        3,
        RecordBody::RetireSeries { table: TABLE, series: SeriesId::new(1), retire_ts: 75 },
    )
    .unwrap();
    let at = |tail: &TailIndex, time: i64| {
        value_at(&units, &store, tail, &[key(1)], time).unwrap()[0]
    };
    assert_eq!(at(&tail, 75), held(1, 75));
    assert_eq!(at(&tail, 76), Lookup::Missing);
    observe(&mut tail, 4, 80, &[1]);
    assert_eq!(at(&tail, 79), Lookup::Missing);
    assert_eq!(at(&tail, 80), Lookup::Value { value: CellValue::UInt(1080), at_ts: 80 });
}

#[test]
fn a_lapsed_value_stays_lapsed() {
    let (store, tail) = store(Validity::duration_seconds(5).unwrap());
    let units = store.metas();
    for at in 70..90 {
        let found = value_at(&units, &store, &tail, &[key(1)], at).unwrap()[0];
        assert_eq!(matches!(found, Lookup::Missing), at >= 75, "{at}");
    }
}

#[test]
fn a_fact_carries_its_time_and_value() {
    let fact = Fact { timestamp: 3, value: CellValue::Null };
    assert_eq!((fact.timestamp(), fact.value()), (3, CellValue::Null));
}

#[test]
fn an_accepted_catalog_file_is_the_only_one_of_its_catalog() {
    let table =
        TableCatalog::restore(TABLE, Some(50), vec![version(Validity::Forever)], vec![], vec![])
            .unwrap();
    let manifest = Manifest::restore(
        ManifestIdentity::new(3, 2, 1, 0, 1),
        Checkpoint::new(1, 64, 5).unwrap(),
        RetentionState::new(None, None),
        vec![table],
        vec![UnitMeta::new(2, 0, 10, 50, 1, 3, 100, 9).unwrap()],
    )
    .unwrap();
    let file = codec::encode(&manifest).unwrap();
    assert_eq!(codec::encode(&codec::decode(&file).unwrap()).unwrap(), file);
    for at in 0..file.len() {
        for bit in 0..8 {
            let mut other = file.clone();
            other[at] ^= 1 << bit;
            assert!(codec::decode(&other).is_err(), "byte {at}");
        }
    }
}

#[test]
fn calls_of_a_cursor_end_for_good() {
    let (store, tail) = store(Validity::Forever);
    let mut cursor = FactCursor::new(&store.metas(), &store, &tail, key(1), 15, 65).unwrap();
    let mut times = Vec::new();
    while let Some(fact) = cursor.next_fact().unwrap() {
        times.push(fact.timestamp());
    }
    assert_eq!(times, [20, 40, 60]);
    for _ in 0..3 {
        assert_eq!(cursor.next_fact().unwrap(), None);
    }
    let (entry, rows) = section(&[10, 20], &[true, true], &[true, true]);
    let turned = DecodedSection::new(vec![20, 10], rows.columns().to_vec());
    let broken = Store { units: vec![unit(1, vec![(entry, turned)])] };
    let mut cursor = FactCursor::new(&broken.metas(), &broken, &tail, key(1), 0, 90).unwrap();
    assert_eq!(cursor.next_fact().unwrap().unwrap().timestamp(), 20);
    for _ in 0..3 {
        assert_eq!(cursor.next_fact().unwrap_err().kind(), ErrorKind::Corruption);
    }
}

#[test]
fn queries_need_only_what_they_read() {
    let (mut store, tail) = store(Validity::Forever);
    let units = store.metas();
    store.units.remove(0);
    let keys = [key(2), key(1), key(2)];
    let last = latest(&units, &store, &tail, &keys).unwrap();
    for (answer, key) in last.iter().zip(keys) {
        assert_eq!(value_at(&units, &store, &tail, &[key], 70).unwrap(), [*answer]);
    }
    assert!(value_at(&units, &store, &tail, &keys, 45).is_err());
    let rows = sample(&units, &store, &tail, &keys, 70, 85, 5).unwrap();
    for (row, key) in rows.iter().zip(keys) {
        assert_eq!(row.len(), 3);
        for (index, slot) in row.iter().enumerate() {
            let time = 70 + 5 * i64::try_from(index).unwrap();
            let found = value_at(&units, &store, &tail, &[key], time).unwrap()[0];
            let Lookup::Value { value, at_ts } = found else {
                panic!("{found:?} at {time}");
            };
            let carried = at_ts < time;
            assert_eq!(*slot, Slot::Value { value, source_ts: at_ts, carried });
        }
    }
}
