use litesdb::db::{Db, WriterStatus};
use litesdb::files::Area;
use litesdb::maintenance::{
    select_run, CompactLevel, CompactOrder, CompactReport, RetentionReport, RetentionStep,
    SealReport,
};
use litesdb::manifest::transition;
use litesdb::manifest::{Manifest, UnitMeta};
use litesdb::query::Snapshot;
use litesdb::scheduler::{MaintenanceEvent, MaintenanceReport, MaintenanceRun, MaintenanceStep};
use litesdb::tail::{RecordBody, Stream, TailIndex};
use litesdb::unit::{DecodedColumn, DecodedSection, MemoryUnit, TableDirectoryEntry, UnitSource};
use litesdb::wal::Checkpoint;
use litesdb::{
    CellValue, CompactionPolicy, Duration, DurablePosition, Error, ErrorKind, Fact, FactCursor,
    FieldId, FieldSchema, Lookup, Observation, ObservationEntry, OpenOptions, Result, SeriesId,
    Slot, StreamKey, SyncPolicy, TableId, TableVersion, Validity, ValueType, VersionSpec,
};

/// All units of a database, kept in memory.
#[derive(Default)]
struct Store {
    units: Vec<MemoryUnit>,
}

impl Store {
    fn find(&self, unit: UnitMeta) -> Result<&MemoryUnit> {
        self.units
            .iter()
            .find(|held| held.meta == unit)
            .ok_or_else(|| Error::corruption("store", "unit is absent"))
    }

    fn copy(&self) -> Store {
        Store {
            units: self
                .units
                .iter()
                .map(|unit| MemoryUnit::new(unit.meta, unit.sections.clone()))
                .collect(),
        }
    }
}

impl UnitSource for Store {
    fn table_sections(&self, unit: UnitMeta, table: TableId) -> Result<Vec<TableDirectoryEntry>> {
        self.find(unit)?.table_sections(unit, table)
    }

    fn decode_section(
        &self,
        unit: UnitMeta,
        section: TableDirectoryEntry,
        version: &TableVersion,
    ) -> Result<DecodedSection> {
        self.find(unit)?.decode_section(unit, section, version)
    }

    fn decode_streams(
        &self,
        unit: UnitMeta,
        section: TableDirectoryEntry,
        version: &TableVersion,
        streams: &[Stream],
    ) -> Result<DecodedSection> {
        self.find(unit)?.decode_streams(unit, section, version, streams)
    }
}

/// Turns the rows of a tail into one unit, one section for each table.
fn seal_snapshot(tail: &TailIndex, unit_id: u64) -> MemoryUnit {
    let mut sections = Vec::new();
    for (table, state) in &tail.tables.entries {
        let timestamps: Vec<i64> = state.rows().iter().map(|row| row.timestamp).collect();
        let (Some(first), Some(last)) = (timestamps.first().copied(), timestamps.last().copied())
        else {
            continue;
        };
        let columns = state
            .postings
            .entries
            .iter()
            .map(|(stream, _)| {
                let cells = state
                    .rows()
                    .iter()
                    .map(|row| {
                        row.entries
                            .iter()
                            .find(|entry| {
                                entry.series == stream.series && entry.field == stream.field
                            })
                            .map(|entry| entry.value)
                    })
                    .collect();
                DecodedColumn::new(stream.series, stream.field, cells)
            })
            .collect();
        let count = u32::try_from(timestamps.len()).unwrap();
        sections.push((
            TableDirectoryEntry::new(*table, 1, first, last, count, 100, 1).unwrap(),
            DecodedSection::new(timestamps, columns),
        ));
    }
    assemble(unit_id, 0, sections)
}

fn assemble(
    unit_id: u64,
    level: u8,
    sections: Vec<(TableDirectoryEntry, DecodedSection)>,
) -> MemoryUnit {
    let low = sections.iter().map(|(entry, _)| entry.min_ts()).min().unwrap();
    let high = sections.iter().map(|(entry, _)| entry.max_ts()).max().unwrap();
    let rows = sections.iter().map(|(entry, _)| u64::from(entry.row_count())).sum();
    let count = u32::try_from(sections.len()).unwrap();
    let meta = UnitMeta::new(unit_id, level, low, high, count, rows, 1, 0).unwrap();
    MemoryUnit::new(meta, sections)
}

/// Joins units into one of the next level, table by table.
fn merge(units: &[MemoryUnit], unit_id: u64, level: u8) -> MemoryUnit {
    let mut sections: Vec<(TableDirectoryEntry, DecodedSection)> =
        units.iter().flat_map(|unit| unit.sections.clone()).collect();
    sections.sort_by_key(|(entry, _)| (entry.table().get(), entry.min_ts()));
    assemble(unit_id, level, sections)
}

fn open(options: OpenOptions) -> Db<Store> {
    let manifest = Manifest::initial(Checkpoint::new(1, 64, 1).unwrap()).unwrap();
    let writer = WriterStatus {
        poisoned: false,
        unsynced_bytes: 0,
        durable: DurablePosition::new(0, 1, 64),
    };
    Db::new(manifest, Store::default(), None, writer, options).unwrap()
}

fn create_table(db: &mut Db<Store>) -> TableId {
    let table = TableId::new(db.tail.table_high_water() + 1);
    let spec = VersionSpec::new(
        Validity::Forever,
        vec![FieldSchema::new(FieldId::new(1), ValueType::UInt)],
    )
    .unwrap();
    let seq = db.tail.next_seq();
    db.tail.apply(seq, RecordBody::CreateTable { table, spec }).unwrap();
    db.writer.unsynced_bytes += 100;
    table
}

fn append(db: &mut Db<Store>, table: TableId, timestamp: i64) {
    let observation = Observation::new(
        timestamp,
        vec![ObservationEntry::new(
            SeriesId::new(1),
            FieldId::new(1),
            CellValue::UInt(u64::try_from(timestamp).unwrap()),
        )],
    )
    .unwrap();
    let seq = db.tail.next_seq();
    db.tail.apply(seq, RecordBody::AppendObservation { table, observation }).unwrap();
    db.writer.unsynced_bytes += 100;
}

fn sync(db: &mut Db<Store>) -> DurablePosition {
    db.writer.unsynced_bytes = 0;
    db.writer.durable = DurablePosition::new(db.tail.next_seq() - 1, 1, 64 + db.tail.next_seq());
    db.writer.durable
}

fn seal(db: &mut Db<Store>) -> Result<SealReport> {
    let Some(range) = db.seal() else {
        return Ok(SealReport::default());
    };
    if range.sync_first {
        sync(db);
    }
    let order = db.order_seal(range, db.writer.durable)?;
    let mut store = db.source.copy();
    let meta = order.unit.map(|unit_id| {
        let unit = seal_snapshot(&db.tail, unit_id);
        let meta = unit.meta;
        store.units.push(unit);
        meta
    });
    let next = db.sealed(order, meta)?;
    transition::publish(Some(db.manifest.identity().generation()), &next)?;
    db.install_seal(order, next, store)
}

fn write_compacted(db: &mut Db<Store>, order: CompactOrder, level: u8) -> Result<CompactReport> {
    let mut store = db.source.copy();
    let run = &db.manifest.units()[order.start..order.end];
    let inputs: Vec<MemoryUnit> = run
        .iter()
        .map(|meta| {
            let unit = store.find(*meta).unwrap();
            MemoryUnit::new(unit.meta, unit.sections.clone())
        })
        .collect();
    let unit = merge(&inputs, order.unit_id, level + 1);
    let meta = unit.meta;
    store.units.push(unit);
    let next = db.compacted(order, meta)?;
    transition::publish(Some(db.manifest.identity().generation()), &next)?;
    Ok(db.install_compaction(order, next, store))
}

fn compact(db: &mut Db<Store>, level: CompactLevel) -> Result<CompactReport> {
    match db.compact(level)? {
        None => Ok(CompactReport::default()),
        Some(order) => write_compacted(db, order, level.source()),
    }
}

fn retain(db: &mut Db<Store>, cutoff: i64) -> Result<RetentionReport> {
    match db.retain(cutoff)? {
        RetentionStep::Unchanged(report) => Ok(report),
        RetentionStep::Advance(order) => {
            let next = db.retained(&order)?;
            transition::publish(Some(db.manifest.identity().generation()), &next)?;
            let store = db.source.copy();
            Ok(db.install_retention(order, next, store))
        }
    }
}

fn maintain(db: &mut Db<Store>, sync_due: bool, seal_due: bool) -> MaintenanceReport {
    let mut run = MaintenanceRun::new(sync_due, seal_due);
    loop {
        let (waiting, step) = db.maintain(run).unwrap();
        let event = match step {
            MaintenanceStep::Sync => MaintenanceEvent::Synced { position: sync(db) },
            MaintenanceStep::Seal => MaintenanceEvent::Sealed { report: seal(db).unwrap() },
            MaintenanceStep::Compact { level, order } => MaintenanceEvent::Compacted {
                report: write_compacted(db, order, level.source()).unwrap(),
            },
            MaintenanceStep::Finished { report } => return report,
        };
        run = waiting.record(event);
    }
}

fn level_units(db: &Db<Store>) -> [usize; 3] {
    let mut counts = [0; 3];
    for unit in db.manifest.units() {
        counts[usize::from(unit.level())] += 1;
    }
    counts
}

fn windows() -> OpenOptions {
    OpenOptions {
        sync_policy: SyncPolicy::Manual,
        compaction: CompactionPolicy {
            l1_window: Duration::from_secs(100),
            l2_window: Duration::from_secs(200),
        },
        ..OpenOptions::default()
    }
}

fn append_and_seal(db: &mut Db<Store>, table: TableId, timestamp: i64) {
    append(db, table, timestamp);
    seal(db).unwrap();
}

fn scan_values(db: &Db<Store>, key: StreamKey, start: i64, end: i64) -> Vec<Fact> {
    let mut cursor =
        FactCursor::new(db.manifest.units(), &db.source, &db.tail, key, start, end).unwrap();
    let mut facts = Vec::new();
    while let Some(fact) = cursor.next_fact().unwrap() {
        facts.push(fact);
    }
    facts
}

fn key_of(table: TableId) -> StreamKey {
    StreamKey::new(table, SeriesId::new(1), FieldId::new(1))
}

#[test]
fn maintain_is_bounded_per_level_and_reports_remaining_windows() {
    let mut database = open(windows());
    let table = create_table(&mut database);
    for timestamp in [10, 20, 110, 120, 210] {
        append_and_seal(&mut database, table, timestamp);
    }
    let first = maintain(&mut database, false, false);
    assert_eq!(first.compacted_l1().map(CompactReport::input_units), Some(2));
    assert_eq!(first.compacted_l2().map(CompactReport::input_units), Some(1));
    assert!(first.more_due());
    assert_eq!(level_units(&database), [3, 0, 1]);
    let second = maintain(&mut database, false, false);
    assert_eq!(second.compacted_l1().map(CompactReport::input_units), Some(2));
    assert_eq!(second.compacted_l2().map(CompactReport::input_units), Some(1));
    assert!(!second.more_due());
    assert_eq!(level_units(&database), [1, 0, 2]);
}

#[test]
fn late_l0_before_higher_levels_is_promoted_normally() {
    let mut database = open(windows());
    let advanced = create_table(&mut database);
    let delayed = create_table(&mut database);
    for timestamp in [10, 110, 210] {
        append_and_seal(&mut database, advanced, timestamp);
    }
    maintain(&mut database, false, false);
    append_and_seal(&mut database, delayed, 5);
    let report = maintain(&mut database, false, false);
    assert_eq!(report.compacted_l1().map(CompactReport::input_units), Some(1));
    assert_eq!(report.compacted_l2().map(CompactReport::input_units), Some(1));
}

#[test]
fn maintain_and_explicit_maintenance_preserve_identical_facts() {
    let mut automatic = open(windows());
    let mut manual = open(windows());
    let automatic_table = create_table(&mut automatic);
    let manual_table = create_table(&mut manual);
    for timestamp in [10, 20, 210] {
        append(&mut automatic, automatic_table, timestamp);
        append(&mut manual, manual_table, timestamp);
    }
    let before = scan_values(&automatic, key_of(automatic_table), 0, 300);
    maintain(&mut automatic, false, true);
    seal(&mut manual).unwrap();
    compact(&mut manual, CompactLevel::Level0To1).unwrap();
    compact(&mut manual, CompactLevel::Level1To2).unwrap();
    assert_eq!(
        scan_values(&automatic, key_of(automatic_table), 0, 300),
        scan_values(&manual, key_of(manual_table), 0, 300)
    );
    assert_eq!(scan_values(&automatic, key_of(automatic_table), 0, 300), before);
}

#[test]
fn maintain_reports_due_sync_and_seal_without_leaving_a_durability_gap() {
    let mut database = open(OpenOptions::default());
    create_table(&mut database);
    let report = maintain(&mut database, true, true);
    assert_eq!(report.synced().map(DurablePosition::seq), Some(1));
    assert!(report.sealed().is_some());
    assert_eq!(database.tail.next_seq() - 1, database.writer.durable.seq());
    assert_eq!(database.manifest.checkpoint().next_seq(), database.tail.next_seq());
    assert_eq!(database.seal(), None);
}

#[test]
fn a_seal_moves_the_tail_into_a_unit_and_changes_no_answer() {
    let mut database = open(windows());
    let table = create_table(&mut database);
    for timestamp in [10, 20, 35] {
        append(&mut database, table, timestamp);
    }
    let before = scan_values(&database, key_of(table), 0, 100);
    let report = seal(&mut database).unwrap();
    assert_eq!(report.unit_id(), Some(1));
    assert_eq!(report.checkpointed_records(), 4);
    assert_eq!(scan_values(&database, key_of(table), 0, 100), before);
    assert!(database.tail.table(table).unwrap().rows().is_empty());
    assert_eq!(database.manifest.identity().unit_high_water(), 1);
    assert_eq!(database.manifest.identity().generation(), 1);
    assert_eq!(database.manifest.tables()[0].last_ts(), Some(35));
    assert_eq!(seal(&mut database).unwrap(), SealReport::default());
    append(&mut database, table, 40);
    assert_eq!(seal(&mut database).unwrap().unit_id(), Some(2));
    let units: Vec<u64> = database.manifest.units().iter().map(|unit| unit.unit_id()).collect();
    assert_eq!(units, [1, 2]);
}

#[test]
fn a_seal_without_rows_only_moves_the_checkpoint() {
    let mut database = open(windows());
    create_table(&mut database);
    let report = seal(&mut database).unwrap();
    assert_eq!(report.unit_id(), None);
    assert_eq!(report.checkpointed_records(), 1);
    assert!(database.manifest.units().is_empty());
    assert_eq!(database.manifest.tables().len(), 1);
}

#[test]
fn compaction_replaces_the_first_run_of_its_level() {
    let mut database = open(windows());
    let table = create_table(&mut database);
    for timestamp in [10, 20, 30] {
        append_and_seal(&mut database, table, timestamp);
    }
    assert_eq!(select_run(database.manifest.units(), 0), Some((0, 3)));
    assert_eq!(select_run(database.manifest.units(), 1), None);
    let before = scan_values(&database, key_of(table), 0, 100);
    let report = compact(&mut database, CompactLevel::Level0To1).unwrap();
    assert_eq!(report.input_units(), 3);
    assert_eq!(report.output_unit(), Some(4));
    assert_eq!(level_units(&database), [0, 1, 0]);
    assert_eq!(scan_values(&database, key_of(table), 0, 100), before);
    let retired: Vec<(Area, u64)> =
        database.garbage.iter().map(|entry| (entry.area, entry.owner)).collect();
    assert_eq!(retired.len(), 3);
    assert!(retired.iter().all(|(area, _)| *area == Area::Units));
}

#[test]
fn compaction_refuses_a_unit_of_the_wrong_identity() {
    let mut database = open(windows());
    let table = create_table(&mut database);
    for timestamp in [10, 20] {
        append_and_seal(&mut database, table, timestamp);
    }
    let order = database.compact(CompactLevel::Level0To1).unwrap().unwrap();
    assert_eq!((order.start, order.end, order.unit_id), (0, 2, 3));
    let stray = UnitMeta::new(1, 1, 10, 20, 2, 2, 1, 0).unwrap();
    let again = CompactOrder { start: 0, end: 0, ..order };
    assert!(database.compacted(again, stray).is_err());
}

#[test]
fn retention_keeps_the_last_value_and_changes_no_later_answer() {
    let mut database = open(windows());
    let table = create_table(&mut database);
    for timestamp in [10, 20, 110] {
        append_and_seal(&mut database, table, timestamp);
    }
    append(&mut database, table, 130);
    let key = key_of(table);
    let ask = |db: &Db<Store>, time: i64| {
        litesdb::query::primitives::value_at_with_heads(
            db.manifest.units(),
            &db.source,
            &db.tail,
            db.heads.as_ref(),
            &[key],
            time,
        )
        .unwrap()
    };
    let sampled = |db: &Db<Store>| {
        litesdb::query::sample::sample_with_heads(
            db.manifest.units(),
            &db.source,
            &db.tail,
            db.heads.as_ref(),
            &[key, key],
            21,
            161,
            35,
        )
        .unwrap()
    };
    let slots = sampled(&database);
    let times = [21, 100, 105, 110, 129, 130, 500];
    let before: Vec<Vec<Lookup>> = times.iter().map(|time| ask(&database, *time)).collect();
    let walked = scan_values(&database, key, 21, 200);
    let report = retain(&mut database, 100).unwrap();
    assert_eq!(report.removed_units(), 2);
    assert_eq!(report.floor(), Some(21));
    assert_eq!(database.manifest.units().len(), 1);
    assert_eq!(database.heads.as_ref().unwrap().entries().len(), 1);
    let after: Vec<Vec<Lookup>> = times.iter().map(|time| ask(&database, *time)).collect();
    assert_eq!(after, before);
    assert_eq!(after[0], [Lookup::Value { value: CellValue::UInt(20), at_ts: 20 }]);
    assert_eq!(scan_values(&database, key, 21, 200), walked);
    assert_eq!(sampled(&database), slots);
    let carried = |time: i64| Slot::Value {
        value: CellValue::UInt(u64::try_from(time).unwrap()),
        source_ts: time,
        carried: true,
    };
    let row = vec![carried(20), carried(20), carried(20), carried(110)];
    assert_eq!(slots, [row.clone(), row]);
    assert_eq!(database.manifest.retention().floor(), Some(21));
    assert_eq!(
        database.manifest.retention().heads_generation(),
        Some(database.manifest.identity().generation())
    );
    assert_eq!(retain(&mut database, 100).unwrap().removed_units(), 0);
    assert_eq!(retain(&mut database, 50).unwrap().floor(), Some(21));
}

#[test]
fn retention_asks_nothing_of_the_units_that_stay() {
    let mut database = open(windows());
    let table = create_table(&mut database);
    for timestamp in [10, 20, 110, 130] {
        append_and_seal(&mut database, table, timestamp);
    }
    database.source.units.retain(|unit| unit.meta.max_ts() != 130);
    let key = key_of(table);
    let ask = |db: &Db<Store>, time: i64| {
        litesdb::query::primitives::value_at_with_heads(
            db.manifest.units(),
            &db.source,
            &db.tail,
            db.heads.as_ref(),
            &[key, key],
            time,
        )
    };
    let walk = |db: &Db<Store>, start: i64, end: i64| {
        let units = db.manifest.units();
        let mut cursor = FactCursor::new(units, &db.source, &db.tail, key, start, end)?;
        let mut facts = Vec::new();
        while let Some(fact) = cursor.next_fact()? {
            facts.push(fact);
        }
        Ok::<Vec<Fact>, Error>(facts)
    };
    let times = [21, 105, 110, 129];
    let before: Vec<Vec<Lookup>> =
        times.iter().map(|time| ask(&database, *time).unwrap()).collect();
    let walked = walk(&database, 21, 130).unwrap();
    let refused = walk(&database, 21, 131).unwrap_err();
    assert_eq!(retain(&mut database, 100).unwrap().removed_units(), 2);
    let after: Vec<Vec<Lookup>> =
        times.iter().map(|time| ask(&database, *time).unwrap()).collect();
    assert_eq!(after, before);
    assert_eq!(after[1], [Lookup::Value { value: CellValue::UInt(20), at_ts: 20 }; 2]);
    assert_eq!(walk(&database, 21, 130).unwrap(), walked);
    assert_eq!(walked.len(), 1);
    assert_eq!(walk(&database, 21, 131).unwrap_err().kind(), refused.kind());
    assert_eq!(refused.kind(), ErrorKind::Corruption);
    assert!(ask(&database, 130).is_err());
}

#[test]
fn a_snapshot_answers_only_above_its_floor() {
    let mut database = open(windows());
    let table = create_table(&mut database);
    for timestamp in [10, 20, 110] {
        append_and_seal(&mut database, table, timestamp);
    }
    retain(&mut database, 100).unwrap();
    let key = key_of(table);
    let floor = database.manifest.retention().floor();
    let units = database.manifest.units().to_vec();
    let snapshot = Snapshot::new(units, database.source, database.tail, floor, database.heads);
    let shared = snapshot.clone();
    assert_eq!(shared.retention_floor(), Some(21));
    assert_eq!(snapshot.value_at(&[key], 20).unwrap_err().kind(), ErrorKind::InvalidArgument);
    assert_eq!(snapshot.scan(key, 20..200).err().unwrap().kind(), ErrorKind::InvalidArgument);
    assert_eq!(
        snapshot.sample(&[key], 20..200, 10).err().unwrap().kind(),
        ErrorKind::InvalidArgument
    );
    assert_eq!(
        snapshot.value_at(&[key], 21).unwrap(),
        [Lookup::Value { value: CellValue::UInt(20), at_ts: 20 }]
    );
    assert_eq!(
        snapshot.latest(&[key, key]).unwrap(),
        [
            Lookup::Value { value: CellValue::UInt(110), at_ts: 110 },
            Lookup::Value { value: CellValue::UInt(110), at_ts: 110 },
        ]
    );
    let rows = snapshot.sample(&[key], 100..115, 5).unwrap();
    assert_eq!(
        rows,
        [vec![
            Slot::Value { value: CellValue::UInt(20), source_ts: 20, carried: true },
            Slot::Value { value: CellValue::UInt(20), source_ts: 20, carried: true },
            Slot::Value { value: CellValue::UInt(110), source_ts: 110, carried: false },
        ]]
    );
    let mut cursor = snapshot.scan(key, 100..200).unwrap();
    assert_eq!(
        cursor.next_fact().unwrap(),
        Some(Fact { timestamp: 110, value: CellValue::UInt(110) })
    );
    assert_eq!(cursor.next_fact().unwrap(), None);
    assert_eq!(snapshot.table_versions(table).unwrap().len(), 1);
    assert!(snapshot.table_versions(TableId::new(9)).is_err());
}

#[test]
fn a_catalog_that_was_published_can_be_replayed_from() {
    let mut database = open(windows());
    let table = create_table(&mut database);
    append_and_seal(&mut database, table, 10);
    append(&mut database, table, 20);
    let target = database.manifest.replay_target().unwrap();
    assert_eq!(target.next_seq(), 3);
    assert_eq!(target.table(table).unwrap().last_ts(), Some(10));
    assert!(target.table(table).unwrap().rows().is_empty());
    let mut replayed = target;
    let observation = Observation::new(
        20,
        vec![ObservationEntry::new(SeriesId::new(1), FieldId::new(1), CellValue::UInt(20))],
    )
    .unwrap();
    replayed
        .apply(3, RecordBody::AppendObservation { table, observation })
        .unwrap();
    assert_eq!(replayed.next_seq(), database.tail.next_seq());
    assert_eq!(replayed.table(table).unwrap().last_ts(), Some(20));
}

#[test]
fn publication_switches_only_to_the_next_generation() {
    let database = open(windows());
    let manifest = database.manifest;
    assert_eq!(manifest.identity().generation(), 0);
    assert!(transition::publish(None, &manifest).is_ok());
    let one = manifest.successor_writer_epoch().unwrap();
    assert_eq!(one.identity().generation(), 1);
    assert_eq!(one.identity().writer_epoch(), manifest.identity().writer_epoch() + 1);
    assert!(transition::publish(Some(0), &one).is_ok());
    assert_eq!(
        transition::publish(Some(1), &one).err().unwrap().kind(),
        ErrorKind::InvalidArgument
    );
    assert!(transition::publish(None, &one).is_err());
}

#[test]
fn a_poisoned_writer_is_not_healthy() {
    let mut writer = WriterStatus {
        poisoned: false,
        unsynced_bytes: 0,
        durable: DurablePosition::new(0, 0, 0),
    };
    assert!(writer.ensure_healthy().is_ok());
    writer.poisoned = true;
    assert_eq!(writer.ensure_healthy().unwrap_err().kind(), ErrorKind::Poisoned);
}
