use std::collections::BTreeMap;

use litesdb::db::{Db, WriterStatus};
use litesdb::files::{is_referenced, next_step, unit_file_name, Area, PublishStep};
use litesdb::maintenance::{CompactLevel, RetentionStep};
use litesdb::manifest::{
    codec, transition, Manifest, ManifestIdentity, RetentionState, TableCatalog, UnitMeta,
};
use litesdb::query::Snapshot;
use litesdb::retention::{fold, head};
use litesdb::tail::{RecordBody, Stream, TailIndex};
use litesdb::unit::{DecodedColumn, DecodedSection, MemoryUnit, TableDirectoryEntry, UnitSource};
use litesdb::wal::Checkpoint;
use litesdb::{
    CellValue, DurablePosition, Error, ErrorKind, FieldId, FieldSchema, Lookup, Observation,
    ObservationEntry, OpenOptions, Result, SeriesId, StreamKey, TableId, TableVersion, Validity,
    ValueType, VersionSpec,
};

const STEPS: [PublishStep; 4] = [
    PublishStep::Write,
    PublishStep::FileSync,
    PublishStep::Rename,
    PublishStep::DirectorySync,
];

type Sections = Vec<(TableDirectoryEntry, DecodedSection)>;

/// The units that a reader can see.
#[derive(Clone, Default)]
struct Units {
    held: BTreeMap<Vec<u8>, (UnitMeta, Sections)>,
}

impl Units {
    fn find(&self, unit: UnitMeta) -> Result<MemoryUnit> {
        match self.held.get(&unit_file_name(unit.unit_id())) {
            Some((meta, sections)) if *meta == unit => {
                Ok(MemoryUnit::new(*meta, sections.clone()))
            }
            _ => Err(Error::corruption("store", "unit is absent")),
        }
    }
}

impl UnitSource for Units {
    fn table_sections(&self, unit: UnitMeta, table: TableId) -> Result<Vec<TableDirectoryEntry>> {
        self.find(unit)?.table_sections(unit, table)
    }

    fn decode_section(
        &self,
        unit: UnitMeta,
        section: TableDirectoryEntry,
        version: &TableVersion,
    ) -> Result<DecodedSection> {
        self.find(unit)?.decode_section(unit, section, version)
    }

    fn decode_streams(
        &self,
        unit: UnitMeta,
        section: TableDirectoryEntry,
        version: &TableVersion,
        streams: &[Stream],
    ) -> Result<DecodedSection> {
        self.find(unit)?.decode_streams(unit, section, version, streams)
    }
}

#[derive(Clone, Copy)]
enum Entry {
    Create(TableId),
    Append(TableId, i64),
}

fn body(entry: Entry) -> RecordBody {
    match entry {
        Entry::Create(table) => {
            let fields = vec![FieldSchema::new(FieldId::new(1), ValueType::UInt)];
            let spec = VersionSpec::new(Validity::Forever, fields).unwrap();
            RecordBody::CreateTable { table, spec }
        }
        Entry::Append(table, timestamp) => {
            let value = CellValue::UInt(u64::try_from(timestamp).unwrap());
            let entries = vec![ObservationEntry::new(SeriesId::new(1), FieldId::new(1), value)];
            let observation = Observation::new(timestamp, entries).unwrap();
            RecordBody::AppendObservation { table, observation }
        }
    }
}

/// What survives a failure: visible files and the log.
struct Disk {
    manifest: Vec<u8>,
    units: Units,
    heads: BTreeMap<Vec<u8>, Vec<u8>>,
    log: Vec<Entry>,
    fault: Option<(Area, Vec<u8>, PublishStep)>,
}

impl Disk {
    fn new() -> Disk {
        let manifest = Manifest::initial(Checkpoint::new(1, 64, 1).unwrap()).unwrap();
        Disk {
            manifest: codec::encode(&manifest).unwrap(),
            units: Units::default(),
            heads: BTreeMap::new(),
            log: Vec::new(),
            fault: None,
        }
    }

    /// Opens the database: removes what the catalog does not need and replays the log behind it.
    fn open(&mut self) -> Db<Units> {
        let manifest = codec::decode(&self.manifest).unwrap();
        self.units.held.retain(|name, _| is_referenced(&manifest, Area::Units, name));
        self.heads.retain(|name, _| is_referenced(&manifest, Area::Heads, name));
        let heads = manifest.retention().heads_generation().map(|generation| {
            let floor = manifest.retention().floor().unwrap();
            head::decode(&self.heads[&head::head_name(generation)], floor).unwrap()
        });
        let first = manifest.checkpoint().next_seq();
        let writer = WriterStatus {
            poisoned: false,
            unsynced_bytes: 0,
            durable: DurablePosition::new(self.log.len() as u64, 1, 64),
        };
        let units = self.units.clone();
        let mut db = Db::new(manifest, units, heads, writer, OpenOptions::default()).unwrap();
        for seq in first..=self.log.len() as u64 {
            let entry = self.log[usize::try_from(seq - 1).unwrap()];
            db.tail.apply(seq, body(entry)).unwrap();
        }
        db
    }

    fn record(&mut self, db: &mut Db<Units>, entry: Entry) {
        db.tail.apply(db.tail.next_seq(), body(entry)).unwrap();
        self.log.push(entry);
    }

    /// Goes through the steps of a publication. Tells whether the file became visible, and whether
    /// a step failed.
    fn publish(&mut self, area: Area, name: &[u8]) -> (bool, bool) {
        let mut done = None;
        let mut visible = false;
        while let Some(step) = next_step(done) {
            if self.fault.as_ref() == Some(&(area, name.to_vec(), step)) {
                self.fault = None;
                return (visible, true);
            }
            visible |= step == PublishStep::Rename;
            done = Some(step);
        }
        (visible, false)
    }

    fn publish_unit(&mut self, unit: &MemoryUnit) -> Result<()> {
        let name = unit_file_name(unit.meta.unit_id());
        let (visible, failed) = self.publish(Area::Units, &name);
        if visible {
            self.units.held.insert(name, (unit.meta, unit.sections.clone()));
        }
        if failed { Err(Error::Io) } else { Ok(()) }
    }

    fn publish_heads(&mut self, generation: u64, heads: &litesdb::retention::RetentionHeads) -> Result<()> {
        let known = self.heads.contains_key(&head::head_name(generation));
        let (name, content) = head::publish(generation, heads, known)?;
        let (visible, failed) = self.publish(Area::Heads, &name);
        if visible {
            self.heads.insert(name, content);
        }
        if failed { Err(Error::Io) } else { Ok(()) }
    }

    fn publish_manifest(&mut self, db: &Db<Units>, next: &Manifest) -> Result<()> {
        let content = transition::publish(Some(db.manifest.identity().generation()), next)?;
        let (visible, failed) = self.publish(Area::Root, b"MANIFEST");
        if visible {
            self.manifest = content;
        }
        if failed { Err(Error::Io) } else { Ok(()) }
    }

    fn seal(&mut self, db: &mut Db<Units>) -> Result<()> {
        let Some(range) = db.seal() else {
            return Ok(());
        };
        db.writer.durable = DurablePosition::new(db.tail.next_seq() - 1, 1, 64);
        let order = db.order_seal(range, db.writer.durable)?;
        let mut meta = None;
        if let Some(unit_id) = order.unit {
            let unit = seal_snapshot(&db.tail, unit_id);
            self.publish_unit(&unit)?;
            meta = Some(unit.meta);
        }
        let next = db.sealed(order, meta)?;
        self.publish_manifest(db, &next)?;
        db.install_seal(order, next, self.units.clone())?;
        Ok(())
    }

    fn compact(&mut self, db: &mut Db<Units>, level: CompactLevel) -> Result<()> {
        let Some(order) = db.compact(level)? else {
            return Ok(());
        };
        let inputs = &db.manifest.units()[order.start..order.end];
        let unit = merge(&db.source, inputs, order.unit_id, level.source() + 1);
        self.publish_unit(&unit)?;
        let next = db.compacted(order, unit.meta)?;
        self.publish_manifest(db, &next)?;
        db.install_compaction(order, next, self.units.clone());
        Ok(())
    }

    fn retain(&mut self, db: &mut Db<Units>, cutoff: i64) -> Result<()> {
        match db.retain(cutoff)? {
            RetentionStep::Unchanged(_) => Ok(()),
            RetentionStep::Advance(order) => {
                self.publish_heads(order.generation, &order.heads)?;
                let next = db.retained(&order)?;
                self.publish_manifest(db, &next)?;
                db.install_retention(order, next, self.units.clone());
                Ok(())
            }
        }
    }
}

fn assemble(unit_id: u64, level: u8, sections: Sections) -> MemoryUnit {
    let low = sections.iter().map(|(entry, _)| entry.min_ts()).min().unwrap();
    let high = sections.iter().map(|(entry, _)| entry.max_ts()).max().unwrap();
    let rows = sections.iter().map(|(entry, _)| u64::from(entry.row_count())).sum();
    let count = u32::try_from(sections.len()).unwrap();
    let meta = UnitMeta::new(unit_id, level, low, high, count, rows, 1, 0).unwrap();
    MemoryUnit::new(meta, sections)
}

fn seal_snapshot(tail: &TailIndex, unit_id: u64) -> MemoryUnit {
    let mut sections = Vec::new();
    for (table, state) in &tail.tables.entries {
        let rows = state.rows();
        let (Some(first), Some(last)) = (rows.first(), rows.last()) else {
            continue;
        };
        let cells = rows.iter().map(|row| Some(row.entries[0].value)).collect();
        let count = u32::try_from(rows.len()).unwrap();
        let section = DecodedSection::new(
            rows.iter().map(|row| row.timestamp).collect(),
            vec![DecodedColumn::new(SeriesId::new(1), FieldId::new(1), cells)],
        );
        let (low, high) = (first.timestamp, last.timestamp);
        let entry = TableDirectoryEntry::new(*table, 1, low, high, count, 100, 1).unwrap();
        sections.push((entry, section));
    }
    assemble(unit_id, 0, sections)
}

fn merge(source: &Units, inputs: &[UnitMeta], unit_id: u64, level: u8) -> MemoryUnit {
    let mut sections: Sections =
        inputs.iter().flat_map(|meta| source.find(*meta).unwrap().sections).collect();
    sections.sort_by_key(|(entry, _)| (entry.table().get(), entry.min_ts()));
    assemble(unit_id, level, sections)
}

fn key(table: TableId) -> StreamKey {
    StreamKey::new(table, SeriesId::new(1), FieldId::new(1))
}

#[derive(Debug, PartialEq, Eq)]
struct Visible {
    generation: u64,
    floor: Option<i64>,
    scan: Vec<(i64, CellValue)>,
    latest: Lookup,
}

fn scanned(snapshot: &Snapshot<Units>, table: TableId, start: i64) -> Vec<(i64, CellValue)> {
    let mut cursor = snapshot.scan(key(table), start..100).unwrap();
    let mut facts = Vec::new();
    while let Some(fact) = cursor.next_fact().unwrap() {
        facts.push((fact.timestamp, fact.value));
    }
    facts
}

/// What a freshly opened database shows.
fn reopened(disk: &mut Disk, table: TableId) -> Visible {
    let db = disk.open();
    let generation = db.manifest.identity().generation();
    let floor = db.manifest.retention().floor();
    let units = db.manifest.units().to_vec();
    let snapshot = Snapshot::new(units, db.source, db.tail, floor, db.heads);
    Visible {
        generation,
        floor,
        scan: scanned(&snapshot, table, floor.unwrap_or(0)),
        latest: snapshot.latest(&[key(table)]).unwrap()[0],
    }
}

/// The same facts, told without a database.
fn oracle(generation: u64, floor: Option<i64>, times: &[i64]) -> Visible {
    let value = |time: i64| CellValue::UInt(u64::try_from(time).unwrap());
    let start = floor.unwrap_or(0);
    let last = *times.last().unwrap();
    Visible {
        generation,
        floor,
        scan: times.iter().filter(|time| **time >= start).map(|time| (*time, value(*time))).collect(),
        latest: Lookup::Value { value: value(last), at_ts: last },
    }
}

fn table() -> TableId {
    TableId::new(1)
}

/// A database with one sealed unit for each time.
fn sealed(times: &[i64]) -> (Disk, Db<Units>) {
    let mut disk = Disk::new();
    let mut db = disk.open();
    disk.record(&mut db, Entry::Create(table()));
    for time in times {
        disk.record(&mut db, Entry::Append(table(), *time));
        disk.seal(&mut db).unwrap();
    }
    (disk, db)
}

#[test]
fn seal_data_before_manifest_is_an_ignored_orphan() {
    let mut disk = Disk::new();
    let mut db = disk.open();
    disk.record(&mut db, Entry::Create(table()));
    disk.record(&mut db, Entry::Append(table(), 10));
    let orphan = seal_snapshot(&db.tail, 1);
    disk.publish_unit(&orphan).unwrap();
    assert!(disk.units.held.contains_key(b"0000000000000001.lsu".as_slice()));
    for _ in 0..2 {
        assert_eq!(reopened(&mut disk, table()), oracle(0, None, &[10]));
    }
    assert!(!disk.units.held.contains_key(b"0000000000000001.lsu".as_slice()));
}

#[test]
fn compact_data_before_manifest_preserves_source_units() {
    let (mut disk, db) = sealed(&[10, 20]);
    let orphan = merge(&db.source, db.manifest.units(), 3, 1);
    disk.publish_unit(&orphan).unwrap();
    for _ in 0..2 {
        assert_eq!(reopened(&mut disk, table()), oracle(2, None, &[10, 20]));
    }
    assert_eq!(disk.units.held.len(), 2);
    assert!(!disk.units.held.contains_key(b"0000000000000003.lsu".as_slice()));
}

#[test]
fn retention_heads_before_manifest_do_not_advance_floor() {
    let (mut disk, mut db) = sealed(&[10, 20]);
    disk.compact(&mut db, CompactLevel::Level0To1).unwrap();
    let heads = fold(None, db.manifest.units(), &db.source, &db.tail, 21).unwrap();
    disk.publish_heads(4, &heads).unwrap();
    assert_eq!(db.manifest.retention().floor(), None);
    for _ in 0..2 {
        assert_eq!(reopened(&mut disk, table()), oracle(3, None, &[10, 20]));
    }
    assert!(!disk.heads.contains_key(b"0000000000000004.lsr".as_slice()));
}

#[test]
fn files_of_merged_units_outlive_their_catalog_until_it_is_reopened() {
    let (mut disk, mut db) = sealed(&[10, 20]);
    let units = db.manifest.units().to_vec();
    let older = disk.open();
    let old = Snapshot::new(units, older.source, older.tail, None, None);
    disk.compact(&mut db, CompactLevel::Level0To1).unwrap();
    assert_eq!(db.garbage.len(), 2);
    assert!(disk.units.held.contains_key(b"0000000000000001.lsu".as_slice()));
    assert_eq!(scanned(&old, table(), 0), oracle(3, None, &[10, 20]).scan);
    for _ in 0..2 {
        assert_eq!(reopened(&mut disk, table()), oracle(3, None, &[10, 20]));
    }
    assert!(!disk.units.held.contains_key(b"0000000000000001.lsu".as_slice()));
}

#[test]
fn a_seal_that_fails_at_any_step_reopens_to_one_state() {
    for target in [(Area::Units, b"0000000000000001.lsu".as_slice()), (Area::Root, b"MANIFEST")] {
        for step in STEPS {
            let mut disk = Disk::new();
            let mut db = disk.open();
            disk.record(&mut db, Entry::Create(table()));
            disk.record(&mut db, Entry::Append(table(), 10));
            disk.fault = Some((target.0, target.1.to_vec(), step));
            assert_eq!(disk.seal(&mut db).unwrap_err().kind(), ErrorKind::Io);
            let advanced = target.0 == Area::Root && step == PublishStep::DirectorySync;
            let expected = oracle(u64::from(advanced), None, &[10]);
            for _ in 0..2 {
                assert_eq!(reopened(&mut disk, table()), expected);
            }
        }
    }
}

#[test]
fn a_compaction_that_fails_at_any_step_reopens_to_one_state() {
    for target in [(Area::Units, b"0000000000000003.lsu".as_slice()), (Area::Root, b"MANIFEST")] {
        for step in STEPS {
            let (mut disk, mut db) = sealed(&[10, 20]);
            disk.fault = Some((target.0, target.1.to_vec(), step));
            assert!(disk.compact(&mut db, CompactLevel::Level0To1).is_err());
            let advanced = target.0 == Area::Root && step == PublishStep::DirectorySync;
            let expected = oracle(2 + u64::from(advanced), None, &[10, 20]);
            for _ in 0..2 {
                assert_eq!(reopened(&mut disk, table()), expected);
            }
        }
    }
}

#[test]
fn a_retention_that_fails_at_any_step_reopens_to_one_state() {
    for target in [(Area::Heads, b"0000000000000004.lsr".as_slice()), (Area::Root, b"MANIFEST")] {
        for step in STEPS {
            let (mut disk, mut db) = sealed(&[10, 20]);
            disk.compact(&mut db, CompactLevel::Level0To1).unwrap();
            disk.fault = Some((target.0, target.1.to_vec(), step));
            assert!(disk.retain(&mut db, 21).is_err());
            let advanced = target.0 == Area::Root && step == PublishStep::DirectorySync;
            let floor = if advanced { Some(21) } else { None };
            let expected = oracle(3 + u64::from(advanced), floor, &[10, 20]);
            for _ in 0..2 {
                assert_eq!(reopened(&mut disk, table()), expected);
            }
        }
    }
}

#[test]
fn corrupt_visible_manifest_is_rejected() {
    let mut disk = Disk::new();
    let last = disk.manifest.len() - 1;
    disk.manifest[last] ^= 1;
    assert_eq!(codec::decode(&disk.manifest).unwrap_err().kind(), ErrorKind::Corruption);
}

#[test]
fn loaded_manifest_drives_schema_aware_wal_recovery() {
    let version = TableVersion::restore(
        1,
        Validity::Forever,
        vec![FieldSchema::new(FieldId::new(1), ValueType::UInt)],
        Some(10),
    )
    .unwrap();
    let active = TableCatalog::restore(table(), Some(10), vec![version], vec![], vec![]).unwrap();
    let manifest = Manifest::restore(
        ManifestIdentity::new(0, 0, 1, 0, 0),
        Checkpoint::new(1, 164, 2).unwrap(),
        RetentionState::default(),
        vec![active],
        vec![],
    )
    .unwrap();
    let mut disk = Disk::new();
    disk.manifest = transition::publish(None, &manifest).unwrap();
    disk.log = vec![Entry::Create(table()), Entry::Append(table(), 11)];
    let recovered = disk.open();
    assert_eq!(recovered.tail.next_seq(), 3);
    let state = recovered.tail.table(table()).unwrap();
    assert_eq!(state.last_ts(), Some(11));
    assert_eq!(state.rows().len(), 1);
}

#[test]
fn a_whole_seal_leaves_no_record_pending() {
    let mut disk = Disk::new();
    let mut db = disk.open();
    disk.record(&mut db, Entry::Create(table()));
    disk.seal(&mut db).unwrap();
    assert!(db.manifest.units().is_empty());
    disk.record(&mut db, Entry::Append(table(), 10));
    disk.record(&mut db, Entry::Append(table(), 20));
    let before = reopened(&mut disk, table());
    disk.seal(&mut db).unwrap();
    assert_eq!(db.manifest.checkpoint().next_seq(), 4);
    assert_eq!(db.manifest.units()[0].unit_id(), 1);
    let after = reopened(&mut disk, table());
    assert_eq!(after, Visible { generation: before.generation + 1, ..before });
    assert_eq!(db.seal(), None);
    disk.seal(&mut db).unwrap();
    assert_eq!(db.manifest.identity().generation(), after.generation);
}

#[test]
fn a_whole_compaction_merges_one_stretch() {
    let (mut disk, mut db) = sealed(&[10, 20, 30]);
    let before = reopened(&mut disk, table());
    disk.compact(&mut db, CompactLevel::Level0To1).unwrap();
    let ids: Vec<u64> = db.manifest.units().iter().map(|unit| unit.unit_id()).collect();
    assert_eq!(ids, [4]);
    let after = reopened(&mut disk, table());
    assert_eq!(after, Visible { generation: before.generation + 1, ..before });
    disk.compact(&mut db, CompactLevel::Level0To1).unwrap();
    assert_eq!(db.manifest.identity().generation(), after.generation);
}

#[test]
fn a_whole_retention_removes_the_leading_units() {
    let (mut disk, mut db) = sealed(&[10, 20, 30]);
    disk.retain(&mut db, 10).unwrap();
    assert_eq!(db.manifest.identity().generation(), 3);
    disk.retain(&mut db, 25).unwrap();
    let ids: Vec<u64> = db.manifest.units().iter().map(|unit| unit.unit_id()).collect();
    assert_eq!(ids, [3]);
    assert_eq!(reopened(&mut disk, table()), oracle(4, Some(21), &[30]));
    let heads = db.heads.unwrap();
    let kept = heads.find(key(table())).unwrap();
    assert_eq!((kept.fact_ts, kept.value), (20, CellValue::UInt(20)));
}
