use std::collections::BTreeMap;

use litesdb::db::{Db, WriterStatus};
use litesdb::error::{Error, ErrorKind, Result};
use litesdb::files::{next_step, PublishStep};
use litesdb::manifest::{codec, transition, Manifest, UnitMeta};
use litesdb::shared_wal::boundary;
use litesdb::shared_wal::frame::{self, Pointer};
use litesdb::shared_wal::member::SharedMember;
use litesdb::shared_wal::membership::{LiveFacts, Registry};
use litesdb::shared_wal::recover::{segment_numbers, Found, Recovery, SegmentStart};
use litesdb::shared_wal::registry;
use litesdb::shared_wal::state::{member_charge, Action};
use litesdb::tail::RecordBody;
use litesdb::unit::MemoryUnit;
use litesdb::wal::Checkpoint;
use litesdb::{
    CellValue, FieldId, FieldSchema, Observation, ObservationEntry, OpenOptions, SeriesId,
    SharedDbId, SharedWal, SharedWalOptions, TableId, Validity, ValueType, VersionSpec,
};

const OWNER: [u8; 16] = [7; 16];

/// The files of a log and of its members, kept in memory.
#[derive(Clone, Default)]
struct Disk {
    segments: BTreeMap<u64, Vec<u8>>,
    boundaries: BTreeMap<u64, Vec<u8>>,
    registrations: Vec<(Vec<u8>, Vec<u8>)>,
    bindings: BTreeMap<Vec<u8>, Vec<u8>>,
    retirements: BTreeMap<Vec<u8>, Vec<u8>>,
    manifests: BTreeMap<Vec<u8>, u64>,
}

impl Disk {
    fn perform(&mut self, actions: Vec<Action>) {
        for action in actions {
            match action {
                Action::Write(bytes) => {
                    self.segments.values_mut().last().unwrap().extend(bytes);
                }
                Action::SyncData => {}
                Action::CreateSegment { segment, header } => {
                    self.segments.insert(segment, header);
                }
                Action::RemoveSegment(number) => {
                    self.segments.remove(&number);
                    self.boundaries.remove(&number);
                }
            }
        }
    }

    fn frame_at(&self, pointer: Pointer) -> Vec<u8> {
        let content = &self.segments[&pointer.segment];
        let rest = &content[pointer.offset as usize..];
        let length = frame::frame_len(rest).unwrap();
        rest[..length].to_vec()
    }

    fn open(&mut self, options: SharedWalOptions) -> Result<SharedWal> {
        options.validate()?;
        let mut registry = Registry::new(OWNER, options);
        for (name, file) in &self.registrations {
            let (id, root) = registry::read_registration(name, file)?.unwrap();
            let retired = self.retirements.get(&registry::retirement_name(id));
            match registry::read_retirement(retired.map(Vec::as_slice), &OWNER, id)? {
                Some(seq) => registry.admit_retired(id, root, seq)?,
                None => {
                    let facts = LiveFacts {
                        present: true,
                        binding: self.bindings.get(&root).map(Vec::as_slice),
                        archive: Ok(None),
                        manifest: self.manifests.get(&root).map(|seq| Ok(*seq)),
                        sealed: None,
                    };
                    registry.admit_live(id, root.clone(), &facts)?;
                }
            }
        }
        let names: Vec<Vec<u8>> = self.segments.keys().map(|n| frame::segment_name(*n)).collect();
        let paths = segment_numbers(&names, options)?;
        let mut recovery = Recovery::new(OWNER, options, registry.members, registry.charged, paths);
        while let Some(number) = recovery.next_segment() {
            let content = self.segments[&number].clone();
            let evidence = self.boundaries.get(&number).cloned();
            match recovery.begin_segment(&content, evidence.as_deref())? {
                SegmentStart::Empty { publish } => {
                    if let Some(found) = publish {
                        let file = boundary::boundary_bytes(&OWNER, number, &content, found);
                        self.boundaries.insert(number, file);
                    }
                }
                SegmentStart::Frames(mut scan) => {
                    loop {
                        match scan.find(&content)? {
                            Found::End => break,
                            Found::Torn => {
                                let found = recovery.tear(&mut scan, &content);
                                let file =
                                    boundary::boundary_bytes(&OWNER, number, &content, found);
                                self.boundaries.insert(number, file);
                                break;
                            }
                            Found::Frame(length) => {
                                let start = scan.offset as usize;
                                let inner = sequence(&content[start..start + length]);
                                recovery
                                    .accept_frame(&mut scan, &content, length, inner, [0; 32])?;
                            }
                        }
                    }
                    recovery.end_segment(scan)?;
                }
            }
        }
        let (wal, actions) = recovery.finish()?;
        self.perform(actions);
        Ok(wal)
    }

    fn register(&mut self, wal: &mut SharedWal, root: &[u8], id: SharedDbId) -> Result<()> {
        let bound = self.bindings.contains_key(root);
        let cataloged = self.manifests.contains_key(root);
        let files = wal.register(root.to_vec(), id, bound, cataloged, false)?;
        if let Some(file) = files.member {
            self.registrations.push((registry::name(id), file));
        }
        if let Some(file) = files.binding {
            self.bindings.insert(root.to_vec(), file);
        }
        if !cataloged {
            self.manifests.insert(root.to_vec(), 0);
        }
        wal.initialized(id, self.manifests[root])
    }

    /// Opens a member and gives back the sequences that it replays.
    fn member(&mut self, wal: &mut SharedWal, root: &[u8], id: SharedDbId) -> Result<(SharedMember, Vec<u64>)> {
        self.register(wal, root, id)?;
        let mut actions = Vec::new();
        let tail = self.manifests[root];
        let (member, mut walk) = SharedMember::recover(wal, id, tail, &mut actions)?;
        self.perform(actions);
        while let Some(pointer) = walk.next()? {
            let source = self.frame_at(pointer);
            walk.accept(&source, sequence(&source))?;
        }
        let mut replayed = Vec::new();
        for pointer in walk.replay_order() {
            replayed.push(sequence(&self.frame_at(pointer)).unwrap());
        }
        wal.release_scratch(walk.charged);
        Ok((member, replayed))
    }

    fn append(&mut self, wal: &mut SharedWal, member: &mut SharedMember) -> Result<u64> {
        let raw = record(member.next_seq()?);
        let mut actions = Vec::new();
        let result = member.append(wal, &raw, [0; 32], &mut actions);
        self.perform(actions);
        result
    }

    fn batch(&mut self, wal: &mut SharedWal, member: &mut SharedMember, count: u64) -> Result<u64> {
        let first = member.next_seq()?;
        let raws: Vec<Vec<u8>> = (first..first + count).map(record).collect();
        let digests = vec![[0; 32]; raws.len()];
        let mut actions = Vec::new();
        let result = member.append_batch(wal, &raws, &digests, &mut actions);
        self.perform(actions);
        result
    }

    fn sync(&mut self, wal: &mut SharedWal, member: &mut SharedMember) -> Result<u64> {
        let mut actions = Vec::new();
        let result = member.sync(wal, &mut actions);
        self.perform(actions);
        Ok(result?.seq())
    }

    /// Lets the catalog of the member take over everything so far, and reclaims segments.
    fn seal(&mut self, wal: &mut SharedWal, root: &[u8], member: &mut SharedMember) -> Result<()> {
        let seq = self.sync(wal, member)?;
        self.manifests.insert(root.to_vec(), seq);
        let mut actions = Vec::new();
        member.checkpoint(wal, &mut actions)?;
        self.perform(actions);
        Ok(())
    }
}

/// A record that carries its own sequence.
fn record(seq: u64) -> Vec<u8> {
    let mut raw = seq.to_le_bytes().to_vec();
    raw.extend(vec![9; 52]);
    raw
}

fn sequence(source: &[u8]) -> Result<u64> {
    let raw = frame::raw_record(source)?;
    Ok(u64::from_le_bytes(raw[..8].try_into().unwrap()))
}

fn id(value: u8) -> SharedDbId {
    SharedDbId::new([value; 16], [value.wrapping_add(1); 16])
}

fn small() -> SharedWalOptions {
    SharedWalOptions {
        max_bytes: 32_768,
        segment_bytes: 512,
        buffer_bytes: 1024,
        ..SharedWalOptions::default()
    }
}

fn tight() -> SharedWalOptions {
    SharedWalOptions {
        max_bytes: 1024,
        segment_bytes: 512,
        buffer_bytes: 512,
        ..SharedWalOptions::default()
    }
}

#[test]
fn interleaved_members_share_one_write_and_sync_with_local_sequences() {
    let mut disk = Disk::default();
    let mut owner = disk.open(SharedWalOptions::default()).unwrap();
    let (mut a, _) = disk.member(&mut owner, b"/a", id(1)).unwrap();
    let (mut b, _) = disk.member(&mut owner, b"/b", id(2)).unwrap();
    assert_eq!(disk.append(&mut owner, &mut a).unwrap(), 1);
    assert_eq!(disk.append(&mut owner, &mut b).unwrap(), 1);
    assert_eq!(disk.append(&mut owner, &mut a).unwrap(), 2);
    assert_eq!(disk.append(&mut owner, &mut b).unwrap(), 2);
    assert_eq!(owner.maintenance_status().unwrap().write_calls(), 0);
    let mut actions = Vec::new();
    assert_eq!(owner.sync(&mut actions).unwrap().lsn(), 4);
    disk.perform(actions);
    assert_eq!(disk.sync(&mut owner, &mut a).unwrap(), 2);
    assert_eq!(disk.sync(&mut owner, &mut b).unwrap(), 2);
    let status = owner.maintenance_status().unwrap();
    assert_eq!(status.write_calls(), 1);
    assert_eq!(status.sync_calls(), 1);
    disk.append(&mut owner, &mut b).unwrap();
    assert_eq!(b.durable_position(&owner).seq(), 2);
    assert_eq!(disk.sync(&mut owner, &mut a).unwrap(), 2);
    assert_eq!(owner.maintenance_status().unwrap().sync_calls(), 1);
    disk.sync(&mut owner, &mut b).unwrap();
    assert_eq!(owner.maintenance_status().unwrap().sync_calls(), 2);
    let mut owner = disk.open(SharedWalOptions::default()).unwrap();
    assert_eq!(disk.member(&mut owner, b"/a", id(1)).unwrap().1, [1, 2]);
    assert_eq!(disk.member(&mut owner, b"/b", id(2)).unwrap().1, [1, 2, 3]);
}

#[test]
fn closed_member_blocks_gc_until_its_independent_checkpoint() {
    let mut disk = Disk::default();
    let mut owner = disk.open(small()).unwrap();
    let (mut a, _) = disk.member(&mut owner, b"/a", id(1)).unwrap();
    let (mut b, _) = disk.member(&mut owner, b"/b", id(2)).unwrap();
    disk.append(&mut owner, &mut b).unwrap();
    disk.sync(&mut owner, &mut b).unwrap();
    for _ in 1..15 {
        disk.append(&mut owner, &mut a).unwrap();
    }
    disk.seal(&mut owner, b"/a", &mut a).unwrap();
    assert!(owner.maintenance_blockers(8).unwrap().contains(&id(2)));
    let count = disk.segments.len();
    assert!(count > 1);
    let mut owner = disk.open(small()).unwrap();
    let (mut b, replayed) = disk.member(&mut owner, b"/b", id(2)).unwrap();
    assert_eq!(replayed, [1]);
    disk.seal(&mut owner, b"/b", &mut b).unwrap();
    assert!(disk.segments.len() < count);
    assert!(!owner.maintenance_blockers(8).unwrap().contains(&id(2)));
}

#[test]
fn ambiguous_physical_failure_poison_is_owner_wide() {
    let mut disk = Disk::default();
    let mut owner = disk.open(small()).unwrap();
    let (mut a, _) = disk.member(&mut owner, b"/a", id(1)).unwrap();
    let (mut b, _) = disk.member(&mut owner, b"/b", id(2)).unwrap();
    disk.append(&mut owner, &mut a).unwrap();
    let length = owner.buffer.len();
    owner.mark_poisoned();
    assert_eq!(owner.ensure_healthy().unwrap_err().kind(), ErrorKind::Poisoned);
    assert_eq!(disk.sync(&mut owner, &mut a).unwrap_err().kind(), ErrorKind::Poisoned);
    assert_eq!(disk.append(&mut owner, &mut b).unwrap_err().kind(), ErrorKind::Poisoned);
    assert_eq!(disk.batch(&mut owner, &mut b, 2).unwrap_err().kind(), ErrorKind::Poisoned);
    assert_eq!(b.checkpoint(&mut owner, &mut Vec::new()).unwrap_err().kind(), ErrorKind::Poisoned);
    assert_eq!(owner.maintenance_status().unwrap_err().kind(), ErrorKind::Poisoned);
    assert_eq!(owner.maintenance_blockers(1).unwrap_err().kind(), ErrorKind::Poisoned);
    assert_eq!(owner.buffer.len(), length);
}

#[test]
fn failed_manifest_publication_keeps_records_for_two_reopens() {
    for step in [
        PublishStep::Write,
        PublishStep::FileSync,
        PublishStep::Rename,
        PublishStep::DirectorySync,
    ] {
        let table = TableId::new(4);
        let body = |seq: u64| {
            if seq == 1 {
                let fields = vec![FieldSchema::new(FieldId::new(1), ValueType::UInt)];
                let spec = VersionSpec::new(Validity::Forever, fields).unwrap();
                RecordBody::CreateTable { table, spec }
            } else {
                let value = CellValue::UInt(1);
                let entry = ObservationEntry::new(SeriesId::new(1), FieldId::new(1), value);
                let observation = Observation::new(7, vec![entry]).unwrap();
                RecordBody::AppendObservation { table, observation }
            }
        };
        let mut disk = Disk::default();
        let mut owner = disk.open(small()).unwrap();
        let (mut a, _) = disk.member(&mut owner, b"/a", id(1)).unwrap();
        let initial = Manifest::initial(Checkpoint::new(1, 32, 1).unwrap()).unwrap();
        let mut file = codec::encode(&initial).unwrap();
        let meta = UnitMeta::new(1, 0, 7, 7, 1, 1, 1, 0).unwrap();
        let writer = WriterStatus {
            poisoned: false,
            unsynced_bytes: 0,
            durable: a.durable_position(&owner),
        };
        let unit = MemoryUnit::new(meta, Vec::new());
        let mut db = Db::new(initial, unit, None, writer, OpenOptions::default()).unwrap();
        for _ in 0..2 {
            let seq = disk.append(&mut owner, &mut a).unwrap();
            db.tail.apply(seq, body(seq)).unwrap();
        }
        disk.sync(&mut owner, &mut a).unwrap();
        db.writer.durable = a.durable_position(&owner);
        let range = db.seal().unwrap();
        let order = db.order_seal(range, db.writer.durable).unwrap();
        let next = db.sealed(order, Some(meta)).unwrap();
        let content = transition::publish(Some(0), &next).unwrap();
        let mut done = None;
        while next_step(done) != Some(step) {
            done = next_step(done);
            if done == Some(PublishStep::Rename) {
                file.clone_from(&content);
                disk.manifests.insert(b"/a".to_vec(), next.checkpoint().next_seq() - 1);
            }
        }
        for _ in 0..2 {
            let mut owner = disk.open(small()).unwrap();
            let (_, replayed) = disk.member(&mut owner, b"/a", id(1)).unwrap();
            let manifest = codec::decode(&file).unwrap();
            let mut tail = manifest.replay_target().unwrap();
            for seq in replayed {
                tail.apply(seq, body(seq)).unwrap();
            }
            assert_eq!(tail.table(table).unwrap().last_ts(), Some(7));
        }
    }
}

#[test]
fn torn_final_record_preserves_original_and_boundary_on_two_reopens() {
    let mut disk = Disk::default();
    let mut owner = disk.open(small()).unwrap();
    let (mut a, _) = disk.member(&mut owner, b"/a", id(1)).unwrap();
    disk.append(&mut owner, &mut a).unwrap();
    disk.sync(&mut owner, &mut a).unwrap();
    disk.segments.get_mut(&1).unwrap().extend([1, 2, 3]);
    let original = disk.segments[&1].clone();
    for last in 1..3 {
        let mut owner = disk.open(small()).unwrap();
        let (mut a, replayed) = disk.member(&mut owner, b"/a", id(1)).unwrap();
        assert_eq!(replayed, (1..=last).collect::<Vec<u64>>());
        disk.append(&mut owner, &mut a).unwrap();
        disk.sync(&mut owner, &mut a).unwrap();
        assert_eq!(disk.segments[&1], original);
    }
    assert_eq!(disk.boundaries.len(), 1);
}

#[test]
fn a_changed_boundary_or_prefix_is_corruption() {
    let mut disk = Disk::default();
    let mut owner = disk.open(small()).unwrap();
    let (mut a, _) = disk.member(&mut owner, b"/a", id(1)).unwrap();
    disk.append(&mut owner, &mut a).unwrap();
    disk.sync(&mut owner, &mut a).unwrap();
    disk.segments.get_mut(&1).unwrap().extend([1, 2, 3]);
    disk.open(small()).unwrap();
    let mut other = disk.clone();
    *other.boundaries.get_mut(&1).unwrap().last_mut().unwrap() ^= 1;
    assert_eq!(other.open(small()).err().unwrap().kind(), ErrorKind::Corruption);
    let mut other = disk.clone();
    other.segments.get_mut(&1).unwrap()[70] ^= 1;
    assert_eq!(other.open(small()).err().unwrap().kind(), ErrorKind::Corruption);
}

#[test]
fn damage_inside_the_log_is_corruption() {
    let mut disk = Disk::default();
    let mut owner = disk.open(small()).unwrap();
    let (mut a, _) = disk.member(&mut owner, b"/a", id(1)).unwrap();
    for _ in 0..8 {
        disk.append(&mut owner, &mut a).unwrap();
    }
    disk.sync(&mut owner, &mut a).unwrap();
    assert_eq!(disk.segments.len(), 3);
    let mut other = disk.clone();
    other.segments.get_mut(&1).unwrap()[100] ^= 1;
    assert_eq!(other.open(small()).err().unwrap().kind(), ErrorKind::Corruption);
    let mut other = disk.clone();
    other.segments.remove(&2);
    assert_eq!(other.open(small()).err().unwrap().kind(), ErrorKind::Corruption);
    let mut other = disk.clone();
    other.segments.get_mut(&1).unwrap()[20] ^= 1;
    assert_eq!(other.open(small()).err().unwrap().kind(), ErrorKind::Corruption);
    let mut owner = disk.open(small()).unwrap();
    assert_eq!(disk.member(&mut owner, b"/a", id(1)).unwrap().1, (1..9).collect::<Vec<u64>>());
}

#[test]
fn old_unbound_manifest_is_rejected_without_registration() {
    let mut disk = Disk::default();
    let mut owner = disk.open(small()).unwrap();
    disk.manifests.insert(b"/old".to_vec(), 3);
    let refused = disk.register(&mut owner, b"/old", id(1)).unwrap_err();
    assert_eq!(refused.kind(), ErrorKind::Unsupported);
    assert!(disk.bindings.is_empty());
    assert!(disk.registrations.is_empty());
    assert_eq!(owner.members.len(), 0);
}

#[test]
fn reopening_member_flushes_its_accepted_buffer_before_recovery() {
    let mut disk = Disk::default();
    let mut owner = disk.open(small()).unwrap();
    let (mut a, _) = disk.member(&mut owner, b"/a", id(1)).unwrap();
    disk.append(&mut owner, &mut a).unwrap();
    disk.append(&mut owner, &mut a).unwrap();
    assert_eq!(owner.maintenance_status().unwrap().write_calls(), 0);
    let (mut a, replayed) = disk.member(&mut owner, b"/a", id(1)).unwrap();
    assert_eq!(replayed, [1, 2]);
    assert_eq!(owner.maintenance_status().unwrap().write_calls(), 1);
    assert_eq!(disk.append(&mut owner, &mut a).unwrap(), 3);
    assert_eq!(disk.sync(&mut owner, &mut a).unwrap(), 3);
}

#[test]
fn too_small_rotation_budget_is_rejected_before_creating_owner() {
    let mut disk = Disk::default();
    let options = SharedWalOptions { max_bytes: 512, segment_bytes: 512, ..small() };
    assert!(disk.open(options).is_err());
    assert!(disk.segments.is_empty());
    let options = SharedWalOptions { max_bytes: 1024, ..small() };
    let mut owner = disk.open(options).unwrap();
    let (mut a, _) = disk.member(&mut owner, b"/a", id(1)).unwrap();
    for _ in 1..30 {
        disk.append(&mut owner, &mut a).unwrap();
        disk.seal(&mut owner, b"/a", &mut a).unwrap();
    }
    assert!(owner.maintenance_status().unwrap().storage_bytes() <= 1024);
}

#[test]
fn batch_capacity_rejection_accepts_no_prefix_and_member_remains_maintainable() {
    let mut disk = Disk::default();
    let mut owner = disk.open(tight()).unwrap();
    let (mut db, _) = disk.member(&mut owner, b"/db", id(1)).unwrap();
    for _ in 0..4 {
        disk.append(&mut owner, &mut db).unwrap();
    }
    disk.sync(&mut owner, &mut db).unwrap();
    let before = owner.maintenance_status().unwrap();
    assert_eq!(
        disk.batch(&mut owner, &mut db, 4).unwrap_err().kind(),
        ErrorKind::ResourceExhausted
    );
    assert_eq!(owner.maintenance_status().unwrap(), before);
    assert_eq!(db.next_seq().unwrap(), 5);
    disk.seal(&mut owner, b"/db", &mut db).unwrap();
    assert_eq!(disk.batch(&mut owner, &mut db, 4).unwrap(), 8);
    assert_eq!(disk.sync(&mut owner, &mut db).unwrap(), 8);
    let mut owner = disk.open(tight()).unwrap();
    assert_eq!(disk.member(&mut owner, b"/db", id(1)).unwrap().1, [5, 6, 7, 8]);
}

#[test]
fn mixed_members_share_one_commit_and_new_member_open_does_not_flush_others() {
    let mut disk = Disk::default();
    let mut owner = disk.open(SharedWalOptions::default()).unwrap();
    let (mut a, _) = disk.member(&mut owner, b"/a", id(9)).unwrap();
    disk.append(&mut owner, &mut a).unwrap();
    let (mut b, _) = disk.member(&mut owner, b"/b", id(1)).unwrap();
    disk.append(&mut owner, &mut b).unwrap();
    disk.append(&mut owner, &mut a).unwrap();
    disk.append(&mut owner, &mut b).unwrap();
    assert_eq!(owner.maintenance_status().unwrap().write_calls(), 0);
    let mut actions = Vec::new();
    owner.sync(&mut actions).unwrap();
    disk.perform(actions);
    disk.sync(&mut owner, &mut a).unwrap();
    disk.sync(&mut owner, &mut b).unwrap();
    let status = owner.maintenance_status().unwrap();
    assert_eq!(status.write_calls(), 1);
    assert_eq!(status.sync_calls(), 1);
    assert_eq!(status.durable_lsn(), 4);
    assert_eq!(status.visible_lsn(), 4);
}

#[test]
fn retired_identity_survives_directory_deletion_and_cannot_be_reused() {
    let mut disk = Disk::default();
    let mut owner = disk.open(tight()).unwrap();
    let mut actions = Vec::new();
    let nothing = owner.discard_unpublished(b"/candidate", id(1), Ok(()), None, false, &mut actions);
    assert_eq!(nothing.unwrap(), None);
    let (mut db, _) = disk.member(&mut owner, b"/candidate", id(1)).unwrap();
    disk.append(&mut owner, &mut db).unwrap();
    disk.sync(&mut owner, &mut db).unwrap();
    let binding = disk.bindings[b"/candidate".as_slice()].clone();
    let held = Err(Error::Io);
    let open = owner
        .discard_unpublished(b"/candidate", id(1), held, Some(&binding), false, &mut actions);
    assert_eq!(open.unwrap_err().kind(), ErrorKind::Io);
    assert!(!owner.members.get(&id(1)).unwrap().retired);
    assert!(actions.is_empty());
    let pinned = owner
        .discard_unpublished(b"/candidate", id(1), Ok(()), Some(&binding), true, &mut actions);
    assert!(pinned.is_err());
    let file = owner
        .discard_unpublished(b"/candidate", id(1), Ok(()), Some(&binding), false, &mut actions)
        .unwrap()
        .unwrap();
    disk.perform(actions);
    disk.retirements.insert(registry::retirement_name(id(1)), file);
    disk.bindings.clear();
    disk.manifests.clear();
    for _ in 0..2 {
        let mut owner = disk.open(tight()).unwrap();
        assert!(owner.members.get(&id(1)).unwrap().retired);
        let nothing = owner
            .discard_unpublished(b"/candidate", id(1), Ok(()), None, false, &mut Vec::new());
        assert_eq!(nothing.unwrap(), None);
        let refused = disk.register(&mut owner, b"/candidate", id(1)).unwrap_err();
        assert_eq!(refused.kind(), ErrorKind::InvalidArgument);
    }
}

#[test]
fn valid_frame_after_permanent_retirement_is_corruption() {
    let mut disk = Disk::default();
    let mut owner = disk.open(SharedWalOptions::default()).unwrap();
    let (mut db, _) = disk.member(&mut owner, b"/db", id(1)).unwrap();
    disk.append(&mut owner, &mut db).unwrap();
    disk.sync(&mut owner, &mut db).unwrap();
    let binding = disk.bindings[b"/db".as_slice()].clone();
    let mut actions = Vec::new();
    let file = owner
        .discard_unpublished(b"/db", id(1), Ok(()), Some(&binding), false, &mut actions)
        .unwrap()
        .unwrap();
    disk.perform(actions);
    disk.retirements.insert(registry::retirement_name(id(1)), file);
    let previous = owner.members.get(&id(1)).unwrap().latest;
    let frame = frame::encode(id(1), 2, 2, previous, &record(2)).unwrap();
    disk.segments.get_mut(&1).unwrap().extend(frame);
    for _ in 0..2 {
        assert_eq!(
            disk.open(SharedWalOptions::default()).err().unwrap().kind(),
            ErrorKind::Corruption
        );
    }
}

#[test]
fn an_identity_and_a_path_stand_for_one_database() {
    let mut disk = Disk::default();
    let mut owner = disk.open(small()).unwrap();
    disk.register(&mut owner, b"/a", id(1)).unwrap();
    let moved = disk.register(&mut owner, b"/b", id(1)).unwrap_err();
    assert_eq!(moved.kind(), ErrorKind::Corruption);
    let taken = owner.register(b"/a".to_vec(), id(2), false, false, false);
    assert_eq!(taken.err().unwrap().kind(), ErrorKind::Corruption);
    let loose = owner.register(b"/c".to_vec(), id(3), true, false, false);
    assert_eq!(loose.err().unwrap().kind(), ErrorKind::Corruption);
    let unreadable = owner.register(vec![0xff, 0xfe], id(4), false, false, false);
    assert_eq!(unreadable.err().unwrap().kind(), ErrorKind::InvalidArgument);
    let long = owner.register(vec![b'x'; 4097], id(5), false, false, false);
    assert_eq!(long.err().unwrap().kind(), ErrorKind::InvalidArgument);
    assert_eq!(owner.registered_id(b"/a").unwrap(), Some(id(1)));
    assert_eq!(owner.registered_id(b"/b").unwrap(), None);
    assert!(owner.validate_open(b"/a", id(1)).is_ok());
    assert!(owner.validate_open(b"/b", id(1)).is_err());
    assert!(owner.validate_open(b"/b", id(2)).is_ok());
    let embedded = owner.register(vec![0xff, 0xfe], id(6), false, false, true).unwrap();
    let (found, path) =
        registry::read_registration(&registry::name(id(6)), &embedded.member.unwrap())
            .unwrap()
            .unwrap();
    assert_eq!((found, path), (id(6), b"..".to_vec()));
}

#[test]
fn a_member_is_charged_a_fixed_share_and_its_root_twice() {
    let empty = member_charge(&Vec::new());
    assert_eq!(member_charge(&b"/one".to_vec()), empty + 8);
    assert_eq!(member_charge(&vec![b'a'; 300]), empty + 600);
    if std::mem::size_of::<usize>() == 8 {
        assert_eq!(empty, 656);
    }
}

#[test]
fn the_number_of_databases_is_bounded() {
    let mut disk = Disk::default();
    let options = SharedWalOptions { max_databases: 2, ..small() };
    let mut owner = disk.open(options).unwrap();
    disk.register(&mut owner, b"/a", id(1)).unwrap();
    disk.register(&mut owner, b"/b", id(2)).unwrap();
    let refused = disk.register(&mut owner, b"/c", id(3)).unwrap_err();
    let Error::ResourceExhausted(limit) = refused else {
        panic!("another error");
    };
    assert_eq!((limit.name(), limit.actual(), limit.maximum()), ("shared_wal_databases", 2, 2));
}

#[test]
fn a_lost_member_record_is_found_when_its_chain_is_walked() {
    let mut disk = Disk::default();
    let mut owner = disk.open(small()).unwrap();
    let (mut a, _) = disk.member(&mut owner, b"/a", id(1)).unwrap();
    for _ in 0..3 {
        disk.append(&mut owner, &mut a).unwrap();
    }
    disk.sync(&mut owner, &mut a).unwrap();
    let mut actions = Vec::new();
    let (_, mut walk) = SharedMember::recover(&mut owner, id(1), 0, &mut actions).unwrap();
    let pointer = walk.next().unwrap().unwrap();
    let source = disk.frame_at(pointer);
    assert_eq!(walk.accept(&source, Ok(2)).unwrap_err().kind(), ErrorKind::Corruption);
}

#[test]
fn needed_segments_stay_until_the_archive_and_the_catalog_let_go() {
    let mut disk = Disk::default();
    let mut owner = disk.open(small()).unwrap();
    let (mut a, _) = disk.member(&mut owner, b"/a", id(1)).unwrap();
    for _ in 0..9 {
        disk.append(&mut owner, &mut a).unwrap();
    }
    disk.sync(&mut owner, &mut a).unwrap();
    assert!(owner.holds(&id(1), 1));
    let mut actions = Vec::new();
    owner.gc_locked(&mut actions);
    assert!(actions.is_empty());
    a.checkpoint(&mut owner, &mut actions).unwrap();
    assert!(!owner.holds(&id(1), 9));
    assert!(owner.holds(&id(1), 10));
    assert!(owner.holds(&id(2), 1));
    assert!(matches!(actions[..], [Action::RemoveSegment(1), Action::RemoveSegment(2)]));
    owner.gc_locked(&mut actions);
    assert_eq!(actions.len(), 2);
}

#[test]
fn a_full_log_reclaims_before_it_refuses() {
    let mut disk = Disk::default();
    let mut owner = disk.open(tight()).unwrap();
    let (mut a, _) = disk.member(&mut owner, b"/a", id(1)).unwrap();
    for _ in 0..3 {
        disk.append(&mut owner, &mut a).unwrap();
    }
    disk.seal(&mut owner, b"/a", &mut a).unwrap();
    assert_eq!(disk.segments.len(), 1);
    for _ in 0..3 {
        disk.append(&mut owner, &mut a).unwrap();
    }
    assert_eq!(disk.segments.keys().copied().collect::<Vec<u64>>(), [1, 2]);
    assert_eq!(owner.storage, 968);
    assert_eq!(disk.append(&mut owner, &mut a).unwrap(), 7);
    assert_eq!(disk.segments.keys().copied().collect::<Vec<u64>>(), [2, 3]);
    assert_eq!(owner.storage, 688);
    disk.append(&mut owner, &mut a).unwrap();
    disk.append(&mut owner, &mut a).unwrap();
    let refused = disk.append(&mut owner, &mut a).unwrap_err();
    let Error::ResourceExhausted(limit) = refused else {
        panic!("another error");
    };
    assert_eq!(
        (limit.name(), limit.actual(), limit.maximum()),
        ("shared_wal_storage_bytes", 1172, 1024)
    );
    assert_eq!(disk.segments.keys().copied().collect::<Vec<u64>>(), [2, 3]);
}

#[test]
fn a_batch_reclaims_before_it_is_refused() {
    let mut disk = Disk::default();
    let mut owner = disk.open(tight()).unwrap();
    let (mut a, _) = disk.member(&mut owner, b"/a", id(1)).unwrap();
    for _ in 0..3 {
        disk.append(&mut owner, &mut a).unwrap();
    }
    disk.seal(&mut owner, b"/a", &mut a).unwrap();
    for _ in 0..3 {
        disk.append(&mut owner, &mut a).unwrap();
    }
    assert_eq!(disk.batch(&mut owner, &mut a, 2).unwrap(), 8);
    assert_eq!(disk.segments.keys().copied().collect::<Vec<u64>>(), [2, 3]);
    assert_eq!(owner.storage, 828);
    assert!(disk.batch(&mut owner, &mut a, 2).is_err());
    assert_eq!(owner.storage, 828);
    owner.ensure_healthy().unwrap();
}

#[test]
fn a_path_names_one_live_database() {
    let mut disk = Disk::default();
    let mut owner = disk.open(small()).unwrap();
    disk.register(&mut owner, b"/a", id(1)).unwrap();
    let refused = owner.register(b"/a".to_vec(), id(2), false, false, false).err().unwrap();
    assert_eq!(refused.kind(), ErrorKind::Corruption);
    let refused = owner.register(b"/b".to_vec(), id(1), true, true, false).err().unwrap();
    assert_eq!(refused.kind(), ErrorKind::Corruption);
    assert_eq!(owner.members.entries.len(), 1);
    let binding = disk.bindings[b"/a".as_slice()].clone();
    let mut actions = Vec::new();
    let file = owner
        .discard_unpublished(b"/a", id(1), Ok(()), Some(&binding), false, &mut actions)
        .unwrap();
    assert!(file.is_some());
    assert_eq!(owner.registered_id(b"/a").unwrap(), None);
    owner.register(b"/a".to_vec(), id(2), false, false, false).unwrap();
    assert_eq!(owner.registered_id(b"/a").unwrap(), Some(id(2)));
}

#[test]
fn only_segment_names_are_taken_for_segments() {
    let options = SharedWalOptions::default();
    let names = [frame::segment_name(2), frame::segment_name(10), frame::segment_name(1)];
    assert_eq!(segment_numbers(&names, options).unwrap(), [1, 2, 10]);
    for stray in [b"notes.txt".to_vec(), b"1.swal".to_vec(), vec![255, 254]] {
        let refused = segment_numbers(&[stray], options).unwrap_err();
        assert_eq!(refused.kind(), ErrorKind::Corruption);
    }
}

#[test]
fn each_invalid_option_is_refused() {
    let good = SharedWalOptions::default();
    assert!(good.validate().is_ok());
    assert!(SharedWalOptions { max_bytes: 0, ..good }.validate().is_err());
    assert!(SharedWalOptions { segment_bytes: 0, ..good }.validate().is_err());
    assert!(SharedWalOptions { buffer_bytes: 0, ..good }.validate().is_err());
    assert!(SharedWalOptions { max_databases: 0, ..good }.validate().is_err());
    assert!(SharedWalOptions { index_bytes: 0, ..good }.validate().is_err());
}

#[test]
fn a_second_recovery_comes_to_the_same_log() {
    let mut disk = Disk::default();
    let mut owner = disk.open(small()).unwrap();
    let (mut a, _) = disk.member(&mut owner, b"/a", id(1)).unwrap();
    for _ in 0..9 {
        disk.append(&mut owner, &mut a).unwrap();
    }
    disk.sync(&mut owner, &mut a).unwrap();
    let facts = |wal: &SharedWal| {
        let members: Vec<_> = wal
            .members
            .entries
            .iter()
            .map(|(id, member)| (*id, member.seq, member.latest, member.checkpoint))
            .collect();
        (wal.lsn, wal.segment, wal.offset, wal.storage, wal.charged, members)
    };
    for tail in [vec![], vec![1, 2, 3], vec![0; 40]] {
        let mut torn = disk.clone();
        torn.segments.values_mut().last().unwrap().extend(tail);
        let damaged = torn.segments.clone();
        let first = torn.open(small()).unwrap();
        let left = torn.clone();
        let second = torn.open(small()).unwrap();
        assert_eq!(facts(&first), facts(&second));
        assert_eq!(torn.segments, left.segments);
        assert_eq!(torn.boundaries, left.boundaries);
        for (number, content) in damaged {
            assert_eq!(torn.segments[&number], content);
        }
    }
    let mut cut = disk.clone();
    let last = *disk.segments.keys().last().unwrap();
    cut.segments.insert(last + 1, vec![7; 5]);
    let first = cut.open(small()).unwrap();
    let second = cut.open(small()).unwrap();
    assert_eq!(facts(&first), facts(&second));
    assert_eq!(cut.segments[&(last + 1)], vec![7; 5]);
}

#[test]
fn a_refused_segment_leaves_the_recovery_as_it_was() {
    let mut disk = Disk::default();
    disk.open(small()).unwrap();
    let content = disk.segments[&1].clone();
    let mut damaged = content.clone();
    damaged[3] ^= 1;
    let registry = Registry::new(OWNER, small());
    let mut recovery =
        Recovery::new(OWNER, small(), registry.members, registry.charged, vec![1]);
    assert!(recovery.begin_segment(&damaged, None).is_err());
    let start = recovery.begin_segment(&content, None).unwrap();
    let SegmentStart::Frames(scan) = start else {
        panic!("the segment has a header");
    };
    assert_eq!(scan.find(&content).unwrap(), Found::End);
    recovery.end_segment(scan).unwrap();
    let (wal, _) = recovery.finish().unwrap();
    assert_eq!((wal.segment, wal.lsn, wal.storage), (1, 0, content.len() as u64));
}
