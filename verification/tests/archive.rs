use std::collections::BTreeMap;

use litesdb::shared_wal::archive::{ArchiveCursor, ArchiveOptions, Protection};
use litesdb::shared_wal::export::{
    authority, cursor_digest, ensure_export_index, export_admits, opening_cursor, read_authority,
    verify_cursor, ExportIndex, ExportPlan, Pin,
};
use litesdb::shared_wal::frame::{self, Pointer};
use litesdb::shared_wal::member::{ChainWalk, SharedMember};
use litesdb::shared_wal::membership::Registry;
use litesdb::shared_wal::recover::Recovery;
use litesdb::shared_wal::state::Action;
use litesdb::{Error, ErrorKind, Result, SharedDbId, SharedWal, SharedWalOptions};
use sha2::Digest;

const OWNER: [u8; 16] = [5; 16];
const HEADER: usize = 100;

struct Setup {
    wal: SharedWal,
    segments: BTreeMap<u64, Vec<u8>>,
    member: SharedMember,
}

fn id() -> SharedDbId {
    SharedDbId::new([9; 16], [7; 16])
}

/// Some encoding of a cursor.
fn encoded(cursor: &ArchiveCursor) -> Vec<u8> {
    let mut bytes = cursor.database.to_vec();
    bytes.extend(cursor.branch);
    bytes.extend(cursor.segment.to_le_bytes());
    bytes.extend(cursor.offset.to_le_bytes());
    bytes.extend(cursor.seq.to_le_bytes());
    bytes.extend(cursor.digest);
    bytes
}

fn digest_of(seq: u64) -> [u8; 32] {
    [u8::try_from(seq).unwrap(); 32]
}

impl Setup {
    fn new() -> Self {
        let options = SharedWalOptions::default();
        let registry = Registry::new(OWNER, options);
        let recovery =
            Recovery::new(OWNER, options, registry.members, registry.charged, Vec::new());
        let (mut wal, actions) = recovery.finish().unwrap();
        let mut segments = BTreeMap::new();
        perform(&mut segments, actions);
        wal.register(b"/db".to_vec(), id(), false, false, false).unwrap();
        wal.initialized(id(), 0).unwrap();
        let mut actions = Vec::new();
        let (member, walk) = SharedMember::recover(&mut wal, id(), 0, &mut actions).unwrap();
        wal.release_scratch(walk.charged);
        perform(&mut segments, actions);
        Setup { wal, segments, member }
    }

    fn protect(&mut self, max_bytes: u64) -> Result<bool> {
        let mut actions = Vec::new();
        let options = ArchiveOptions { max_bytes };
        let encoded = encoded(&opening_cursor(id(), self.member.seq, [1; 16])?);
        let published = self
            .member
            .enable_archive(&mut self.wal, options, Ok(()), [1; 16], &encoded, &mut actions);
        perform(&mut self.segments, actions);
        Ok(published?.is_some())
    }

    fn append(&mut self) -> Result<u64> {
        let seq = self.member.next_seq()?;
        let mut raw = seq.to_le_bytes().to_vec();
        raw.extend(vec![9; 52]);
        let mut actions = Vec::new();
        let result = self.member.append(&mut self.wal, &raw, digest_of(seq), &mut actions);
        perform(&mut self.segments, actions);
        result
    }

    fn checkpoint(&mut self) {
        let mut actions = Vec::new();
        self.member.checkpoint(&mut self.wal, &mut actions).unwrap();
        perform(&mut self.segments, actions);
    }

    fn release(
        &mut self,
        through: ArchiveCursor,
        covers: Result<bool>,
        pins: &[Pin],
    ) -> Result<Option<Protection>> {
        let mut actions = Vec::new();
        let moved = self
            .member
            .release_archive(&mut self.wal, through, Ok(()), covers, pins, &mut actions);
        perform(&mut self.segments, actions);
        moved
    }

    fn sync(&mut self) {
        let mut actions = Vec::new();
        self.member.sync(&mut self.wal, &mut actions).unwrap();
        perform(&mut self.segments, actions);
    }

    fn frame_at(&self, pointer: Pointer) -> Vec<u8> {
        let rest = &self.segments[&pointer.segment][pointer.offset as usize..];
        rest[..frame::frame_len(rest).unwrap()].to_vec()
    }

    fn build(&mut self, baseline: ArchiveCursor) -> (ExportIndex, ChainWalk) {
        let (index, mut walk) =
            ExportIndex::build(&mut self.wal, id(), baseline, Ok(true)).unwrap();
        while let Some(pointer) = walk.next().unwrap() {
            let source = self.frame_at(pointer);
            let seq = sequence(&source);
            walk.accept(&source, Ok(seq)).unwrap();
        }
        (index, walk)
    }

    /// Exports one chunk behind a cursor.
    fn export(
        &mut self,
        held: &mut Option<(ExportIndex, ChainWalk)>,
        after: ArchiveCursor,
        max_bytes: u32,
    ) -> Result<(ArchiveCursor, Vec<u8>)> {
        let (mut chunk, more) =
            self.member.export_shared(&self.wal, after, HEADER, max_bytes)?;
        if !more {
            return Ok((chunk.end, chunk.records));
        }
        let status = self.member.archive_status(&self.wal)?;
        let index = held.as_ref().map(|(index, _)| index);
        match ensure_export_index(&status, index, after, Ok(true), Ok(true))? {
            ExportPlan::Reuse => {}
            ExportPlan::Build(baseline) => {
                *held = Some(self.build(baseline));
            }
        }
        let (index, walk) = held.as_mut().unwrap();
        while index.lags(after)? {
            let source = frame_at(&self.segments, index.peek(walk)?);
            let raw = frame::raw_record(&source)?;
            index.consume(&mut self.wal, raw.len(), digest_of(sequence(&source)))?;
        }
        while index.remaining > 0 {
            let source = frame_at(&self.segments, index.peek(walk)?);
            let raw = frame::raw_record(&source)?;
            let seq = sequence(&source);
            let encoded = [vec![0; 28], raw.to_vec()].concat();
            let taken = chunk.export_record(
                index,
                &mut self.wal,
                HEADER,
                max_bytes,
                raw.len(),
                digest_of(seq),
                &encoded,
            )?;
            if !taken {
                break;
            }
        }
        Ok((chunk.end, chunk.records))
    }
}

fn sequence(source: &[u8]) -> u64 {
    let raw = frame::raw_record(source).unwrap();
    u64::from_le_bytes(raw[..8].try_into().unwrap())
}

fn frame_at(segments: &BTreeMap<u64, Vec<u8>>, pointer: Pointer) -> Vec<u8> {
    let rest = &segments[&pointer.segment][pointer.offset as usize..];
    rest[..frame::frame_len(rest).unwrap()].to_vec()
}

fn perform(segments: &mut BTreeMap<u64, Vec<u8>>, actions: Vec<Action>) {
    for action in actions {
        match action {
            Action::Write(bytes) => segments.values_mut().last().unwrap().extend(bytes),
            Action::SyncData => {}
            Action::CreateSegment { segment, header } => {
                segments.insert(segment, header);
            }
            Action::RemoveSegment(number) => {
                segments.remove(&number);
            }
        }
    }
}

#[test]
fn export_catchup_releases_scratch_and_new_delta_does_not_reindex_old_history() {
    let mut db = Setup::new();
    assert!(db.protect(1 << 30).unwrap());
    let mut cursor = db.member.archive_status(&db.wal).unwrap().earliest;
    for _ in 0..31 {
        db.append().unwrap();
    }
    db.sync();
    let end = db.member.archive_status(&db.wal).unwrap().durable_end;
    assert_eq!(end.seq, 31);
    let mut held = None;
    let mut records = Vec::new();
    while !cursor.same(&end) {
        let (next, chunk) = db.export(&mut held, cursor, 400).unwrap();
        assert!(next.seq > cursor.seq);
        cursor = next;
        records.extend(chunk);
    }
    let exported: Vec<u64> = records
        .chunks(88)
        .map(|record| u64::from_le_bytes(record[28..36].try_into().unwrap()))
        .collect();
    assert_eq!(exported, (1..=31).collect::<Vec<u64>>());
    assert_eq!(db.wal.scratch_bytes, 0);
    for _ in 31..=50 {
        db.append().unwrap();
    }
    db.sync();
    let (chunk_end, _) = db.export(&mut held, cursor, 400).unwrap();
    assert!(chunk_end.seq < 51);
    assert_eq!(db.wal.scratch_bytes, 20 * 16);
    let (index, _) = held.unwrap();
    db.wal.release_scratch(index.charged);
    assert_eq!(db.wal.scratch_bytes, 0);
}

#[test]
fn an_export_goes_on_behind_any_record_boundary() {
    let mut db = Setup::new();
    db.protect(1 << 30).unwrap();
    for _ in 0..9 {
        db.append().unwrap();
    }
    db.sync();
    let earliest = db.member.archive_status(&db.wal).unwrap().earliest;
    let (middle, first) = db.export(&mut None, earliest, 400).unwrap();
    assert_eq!(middle.seq, 3);
    let (_, again) = db.export(&mut None, earliest, 400).unwrap();
    assert_eq!(again, first);
    let (next, second) = db.export(&mut None, middle, 400).unwrap();
    assert_eq!(next.seq, 6);
    let seq = u64::from_le_bytes(second[28..36].try_into().unwrap());
    assert_eq!(seq, 4);
    let stray = ArchiveCursor { digest: [99; 32], ..middle };
    let refused = db.export(&mut None, stray, 400).unwrap_err();
    assert_eq!(refused.kind(), ErrorKind::InvalidArgument);
}

#[test]
fn an_archive_holds_records_back_until_they_are_released() {
    let mut db = Setup::new();
    db.protect(1 << 30).unwrap();
    for _ in 0..4 {
        db.append().unwrap();
    }
    db.sync();
    db.checkpoint();
    assert!(db.wal.holds(&id(), 1));
    let mut held = None;
    let earliest = db.member.archive_status(&db.wal).unwrap().earliest;
    let (end, _) = db.export(&mut held, earliest, 400).unwrap();
    assert_eq!(end.seq, 3);
    let behind = Pin { same_history: true, seq: 2 };
    let refused = db.release(end, Ok(true), &[behind]);
    assert_eq!(refused.err().unwrap().kind(), ErrorKind::InvalidArgument);
    let other = Pin { same_history: false, seq: 9 };
    assert!(db.release(end, Ok(true), &[other]).is_err());
    let refused = db.release(end, Ok(false), &[]);
    assert_eq!(refused.err().unwrap().kind(), ErrorKind::InvalidArgument);
    assert!(db.wal.holds(&id(), 1));
    let ahead = Pin { same_history: true, seq: 3 };
    let moved = db.release(end, Ok(true), &[ahead]).unwrap();
    assert_eq!(moved.unwrap().released.seq, 3);
    assert!(!db.wal.holds(&id(), 3));
    assert!(db.wal.holds(&id(), 4));
    assert!(db.release(end, Ok(true), &[]).unwrap().is_none());
    assert_eq!(db.member.archive_status(&db.wal).unwrap().earliest.seq, 3);
}

#[test]
fn a_protection_opens_with_the_digest_of_its_cursor() {
    let mut db = Setup::new();
    db.append().unwrap();
    let opening = opening_cursor(id(), 1, [1; 16]).unwrap();
    assert_eq!((opening.segment, opening.offset, opening.seq), (2, 32, 1));
    assert_eq!(opening.digest, [0; 32]);
    assert!(opening_cursor(id(), u64::MAX, [1; 16]).is_err());
    let expected: [u8; 32] = sha2::Sha256::digest(encoded(&opening)).into();
    assert_eq!(cursor_digest(&encoded(&opening)), expected);
    let mut actions = Vec::new();
    let options = ArchiveOptions { max_bytes: 1 << 20 };
    let protection = db
        .member
        .enable_archive(
            &mut db.wal,
            options,
            Ok(()),
            [1; 16],
            &encoded(&opening),
            &mut actions,
        )
        .unwrap()
        .unwrap();
    assert_eq!(protection.initial.digest, expected);
    assert!(matches!(actions[..], [Action::Write(_), Action::SyncData]));
}

#[test]
fn a_refused_budget_or_cursor_changes_nothing() {
    let mut db = Setup::new();
    db.append().unwrap();
    let mut actions = Vec::new();
    let options = ArchiveOptions { max_bytes: 0 };
    let refusal = Err(Error::invalid("archive options", "budget is too small"));
    let refused = db
        .member
        .enable_archive(&mut db.wal, options, refusal, [1; 16], &[], &mut actions);
    assert_eq!(refused.err().unwrap().kind(), ErrorKind::InvalidArgument);
    assert!(actions.is_empty());
    assert!(!db.wal.buffer.is_empty());
    db.protect(1 << 20).unwrap();
    for _ in 0..3 {
        db.append().unwrap();
    }
    db.sync();
    let status = db.member.archive_status(&db.wal).unwrap();
    let stray = ArchiveCursor { digest: [99; 32], seq: 3, ..status.durable_end };
    let unknown = Err(Error::invalid("export cursor", "no such boundary"));
    let refused = db
        .member
        .release_archive(&mut db.wal, stray, unknown, Ok(true), &[], &mut actions);
    assert_eq!(refused.err().unwrap().kind(), ErrorKind::InvalidArgument);
    let moved = db
        .member
        .release_archive(&mut db.wal, status.durable_end, Ok(()), Ok(true), &[], &mut actions)
        .unwrap();
    assert_eq!(moved.unwrap().released.seq, 4);
}

#[test]
fn protection_is_asked_for_once_and_its_budget_can_change() {
    let mut db = Setup::new();
    let refused = db.member.archive_status(&db.wal).err().unwrap();
    assert_eq!(refused.kind(), ErrorKind::Unsupported);
    assert!(db.protect(1 << 20).unwrap());
    assert!(!db.protect(1 << 20).unwrap());
    assert!(db.protect(1 << 21).unwrap());
    db.append().unwrap();
    db.sync();
    assert!(db.protect(1).is_err());
    let status = db.member.archive_status(&db.wal).unwrap();
    assert!(status.healthy);
    assert_eq!((status.earliest.seq, status.durable_end.seq), (0, 1));
    assert!(verify_cursor(&status, status.earliest));
    assert!(verify_cursor(&status, status.durable_end));
    let stray = ArchiveCursor { seq: 7, ..status.earliest };
    assert!(!verify_cursor(&status, stray));
}

#[test]
fn the_authority_holds_the_digest_of_its_content() {
    let options = ArchiveOptions { max_bytes: 77 };
    let file = authority(options, &[1; 10], &[2; 10]);
    assert_eq!(file.len(), 16 + 20 + 32);
    assert_eq!(&file[36..], sha2::Sha256::digest(&file[..36]).as_slice());
    let (found, initial, released) = read_authority(&file, 10).unwrap();
    assert_eq!(found.max_bytes, 77);
    assert_eq!((initial, released), ([1; 10].as_slice(), [2; 10].as_slice()));
    assert!(read_authority(&file, 11).is_err());
    for at in 0..file.len() {
        let mut damaged = file.clone();
        damaged[at] ^= 1;
        assert_eq!(read_authority(&damaged, 10).err().unwrap().kind(), ErrorKind::Corruption);
    }
}

#[test]
fn a_chunk_takes_records_up_to_its_budget() {
    assert!(export_admits(100, 0, 60, 188).unwrap());
    assert_eq!(export_admits(100, 0, 60, 187).unwrap_err().kind(), ErrorKind::ResourceExhausted);
    assert!(export_admits(100, 88, 60, 276).unwrap());
    assert!(!export_admits(100, 88, 60, 275).unwrap());
    let mut db = Setup::new();
    db.protect(1 << 30).unwrap();
    let start = db.member.archive_status(&db.wal).unwrap().earliest;
    let refused = db.member.export_shared(&db.wal, start, HEADER, 99).err().unwrap();
    assert_eq!(refused.kind(), ErrorKind::InvalidArgument);
    let refused = db.member.export_shared(&db.wal, start, HEADER, 4_194_305).err().unwrap();
    assert_eq!(refused.kind(), ErrorKind::InvalidArgument);
    let (chunk, more) = db.member.export_shared(&db.wal, start, HEADER, 4_194_304).unwrap();
    assert!(!more);
    assert!(chunk.records.is_empty());
}

#[test]
fn an_export_must_end_at_the_durable_chain() {
    let mut db = Setup::new();
    db.protect(1 << 30).unwrap();
    db.append().unwrap();
    db.sync();
    let start = db.member.archive_status(&db.wal).unwrap().earliest;
    let (mut index, _) = db.build(start);
    let wrong = index.consume(&mut db.wal, 60, [99; 32]);
    assert_eq!(wrong.unwrap_err().kind(), ErrorKind::Corruption);
    let status = db.member.archive_status(&db.wal).unwrap();
    let outside = ensure_export_index(&status, None, start, Ok(false), Ok(true));
    assert_eq!(outside.err().unwrap().kind(), ErrorKind::InvalidArgument);
    let outside = ensure_export_index(&status, None, start, Ok(true), Ok(false));
    assert_eq!(outside.err().unwrap().kind(), ErrorKind::InvalidArgument);
}
