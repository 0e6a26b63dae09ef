use litesdb::files::{
    advance, check_lock_len, is_referenced, next_nonce, next_step, temporary_name, unit_file_name,
    validate_name, Area, DeferredDelete, PublishStep, ReapStep, Removal,
};
use litesdb::manifest::{Manifest, ManifestIdentity, RetentionState, UnitMeta};
use litesdb::retention::head;
use litesdb::wal::Checkpoint;
use litesdb::ErrorKind;

#[test]
fn target_name_cannot_escape_its_database_area() {
    for name in ["", ".", "..", "../MANIFEST", "nested/file"] {
        assert_eq!(
            validate_name(name.as_bytes()).unwrap_err().kind(),
            ErrorKind::InvalidArgument,
            "{name:?}"
        );
    }
    for name in ["MANIFEST", ".hidden", "...", "a..b", "00000000000000000001.lsu"] {
        assert!(validate_name(name.as_bytes()).is_ok(), "{name:?}");
    }
}

#[test]
fn every_area_has_its_own_child() {
    let children: Vec<Option<&str>> = [
        Area::Root,
        Area::Wal,
        Area::Units,
        Area::Heads,
        Area::Aggregates,
        Area::Temporary,
    ]
    .into_iter()
    .map(Area::child)
    .collect();
    assert_eq!(children[0], None);
    for (index, child) in children.iter().enumerate() {
        assert_eq!(children.iter().position(|other| other == child), Some(index));
    }
}

#[test]
fn publication_goes_through_four_steps() {
    let mut done = None;
    let mut steps = Vec::new();
    while let Some(step) = next_step(done) {
        steps.push(step);
        done = Some(step);
    }
    assert_eq!(
        steps,
        [
            PublishStep::Write,
            PublishStep::FileSync,
            PublishStep::Rename,
            PublishStep::DirectorySync,
        ]
    );
}

#[test]
fn temporary_names_differ_by_their_nonce() {
    let first = temporary_name(b"MANIFEST", 0);
    let second = temporary_name(b"MANIFEST", 1);
    assert_ne!(first, second);
    assert!(validate_name(&first).is_ok());
    assert_eq!(next_nonce(4).unwrap(), 5);
    assert!(next_nonce(u32::MAX).is_err());
}

#[test]
fn nonempty_lock_file_is_rejected_as_corruption() {
    assert!(check_lock_len(0).is_ok());
    assert_eq!(check_lock_len(1).unwrap_err().kind(), ErrorKind::Corruption);
}

#[test]
fn only_cataloged_files_are_referenced() {
    let manifest = Manifest::restore(
        ManifestIdentity::new(5, 9, 0, 0, 0),
        Checkpoint::new(1, 64, 1).unwrap(),
        RetentionState::new(Some(100), Some(4)),
        Vec::new(),
        vec![UnitMeta::new(7, 0, 100, 120, 1, 1, 100, 0).unwrap()],
    )
    .unwrap();
    assert!(is_referenced(&manifest, Area::Units, &unit_file_name(7)));
    assert!(!is_referenced(&manifest, Area::Units, &unit_file_name(8)));
    assert!(!is_referenced(&manifest, Area::Heads, &unit_file_name(7)));
    assert!(is_referenced(&manifest, Area::Heads, &head::head_name(4)));
    assert!(!is_referenced(&manifest, Area::Heads, &head::head_name(5)));
    assert!(!is_referenced(&manifest, Area::Wal, b"anything"));
}

#[test]
fn retired_files_are_removed_once_nobody_reads_them() {
    let mut generation = 3;
    let mut garbage: Vec<DeferredDelete> = Vec::new();
    advance(&mut generation, &mut garbage, vec![(Area::Units, unit_file_name(1))]);
    assert_eq!(generation, 4);
    assert_eq!(garbage.len(), 1);
    assert_eq!(garbage[0].owner, 3);
    assert!(matches!(garbage[0].next_step(true), ReapStep::Keep));
    assert!(matches!(garbage[0].next_step(false), ReapStep::Remove));
    garbage[0].record_removal(Removal::Failed);
    assert!(matches!(garbage[0].next_step(false), ReapStep::Remove));
    garbage[0].record_removal(Removal::Absent);
    assert!(matches!(garbage[0].next_step(false), ReapStep::SyncDirectory));
    let mut other = Vec::new();
    advance(&mut generation, &mut other, vec![(Area::Heads, head::head_name(2))]);
    other[0].record_removal(Removal::Removed);
    assert!(matches!(other[0].next_step(false), ReapStep::SyncDirectory));
}
