use litesdb::shared_wal::boundary::{boundary_bytes, boundary_name, read_boundary, Boundary};
use litesdb::shared_wal::frame::{self, Pointer};
use litesdb::shared_wal::owner::{check_unowned, owner, read_owner};
use litesdb::shared_wal::registry;
use litesdb::{ErrorKind, SharedDbId};

const OWNER: [u8; 16] = [3; 16];

fn id() -> SharedDbId {
    SharedDbId::new([1; 16], [2; 16])
}

#[test]
fn owner_files_come_back_and_are_bounded() {
    let file = owner(&OWNER);
    assert_eq!(file.len(), 28);
    assert_eq!(read_owner(&file).unwrap(), OWNER);
    assert!(read_owner(&file[..27]).is_err());
    let mut long = file.clone();
    long.push(0);
    assert!(read_owner(&long).is_err());
    for at in 0..file.len() {
        let mut damaged = file.clone();
        damaged[at] ^= 1;
        assert_eq!(read_owner(&damaged).unwrap_err().kind(), ErrorKind::Corruption);
    }
    let stored = u32::from_le_bytes(file[24..].try_into().unwrap());
    assert_eq!(stored, crc32fast::hash(&file[..24]));
    assert!(check_unowned(0).is_ok());
    assert!(check_unowned(1).is_err());
}

#[test]
fn segment_headers_and_names_come_back() {
    let header = frame::segment_header(&OWNER, 4, 77);
    assert_eq!(header.len(), frame::SEGMENT_HEADER);
    assert_eq!(frame::inspect_segment(&header, &OWNER, 4).unwrap(), 77);
    assert!(frame::inspect_segment(&header, &[4; 16], 4).is_err());
    assert!(frame::inspect_segment(&header, &OWNER, 5).is_err());
    let name = frame::segment_name(4);
    assert_eq!(frame::parse_segment(&name).unwrap(), 4);
    assert_eq!(frame::parse_segment(&frame::segment_name(u64::MAX)).unwrap(), u64::MAX);
    assert!(frame::parse_segment(b"wal").is_err());
    assert!(frame::parse_segment(b"").is_err());
}

#[test]
fn frames_come_back_and_damage_is_found() {
    let previous = Pointer { segment: 1, offset: 64 };
    let bytes = frame::encode(id(), 9, 5, previous, &[4; 20]).unwrap();
    assert_eq!(frame::frame_len(&bytes).unwrap(), bytes.len());
    assert_eq!(frame::raw_record(&bytes).unwrap(), [4; 20]);
    let read = frame::inspect(&bytes, Ok(5)).unwrap();
    assert_eq!((read.id, read.lsn, read.seq), (id(), 9, 5));
    assert_eq!(read.previous, previous);
    assert_eq!(read.raw, [4; 20]);
    assert!(frame::inspect(&bytes, Ok(6)).is_err());
    for at in 0..bytes.len() {
        let mut damaged = bytes.clone();
        damaged[at] ^= 0x40;
        assert!(
            frame::frame_len(&damaged).map_or(true, |length| length != damaged.len())
                || frame::inspect(&damaged, Ok(5)).is_err(),
            "byte {at}"
        );
    }
    let long = frame::encode(id(), 1, 1, Pointer::none(), &vec![0; 70_000]).unwrap();
    assert!(frame::frame_len(&long).is_err());
    let short = frame::encode(id(), 1, 1, Pointer::none(), &[0; 16]).unwrap();
    assert!(frame::frame_len(&short).is_err());
}

#[test]
fn boundaries_hold_for_their_own_content_alone() {
    let content = vec![6; 100];
    let found = Boundary { end: 80, next: 8 };
    let file = boundary_bytes(&OWNER, 2, &content, found);
    assert_eq!(file.len(), 64);
    let read = read_boundary(&file, &OWNER, 2, &content).unwrap();
    assert_eq!((read.end, read.next), (80, 8));
    assert!(read_boundary(&file, &OWNER, 3, &content).is_err());
    assert!(read_boundary(&file, &[9; 16], 2, &content).is_err());
    let mut other = content.clone();
    other[99] ^= 1;
    assert_eq!(
        read_boundary(&file, &OWNER, 2, &other).unwrap_err().kind(),
        ErrorKind::Corruption
    );
    for bad in [
        Boundary { end: 101, next: 8 },
        Boundary { end: 63, next: 8 },
        Boundary { end: 80, next: 0 },
    ] {
        let file = boundary_bytes(&OWNER, 2, &content, bad);
        assert!(read_boundary(&file, &OWNER, 2, &content).is_err());
    }
    assert_eq!(boundary_name(1), b"BOUNDARY-00000000000000000001");
}

#[test]
fn bindings_name_one_owner_and_one_database() {
    let file = registry::binding(&OWNER, id());
    assert_eq!(registry::read_binding(Some(&file)).unwrap(), Some((OWNER, id())));
    assert_eq!(registry::read_binding(None).unwrap(), None);
    assert!(registry::verify_binding(Some(&file), &OWNER, id()).unwrap());
    assert!(!registry::verify_binding(None, &OWNER, id()).unwrap());
    let other = SharedDbId::new([1; 16], [3; 16]);
    assert!(registry::verify_binding(Some(&file), &OWNER, other).is_err());
    assert!(registry::verify_binding(Some(&file), &[8; 16], id()).is_err());
    let mut damaged = file.clone();
    damaged[12] ^= 1;
    assert!(registry::read_binding(Some(&damaged)).is_err());
}

#[test]
fn registrations_carry_a_readable_path_under_their_own_name() {
    let file = registry::registration(id(), "/data/été".as_bytes());
    let (found, path) = registry::read_registration(&registry::name(id()), &file)
        .unwrap()
        .unwrap();
    assert_eq!((found, path), (id(), "/data/été".as_bytes().to_vec()));
    assert_eq!(registry::read_registration(b"README", &file).unwrap().is_none(), true);
    let other = SharedDbId::new([7; 16], [7; 16]);
    assert!(registry::read_registration(&registry::name(other), &file).is_err());
    let unreadable = registry::registration(id(), &[0xff, 0xfe]);
    assert!(registry::read_registration(&registry::name(id()), &unreadable).is_err());
}

#[test]
fn retirements_are_final_marks_of_one_sequence() {
    let file = registry::retirement(&OWNER, id(), 41);
    assert_eq!(registry::read_retirement(Some(&file), &OWNER, id()).unwrap(), Some(41));
    assert_eq!(registry::read_retirement(None, &OWNER, id()).unwrap(), None);
    let other = SharedDbId::new([7; 16], [7; 16]);
    assert!(registry::read_retirement(Some(&file), &OWNER, other).is_err());
    assert!(registry::read_retirement(Some(&file), &[1; 16], id()).is_err());
}

#[test]
fn the_boundary_holds_the_checksum_of_its_content() {
    let content = b"some content".to_vec();
    let file = boundary_bytes(&OWNER, 1, &content, Boundary { end: 4, next: 2 });
    let stored = u32::from_le_bytes(file[40..44].try_into().unwrap());
    assert_eq!(stored, crc32fast::hash(&content));
}

#[test]
fn identities_come_back_from_their_bytes() {
    let bytes = id().bytes();
    assert_eq!(bytes.len(), 32);
    assert_eq!(SharedDbId::from_bytes(&bytes).unwrap(), id());
    assert!(SharedDbId::from_bytes(&bytes[..31]).is_err());
    assert!(id().same(&id()));
    assert!(!id().same(&SharedDbId::new([1; 16], [1; 16])));
    assert_eq!((id().database(), id().generation()), ([1; 16], [2; 16]));
}
