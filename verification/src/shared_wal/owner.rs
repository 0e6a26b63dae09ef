//! The identity of a shared log.
use vstd::prelude::*;

use super::frame;
use crate::bytes;
use crate::error::{Error, Result};

verus! {

/// The length of the file that holds an identity.
pub const OWNER_BYTES: usize = 28;

/// `LSSO` and the format version.
pub open spec fn owner_magic() -> Seq<u8> {
    seq![76u8, 83, 83, 79, 2, 0, 0, 0]
}

pub open spec fn owner_file(identity: Seq<u8>) -> Seq<u8> {
    frame::sealed(owner_magic() + identity)
}

/// The file that holds the identity of a log.
pub fn owner(identity: &[u8; 16]) -> (file: Vec<u8>)
    ensures
        file@ == owner_file(identity@),
{
    let mut file: Vec<u8> = vec![76u8, 83, 83, 79, 2, 0, 0, 0];
    assert(file@ =~= owner_magic());
    bytes::put_slice(&mut file, identity.as_slice());
    frame::checksum(file)
}

/// The identity that a file holds.
pub open spec fn owner_read(file: Seq<u8>) -> Result<Seq<u8>> {
    if file.len() != OWNER_BYTES {
        Err(frame::shared("owner identity size"))
    } else {
        match frame::opened(file, owner_magic()) {
            Err(e) => Err(e),
            Ok(body) => if body.len() != 24 {
                Err(frame::shared("owner identity size"))
            } else {
                Ok(body.subrange(8, 24))
            },
        }
    }
}

/// The identity that a file holds.
pub fn read_owner(file: &[u8]) -> (r: Result<[u8; 16]>)
    ensures
        match (r, owner_read(file@)) {
            (Ok(identity), Ok(found)) => identity@ == found,
            (Err(e), Err(f)) => e == f,
            _ => false,
        },
{
    if file.len() != OWNER_BYTES {
        return Err(frame::invalid("owner identity size"));
    }
    let magic: [u8; 8] = [76u8, 83, 83, 79, 2, 0, 0, 0];
    assert(magic@ =~= owner_magic());
    let body = match frame::checked(file, &magic) {
        Ok(body) => body,
        Err(e) => return Err(e),
    };
    if body.len() != 24 {
        return Err(frame::invalid("owner identity size"));
    }
    Ok(bytes::array16_at(body, 8))
}

/// Accepts a log that has no identity yet, which must not hold any segment.
pub fn check_unowned(segments: usize) -> (r: Result<()>)
    ensures
        r == (if segments > 0 {
            Err::<(), Error>(frame::shared("WAL without owner identity"))
        } else {
            Ok(())
        }),
{
    if segments > 0 {
        return Err(frame::invalid("WAL without owner identity"));
    }
    Ok(())
}

/// A written identity reads back.
pub proof fn owner_round_trip(identity: Seq<u8>)
    requires
        identity.len() == 16,
    ensures
        owner_read(owner_file(identity)) == Ok::<Seq<u8>, Error>(identity),
{
    bytes::scalars_round_trip();
    let body = owner_magic() + identity;
    assert(body.take(8) =~= owner_magic());
    assert(body.subrange(0, 8) =~= owner_magic());
    frame::sealed_authority_opens(body, owner_magic());
    assert(body.subrange(8, 24) =~= identity);
}

} // verus!
