//! Evidence of how much of a damaged segment was accepted.
use vstd::prelude::*;

use super::frame;
use crate::bytes;
use crate::checksum;
use crate::error::{Error, Result};
use crate::names;

verus! {

/// The accepted prefix of a segment file and the sequence number that follows it.
#[derive(Clone, Copy, Debug, PartialEq, Eq, Structural)]
pub struct Boundary {
    pub end: u64,
    pub next: u64,
}

pub open spec fn boundary_magic() -> Seq<u8> {
    seq![76u8, 83, 83, 66, 2, 0, 0, 0]
}

/// `BOUNDARY-`
pub open spec fn boundary_prefix() -> Seq<u8> {
    seq![66u8, 79, 85, 78, 68, 65, 82, 89, 45]
}

/// The file name of a segment's boundary: `BOUNDARY-` and twenty digits.
pub fn boundary_name(segment: u64) -> (name: Vec<u8>)
    ensures
        name@ == boundary_prefix() + names::decimal(segment as nat, 20),
{
    let mut name: Vec<u8> = vec![66u8, 79, 85, 78, 68, 65, 82, 89, 45];
    assert(name@ =~= boundary_prefix());
    names::put_decimal(&mut name, segment, 20);
    name
}

/// The boundary file of a segment in front of its checksum.
pub open spec fn boundary_body(
    owner: Seq<u8>,
    segment: u64,
    content: Seq<u8>,
    boundary: Boundary,
) -> Seq<u8> {
    boundary_magic() + owner + bytes::le64(segment) + bytes::le64(content.len() as u64)
        + bytes::le32(checksum::crc32(content)) + bytes::le64(boundary.end) + bytes::le64(
        boundary.next,
    )
}

/// The boundary file to publish for a segment file with this content.
pub fn boundary_bytes(
    owner: &[u8; 16],
    segment: u64,
    content: &[u8],
    boundary: Boundary,
) -> (file: Vec<u8>)
    ensures
        file@ == frame::sealed(boundary_body(owner@, segment, content@, boundary)),
        file@.len() == 64,
{
    let mut file: Vec<u8> = vec![76u8, 83, 83, 66, 2, 0, 0, 0];
    assert(file@ =~= boundary_magic());
    bytes::put_slice(&mut file, owner.as_slice());
    bytes::put_u64(&mut file, segment);
    bytes::put_u64(&mut file, content.len() as u64);
    bytes::put_u32(&mut file, checksum::crc32_of(content));
    bytes::put_u64(&mut file, boundary.end);
    bytes::put_u64(&mut file, boundary.next);
    assert(file@ =~= boundary_body(owner@, segment, content@, boundary));
    proof {
        bytes::scalars_round_trip();
    }
    frame::checksum(file)
}

/// What a boundary file says of the segment file with this content.
pub open spec fn boundary_of(
    file: Seq<u8>,
    owner: Seq<u8>,
    segment: u64,
    content: Seq<u8>,
) -> Result<Boundary> {
    if file.len() != 64 {
        Err(frame::shared("boundary size"))
    } else {
        match frame::opened(file, boundary_magic()) {
            Err(e) => Err(e),
            Ok(body) => {
                let end = bytes::un64(body.subrange(44, 52));
                let next = bytes::un64(body.subrange(52, 60));
                if body.subrange(8, 24) != owner || bytes::un64(body.subrange(24, 32)) != segment
                    || bytes::un64(body.subrange(32, 40)) != content.len() || bytes::un32(
                    body.subrange(40, 44),
                ) != checksum::crc32(content) {
                    Err(frame::shared("boundary original mismatch"))
                } else if end > content.len() || (end != 0 && end < frame::SEGMENT_HEADER) || next
                    == 0 {
                    Err(frame::shared("invalid accepted boundary"))
                } else {
                    Ok(Boundary { end, next })
                }
            },
        }
    }
}

pub fn read_boundary(file: &[u8], owner: &[u8; 16], segment: u64, content: &[u8]) -> (r: Result<
    Boundary,
>)
    ensures
        r == boundary_of(file@, owner@, segment, content@),
{
    if file.len() != 64 {
        return Err(frame::invalid("boundary size"));
    }
    let magic: [u8; 8] = [76u8, 83, 83, 66, 2, 0, 0, 0];
    assert(magic@ =~= boundary_magic());
    let body = match frame::checked(file, &magic) {
        Ok(body) => body,
        Err(e) => return Err(e),
    };
    if !bytes::same_bytes(vstd::slice::slice_subrange(body, 8, 24), owner.as_slice())
        || bytes::u64_at(body, 24) != segment || bytes::u64_at(body, 32) != content.len() as u64
        || bytes::u32_at(body, 40) != checksum::crc32_of(content) {
        return Err(frame::invalid("boundary original mismatch"));
    }
    let end: u64 = bytes::u64_at(body, 44);
    let next: u64 = bytes::u64_at(body, 52);
    if end > content.len() as u64 || (end != 0 && end < frame::SEGMENT_HEADER as u64) || next
        == 0 {
        return Err(frame::invalid("invalid accepted boundary"));
    }
    Ok(Boundary { end, next })
}

/// A published boundary is read back for the same segment file.
pub proof fn boundary_round_trip(
    owner: Seq<u8>,
    segment: u64,
    content: Seq<u8>,
    boundary: Boundary,
)
    requires
        owner.len() == 16,
        content.len() <= u64::MAX,
        boundary.end <= content.len(),
        boundary.end == 0 || boundary.end >= frame::SEGMENT_HEADER,
        boundary.next != 0,
    ensures
        boundary_of(
            frame::sealed(boundary_body(owner, segment, content, boundary)),
            owner,
            segment,
            content,
        ) == Ok::<Boundary, Error>(boundary),
{
    bytes::scalars_round_trip();
    let body = boundary_body(owner, segment, content, boundary);
    assert(body.take(8) =~= boundary_magic());
    frame::sealed_authority_opens(body, boundary_magic());
    assert(body.subrange(8, 24) =~= owner);
    assert(body.subrange(24, 32) =~= bytes::le64(segment));
    assert(body.subrange(32, 40) =~= bytes::le64(content.len() as u64));
    assert(body.subrange(40, 44) =~= bytes::le32(checksum::crc32(content)));
    assert(body.subrange(44, 52) =~= bytes::le64(boundary.end));
    assert(body.subrange(52, 60) =~= bytes::le64(boundary.next));
}

} // verus!
