//! Which databases belong to a log, and where they live.
use vstd::prelude::*;

use super::frame;
use super::types::SharedDbId;
use crate::bytes;
use crate::error::{Error, Result};
use crate::names;
use crate::text;

verus! {

pub const MAX_REGISTRY_BYTES: u64 = 8192;

/// `MEMBER-`
pub open spec fn member_prefix() -> Seq<u8> {
    seq![77u8, 69, 77, 66, 69, 82, 45]
}

pub open spec fn member_file(id: SharedDbId) -> Seq<u8> {
    member_prefix() + names::hex_bytes(id.spec_bytes())
}

/// The file name of a registration: `MEMBER-` and the identity in hexadecimal.
pub fn name(id: SharedDbId) -> (file: Vec<u8>)
    ensures
        file@ == member_file(id),
{
    let mut file: Vec<u8> = vec![77u8, 69, 77, 66, 69, 82, 45];
    assert(file@ =~= member_prefix());
    names::put_hex_bytes(&mut file, id.bytes().as_slice());
    file
}

pub open spec fn binding_magic() -> Seq<u8> {
    seq![76u8, 83, 83, 68, 2, 0, 0, 0]
}

pub open spec fn binding_body(owner: Seq<u8>, id: SharedDbId) -> Seq<u8> {
    binding_magic() + owner + id.spec_bytes()
}

/// The file in a database directory that binds it to its log and identity.
pub fn binding(owner: &[u8; 16], id: SharedDbId) -> (file: Vec<u8>)
    ensures
        file@ == frame::sealed(binding_body(owner@, id)),
{
    let mut file: Vec<u8> = vec![76u8, 83, 83, 68, 2, 0, 0, 0];
    assert(file@ =~= binding_magic());
    bytes::put_slice(&mut file, owner.as_slice());
    bytes::put_slice(&mut file, id.bytes().as_slice());
    frame::checksum(file)
}

/// Whether a binding file is there and names this log and identity.
pub open spec fn binding_verified(
    file: Option<Seq<u8>>,
    owner: Seq<u8>,
    id: SharedDbId,
) -> Result<bool> {
    match file {
        None => Ok(false),
        Some(found) => if found.len() > MAX_REGISTRY_BYTES {
            Err(frame::shared("oversized member authority"))
        } else {
            match frame::opened(found, binding_magic()) {
                Err(e) => Err(e),
                Ok(_) => if found != frame::sealed(binding_body(owner, id)) {
                    Err(frame::shared("foreign logical database binding"))
                } else {
                    Ok(true)
                },
            }
        },
    }
}

pub fn verify_binding(file: Option<&[u8]>, owner: &[u8; 16], id: SharedDbId) -> (r: Result<bool>)
    ensures
        r == binding_verified(
            match file {
                Some(found) => Some(found@),
                None => None,
            },
            owner@,
            id,
        ),
{
    let found = match file {
        Some(found) => found,
        None => return Ok(false),
    };
    if found.len() as u64 > MAX_REGISTRY_BYTES {
        return Err(frame::invalid("oversized member authority"));
    }
    let magic: [u8; 8] = [76u8, 83, 83, 68, 2, 0, 0, 0];
    assert(magic@ =~= binding_magic());
    match frame::checked(found, &magic) {
        Ok(_) => {},
        Err(e) => return Err(e),
    }
    if !bytes::same_bytes(found, binding(owner, id).as_slice()) {
        return Err(frame::invalid("foreign logical database binding"));
    }
    Ok(true)
}

/// The log and the identity that a binding file names.
pub open spec fn binding_read(file: Option<Seq<u8>>) -> Result<Option<(Seq<u8>, SharedDbId)>> {
    match file {
        None => Ok(None),
        Some(found) => if found.len() > MAX_REGISTRY_BYTES {
            Err(frame::shared("oversized member authority"))
        } else {
            match frame::opened(found, binding_magic()) {
                Err(e) => Err(e),
                Ok(body) => if body.len() != 56 {
                    Err(frame::shared("binding size"))
                } else {
                    Ok(
                        Some(
                            (
                                body.subrange(8, 24),
                                SharedDbId {
                                    database: frame::array16(body.subrange(24, 40)),
                                    generation: frame::array16(body.subrange(40, 56)),
                                },
                            ),
                        ),
                    )
                },
            }
        },
    }
}

pub fn read_binding(file: Option<&[u8]>) -> (r: Result<Option<([u8; 16], SharedDbId)>>)
    ensures
        ({
            let expected = binding_read(
                match file {
                    Some(found) => Some(found@),
                    None => None,
                },
            );
            match r {
                Err(e) => expected == Err::<Option<(Seq<u8>, SharedDbId)>, Error>(e),
                Ok(None) => expected == Ok::<Option<(Seq<u8>, SharedDbId)>, Error>(None),
                Ok(Some((owner, id))) => expected == Ok::<Option<(Seq<u8>, SharedDbId)>, Error>(
                    Some((owner@, id)),
                ),
            }
        }),
{
    let found = match file {
        Some(found) => found,
        None => return Ok(None),
    };
    if found.len() as u64 > MAX_REGISTRY_BYTES {
        return Err(frame::invalid("oversized member authority"));
    }
    let magic: [u8; 8] = [76u8, 83, 83, 68, 2, 0, 0, 0];
    assert(magic@ =~= binding_magic());
    let body = match frame::checked(found, &magic) {
        Ok(body) => body,
        Err(e) => return Err(e),
    };
    if body.len() != 56 {
        return Err(frame::invalid("binding size"));
    }
    let owner = bytes::array16_at(body, 8);
    let database = bytes::array16_at(body, 24);
    let generation = bytes::array16_at(body, 40);
    proof {
        frame::array16_is(database);
        frame::array16_is(generation);
    }
    Ok(Some((owner, SharedDbId { database, generation })))
}

/// A binding file is recognised by the log and identity that it was written for, and names them.
pub proof fn binding_round_trip(owner: Seq<u8>, id: SharedDbId)
    requires
        owner.len() == 16,
    ensures
        binding_verified(Some(frame::sealed(binding_body(owner, id))), owner, id) == Ok::<
            bool,
            Error,
        >(true),
        binding_read(Some(frame::sealed(binding_body(owner, id)))) == Ok::<
            Option<(Seq<u8>, SharedDbId)>,
            Error,
        >(Some((owner, id))),
{
    bytes::scalars_round_trip();
    let body = binding_body(owner, id);
    assert(body.take(8) =~= binding_magic());
    frame::sealed_authority_opens(body, binding_magic());
    assert(body.subrange(8, 24) =~= owner);
    assert(body.subrange(24, 40) =~= id.database@);
    assert(body.subrange(40, 56) =~= id.generation@);
    frame::array16_is(id.database);
    frame::array16_is(id.generation);
}

pub open spec fn registration_magic() -> Seq<u8> {
    seq![76u8, 83, 83, 82, 2, 0, 0, 0]
}

pub open spec fn registration_body(id: SharedDbId, path: Seq<u8>) -> Seq<u8> {
    registration_magic() + id.spec_bytes() + bytes::le32(path.len() as u32) + path
}

/// The file in the log's directory that registers a database under a path.
pub fn registration(id: SharedDbId, path: &[u8]) -> (file: Vec<u8>)
    requires
        path@.len() <= u32::MAX,
    ensures
        file@ == frame::sealed(registration_body(id, path@)),
{
    let mut file: Vec<u8> = vec![76u8, 83, 83, 82, 2, 0, 0, 0];
    assert(file@ =~= registration_magic());
    bytes::put_slice(&mut file, id.bytes().as_slice());
    bytes::put_u32(&mut file, path.len() as u32);
    bytes::put_slice(&mut file, path);
    frame::checksum(file)
}

/// What a registration file says, or nothing where the file is no registration.
pub open spec fn registration_read(file_name: Seq<u8>, file: Seq<u8>) -> Result<
    Option<(SharedDbId, Seq<u8>)>,
> {
    if file_name.len() < 7 || file_name.take(7) != member_prefix() {
        Ok(None)
    } else if file.len() > MAX_REGISTRY_BYTES {
        Err(frame::shared("oversized member authority"))
    } else {
        match frame::opened(file, registration_magic()) {
            Err(e) => Err(e),
            Ok(body) => if body.len() < 40 {
                Err(frame::shared("registration identity"))
            } else if body.len() < 44 {
                Err(frame::shared("truncated field"))
            } else {
                let id = SharedDbId {
                    database: frame::array16(body.subrange(8, 24)),
                    generation: frame::array16(body.subrange(24, 40)),
                };
                let path = body.skip(44);
                if path.len() != bytes::un32(body.subrange(40, 44)) || file_name != member_file(
                    id,
                ) {
                    Err(frame::shared("registration framing"))
                } else if !vstd::utf8::valid_utf8(path) {
                    Err(frame::shared("registration path encoding"))
                } else {
                    Ok(Some((id, path)))
                }
            },
        }
    }
}

pub fn read_registration(file_name: &[u8], file: &[u8]) -> (r: Result<
    Option<(SharedDbId, Vec<u8>)>,
>)
    ensures
        match r {
            Err(e) => registration_read(file_name@, file@) == Err::<
                Option<(SharedDbId, Seq<u8>)>,
                Error,
            >(e),
            Ok(None) => registration_read(file_name@, file@) == Ok::<
                Option<(SharedDbId, Seq<u8>)>,
                Error,
            >(None),
            Ok(Some((id, path))) => registration_read(file_name@, file@) == Ok::<
                Option<(SharedDbId, Seq<u8>)>,
                Error,
            >(Some((id, path@))),
        },
{
    let prefix: [u8; 7] = [77u8, 69, 77, 66, 69, 82, 45];
    assert(prefix@ =~= member_prefix());
    if !text::starts_with(file_name, prefix.as_slice()) {
        return Ok(None);
    }
    if file.len() as u64 > MAX_REGISTRY_BYTES {
        return Err(frame::invalid("oversized member authority"));
    }
    let magic: [u8; 8] = [76u8, 83, 83, 82, 2, 0, 0, 0];
    assert(magic@ =~= registration_magic());
    let body = match frame::checked(file, &magic) {
        Ok(body) => body,
        Err(e) => return Err(e),
    };
    if body.len() < 40 {
        return Err(frame::invalid("registration identity"));
    }
    if body.len() < 44 {
        return Err(frame::invalid("truncated field"));
    }
    let database = bytes::array16_at(body, 8);
    let generation = bytes::array16_at(body, 24);
    proof {
        frame::array16_is(database);
        frame::array16_is(generation);
    }
    let id = SharedDbId { database, generation };
    let length: u32 = bytes::u32_at(body, 40);
    let path = vstd::slice::slice_subrange(body, 44, body.len());
    assert(path@ =~= body@.skip(44));
    if path.len() != length as usize || !bytes::same_bytes(file_name, name(id).as_slice()) {
        return Err(frame::invalid("registration framing"));
    }
    if !text::is_utf8(path) {
        return Err(frame::invalid("registration path encoding"));
    }
    let mut copy: Vec<u8> = Vec::new();
    bytes::put_slice(&mut copy, path);
    assert(copy@ =~= path@);
    Ok(Some((id, copy)))
}

/// A registration is read back under its own file name.
pub proof fn registration_round_trip(id: SharedDbId, path: Seq<u8>)
    requires
        path.len() <= MAX_REGISTRY_BYTES - 48,
        vstd::utf8::valid_utf8(path),
    ensures
        registration_read(member_file(id), frame::sealed(registration_body(id, path))) == Ok::<
            Option<(SharedDbId, Seq<u8>)>,
            Error,
        >(Some((id, path))),
{
    bytes::scalars_round_trip();
    let body = registration_body(id, path);
    assert(body.take(8) =~= registration_magic());
    frame::sealed_authority_opens(body, registration_magic());
    assert(member_file(id).take(7) =~= member_prefix());
    assert(body.subrange(8, 24) =~= id.database@);
    assert(body.subrange(24, 40) =~= id.generation@);
    assert(body.subrange(40, 44) =~= bytes::le32(path.len() as u32));
    assert(body.skip(44) =~= path);
    frame::array16_is(id.database);
    frame::array16_is(id.generation);
}

pub open spec fn retirement_magic() -> Seq<u8> {
    seq![76u8, 83, 83, 88, 2, 0, 0, 0]
}

/// `RETIRED-`
pub open spec fn retired_prefix() -> Seq<u8> {
    seq![82u8, 69, 84, 73, 82, 69, 68, 45]
}

/// The file name of a retirement: `RETIRED-` and the registration's file name.
pub fn retirement_name(id: SharedDbId) -> (file: Vec<u8>)
    ensures
        file@ == retired_prefix() + member_file(id),
{
    let mut file: Vec<u8> = vec![82u8, 69, 84, 73, 82, 69, 68, 45];
    assert(file@ =~= retired_prefix());
    bytes::put_slice(&mut file, name(id).as_slice());
    file
}

pub open spec fn retirement_body(owner: Seq<u8>, id: SharedDbId, seq: u64) -> Seq<u8> {
    retirement_magic() + owner + id.spec_bytes() + bytes::le64(seq)
}

/// The file that retires an identity for good, with the last sequence it reached.
pub fn retirement(owner: &[u8; 16], id: SharedDbId, seq: u64) -> (file: Vec<u8>)
    ensures
        file@ == frame::sealed(retirement_body(owner@, id, seq)),
{
    let mut file: Vec<u8> = vec![76u8, 83, 83, 88, 2, 0, 0, 0];
    assert(file@ =~= retirement_magic());
    bytes::put_slice(&mut file, owner.as_slice());
    bytes::put_slice(&mut file, id.bytes().as_slice());
    bytes::put_u64(&mut file, seq);
    frame::checksum(file)
}

/// The sequence that an identity was retired at, if it was.
pub open spec fn retirement_read(
    file: Option<Seq<u8>>,
    owner: Seq<u8>,
    id: SharedDbId,
) -> Result<Option<u64>> {
    match file {
        None => Ok(None),
        Some(found) => if found.len() != 68 {
            Err(frame::shared("retirement authority length"))
        } else {
            match frame::opened(found, retirement_magic()) {
                Err(e) => Err(e),
                Ok(body) => if body.subrange(8, 24) != owner || body.subrange(24, 56)
                    != id.spec_bytes() {
                    Err(frame::shared("retirement authority identity"))
                } else {
                    Ok(Some(bytes::un64(body.subrange(56, 64))))
                },
            }
        },
    }
}

pub fn read_retirement(file: Option<&[u8]>, owner: &[u8; 16], id: SharedDbId) -> (r: Result<
    Option<u64>,
>)
    ensures
        r == retirement_read(
            match file {
                Some(found) => Some(found@),
                None => None,
            },
            owner@,
            id,
        ),
{
    let found = match file {
        Some(found) => found,
        None => return Ok(None),
    };
    if found.len() != 68 {
        return Err(frame::invalid("retirement authority length"));
    }
    let magic: [u8; 8] = [76u8, 83, 83, 88, 2, 0, 0, 0];
    assert(magic@ =~= retirement_magic());
    let body = match frame::checked(found, &magic) {
        Ok(body) => body,
        Err(e) => return Err(e),
    };
    if !bytes::same_bytes(vstd::slice::slice_subrange(body, 8, 24), owner.as_slice())
        || !bytes::same_bytes(
        vstd::slice::slice_subrange(body, 24, 56),
        id.bytes().as_slice(),
    ) {
        return Err(frame::invalid("retirement authority identity"));
    }
    Ok(Some(bytes::u64_at(body, 56)))
}

/// A retirement is read back for the log and identity that it was written for.
pub proof fn retirement_round_trip(owner: Seq<u8>, id: SharedDbId, seq: u64)
    requires
        owner.len() == 16,
    ensures
        retirement_read(Some(frame::sealed(retirement_body(owner, id, seq))), owner, id) == Ok::<
            Option<u64>,
            Error,
        >(Some(seq)),
{
    bytes::scalars_round_trip();
    let body = retirement_body(owner, id, seq);
    assert(body.take(8) =~= retirement_magic());
    frame::sealed_authority_opens(body, retirement_magic());
    assert(body.subrange(8, 24) =~= owner);
    assert(body.subrange(24, 56) =~= id.spec_bytes());
    assert(body.subrange(56, 64) =~= bytes::le64(seq));
}

} // verus!
