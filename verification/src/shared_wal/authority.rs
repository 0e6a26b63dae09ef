//! Only what was written is accepted: no file and no frame that differs in a byte from the one that
//! is written for what it says.
use vstd::prelude::*;

use super::boundary::{self, Boundary};
use super::export;
use super::frame::{self, FrameView};
use super::owner;
use super::registry;
use super::types::SharedDbId;
use crate::bytes;
use crate::checksum;
use crate::error::{Error, Result};

verus! {

/// A file opens exactly if it starts with the magic and ends with the checksum of the rest, which
/// is what it holds.
pub proof fn opened_files_are_sealed(source: Seq<u8>, magic: Seq<u8>, r: Result<Seq<u8>>)
    requires
        r == frame::opened(source, magic),
    ensures
        r matches Ok(body) ==> source == body + bytes::le32(checksum::crc32(body)) && source.len()
            >= 8 && source.take(8) == magic,
        r is Err ==> source.len() < 8 || source.take(8) != magic || bytes::un32(
            source.skip(source.len() - 4),
        ) != checksum::crc32(source.take(source.len() - 4)),
{
    bytes::scalars_round_trip();
    let end = source.len() - 4;
    if r is Ok {
        let body = source.take(end);
        let sum = source.subrange(end, end + 4);
        assert(bytes::le32(bytes::un32(sum)) == sum);
        assert(source =~= body + sum);
    }
    if end >= 0 {
        assert(source.skip(end) =~= source.subrange(end, end + 4));
    }
}

/// An identity is read only from the file that is written for it.
pub proof fn only_written_owners_are_read(file: Seq<u8>, identity: Seq<u8>)
    requires
        owner::owner_read(file) == Ok::<Seq<u8>, Error>(identity),
    ensures
        identity.len() == 16,
        file == owner::owner_file(identity),
{
    opened_files_are_sealed(file, owner::owner_magic(), frame::opened(file, owner::owner_magic()));
    let body = frame::opened(file, owner::owner_magic())->Ok_0;
    assert(body.take(8) =~= file.take(8));
    assert(body =~= owner::owner_magic() + body.subrange(8, 24));
}

/// A segment is accepted only with the header that is written for its log, its number and its first
/// position.
pub proof fn only_written_segments_are_accepted(
    source: Seq<u8>,
    owner: Seq<u8>,
    segment: u64,
    first: u64,
)
    requires
        frame::segment_first(source, owner, segment) == Ok::<u64, Error>(first),
    ensures
        first > 0,
        source == frame::sealed(frame::segment_header_body(owner, segment, first)),
{
    bytes::scalars_round_trip();
    opened_files_are_sealed(
        source,
        frame::segment_magic(),
        frame::opened(source, frame::segment_magic()),
    );
    let body = frame::opened(source, frame::segment_magic())->Ok_0;
    assert(body.len() == 60);
    assert(body.take(8) =~= source.take(8));
    let number = body.subrange(24, 32);
    let start = body.subrange(32, 40);
    let rest = body.subrange(40, 60);
    assert(bytes::le64(bytes::un64(number)) == number);
    assert(bytes::le64(bytes::un64(start)) == start);
    assert(rest =~= Seq::new(20, |i: int| 0u8));
    assert(body =~= frame::segment_magic() + owner + number + start + rest);
}

/// A boundary is accepted only from the file that is written for it, its log, its segment and the
/// content of the segment; it ends at nothing or behind the header, and not behind the content.
pub proof fn only_written_boundaries_are_accepted(
    file: Seq<u8>,
    owner: Seq<u8>,
    segment: u64,
    content: Seq<u8>,
    found: Boundary,
)
    requires
        boundary::boundary_of(file, owner, segment, content) == Ok::<Boundary, Error>(found),
    ensures
        file == frame::sealed(boundary::boundary_body(owner, segment, content, found)),
        found.end <= content.len(),
        found.end == 0 || found.end >= 64,
        found.next > 0,
{
    bytes::scalars_round_trip();
    opened_files_are_sealed(
        file,
        boundary::boundary_magic(),
        frame::opened(file, boundary::boundary_magic()),
    );
    let body = frame::opened(file, boundary::boundary_magic())->Ok_0;
    assert(body.len() == 60);
    assert(body.take(8) =~= file.take(8));
    let number = body.subrange(24, 32);
    let length = body.subrange(32, 40);
    let sum = body.subrange(40, 44);
    let end = body.subrange(44, 52);
    let next = body.subrange(52, 60);
    assert(bytes::le64(bytes::un64(number)) == number);
    assert(bytes::le64(bytes::un64(length)) == length);
    assert(bytes::le32(bytes::un32(sum)) == sum);
    assert(bytes::le64(bytes::un64(end)) == end);
    assert(bytes::le64(bytes::un64(next)) == next);
    assert(body =~= boundary::boundary_magic() + owner + number + length + sum + end + next);
}

/// A retirement is accepted only from the file that is written for its log, its identity and its
/// last sequence; without a file nothing is retired.
pub proof fn only_written_retirements_are_accepted(
    file: Option<Seq<u8>>,
    owner: Seq<u8>,
    id: SharedDbId,
    r: Result<Option<u64>>,
)
    requires
        r == registry::retirement_read(file, owner, id),
    ensures
        r == Ok::<Option<u64>, Error>(None) <==> file is None,
        r matches Ok(Some(seq)) ==> file == Some(
            frame::sealed(registry::retirement_body(owner, id, seq)),
        ),
{
    bytes::scalars_round_trip();
    if r matches Ok(Some(_)) {
        let found = file->Some_0;
        opened_files_are_sealed(
            found,
            registry::retirement_magic(),
            frame::opened(found, registry::retirement_magic()),
        );
        let body = frame::opened(found, registry::retirement_magic())->Ok_0;
        assert(body.len() == 64);
        assert(body.take(8) =~= found.take(8));
        let last = body.subrange(56, 64);
        assert(bytes::le64(bytes::un64(last)) == last);
        assert(body =~= registry::retirement_magic() + owner + id.spec_bytes() + last);
    }
}

/// A registration is accepted only from the file that is written for its identity and path, under
/// the name of that identity. A file with another kind of name is no registration.
pub proof fn only_written_registrations_are_accepted(
    file_name: Seq<u8>,
    file: Seq<u8>,
    id: SharedDbId,
    r: Result<Option<(SharedDbId, Seq<u8>)>>,
)
    requires
        r == registry::registration_read(file_name, file),
        file.len() >= 48 ==> id.spec_bytes() == file.subrange(8, 40),
    ensures
        r == Ok::<Option<(SharedDbId, Seq<u8>)>, Error>(None) <==> !(file_name.len() >= 7
            && file_name.take(7) == registry::member_prefix()),
        r matches Ok(Some((found, path))) ==> found == id && file_name == registry::member_file(id)
            && vstd::utf8::valid_utf8(path) && file == frame::sealed(
            registry::registration_body(id, path),
        ) && file.len() <= 8192,
{
    bytes::scalars_round_trip();
    if r matches Ok(Some(_)) {
        opened_files_are_sealed(
            file,
            registry::registration_magic(),
            frame::opened(file, registry::registration_magic()),
        );
        let body = frame::opened(file, registry::registration_magic())->Ok_0;
        assert(body.len() >= 44);
        assert(body.take(8) =~= file.take(8));
        assert(body.subrange(8, 24) =~= id.database@) by {
            assert(id.database@ =~= id.spec_bytes().take(16));
        }
        assert(body.subrange(24, 40) =~= id.generation@) by {
            assert(id.generation@ =~= id.spec_bytes().skip(16));
        }
        frame::array16_is(id.database);
        frame::array16_is(id.generation);
        let length = body.subrange(40, 44);
        let path = body.skip(44);
        assert(bytes::le32(bytes::un32(length)) == length);
        assert(body =~= registry::registration_magic() + id.spec_bytes() + length + path);
    }
}

/// A binding is read only from the file that is written for its log and its identity.
pub proof fn only_written_bindings_are_read(
    file: Seq<u8>,
    id: SharedDbId,
    r: Result<Option<(Seq<u8>, SharedDbId)>>,
)
    requires
        r == registry::binding_read(Some(file)),
        file.len() >= 60 ==> id.spec_bytes() == file.subrange(24, 56),
    ensures
        r matches Ok(found) ==> (found matches Some((owner, named)) && named == id && owner.len()
            == 16 && file == frame::sealed(registry::binding_body(owner, id))),
{
    if r is Ok {
        opened_files_are_sealed(
            file,
            registry::binding_magic(),
            frame::opened(file, registry::binding_magic()),
        );
        bytes::scalars_round_trip();
        let body = frame::opened(file, registry::binding_magic())->Ok_0;
        assert(body.len() == 56);
        assert(body.take(8) =~= file.take(8));
        assert(body.subrange(24, 40) =~= id.database@) by {
            assert(id.database@ =~= id.spec_bytes().take(16));
        }
        assert(body.subrange(40, 56) =~= id.generation@) by {
            assert(id.generation@ =~= id.spec_bytes().skip(16));
        }
        frame::array16_is(id.database);
        frame::array16_is(id.generation);
        assert(body =~= registry::binding_magic() + body.subrange(8, 24) + id.spec_bytes());
    }
}

/// A frame is accepted only if it is, byte for byte, the one that is written for what it says, if
/// its record says the same sequence, and if its record is neither too short nor too long.
pub proof fn only_written_frames_are_accepted(
    source: Seq<u8>,
    inner: Result<u64>,
    id: SharedDbId,
    found: FrameView,
)
    requires
        frame::inspected(source, inner) == Ok::<FrameView, Error>(found),
        source.len() >= 48 ==> id.spec_bytes() == source.subrange(16, 48),
    ensures
        found.id == id,
        found.seq > 0,
        inner == Ok::<u64, Error>(found.seq),
        17 <= found.raw.len() <= 65_552,
        source == frame::frame_bytes(found),
{
    bytes::scalars_round_trip();
    assert(source.len() >= 97);
    assert(source.subrange(16, 32) =~= id.database@) by {
        assert(id.database@ =~= id.spec_bytes().take(16));
    }
    assert(source.subrange(32, 48) =~= id.generation@) by {
        assert(id.generation@ =~= id.spec_bytes().skip(16));
    }
    frame::array16_is(id.database);
    frame::array16_is(id.generation);
    let length = source.take(4);
    let sum = source.subrange(4, 8);
    let lsn = source.subrange(8, 16);
    let seq = source.subrange(48, 56);
    let segment = source.subrange(56, 64);
    let offset = source.subrange(64, 72);
    let inside = source.subrange(72, 76);
    let zeros = source.subrange(76, 80);
    assert(bytes::le32(bytes::un32(length)) == length);
    assert(bytes::le32(bytes::un32(sum)) == sum);
    assert(bytes::le64(bytes::un64(lsn)) == lsn);
    assert(bytes::le64(bytes::un64(seq)) == seq);
    assert(bytes::le64(bytes::un64(segment)) == segment);
    assert(bytes::le64(bytes::un64(offset)) == offset);
    assert(bytes::le32(bytes::un32(inside)) == inside);
    let body = frame::frame_body(found);
    assert(body =~= lsn + id.spec_bytes() + seq + segment + offset + inside + zeros + source.skip(
        80,
    ));
    assert(source.skip(8) =~= body);
    assert(source =~= length + sum + body);
}

/// An archive authority is accepted only from the file that is written for its budget and its two
/// boundaries.
pub proof fn only_written_archives_are_accepted(
    file: Seq<u8>,
    width: int,
    max_bytes: u64,
    initial: Seq<u8>,
    released: Seq<u8>,
)
    requires
        0 <= width,
        export::authority_read(file, width) == Ok::<(u64, Seq<u8>, Seq<u8>), Error>(
            (max_bytes, initial, released),
        ),
    ensures
        initial.len() == width,
        released.len() == width,
        file == export::authority_file(max_bytes, initial, released),
{
    bytes::scalars_round_trip();
    let end = 16 + width * 2;
    let budget = file.subrange(8, 16);
    assert(bytes::le64(bytes::un64(budget)) == budget);
    let body = export::authority_body(max_bytes, initial, released);
    assert(file.take(end) =~= body) by {
        assert(file.take(end) =~= file.take(8) + budget + initial + released);
    }
    assert(file =~= file.take(end) + file.skip(end));
}

} // verus!
