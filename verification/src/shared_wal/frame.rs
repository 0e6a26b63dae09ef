//! Byte layouts of segments, frames and authority files.
use vstd::prelude::*;

use super::types::SharedDbId;
use crate::bytes;
use crate::checksum;
use crate::error::{self, Error, Result};
use crate::names;

verus! {

pub const SEGMENT_HEADER: usize = 64;

pub const FRAME_HEADER: usize = 80;

pub const MAX_FRAME: usize = 65_632;

/// Where a frame starts: the segment and the offset in it. Zero in both means nowhere.
#[derive(Clone, Copy, Debug, Default, PartialEq, Eq, PartialOrd, Ord, Structural)]
pub struct Pointer {
    pub segment: u64,
    pub offset: u64,
}

impl Pointer {
    pub open spec fn spec_none() -> Pointer {
        Pointer { segment: 0, offset: 0 }
    }

    pub open spec fn spec_before(self, other: Pointer) -> bool {
        self.segment < other.segment || (self.segment == other.segment && self.offset
            < other.offset)
    }

    pub fn none() -> (pointer: Pointer)
        ensures
            pointer == Pointer::spec_none(),
    {
        Pointer { segment: 0, offset: 0 }
    }

    pub fn before(self, other: Pointer) -> (before: bool)
        ensures
            before == self.spec_before(other),
    {
        self.segment < other.segment || (self.segment == other.segment && self.offset
            < other.offset)
    }
}

/// One record of one database as it lies in a segment.
#[derive(Clone, Copy)]
pub struct Frame<'a> {
    pub id: SharedDbId,
    pub lsn: u64,
    pub seq: u64,
    pub previous: Pointer,
    pub raw: &'a [u8],
}

/// What a frame holds.
pub struct FrameView {
    pub id: SharedDbId,
    pub lsn: u64,
    pub seq: u64,
    pub previous: Pointer,
    pub raw: Seq<u8>,
}

impl View for Frame<'_> {
    type V = FrameView;

    open spec fn view(&self) -> FrameView {
        FrameView {
            id: self.id,
            lsn: self.lsn,
            seq: self.seq,
            previous: self.previous,
            raw: self.raw@,
        }
    }
}

pub open spec fn shared(reason: &'static str) -> Error {
    error::corruption("shared WAL", reason)
}

pub fn invalid(reason: &'static str) -> (e: Error)
    ensures
        e == shared(reason),
{
    Error::corruption("shared WAL", reason)
}

pub open spec fn sum(left: u64, right: u64) -> Result<u64> {
    if left + right <= u64::MAX {
        Ok((left + right) as u64)
    } else {
        Err(shared("position overflow"))
    }
}

pub fn add(left: u64, right: u64) -> (r: Result<u64>)
    ensures
        r == sum(left, right),
{
    if left <= u64::MAX - right {
        Ok(left + right)
    } else {
        Err(invalid("position overflow"))
    }
}

pub open spec fn scalar_at(source: Seq<u8>, start: int) -> Result<u64> {
    if start + 8 <= source.len() {
        Ok(bytes::un64(source.subrange(start, start + 8)))
    } else {
        Err(shared("truncated field"))
    }
}

pub fn u64_at(source: &[u8], start: usize) -> (r: Result<u64>)
    requires
        start + 8 <= usize::MAX,
    ensures
        r == scalar_at(source@, start as int),
{
    if start + 8 > source.len() {
        return Err(invalid("truncated field"));
    }
    Ok(bytes::u64_at(source, start))
}

/// A body with its checksum behind it.
pub open spec fn sealed(body: Seq<u8>) -> Seq<u8> {
    body + bytes::le32(checksum::crc32(body))
}

pub fn checksum(body: Vec<u8>) -> (result: Vec<u8>)
    ensures
        result@ == sealed(body@),
{
    let crc: u32 = checksum::crc32_of(body.as_slice());
    let mut result = body;
    bytes::put_u32(&mut result, crc);
    result
}

/// What an authority file holds in front of its checksum, where magic and checksum agree.
pub open spec fn opened(source: Seq<u8>, magic: Seq<u8>) -> Result<Seq<u8>> {
    let end = source.len() - 4;
    if end < 0 {
        Err(shared("truncated authority"))
    } else if source.len() < 8 || source.take(8) != magic || bytes::un32(
        source.subrange(end, end + 4),
    ) != checksum::crc32(source.take(end)) {
        Err(shared("authority version or checksum"))
    } else {
        Ok(source.take(end))
    }
}

pub fn checked<'a>(source: &'a [u8], magic: &[u8; 8]) -> (r: Result<&'a [u8]>)
    ensures
        match r {
            Ok(body) => opened(source@, magic@) == Ok::<Seq<u8>, Error>(body@),
            Err(e) => opened(source@, magic@) == Err::<Seq<u8>, Error>(e),
        },
{
    if source.len() < 4 {
        return Err(invalid("truncated authority"));
    }
    let end: usize = source.len() - 4;
    if source.len() < 8 || !bytes::same_bytes(
        vstd::slice::slice_subrange(source, 0, 8),
        magic.as_slice(),
    ) {
        assert(source@.len() >= 8 ==> source@.subrange(0, 8) =~= source@.take(8));
        return Err(invalid("authority version or checksum"));
    }
    assert(source@.subrange(0, 8) =~= source@.take(8));
    let body = vstd::slice::slice_subrange(source, 0, end);
    assert(body@ =~= source@.take(end as int));
    if bytes::u32_at(source, end) != checksum::crc32_of(body) {
        return Err(invalid("authority version or checksum"));
    }
    Ok(body)
}

/// An authority file that was sealed opens to its body.
pub proof fn sealed_authority_opens(body: Seq<u8>, magic: Seq<u8>)
    requires
        magic.len() == 8,
        body.len() >= 8,
        body.take(8) == magic,
    ensures
        opened(sealed(body), magic) == Ok::<Seq<u8>, Error>(body),
{
    bytes::scalars_round_trip();
    let file = sealed(body);
    let end = body.len() as int;
    assert(file.len() == end + 4);
    assert(file.take(8) =~= body.take(8));
    assert(file.take(end) =~= body);
    assert(file.subrange(end, end + 4) =~= bytes::le32(checksum::crc32(body)));
}

pub open spec fn segment_magic() -> Seq<u8> {
    seq![76u8, 83, 83, 87, 2, 0, 0, 0]
}

/// The header of a segment in front of its checksum.
pub open spec fn segment_header_body(owner: Seq<u8>, segment: u64, first: u64) -> Seq<u8> {
    segment_magic() + owner + bytes::le64(segment) + bytes::le64(first) + Seq::new(
        20,
        |i: int| 0u8,
    )
}

pub fn segment_header(owner: &[u8; 16], segment: u64, first: u64) -> (header: Vec<u8>)
    ensures
        header@ == sealed(segment_header_body(owner@, segment, first)),
        header@.len() == SEGMENT_HEADER,
{
    let mut header: Vec<u8> = vec![76u8, 83, 83, 87, 2, 0, 0, 0];
    assert(header@ =~= segment_magic());
    bytes::put_slice(&mut header, owner.as_slice());
    bytes::put_u64(&mut header, segment);
    bytes::put_u64(&mut header, first);
    proof {
        bytes::scalars_round_trip();
    }
    let ghost prefix = header@;
    let mut index: usize = 0;
    while index < 20
        invariant
            index <= 20,
            header@ == prefix + Seq::new(index as nat, |i: int| 0u8),
        decreases 20 - index,
    {
        header.push(0);
        index += 1;
        assert(header@ =~= prefix + Seq::new(index as nat, |i: int| 0u8));
    }
    assert(header@ =~= segment_header_body(owner@, segment, first));
    checksum(header)
}

/// The first sequence number that a segment header announces.
pub open spec fn segment_first(source: Seq<u8>, owner: Seq<u8>, segment: u64) -> Result<u64> {
    match opened(source, segment_magic()) {
        Err(e) => Err(e),
        Ok(body) => if source.len() != SEGMENT_HEADER || body.subrange(8, 24) != owner
            || bytes::un64(body.subrange(24, 32)) != segment || !(forall|k: int|
            0 <= k < 20 ==> #[trigger] body.subrange(40, 60)[k] == 0) {
            Err(shared("segment identity or reserved fields"))
        } else if bytes::un64(body.subrange(32, 40)) == 0 {
            Err(shared("zero initial LSN"))
        } else {
            Ok(bytes::un64(body.subrange(32, 40)))
        },
    }
}

pub fn inspect_segment(source: &[u8], owner: &[u8; 16], segment: u64) -> (r: Result<u64>)
    ensures
        r == segment_first(source@, owner@, segment),
{
    let magic: [u8; 8] = [76u8, 83, 83, 87, 2, 0, 0, 0];
    assert(magic@ =~= segment_magic());
    let body = match checked(source, &magic) {
        Ok(body) => body,
        Err(e) => return Err(e),
    };
    if source.len() != SEGMENT_HEADER {
        return Err(invalid("segment identity or reserved fields"));
    }
    if !bytes::same_bytes(vstd::slice::slice_subrange(body, 8, 24), owner.as_slice())
        || bytes::u64_at(body, 24) != segment || !bytes::all_zero(
        vstd::slice::slice_subrange(body, 40, 60),
    ) {
        return Err(invalid("segment identity or reserved fields"));
    }
    let first: u64 = bytes::u64_at(body, 32);
    if first == 0 {
        return Err(invalid("zero initial LSN"));
    }
    Ok(first)
}

/// A written segment header is accepted for its owner and number and announces its first
/// sequence number.
pub proof fn segment_header_round_trip(owner: Seq<u8>, segment: u64, first: u64)
    requires
        owner.len() == 16,
        first != 0,
    ensures
        segment_first(sealed(segment_header_body(owner, segment, first)), owner, segment) == Ok::<
            u64,
            Error,
        >(first),
{
    bytes::scalars_round_trip();
    let body = segment_header_body(owner, segment, first);
    assert(body.take(8) =~= segment_magic());
    sealed_authority_opens(body, segment_magic());
    assert(body.subrange(8, 24) =~= owner);
    assert(body.subrange(24, 32) =~= bytes::le64(segment));
    assert(body.subrange(32, 40) =~= bytes::le64(first));
    assert(body.subrange(40, 60) =~= Seq::new(20, |i: int| 0u8));
}

/// `.swal`
pub open spec fn segment_suffix() -> Seq<u8> {
    seq![46u8, 115, 119, 97, 108]
}

pub open spec fn segment_file(segment: u64) -> Seq<u8> {
    names::decimal(segment as nat, 20) + segment_suffix()
}

/// The file name of a segment: twenty digits and `.swal`.
pub fn segment_name(segment: u64) -> (name: Vec<u8>)
    ensures
        name@ == segment_file(segment),
{
    let mut name: Vec<u8> = Vec::new();
    names::put_decimal(&mut name, segment, 20);
    let suffix: [u8; 5] = [46u8, 115, 119, 97, 108];
    assert(suffix@ =~= segment_suffix());
    bytes::put_slice(&mut name, suffix.as_slice());
    assert(name@ =~= segment_file(segment));
    name
}

pub open spec fn segment_number(name: Seq<u8>) -> Result<u64> {
    let stem = name.len() - 5;
    if stem < 0 || name.skip(stem) != segment_suffix() {
        Err(shared("segment filename"))
    } else {
        match names::parsed(name.take(stem)) {
            None => Err(shared("segment filename")),
            Some(value) => if value == 0 {
                Err(shared("segment filename"))
            } else if segment_file(value) != name {
                Err(shared("noncanonical segment filename"))
            } else {
                Ok(value)
            },
        }
    }
}

pub fn parse_segment(name: &[u8]) -> (r: Result<u64>)
    ensures
        r == segment_number(name@),
{
    if name.len() < 5 {
        return Err(invalid("segment filename"));
    }
    let stem: usize = name.len() - 5;
    let suffix: [u8; 5] = [46u8, 115, 119, 97, 108];
    assert(suffix@ =~= segment_suffix());
    let tail = vstd::slice::slice_subrange(name, stem, name.len());
    assert(tail@ =~= name@.skip(stem as int));
    if !bytes::same_bytes(tail, suffix.as_slice()) {
        return Err(invalid("segment filename"));
    }
    let digits = vstd::slice::slice_subrange(name, 0, stem);
    assert(digits@ =~= name@.take(stem as int));
    match names::parse_u64(digits) {
        None => Err(invalid("segment filename")),
        Some(value) => {
            if value == 0 {
                return Err(invalid("segment filename"));
            }
            if !bytes::same_bytes(segment_name(value).as_slice(), name) {
                return Err(invalid("noncanonical segment filename"));
            }
            Ok(value)
        },
    }
}

/// A segment number is read back from its file name, and from no other name.
pub proof fn segment_name_round_trip(segment: u64, name: Seq<u8>)
    requires
        segment != 0,
    ensures
        segment_number(segment_file(segment)) == Ok::<u64, Error>(segment),
        segment_number(name) == Ok::<u64, Error>(segment) ==> name == segment_file(segment),
{
    let file = segment_file(segment);
    names::twenty_digits_suffice();
    names::decimal_denotes(segment as nat, 20);
    assert(file.skip(20) =~= segment_suffix());
    assert(file.take(20) =~= names::decimal(segment as nat, 20));
    let digits = names::decimal(segment as nat, 20);
    assert(48 <= digits[0] <= 57);
    assert(names::unsigned_digits(digits) == digits);
}

/// A frame behind its length and checksum.
pub open spec fn frame_body(frame: FrameView) -> Seq<u8> {
    bytes::le64(frame.lsn) + frame.id.spec_bytes() + bytes::le64(frame.seq) + bytes::le64(
        frame.previous.segment,
    ) + bytes::le64(frame.previous.offset) + bytes::le32(frame.raw.len() as u32) + seq![
        0u8,
        0,
        0,
        0,
    ] + frame.raw
}

pub open spec fn frame_bytes(frame: FrameView) -> Seq<u8> {
    bytes::le32((FRAME_HEADER + frame.raw.len()) as u32) + bytes::le32(
        checksum::crc32(frame_body(frame)),
    ) + frame_body(frame)
}

/// Writes a frame. It fails on a record whose frame length does not fit 32 bits.
pub fn encode(id: SharedDbId, lsn: u64, seq: u64, previous: Pointer, raw: &[u8]) -> (r: Result<
    Vec<u8>,
>)
    ensures
        match r {
            Ok(frame) => FRAME_HEADER + raw@.len() <= u32::MAX && frame@ == frame_bytes(
                FrameView { id, lsn, seq, previous, raw: raw@ },
            ) && frame@.len() == FRAME_HEADER + raw@.len(),
            Err(e) => FRAME_HEADER + raw@.len() > u32::MAX && e == shared("frame overflow"),
        },
{
    let raw_length: usize = raw.len();
    if raw_length > 4_294_967_215 {
        return Err(invalid("frame overflow"));
    }
    let ghost view = FrameView { id, lsn, seq, previous, raw: raw@ };
    let mut body: Vec<u8> = Vec::new();
    bytes::put_u64(&mut body, lsn);
    bytes::put_slice(&mut body, id.bytes().as_slice());
    bytes::put_u64(&mut body, seq);
    bytes::put_u64(&mut body, previous.segment);
    bytes::put_u64(&mut body, previous.offset);
    bytes::put_u32(&mut body, raw_length as u32);
    let reserved: [u8; 4] = [0u8, 0, 0, 0];
    assert(reserved@ =~= seq![0u8, 0, 0, 0]);
    bytes::put_slice(&mut body, reserved.as_slice());
    bytes::put_slice(&mut body, raw);
    assert(body@ =~= frame_body(view));
    let crc: u32 = checksum::crc32_of(body.as_slice());
    let mut frame: Vec<u8> = Vec::new();
    bytes::put_u32(&mut frame, raw_length as u32 + 80);
    bytes::put_u32(&mut frame, crc);
    bytes::put_slice(&mut frame, body.as_slice());
    assert(frame@ =~= frame_bytes(view));
    proof {
        bytes::scalars_round_trip();
    }
    Ok(frame)
}

pub open spec fn frame_length(prefix: Seq<u8>) -> Result<usize> {
    if prefix.len() < 4 {
        Err(shared("truncated field"))
    } else {
        let length = bytes::un32(prefix.take(4));
        if FRAME_HEADER + 17 <= length <= MAX_FRAME {
            Ok(length as usize)
        } else {
            Err(shared("frame length"))
        }
    }
}

/// The length that a frame announces in its first four bytes.
pub fn frame_len(prefix: &[u8]) -> (r: Result<usize>)
    ensures
        r == frame_length(prefix@),
{
    if prefix.len() < 4 {
        return Err(invalid("truncated field"));
    }
    let length: u32 = bytes::u32_at(prefix, 0);
    assert(prefix@.subrange(0, 4) =~= prefix@.take(4));
    if (length as usize) < FRAME_HEADER + 17 || length as usize > MAX_FRAME {
        return Err(invalid("frame length"));
    }
    Ok(length as usize)
}

/// Whether a frame's length, checksum, reserved bytes and inner length agree.
pub open spec fn framed(source: Seq<u8>) -> Result<()> {
    match frame_length(source) {
        Err(e) => Err(e),
        Ok(length) => if length != source.len() || bytes::un32(source.subrange(4, 8))
            != checksum::crc32(source.skip(8)) || source.subrange(76, 80) != seq![0u8, 0, 0, 0] {
            Err(shared("frame checksum or framing"))
        } else if bytes::un32(source.subrange(72, 76)) != source.len() - FRAME_HEADER {
            Err(shared("inner frame length"))
        } else {
            Ok(())
        },
    }
}

/// What a frame holds, where the record inside it carries the sequence `inner`.
pub open spec fn inspected(source: Seq<u8>, inner: Result<u64>) -> Result<FrameView> {
    match framed(source) {
        Err(e) => Err(e),
        Ok(_) => {
            let seq = bytes::un64(source.subrange(48, 56));
            if seq == 0 {
                Err(shared("inner sequence"))
            } else {
                match inner {
                    Err(e) => Err(e),
                    Ok(found) => if found != seq {
                        Err(shared("inner sequence"))
                    } else {
                        Ok(
                            FrameView {
                                id: SharedDbId {
                                    database: array16(source.subrange(16, 32)),
                                    generation: array16(source.subrange(32, 48)),
                                },
                                lsn: bytes::un64(source.subrange(8, 16)),
                                seq,
                                previous: Pointer {
                                    segment: bytes::un64(source.subrange(56, 64)),
                                    offset: bytes::un64(source.subrange(64, 72)),
                                },
                                raw: source.skip(FRAME_HEADER as int),
                            },
                        )
                    },
                }
            }
        },
    }
}

/// The array of sixteen given bytes.
pub open spec fn array16(source: Seq<u8>) -> [u8; 16] {
    choose|a: [u8; 16]| a@ == source
}

pub(crate) proof fn array16_is(a: [u8; 16])
    ensures
        array16(a@) == a,
{
    let b = array16(a@);
    assert(b@ == a@);
    assert(a =~= b);
}

/// The record inside a frame that is framed correctly.
pub fn raw_record(source: &[u8]) -> (r: Result<&[u8]>)
    ensures
        match r {
            Ok(raw) => framed(source@) is Ok && raw@ == source@.skip(FRAME_HEADER as int),
            Err(e) => framed(source@) == Err::<(), Error>(e),
        },
{
    let length: usize = match frame_len(source) {
        Ok(length) => length,
        Err(e) => return Err(e),
    };
    if length != source.len() {
        return Err(invalid("frame checksum or framing"));
    }
    let body = vstd::slice::slice_subrange(source, 8, source.len());
    assert(body@ =~= source@.skip(8));
    let reserved: [u8; 4] = [0u8, 0, 0, 0];
    assert(reserved@ =~= seq![0u8, 0, 0, 0]);
    if bytes::u32_at(source, 4) != checksum::crc32_of(body) || !bytes::same_bytes(
        vstd::slice::slice_subrange(source, 76, 80),
        reserved.as_slice(),
    ) {
        return Err(invalid("frame checksum or framing"));
    }
    if bytes::u32_at(source, 72) as usize != source.len() - FRAME_HEADER {
        return Err(invalid("inner frame length"));
    }
    let raw = vstd::slice::slice_subrange(source, FRAME_HEADER, source.len());
    assert(raw@ =~= source@.skip(FRAME_HEADER as int));
    Ok(raw)
}

/// Reads a frame. `inner` is the sequence that the record inside it carries, as its codec reads
/// it.
pub fn inspect<'a>(source: &'a [u8], inner: Result<u64>) -> (r: Result<Frame<'a>>)
    ensures
        match r {
            Ok(frame) => inspected(source@, inner) == Ok::<FrameView, Error>(frame@),
            Err(e) => inspected(source@, inner) == Err::<FrameView, Error>(e),
        },
{
    let raw = match raw_record(source) {
        Ok(raw) => raw,
        Err(e) => return Err(e),
    };
    let seq: u64 = bytes::u64_at(source, 48);
    if seq == 0 {
        return Err(invalid("inner sequence"));
    }
    let found: u64 = match inner {
        Ok(found) => found,
        Err(e) => return Err(e),
    };
    if found != seq {
        return Err(invalid("inner sequence"));
    }
    let database = bytes::array16_at(source, 16);
    let generation = bytes::array16_at(source, 32);
    proof {
        array16_is(database);
        array16_is(generation);
    }
    Ok(
        Frame {
            id: SharedDbId { database, generation },
            lsn: bytes::u64_at(source, 8),
            seq,
            previous: Pointer {
                segment: bytes::u64_at(source, 56),
                offset: bytes::u64_at(source, 64),
            },
            raw,
        },
    )
}

/// A frame that was written reads back as it was, where the record in it has its sequence.
pub proof fn frame_round_trip(frame: FrameView)
    requires
        frame.seq != 0,
        17 <= frame.raw.len() <= MAX_FRAME - FRAME_HEADER,
    ensures
        frame_bytes(frame).len() == FRAME_HEADER + frame.raw.len(),
        frame_length(frame_bytes(frame)) == Ok::<usize, Error>(
            (FRAME_HEADER + frame.raw.len()) as usize,
        ),
        bytes::un32(frame_bytes(frame).subrange(4, 8)) == checksum::crc32(
            frame_bytes(frame).skip(8),
        ),
        inspected(frame_bytes(frame), Ok(frame.seq)) == Ok::<FrameView, Error>(frame),
{
    bytes::scalars_round_trip();
    let source = frame_bytes(frame);
    let body = frame_body(frame);
    assert(source.take(4) =~= bytes::le32((FRAME_HEADER + frame.raw.len()) as u32));
    assert(source.subrange(4, 8) =~= bytes::le32(checksum::crc32(body)));
    assert(source.skip(8) =~= body);
    assert(source.subrange(8, 16) =~= bytes::le64(frame.lsn));
    assert(source.subrange(16, 32) =~= frame.id.database@);
    assert(source.subrange(32, 48) =~= frame.id.generation@);
    assert(source.subrange(48, 56) =~= bytes::le64(frame.seq));
    assert(source.subrange(56, 64) =~= bytes::le64(frame.previous.segment));
    assert(source.subrange(64, 72) =~= bytes::le64(frame.previous.offset));
    assert(source.subrange(72, 76) =~= bytes::le32(frame.raw.len() as u32));
    assert(source.subrange(76, 80) =~= seq![0u8, 0, 0, 0]);
    assert(source.skip(FRAME_HEADER as int) =~= frame.raw);
    array16_is(frame.id.database);
    array16_is(frame.id.generation);
}

/// Places are in one line: of two places one lies in front of the other unless they are the same,
/// every place of an earlier segment is in front of every place of a later one, and within a segment
/// the smaller offset is in front.
pub proof fn places_are_in_line(a: Pointer, b: Pointer, c: Pointer)
    ensures
        a != b ==> (a.spec_before(b) <==> !b.spec_before(a)),
        !a.spec_before(a),
        a.spec_before(b) && b.spec_before(c) ==> a.spec_before(c),
        a.segment < b.segment ==> a.spec_before(b),
        a.segment == b.segment ==> (a.spec_before(b) <==> a.offset < b.offset),
{
}

} // verus!
