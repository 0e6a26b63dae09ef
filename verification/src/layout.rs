//! Where the fields of the files stand.
use vstd::prelude::*;

use crate::bytes;
use crate::checksum;
use crate::files;
use crate::manifest::catalog::{ManifestView, UnitMeta};
use crate::manifest::grammar;
use crate::names;
use crate::retention::head::{self, HeadsView, RetentionHead};
use crate::shared_wal::frame::{self, FrameView};
use crate::types::{CellValue, FieldSchema, Validity, ValueType};

verus! {

/// A catalog file starts with `LSM1`, the format version one and two zero bytes, the generation, the
/// length and the checksum of what follows; then come the checkpoint, the high waters, the
/// generation again, the shard and the writer, each in its place and in little-endian order.
pub proof fn catalog_files_are_laid_out(manifest: ManifestView)
    ensures
        ({
            let file = grammar::file_bytes(manifest);
            let body = file.skip(24);
            &&& file.len() >= 84
            &&& file.take(4) == seq![76u8, 83, 77, 49]
            &&& file.subrange(4, 6) == bytes::le16(1)
            &&& file.subrange(6, 8) == bytes::le16(0)
            &&& file.subrange(8, 16) == bytes::le64(manifest.identity.generation)
            &&& file.subrange(16, 20) == bytes::le32(body.len() as u32)
            &&& file.subrange(20, 24) == bytes::le32(checksum::crc32(body))
            &&& file.subrange(24, 32) == bytes::le64(manifest.checkpoint.segment_first_seq)
            &&& file.subrange(32, 40) == bytes::le64(manifest.checkpoint.offset)
            &&& file.subrange(40, 48) == bytes::le64(manifest.checkpoint.next_seq)
            &&& file.subrange(48, 56) == bytes::le64(manifest.identity.unit_high_water)
            &&& file.subrange(56, 60) == bytes::le32(manifest.identity.table_high_water)
            &&& file.subrange(60, 68) == bytes::le64(manifest.identity.generation)
            &&& file.subrange(68, 76) == bytes::le64(manifest.identity.shard_id)
            &&& file.subrange(76, 84) == bytes::le64(manifest.identity.writer_epoch)
        }),
{
    bytes::scalars_round_trip();
    let file = grammar::file_bytes(manifest);
    let body = grammar::body_bytes(manifest);
    assert(file.skip(24) =~= body);
    assert(file.take(4) =~= seq![76u8, 83, 77, 49]);
    assert(file.subrange(4, 6) =~= bytes::le16(1));
    assert(file.subrange(6, 8) =~= bytes::le16(0));
    assert(file.subrange(8, 16) =~= bytes::le64(manifest.identity.generation));
    assert(file.subrange(16, 20) =~= bytes::le32(body.len() as u32));
    assert(file.subrange(20, 24) =~= bytes::le32(checksum::crc32(body)));
    let checkpoint = grammar::checkpoint_bytes(manifest.checkpoint);
    let identity = grammar::identity_bytes(manifest.identity);
    assert(body.take(24) =~= checkpoint);
    assert(body.subrange(24, 60) =~= identity);
    assert(file.subrange(24, 32) =~= checkpoint.subrange(0, 8));
    assert(file.subrange(32, 40) =~= checkpoint.subrange(8, 16));
    assert(file.subrange(40, 48) =~= checkpoint.subrange(16, 24));
    assert(checkpoint.subrange(0, 8) =~= bytes::le64(manifest.checkpoint.segment_first_seq));
    assert(checkpoint.subrange(8, 16) =~= bytes::le64(manifest.checkpoint.offset));
    assert(checkpoint.subrange(16, 24) =~= bytes::le64(manifest.checkpoint.next_seq));
    assert(file.subrange(48, 56) =~= identity.subrange(0, 8));
    assert(file.subrange(56, 60) =~= identity.subrange(8, 12));
    assert(file.subrange(60, 68) =~= identity.subrange(12, 20));
    assert(file.subrange(68, 76) =~= identity.subrange(20, 28));
    assert(file.subrange(76, 84) =~= identity.subrange(28, 36));
    assert(identity.subrange(0, 8) =~= bytes::le64(manifest.identity.unit_high_water));
    assert(identity.subrange(8, 12) =~= bytes::le32(manifest.identity.table_high_water));
    assert(identity.subrange(12, 20) =~= bytes::le64(manifest.identity.generation));
    assert(identity.subrange(20, 28) =~= bytes::le64(manifest.identity.shard_id));
    assert(identity.subrange(28, 36) =~= bytes::le64(manifest.identity.writer_epoch));
}

/// A unit takes 49 bytes of a catalog: identifier, level, start, end, sections, rows, length and
/// checksum.
pub proof fn units_are_laid_out(unit: UnitMeta)
    ensures
        ({
            let entry = grammar::unit_bytes(unit);
            &&& entry.len() == 49
            &&& entry.subrange(0, 8) == bytes::le64(unit.unit_id)
            &&& entry[8] == unit.level
            &&& entry.subrange(9, 17) == bytes::lei64(unit.min_ts)
            &&& entry.subrange(17, 25) == bytes::lei64(unit.max_ts)
            &&& entry.subrange(25, 29) == bytes::le32(unit.section_count)
            &&& entry.subrange(29, 37) == bytes::le64(unit.total_rows)
            &&& entry.subrange(37, 45) == bytes::le64(unit.file_len)
            &&& entry.subrange(45, 49) == bytes::le32(unit.body_crc32)
        }),
{
    bytes::scalars_round_trip();
    let entry = grammar::unit_bytes(unit);
    assert(entry.subrange(0, 8) =~= bytes::le64(unit.unit_id));
    assert(entry.subrange(9, 17) =~= bytes::lei64(unit.min_ts));
    assert(entry.subrange(17, 25) =~= bytes::lei64(unit.max_ts));
    assert(entry.subrange(25, 29) =~= bytes::le32(unit.section_count));
    assert(entry.subrange(29, 37) =~= bytes::le64(unit.total_rows));
    assert(entry.subrange(37, 45) =~= bytes::le64(unit.file_len));
    assert(entry.subrange(45, 49) =~= bytes::le32(unit.body_crc32));
}

/// A field takes three bytes of a catalog, the last of them its type; a validity is a zero and its
/// seconds, or a one.
pub proof fn schemas_are_laid_out(field: FieldSchema, validity: Validity)
    ensures
        ({
            let entry = grammar::field_bytes(field);
            &&& entry.len() == 3
            &&& entry.take(2) == bytes::le16(field.field.value)
            &&& entry[2] == (match field.value_type {
                ValueType::UInt => 0u8,
                ValueType::Sq1 => 1,
                ValueType::F32Bits => 2,
            })
        }),
        validity is Forever ==> grammar::validity_bytes(validity) == seq![1u8],
        validity matches Validity::DurationSeconds(seconds) ==> grammar::validity_bytes(
            validity,
        ).len() == 5 && grammar::validity_bytes(validity)[0] == 0 && grammar::validity_bytes(
            validity,
        ).skip(1) == bytes::le32(seconds.value),
{
    bytes::scalars_round_trip();
    assert(grammar::field_bytes(field).take(2) =~= bytes::le16(field.field.value));
    if let Validity::DurationSeconds(seconds) = validity {
        assert(grammar::validity_bytes(validity).skip(1) =~= bytes::le32(seconds.value));
    }
}

/// A file of heads starts with `LSR1`, the format version one and two zero bytes, the floor, the
/// number of heads, and the checksum of these; it ends with the checksum of the heads.
pub proof fn head_files_are_laid_out(heads: HeadsView)
    ensures
        ({
            let file = head::file_bytes(heads);
            let end = file.len() - 4;
            &&& file.len() >= 28
            &&& file.take(4) == seq![76u8, 83, 82, 49]
            &&& file.subrange(4, 6) == bytes::le16(1)
            &&& file.subrange(6, 8) == bytes::le16(0)
            &&& file.subrange(8, 16) == bytes::lei64(heads.floor)
            &&& file.subrange(16, 20) == bytes::le32(heads.entries.len() as u32)
            &&& file.subrange(20, 24) == bytes::le32(checksum::crc32(file.take(20)))
            &&& file.skip(end) == bytes::le32(checksum::crc32(file.subrange(24, end)))
        }),
{
    bytes::scalars_round_trip();
    let file = head::file_bytes(heads);
    let header = head::header_bytes(heads.floor, heads.entries.len() as u32);
    let body = head::body_bytes(heads.entries);
    let end = file.len() - 4;
    assert(header.len() == 20);
    assert(file.take(20) =~= header);
    assert(file.take(4) =~= seq![76u8, 83, 82, 49]);
    assert(file.subrange(4, 6) =~= bytes::le16(1));
    assert(file.subrange(6, 8) =~= bytes::le16(0));
    assert(file.subrange(8, 16) =~= bytes::lei64(heads.floor));
    assert(file.subrange(16, 20) =~= bytes::le32(heads.entries.len() as u32));
    assert(file.subrange(20, 24) =~= bytes::le32(checksum::crc32(header)));
    assert(file.subrange(24, end) =~= body);
    assert(file.skip(end) =~= bytes::le32(checksum::crc32(body)));
}

/// A head takes 27 bytes: series, field, time, and its value as a tag and eight bytes.
pub proof fn heads_are_laid_out(entry: RetentionHead)
    ensures
        ({
            let found = head::entry_bytes(entry);
            &&& found.len() == 27
            &&& found.subrange(0, 8) == bytes::le64(entry.series.value)
            &&& found.subrange(8, 10) == bytes::le16(entry.field.value)
            &&& found.subrange(10, 18) == bytes::lei64(entry.fact_ts)
            &&& match entry.value {
                CellValue::Null => found[18] == 0,
                CellValue::UInt(number) => found[18] == 1 && found.subrange(19, 27) == bytes::le64(
                    number,
                ),
                CellValue::Sq1(quality) => found[18] == 2 && found[19] == quality.code,
                CellValue::F32Bits(pattern) => found[18] == 3 && found.subrange(19, 23)
                    == bytes::le32(pattern.bits),
            }
        }),
{
    bytes::scalars_round_trip();
    let found = head::entry_bytes(entry);
    assert(found.subrange(0, 8) =~= bytes::le64(entry.series.value));
    assert(found.subrange(8, 10) =~= bytes::le16(entry.field.value));
    assert(found.subrange(10, 18) =~= bytes::lei64(entry.fact_ts));
    match entry.value {
        CellValue::UInt(number) => {
            assert(found.subrange(19, 27) =~= bytes::le64(number));
        },
        CellValue::F32Bits(pattern) => {
            assert(found.subrange(19, 23) =~= bytes::le32(pattern.bits));
        },
        _ => {},
    }
}

/// A frame starts with its length and the checksum of the rest; then come its position, its database
/// and generation, its sequence, its predecessor, the length of its record and four zero bytes, and
/// at byte eighty the record.
pub proof fn frames_are_laid_out(view: FrameView)
    ensures
        ({
            let source = frame::frame_bytes(view);
            &&& source.len() == 80 + view.raw.len()
            &&& source.subrange(0, 4) == bytes::le32((80 + view.raw.len()) as u32)
            &&& source.subrange(4, 8) == bytes::le32(checksum::crc32(source.skip(8)))
            &&& source.subrange(8, 16) == bytes::le64(view.lsn)
            &&& source.subrange(16, 32) == view.id.database@
            &&& source.subrange(32, 48) == view.id.generation@
            &&& source.subrange(48, 56) == bytes::le64(view.seq)
            &&& source.subrange(56, 64) == bytes::le64(view.previous.segment)
            &&& source.subrange(64, 72) == bytes::le64(view.previous.offset)
            &&& source.subrange(72, 76) == bytes::le32(view.raw.len() as u32)
            &&& source.subrange(76, 80) == seq![0u8, 0, 0, 0]
            &&& source.skip(80) == view.raw
        }),
{
    bytes::scalars_round_trip();
    let source = frame::frame_bytes(view);
    let body = frame::frame_body(view);
    assert(source.subrange(0, 4) =~= bytes::le32((80 + view.raw.len()) as u32));
    assert(source.skip(8) =~= body);
    assert(source.subrange(4, 8) =~= bytes::le32(checksum::crc32(body)));
    assert(source.subrange(8, 16) =~= bytes::le64(view.lsn));
    assert(source.subrange(16, 32) =~= view.id.database@);
    assert(source.subrange(32, 48) =~= view.id.generation@);
    assert(source.subrange(48, 56) =~= bytes::le64(view.seq));
    assert(source.subrange(56, 64) =~= bytes::le64(view.previous.segment));
    assert(source.subrange(64, 72) =~= bytes::le64(view.previous.offset));
    assert(source.subrange(72, 76) =~= bytes::le32(view.raw.len() as u32));
    assert(source.subrange(76, 80) =~= seq![0u8, 0, 0, 0]);
    assert(source.skip(80) =~= view.raw);
}

/// A segment starts with 64 bytes: `LSSW` and the format version, the log, the number, the first
/// position, twenty zero bytes and the checksum of these.
pub proof fn segments_are_laid_out(owner: Seq<u8>, segment: u64, first: u64)
    requires
        owner.len() == 16,
    ensures
        ({
            let header = frame::sealed(frame::segment_header_body(owner, segment, first));
            &&& header.len() == 64
            &&& header.take(8) == seq![76u8, 83, 83, 87, 2, 0, 0, 0]
            &&& header.subrange(8, 24) == owner
            &&& header.subrange(24, 32) == bytes::le64(segment)
            &&& header.subrange(32, 40) == bytes::le64(first)
            &&& forall|i: int| 40 <= i < 60 ==> #[trigger] header[i] == 0
            &&& header.subrange(60, 64) == bytes::le32(checksum::crc32(header.take(60)))
        }),
{
    bytes::scalars_round_trip();
    let body = frame::segment_header_body(owner, segment, first);
    let header = frame::sealed(body);
    assert(header.take(60) =~= body);
    assert(header.take(8) =~= seq![76u8, 83, 83, 87, 2, 0, 0, 0]);
    assert(header.subrange(8, 24) =~= owner);
    assert(header.subrange(24, 32) =~= bytes::le64(segment));
    assert(header.subrange(32, 40) =~= bytes::le64(first));
    assert(header.subrange(60, 64) =~= bytes::le32(checksum::crc32(body)));
}

/// A unit and a generation of heads are each in a file that is named by sixteen hexadecimal digits
/// and `.lsu` or `.lsr`; a segment is in one that is named by twenty decimal digits and `.swal`; a
/// file that is being written has a dot in front of its name, and behind it another dot, eight
/// digits and `.tmp`.
pub proof fn files_are_named(number: u64, name: Seq<u8>, nonce: u32)
    ensures
        files::unit_file(number).len() == 20,
        files::unit_file(number).take(16) == names::hexadecimal(number as nat, 16),
        files::unit_file(number).skip(16) == seq![46u8, 108, 115, 117],
        head::head_file(number).len() == 20,
        head::head_file(number).take(16) == names::hexadecimal(number as nat, 16),
        head::head_file(number).skip(16) == seq![46u8, 108, 115, 114],
        frame::segment_file(number).len() == 25,
        frame::segment_file(number).take(20) == names::decimal(number as nat, 20),
        frame::segment_file(number).skip(20) == seq![46u8, 115, 119, 97, 108],
        files::temporary_file(name, nonce) == (seq![46u8] + name).push(46) + names::hexadecimal(
            nonce as nat,
            8,
        ) + seq![46u8, 116, 109, 112],
{
    names::hexadecimal_width(number as nat, 16);
    names::twenty_digits_suffice();
    names::decimal_denotes(number as nat, 20);
    assert(files::unit_file(number).take(16) =~= names::hexadecimal(number as nat, 16));
    assert(files::unit_file(number).skip(16) =~= seq![46u8, 108, 115, 117]);
    assert(head::head_file(number).take(16) =~= names::hexadecimal(number as nat, 16));
    assert(head::head_file(number).skip(16) =~= seq![46u8, 108, 115, 114]);
    assert(frame::segment_file(number).take(20) =~= names::decimal(number as nat, 20));
    assert(frame::segment_file(number).skip(20) =~= seq![46u8, 115, 119, 97, 108]);
    assert(files::temporary_file(name, nonce) =~= (seq![46u8] + name).push(46)
        + names::hexadecimal(nonce as nat, 8) + seq![46u8, 116, 109, 112]);
}

/// A hexadecimal digit is one of `0` to `9` and `a` to `f`; a numeral ends with the digit of the
/// remainder by its base, behind the numeral of the quotient.
pub proof fn numerals_are_positional(value: nat, width: nat)
    requires
        width > 0,
    ensures
        names::hexadecimal(value, width).last() == (if value % 16 < 10 {
            48 + value % 16
        } else {
            87 + value % 16
        }),
        names::hexadecimal(value, width).drop_last() == names::hexadecimal(
            value / 16,
            (width - 1) as nat,
        ),
        names::decimal(value, width).last() == 48 + value % 10,
        names::decimal(value, width).drop_last() == names::decimal(
            value / 10,
            (width - 1) as nat,
        ),
        names::hexadecimal(value, 0).len() == 0,
        names::decimal(value, 0).len() == 0,
{
    let digit = names::hex_digit(value % 16);
    let front = names::hexadecimal(value / 16, (width - 1) as nat);
    assert(front.push(digit).drop_last() =~= front);
    let other = names::decimal(value / 10, (width - 1) as nat);
    assert(other.push((48 + value % 10) as u8).drop_last() =~= other);
}

} // verus!
