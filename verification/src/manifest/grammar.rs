//! The byte layout of a catalog file, as a writer and a reader of byte sequences.
use vstd::prelude::*;

use super::catalog::{
    self, FieldRetirement, ManifestIdentity, ManifestView, RetentionState, SeriesRetirement,
    TableView, UnitMeta,
};
use crate::bytes;
use crate::checksum;
use crate::error::{self, Error, Result};
use crate::limits::{
    MAX_LIVE_UNITS, MAX_LOGICAL_STREAMS, MAX_MANIFEST_BODY_BYTES, MAX_TABLES,
};
use crate::types::{
    self, FieldId, FieldSchema, Seconds, SeriesId, TableId, Validity, ValueType, VersionView,
};
use crate::wal::Checkpoint;

verus! {

pub const MANIFEST_HEADER_BYTES: usize = 24;

/// `LSM1`
pub open spec fn manifest_magic() -> Seq<u8> {
    seq![76u8, 83, 77, 49]
}

// Writing.

/// Items one after the other.
pub open spec fn written<T>(items: Seq<T>, writer: spec_fn(T) -> Seq<u8>) -> Seq<u8>
    decreases items.len(),
{
    if items.len() == 0 {
        Seq::empty()
    } else {
        written(items.drop_last(), writer) + writer(items.last())
    }
}

pub open spec fn option_i64_bytes(value: Option<i64>) -> Seq<u8> {
    match value {
        None => seq![0u8],
        Some(value) => seq![1u8] + bytes::lei64(value),
    }
}

pub open spec fn option_u64_bytes(value: Option<u64>) -> Seq<u8> {
    match value {
        None => seq![0u8],
        Some(value) => seq![1u8] + bytes::le64(value),
    }
}

pub open spec fn field_bytes(field: FieldSchema) -> Seq<u8> {
    bytes::le16(field.field.value) + seq![field.value_type.spec_tag()]
}

pub open spec fn field_writer() -> spec_fn(FieldSchema) -> Seq<u8> {
    |field: FieldSchema| field_bytes(field)
}

pub open spec fn validity_bytes(validity: Validity) -> Seq<u8> {
    match validity {
        Validity::DurationSeconds(seconds) => seq![0u8] + bytes::le32(seconds.value),
        Validity::Forever => seq![1u8],
    }
}

pub open spec fn version_bytes(version: VersionView) -> Seq<u8> {
    bytes::le32(version.version_no) + validity_bytes(version.validity) + option_i64_bytes(
        version.effective_from,
    ) + listed(version.fields, field_writer())
}

pub open spec fn version_writer() -> spec_fn(VersionView) -> Seq<u8> {
    |version: VersionView| version_bytes(version)
}

pub open spec fn series_bytes(retirement: SeriesRetirement) -> Seq<u8> {
    bytes::le64(retirement.series.value) + bytes::lei64(retirement.retire_ts)
}

pub open spec fn series_writer() -> spec_fn(SeriesRetirement) -> Seq<u8> {
    |retirement: SeriesRetirement| series_bytes(retirement)
}

pub open spec fn retired_field_bytes(retirement: FieldRetirement) -> Seq<u8> {
    bytes::le16(retirement.field.value) + bytes::lei64(retirement.retire_ts)
}

pub open spec fn retired_field_writer() -> spec_fn(FieldRetirement) -> Seq<u8> {
    |retirement: FieldRetirement| retired_field_bytes(retirement)
}

/// Items behind their count.
pub open spec fn listed<T>(items: Seq<T>, writer: spec_fn(T) -> Seq<u8>) -> Seq<u8> {
    bytes::le32(items.len() as u32) + written(items, writer)
}

pub open spec fn table_bytes(table: TableView) -> Seq<u8> {
    bytes::le32(table.table.value) + option_i64_bytes(table.last_ts) + listed(
        table.versions,
        version_writer(),
    ) + listed(table.retired_series, series_writer()) + listed(
        table.retired_fields,
        retired_field_writer(),
    )
}

pub open spec fn table_writer() -> spec_fn(TableView) -> Seq<u8> {
    |table: TableView| table_bytes(table)
}

pub open spec fn unit_bytes(unit: UnitMeta) -> Seq<u8> {
    bytes::le64(unit.unit_id) + seq![unit.level] + bytes::lei64(unit.min_ts) + bytes::lei64(
        unit.max_ts,
    ) + bytes::le32(unit.section_count) + bytes::le64(unit.total_rows) + bytes::le64(unit.file_len)
        + bytes::le32(unit.body_crc32)
}

pub open spec fn unit_writer() -> spec_fn(UnitMeta) -> Seq<u8> {
    |unit: UnitMeta| unit_bytes(unit)
}

pub open spec fn checkpoint_bytes(checkpoint: Checkpoint) -> Seq<u8> {
    bytes::le64(checkpoint.segment_first_seq) + bytes::le64(checkpoint.offset) + bytes::le64(
        checkpoint.next_seq,
    )
}

pub open spec fn identity_bytes(identity: ManifestIdentity) -> Seq<u8> {
    bytes::le64(identity.unit_high_water) + bytes::le32(identity.table_high_water) + bytes::le64(
        identity.generation,
    ) + bytes::le64(identity.shard_id) + bytes::le64(identity.writer_epoch)
}

pub open spec fn retention_bytes(retention: RetentionState) -> Seq<u8> {
    option_i64_bytes(retention.floor) + option_u64_bytes(retention.heads_generation)
}

pub open spec fn body_bytes(manifest: ManifestView) -> Seq<u8> {
    checkpoint_bytes(manifest.checkpoint) + identity_bytes(manifest.identity) + retention_bytes(
        manifest.retention,
    ) + listed(manifest.tables, table_writer()) + listed(manifest.units, unit_writer())
}

/// A catalog file: a header with the generation, the length and the checksum of the body, and the
/// body.
pub open spec fn file_bytes(manifest: ManifestView) -> Seq<u8> {
    let body = body_bytes(manifest);
    manifest_magic() + bytes::le16(1) + bytes::le16(0) + bytes::le64(manifest.identity.generation)
        + bytes::le32(body.len() as u32) + bytes::le32(checksum::crc32(body)) + body
}

// Reading.

pub open spec fn corrupt(reason: &'static str) -> Error {
    error::corruption("MANIFEST", reason)
}

pub open spec fn take_u8(source: Seq<u8>) -> Result<(u8, Seq<u8>)> {
    if source.len() < 1 {
        Err(corrupt("truncated byte"))
    } else {
        Ok((source[0], source.skip(1)))
    }
}

pub open spec fn take_u16(source: Seq<u8>) -> Result<(u16, Seq<u8>)> {
    if source.len() < 2 {
        Err(corrupt("truncated scalar"))
    } else {
        Ok((bytes::un16(source.take(2)), source.skip(2)))
    }
}

pub open spec fn take_u32(source: Seq<u8>) -> Result<(u32, Seq<u8>)> {
    if source.len() < 4 {
        Err(corrupt("truncated scalar"))
    } else {
        Ok((bytes::un32(source.take(4)), source.skip(4)))
    }
}

pub open spec fn take_u64(source: Seq<u8>) -> Result<(u64, Seq<u8>)> {
    if source.len() < 8 {
        Err(corrupt("truncated scalar"))
    } else {
        Ok((bytes::un64(source.take(8)), source.skip(8)))
    }
}

pub open spec fn take_i64(source: Seq<u8>) -> Result<(i64, Seq<u8>)> {
    if source.len() < 8 {
        Err(corrupt("truncated scalar"))
    } else {
        Ok((bytes::uni64(source.take(8)), source.skip(8)))
    }
}

pub open spec fn take_option_i64(source: Seq<u8>) -> Result<(Option<i64>, Seq<u8>)> {
    match take_u8(source) {
        Err(e) => Err(e),
        Ok((tag, rest)) => if tag == 0 {
            Ok((None, rest))
        } else if tag == 1 {
            match take_i64(rest) {
                Err(e) => Err(e),
                Ok((value, rest)) => Ok((Some(value), rest)),
            }
        } else {
            Err(corrupt("unknown Option<i64> tag"))
        },
    }
}

pub open spec fn take_option_u64(source: Seq<u8>) -> Result<(Option<u64>, Seq<u8>)> {
    match take_u8(source) {
        Err(e) => Err(e),
        Ok((tag, rest)) => if tag == 0 {
            Ok((None, rest))
        } else if tag == 1 {
            match take_u64(rest) {
                Err(e) => Err(e),
                Ok((value, rest)) => Ok((Some(value), rest)),
            }
        } else {
            Err(corrupt("unknown Option<u64> tag"))
        },
    }
}

/// A count of items of at least `width` bytes each, of which the rest of the body must have room.
pub open spec fn take_count(
    source: Seq<u8>,
    maximum: u32,
    width: int,
    name: &'static str,
) -> Result<(int, Seq<u8>)> {
    match take_u32(source) {
        Err(e) => Err(e),
        Ok((count, rest)) => if count > maximum {
            Err(error::limit(name, count as u64, maximum as u64))
        } else if count * width > rest.len() {
            Err(corrupt("count exceeds remaining body"))
        } else {
            Ok((count as int, rest))
        },
    }
}

/// Items one after the other.
pub open spec fn take_many<T>(
    source: Seq<u8>,
    count: int,
    reader: spec_fn(Seq<u8>) -> Result<(T, Seq<u8>)>,
) -> Result<(Seq<T>, Seq<u8>)>
    decreases count,
{
    if count <= 0 {
        Ok((Seq::empty(), source))
    } else {
        match take_many(source, count - 1, reader) {
            Err(e) => Err(e),
            Ok((items, rest)) => match reader(rest) {
                Err(e) => Err(e),
                Ok((item, rest)) => Ok((items.push(item), rest)),
            },
        }
    }
}

pub open spec fn value_type_of(tag: u8) -> Result<ValueType> {
    if tag == 0 {
        Ok(ValueType::UInt)
    } else if tag == 1 {
        Ok(ValueType::Sq1)
    } else if tag == 2 {
        Ok(ValueType::F32Bits)
    } else {
        Err(corrupt("unknown value type tag"))
    }
}

pub open spec fn take_field(source: Seq<u8>) -> Result<(FieldSchema, Seq<u8>)> {
    match take_u16(source) {
        Err(e) => Err(e),
        Ok((field, rest)) => match take_u8(rest) {
            Err(e) => Err(e),
            Ok((tag, rest)) => match value_type_of(tag) {
                Err(e) => Err(e),
                Ok(value_type) => Ok(
                    (FieldSchema { field: FieldId { value: field }, value_type }, rest),
                ),
            },
        },
    }
}

pub open spec fn field_reader() -> spec_fn(Seq<u8>) -> Result<(FieldSchema, Seq<u8>)> {
    |source: Seq<u8>| take_field(source)
}

pub open spec fn take_validity(source: Seq<u8>) -> Result<(Validity, Seq<u8>)> {
    match take_u8(source) {
        Err(e) => Err(e),
        Ok((tag, rest)) => if tag == 0 {
            match take_u32(rest) {
                Err(e) => Err(e),
                Ok((seconds, rest)) => if seconds == 0 {
                    Err(corrupt("finite validity is zero"))
                } else {
                    Ok((Validity::DurationSeconds(Seconds { value: seconds }), rest))
                },
            }
        } else if tag == 1 {
            Ok((Validity::Forever, rest))
        } else {
            Err(corrupt("unknown validity tag"))
        },
    }
}

pub open spec fn take_version(source: Seq<u8>) -> Result<(VersionView, Seq<u8>)> {
    match take_u32(source) {
        Err(e) => Err(e),
        Ok((version_no, rest)) => match take_validity(rest) {
            Err(e) => Err(e),
            Ok((validity, rest)) => match take_option_i64(rest) {
                Err(e) => Err(e),
                Ok((effective_from, rest)) => match take_count(
                    rest,
                    MAX_LOGICAL_STREAMS,
                    3,
                    "fields",
                ) {
                    Err(e) => Err(e),
                    Ok((count, rest)) => match take_many(rest, count, field_reader()) {
                        Err(e) => Err(e),
                        Ok((fields, rest)) => if !types::fields_ordered(fields) {
                            Err(
                                error::corruption(
                                    "table version",
                                    "fields are not strictly ordered",
                                ),
                            )
                        } else {
                            Ok(
                                (
                                    VersionView { version_no, validity, fields, effective_from },
                                    rest,
                                ),
                            )
                        },
                    },
                },
            },
        },
    }
}

pub open spec fn version_reader() -> spec_fn(Seq<u8>) -> Result<(VersionView, Seq<u8>)> {
    |source: Seq<u8>| take_version(source)
}

pub open spec fn take_series(source: Seq<u8>) -> Result<(SeriesRetirement, Seq<u8>)> {
    match take_u64(source) {
        Err(e) => Err(e),
        Ok((series, rest)) => match take_i64(rest) {
            Err(e) => Err(e),
            Ok((retire_ts, rest)) => Ok(
                (SeriesRetirement { series: SeriesId { value: series }, retire_ts }, rest),
            ),
        },
    }
}

pub open spec fn series_reader() -> spec_fn(Seq<u8>) -> Result<(SeriesRetirement, Seq<u8>)> {
    |source: Seq<u8>| take_series(source)
}

pub open spec fn take_retired_field(source: Seq<u8>) -> Result<(FieldRetirement, Seq<u8>)> {
    match take_u16(source) {
        Err(e) => Err(e),
        Ok((field, rest)) => match take_i64(rest) {
            Err(e) => Err(e),
            Ok((retire_ts, rest)) => Ok(
                (FieldRetirement { field: FieldId { value: field }, retire_ts }, rest),
            ),
        },
    }
}

pub open spec fn retired_field_reader() -> spec_fn(Seq<u8>) -> Result<(FieldRetirement, Seq<u8>)> {
    |source: Seq<u8>| take_retired_field(source)
}

pub open spec fn take_versions(source: Seq<u8>) -> Result<(Seq<VersionView>, Seq<u8>)> {
    match take_count(source, MAX_LOGICAL_STREAMS, 10, "table_versions") {
        Err(e) => Err(e),
        Ok((count, rest)) => take_many(rest, count, version_reader()),
    }
}

pub open spec fn take_retired_series(source: Seq<u8>) -> Result<
    (Seq<SeriesRetirement>, Seq<u8>),
> {
    match take_count(source, MAX_LOGICAL_STREAMS, 16, "retired_series") {
        Err(e) => Err(e),
        Ok((count, rest)) => take_many(rest, count, series_reader()),
    }
}

pub open spec fn take_retired_fields(source: Seq<u8>) -> Result<(Seq<FieldRetirement>, Seq<u8>)> {
    match take_count(source, MAX_LOGICAL_STREAMS, 10, "retired_fields") {
        Err(e) => Err(e),
        Ok((count, rest)) => take_many(rest, count, retired_field_reader()),
    }
}

pub open spec fn take_table(source: Seq<u8>) -> Result<(TableView, Seq<u8>)> {
    match take_u32(source) {
        Err(e) => Err(e),
        Ok((table, rest)) => match take_option_i64(rest) {
            Err(e) => Err(e),
            Ok((last_ts, rest)) => match take_versions(rest) {
                Err(e) => Err(e),
                Ok((versions, rest)) => match take_retired_series(rest) {
                    Err(e) => Err(e),
                    Ok((retired_series, rest)) => match take_retired_fields(rest) {
                        Err(e) => Err(e),
                        Ok((retired_fields, rest)) => {
                            let found = TableView {
                                table: TableId { value: table },
                                last_ts,
                                versions,
                                retired_series,
                                retired_fields,
                            };
                            match found.refusal() {
                                Some(e) => Err(e),
                                None => Ok((found, rest)),
                            }
                        },
                    },
                },
            },
        },
    }
}

pub open spec fn table_reader() -> spec_fn(Seq<u8>) -> Result<(TableView, Seq<u8>)> {
    |source: Seq<u8>| take_table(source)
}

pub open spec fn take_unit(source: Seq<u8>) -> Result<(UnitMeta, Seq<u8>)> {
    match take_u64(source) {
        Err(e) => Err(e),
        Ok((unit_id, rest)) => match take_u8(rest) {
            Err(e) => Err(e),
            Ok((level, rest)) => match take_i64(rest) {
                Err(e) => Err(e),
                Ok((min_ts, rest)) => match take_i64(rest) {
                    Err(e) => Err(e),
                    Ok((max_ts, rest)) => match take_u32(rest) {
                        Err(e) => Err(e),
                        Ok((section_count, rest)) => match take_u64(rest) {
                            Err(e) => Err(e),
                            Ok((total_rows, rest)) => match take_u64(rest) {
                                Err(e) => Err(e),
                                Ok((file_len, rest)) => match take_u32(rest) {
                                    Err(e) => Err(e),
                                    Ok((body_crc32, rest)) => {
                                        let unit = UnitMeta {
                                            unit_id,
                                            level,
                                            min_ts,
                                            max_ts,
                                            section_count,
                                            total_rows,
                                            file_len,
                                            body_crc32,
                                        };
                                        match unit.refusal() {
                                            Some(e) => Err(e),
                                            None => Ok((unit, rest)),
                                        }
                                    },
                                },
                            },
                        },
                    },
                },
            },
        },
    }
}

pub open spec fn unit_reader() -> spec_fn(Seq<u8>) -> Result<(UnitMeta, Seq<u8>)> {
    |source: Seq<u8>| take_unit(source)
}

pub open spec fn take_checkpoint(source: Seq<u8>) -> Result<(Checkpoint, Seq<u8>)> {
    match take_u64(source) {
        Err(e) => Err(e),
        Ok((segment, rest)) => match take_u64(rest) {
            Err(e) => Err(e),
            Ok((offset, rest)) => match take_u64(rest) {
                Err(e) => Err(e),
                Ok((next_seq, rest)) => match Checkpoint::restored(segment, offset, next_seq) {
                    Err(e) => Err(e),
                    Ok(checkpoint) => Ok((checkpoint, rest)),
                },
            },
        },
    }
}

/// The identity, whose generation must be the one in the header.
pub open spec fn take_identity(source: Seq<u8>, generation: u64) -> Result<
    (ManifestIdentity, Seq<u8>),
> {
    match take_u64(source) {
        Err(e) => Err(e),
        Ok((unit_high_water, rest)) => match take_u32(rest) {
            Err(e) => Err(e),
            Ok((table_high_water, rest)) => match take_u64(rest) {
                Err(e) => Err(e),
                Ok((found, rest)) => if found != generation {
                    Err(corrupt("header and body generations disagree"))
                } else {
                    match take_u64(rest) {
                        Err(e) => Err(e),
                        Ok((shard_id, rest)) => match take_u64(rest) {
                            Err(e) => Err(e),
                            Ok((writer_epoch, rest)) => Ok(
                                (
                                    ManifestIdentity {
                                        generation,
                                        unit_high_water,
                                        table_high_water,
                                        shard_id,
                                        writer_epoch,
                                    },
                                    rest,
                                ),
                            ),
                        },
                    }
                },
            },
        },
    }
}

pub open spec fn take_retention(source: Seq<u8>) -> Result<(RetentionState, Seq<u8>)> {
    match take_option_i64(source) {
        Err(e) => Err(e),
        Ok((floor, rest)) => match take_option_u64(rest) {
            Err(e) => Err(e),
            Ok((heads_generation, rest)) => Ok((RetentionState { floor, heads_generation }, rest)),
        },
    }
}

pub open spec fn take_tables(source: Seq<u8>) -> Result<(Seq<TableView>, Seq<u8>)> {
    match take_count(source, MAX_TABLES, 17, "tables") {
        Err(e) => Err(e),
        Ok((count, rest)) => take_many(rest, count, table_reader()),
    }
}

pub open spec fn take_units(source: Seq<u8>) -> Result<(Seq<UnitMeta>, Seq<u8>)> {
    match take_count(source, MAX_LIVE_UNITS, 49, "live_units") {
        Err(e) => Err(e),
        Ok((count, rest)) => take_many(rest, count, unit_reader()),
    }
}

pub open spec fn body_read(generation: u64, body: Seq<u8>) -> Result<ManifestView> {
    match take_checkpoint(body) {
        Err(e) => Err(e),
        Ok((checkpoint, rest)) => match take_identity(rest, generation) {
            Err(e) => Err(e),
            Ok((identity, rest)) => match take_retention(rest) {
                Err(e) => Err(e),
                Ok((retention, rest)) => match take_tables(rest) {
                    Err(e) => Err(e),
                    Ok((tables, rest)) => match take_units(rest) {
                        Err(e) => Err(e),
                        Ok((units, rest)) => if rest.len() > 0 {
                            Err(corrupt("trailing body bytes"))
                        } else {
                            let found = ManifestView {
                                identity,
                                checkpoint,
                                retention,
                                tables,
                                units,
                            };
                            match found.refusal() {
                                Some(e) => Err(e),
                                None => Ok(found),
                            }
                        },
                    },
                },
            },
        },
    }
}

/// The catalog that a file holds, or why it holds none.
pub open spec fn file_read(source: Seq<u8>) -> Result<ManifestView> {
    if source.len() < MANIFEST_HEADER_BYTES {
        Err(corrupt("truncated header"))
    } else if source.take(4) != manifest_magic() {
        Err(corrupt("magic mismatch"))
    } else if bytes::un16(source.subrange(4, 6)) != 1 {
        Err(corrupt("format version mismatch"))
    } else if bytes::un16(source.subrange(6, 8)) != 0 {
        Err(corrupt("reserved field is nonzero"))
    } else {
        let generation = bytes::un64(source.subrange(8, 16));
        let body_len = bytes::un32(source.subrange(16, 20));
        let body = source.skip(MANIFEST_HEADER_BYTES as int);
        if body_len > MAX_MANIFEST_BODY_BYTES {
            Err(
                error::limit(
                    "manifest_body_bytes",
                    body_len as u64,
                    MAX_MANIFEST_BODY_BYTES as u64,
                ),
            )
        } else if source.len() != body_len + MANIFEST_HEADER_BYTES {
            Err(corrupt("file length mismatch"))
        } else if checksum::crc32(body) != bytes::un32(source.subrange(20, 24)) {
            Err(corrupt("body CRC32 mismatch"))
        } else {
            body_read(generation, body)
        }
    }
}

// What is written reads back.

proof fn scalar_front(scalar: Seq<u8>, rest: Seq<u8>)
    ensures
        (scalar + rest).take(scalar.len() as int) == scalar,
        (scalar + rest).skip(scalar.len() as int) == rest,
{
    assert((scalar + rest).take(scalar.len() as int) =~= scalar);
    assert((scalar + rest).skip(scalar.len() as int) =~= rest);
}

proof fn byte_back(value: u8, rest: Seq<u8>)
    ensures
        take_u8(seq![value] + rest) == Ok::<(u8, Seq<u8>), Error>((value, rest)),
{
    assert((seq![value] + rest).skip(1) =~= rest);
}

proof fn u16_back(value: u16, rest: Seq<u8>)
    ensures
        take_u16(bytes::le16(value) + rest) == Ok::<(u16, Seq<u8>), Error>((value, rest)),
{
    bytes::scalars_round_trip();
    scalar_front(bytes::le16(value), rest);
}

proof fn u32_back(value: u32, rest: Seq<u8>)
    ensures
        take_u32(bytes::le32(value) + rest) == Ok::<(u32, Seq<u8>), Error>((value, rest)),
{
    bytes::scalars_round_trip();
    scalar_front(bytes::le32(value), rest);
}

proof fn u64_back(value: u64, rest: Seq<u8>)
    ensures
        take_u64(bytes::le64(value) + rest) == Ok::<(u64, Seq<u8>), Error>((value, rest)),
{
    bytes::scalars_round_trip();
    scalar_front(bytes::le64(value), rest);
}

proof fn i64_back(value: i64, rest: Seq<u8>)
    ensures
        take_i64(bytes::lei64(value) + rest) == Ok::<(i64, Seq<u8>), Error>((value, rest)),
{
    bytes::scalars_round_trip();
    scalar_front(bytes::lei64(value), rest);
}

proof fn option_i64_back(value: Option<i64>, rest: Seq<u8>)
    ensures
        take_option_i64(option_i64_bytes(value) + rest) == Ok::<(Option<i64>, Seq<u8>), Error>(
            (value, rest),
        ),
{
    match value {
        None => byte_back(0, rest),
        Some(inner) => {
            assert(option_i64_bytes(value) + rest =~= seq![1u8] + (bytes::lei64(inner) + rest));
            byte_back(1, bytes::lei64(inner) + rest);
            i64_back(inner, rest);
        },
    }
}

proof fn option_u64_back(value: Option<u64>, rest: Seq<u8>)
    ensures
        take_option_u64(option_u64_bytes(value) + rest) == Ok::<(Option<u64>, Seq<u8>), Error>(
            (value, rest),
        ),
{
    match value {
        None => byte_back(0, rest),
        Some(inner) => {
            assert(option_u64_bytes(value) + rest =~= seq![1u8] + (bytes::le64(inner) + rest));
            byte_back(1, bytes::le64(inner) + rest);
            u64_back(inner, rest);
        },
    }
}

/// Items that each read back read back together.
proof fn many_back<T>(
    items: Seq<T>,
    writer: spec_fn(T) -> Seq<u8>,
    reader: spec_fn(Seq<u8>) -> Result<(T, Seq<u8>)>,
    rest: Seq<u8>,
)
    requires
        forall|i: int, after: Seq<u8>|
            0 <= i < items.len() ==> #[trigger] reader(writer(items[i]) + after) == Ok::<
                (T, Seq<u8>),
                Error,
            >((items[i], after)),
    ensures
        take_many(written(items, writer) + rest, items.len() as int, reader) == Ok::<
            (Seq<T>, Seq<u8>),
            Error,
        >((items, rest)),
    decreases items.len(),
{
    if items.len() > 0 {
        let last = items.last();
        let front = items.drop_last();
        assert forall|i: int, after: Seq<u8>| 0 <= i < front.len() implies #[trigger] reader(
            writer(front[i]) + after,
        ) == Ok::<(T, Seq<u8>), Error>((front[i], after)) by {
            assert(front[i] == items[i]);
        }
        many_back(front, writer, reader, writer(last) + rest);
        assert(written(items, writer) + rest =~= written(front, writer) + (writer(last) + rest));
        assert(reader(writer(items[items.len() - 1]) + rest) == Ok::<(T, Seq<u8>), Error>(
            (last, rest),
        ));
        assert(front.push(last) =~= items);
    } else {
        assert(written(items, writer) + rest =~= rest);
        assert(items =~= Seq::empty());
    }
}

/// Items of one width take that width each.
pub(crate) proof fn written_len<T>(items: Seq<T>, writer: spec_fn(T) -> Seq<u8>, width: int)
    requires
        forall|i: int| 0 <= i < items.len() ==> (#[trigger] writer(items[i])).len() == width,
    ensures
        written(items, writer).len() == items.len() * width,
    decreases items.len(),
{
    if items.len() > 0 {
        let front = items.drop_last();
        assert forall|i: int| 0 <= i < front.len() implies (#[trigger] writer(front[i])).len()
            == width by {
            assert(front[i] == items[i]);
        }
        written_len(front, writer, width);
        assert(writer(items[items.len() - 1]).len() == width);
        assert(items.len() * width == front.len() * width + width) by (nonlinear_arith)
            requires
                items.len() == front.len() + 1,
        ;
    } else {
        assert(items.len() * width == 0) by (nonlinear_arith)
            requires
                items.len() == 0,
        ;
    }
}

/// Items of at least one width take at least that width each.
pub(crate) proof fn written_at_least<T>(items: Seq<T>, writer: spec_fn(T) -> Seq<u8>, width: int)
    requires
        forall|i: int| 0 <= i < items.len() ==> (#[trigger] writer(items[i])).len() >= width,
    ensures
        written(items, writer).len() >= items.len() * width,
    decreases items.len(),
{
    if items.len() > 0 {
        let front = items.drop_last();
        assert forall|i: int| 0 <= i < front.len() implies (#[trigger] writer(front[i])).len()
            >= width by {
            assert(front[i] == items[i]);
        }
        written_at_least(front, writer, width);
        assert(writer(items[items.len() - 1]).len() >= width);
        assert(items.len() * width == front.len() * width + width) by (nonlinear_arith)
            requires
                items.len() == front.len() + 1,
        ;
    } else {
        assert(items.len() * width == 0) by (nonlinear_arith)
            requires
                items.len() == 0,
        ;
    }
}

/// What some of the items take, all of them take at least.
pub(crate) proof fn written_prefix<T>(items: Seq<T>, writer: spec_fn(T) -> Seq<u8>, count: int)
    requires
        0 <= count <= items.len(),
    ensures
        written(items.take(count), writer).len() <= written(items, writer).len(),
        count < items.len() ==> written(items.take(count + 1), writer) == written(
            items.take(count),
            writer,
        ) + writer(items[count]),
    decreases items.len() - count,
{
    if count < items.len() {
        written_prefix(items, writer, count + 1);
        assert(items.take(count + 1).drop_last() =~= items.take(count));
    } else {
        assert(items.take(count) =~= items);
    }
}

proof fn field_back(field: FieldSchema, rest: Seq<u8>)
    ensures
        take_field(field_bytes(field) + rest) == Ok::<(FieldSchema, Seq<u8>), Error>(
            (field, rest),
        ),
        field_bytes(field).len() == 3,
{
    bytes::scalars_round_trip();
    let tag = field.value_type.spec_tag();
    assert(field_bytes(field) + rest =~= bytes::le16(field.field.value) + (seq![tag] + rest));
    u16_back(field.field.value, seq![tag] + rest);
    byte_back(tag, rest);
}

proof fn validity_back(validity: Validity, rest: Seq<u8>)
    requires
        validity.wf(),
    ensures
        take_validity(validity_bytes(validity) + rest) == Ok::<(Validity, Seq<u8>), Error>(
            (validity, rest),
        ),
{
    match validity {
        Validity::DurationSeconds(seconds) => {
            assert(validity_bytes(validity) + rest =~= seq![0u8] + (bytes::le32(seconds.value)
                + rest));
            byte_back(0, bytes::le32(seconds.value) + rest);
            u32_back(seconds.value, rest);
        },
        Validity::Forever => byte_back(1, rest),
    }
}

/// Identifiers of 16 bits leave room for at most 65,536 fields.
proof fn ordered_fields_bounded(fields: Seq<FieldSchema>, count: int)
    requires
        types::fields_ordered(fields),
        0 < count <= fields.len(),
    ensures
        fields[count - 1].field.value >= count - 1,
    decreases count,
{
    if count > 1 {
        ordered_fields_bounded(fields, count - 1);
        assert(fields[count - 2].field.value < fields[count - 1].field.value);
    }
}

proof fn ordered_retired_bounded(fields: Seq<FieldRetirement>, count: int)
    requires
        catalog::retired_fields_ordered(fields),
        0 < count <= fields.len(),
    ensures
        fields[count - 1].field.value >= count - 1,
    decreases count,
{
    if count > 1 {
        ordered_retired_bounded(fields, count - 1);
        assert(fields[count - 2].field.value < fields[count - 1].field.value);
    }
}

/// A list of items that each read back reads back.
proof fn list_back<T>(
    items: Seq<T>,
    writer: spec_fn(T) -> Seq<u8>,
    reader: spec_fn(Seq<u8>) -> Result<(T, Seq<u8>)>,
    maximum: u32,
    width: int,
    name: &'static str,
    rest: Seq<u8>,
)
    requires
        items.len() <= maximum,
        forall|i: int, after: Seq<u8>|
            0 <= i < items.len() ==> #[trigger] reader(writer(items[i]) + after) == Ok::<
                (T, Seq<u8>),
                Error,
            >((items[i], after)),
        forall|i: int| 0 <= i < items.len() ==> (#[trigger] writer(items[i])).len() >= width,
    ensures
        take_count(listed(items, writer) + rest, maximum, width, name) == Ok::<
            (int, Seq<u8>),
            Error,
        >((items.len() as int, written(items, writer) + rest)),
        take_many(written(items, writer) + rest, items.len() as int, reader) == Ok::<
            (Seq<T>, Seq<u8>),
            Error,
        >((items, rest)),
        listed(items, writer).len() >= 4,
{
    bytes::scalars_round_trip();
    let count = items.len() as u32;
    let list = written(items, writer);
    assert(listed(items, writer) + rest =~= bytes::le32(count) + (list + rest));
    u32_back(count, list + rest);
    many_back(items, writer, reader, rest);
    written_at_least(items, writer, width);
    assert(count * width <= (list + rest).len());
}

proof fn version_back(version: VersionView, rest: Seq<u8>)
    requires
        version.wf(),
    ensures
        take_version(version_bytes(version) + rest) == Ok::<(VersionView, Seq<u8>), Error>(
            (version, rest),
        ),
        version_bytes(version).len() >= 10,
{
    bytes::scalars_round_trip();
    let fields = version.fields;
    if fields.len() > 0 {
        ordered_fields_bounded(fields, fields.len() as int);
    }
    let from_fields = listed(fields, field_writer()) + rest;
    let from_effective = option_i64_bytes(version.effective_from) + from_fields;
    let from_validity = validity_bytes(version.validity) + from_effective;
    assert(version_bytes(version) + rest =~= bytes::le32(version.version_no) + from_validity);
    u32_back(version.version_no, from_validity);
    validity_back(version.validity, from_effective);
    option_i64_back(version.effective_from, from_fields);
    assert forall|i: int, after: Seq<u8>| 0 <= i < fields.len() implies #[trigger] field_reader()(
        field_writer()(fields[i]) + after,
    ) == Ok::<(FieldSchema, Seq<u8>), Error>((fields[i], after)) by {
        field_back(fields[i], after);
    }
    assert forall|i: int| 0 <= i < fields.len() implies (#[trigger] field_writer()(
        fields[i],
    )).len() >= 3 by {
        field_back(fields[i], rest);
    }
    list_back(
        fields,
        field_writer(),
        field_reader(),
        MAX_LOGICAL_STREAMS,
        3,
        "fields",
        rest,
    );
}

proof fn series_back(retirement: SeriesRetirement, rest: Seq<u8>)
    ensures
        take_series(series_bytes(retirement) + rest) == Ok::<(SeriesRetirement, Seq<u8>), Error>(
            (retirement, rest),
        ),
        series_bytes(retirement).len() == 16,
{
    bytes::scalars_round_trip();
    let time = bytes::lei64(retirement.retire_ts);
    assert(series_bytes(retirement) + rest =~= bytes::le64(retirement.series.value) + (time
        + rest));
    u64_back(retirement.series.value, time + rest);
    i64_back(retirement.retire_ts, rest);
}

proof fn retired_field_back(retirement: FieldRetirement, rest: Seq<u8>)
    ensures
        take_retired_field(retired_field_bytes(retirement) + rest) == Ok::<
            (FieldRetirement, Seq<u8>),
            Error,
        >((retirement, rest)),
        retired_field_bytes(retirement).len() == 10,
{
    bytes::scalars_round_trip();
    let time = bytes::lei64(retirement.retire_ts);
    assert(retired_field_bytes(retirement) + rest =~= bytes::le16(retirement.field.value) + (time
        + rest));
    u16_back(retirement.field.value, time + rest);
    i64_back(retirement.retire_ts, rest);
}

proof fn versions_back(versions: Seq<VersionView>, rest: Seq<u8>)
    requires
        versions.len() <= MAX_LOGICAL_STREAMS,
        forall|i: int| 0 <= i < versions.len() ==> (#[trigger] versions[i]).wf(),
    ensures
        take_versions(listed(versions, version_writer()) + rest) == Ok::<
            (Seq<VersionView>, Seq<u8>),
            Error,
        >((versions, rest)),
        listed(versions, version_writer()).len() >= 4,
{
    assert forall|i: int, after: Seq<u8>|
        0 <= i < versions.len() implies #[trigger] version_reader()(
        version_writer()(versions[i]) + after,
    ) == Ok::<(VersionView, Seq<u8>), Error>((versions[i], after)) by {
        version_back(versions[i], after);
    }
    assert forall|i: int| 0 <= i < versions.len() implies (#[trigger] version_writer()(
        versions[i],
    )).len() >= 10 by {
        version_back(versions[i], rest);
    }
    list_back(
        versions,
        version_writer(),
        version_reader(),
        MAX_LOGICAL_STREAMS,
        10,
        "table_versions",
        rest,
    );
}

proof fn retired_series_back(series: Seq<SeriesRetirement>, rest: Seq<u8>)
    requires
        series.len() <= MAX_LOGICAL_STREAMS,
    ensures
        take_retired_series(listed(series, series_writer()) + rest) == Ok::<
            (Seq<SeriesRetirement>, Seq<u8>),
            Error,
        >((series, rest)),
        listed(series, series_writer()).len() >= 4,
{
    assert forall|i: int, after: Seq<u8>| 0 <= i < series.len() implies #[trigger] series_reader()(
        series_writer()(series[i]) + after,
    ) == Ok::<(SeriesRetirement, Seq<u8>), Error>((series[i], after)) by {
        series_back(series[i], after);
    }
    assert forall|i: int| 0 <= i < series.len() implies (#[trigger] series_writer()(
        series[i],
    )).len() >= 16 by {
        series_back(series[i], rest);
    }
    list_back(
        series,
        series_writer(),
        series_reader(),
        MAX_LOGICAL_STREAMS,
        16,
        "retired_series",
        rest,
    );
}

proof fn retired_fields_back(fields: Seq<FieldRetirement>, rest: Seq<u8>)
    requires
        catalog::retired_fields_ordered(fields),
    ensures
        take_retired_fields(listed(fields, retired_field_writer()) + rest) == Ok::<
            (Seq<FieldRetirement>, Seq<u8>),
            Error,
        >((fields, rest)),
        listed(fields, retired_field_writer()).len() >= 4,
{
    if fields.len() > 0 {
        ordered_retired_bounded(fields, fields.len() as int);
    }
    assert forall|i: int, after: Seq<u8>|
        0 <= i < fields.len() implies #[trigger] retired_field_reader()(
        retired_field_writer()(fields[i]) + after,
    ) == Ok::<(FieldRetirement, Seq<u8>), Error>((fields[i], after)) by {
        retired_field_back(fields[i], after);
    }
    assert forall|i: int| 0 <= i < fields.len() implies (#[trigger] retired_field_writer()(
        fields[i],
    )).len() >= 10 by {
        retired_field_back(fields[i], rest);
    }
    list_back(
        fields,
        retired_field_writer(),
        retired_field_reader(),
        MAX_LOGICAL_STREAMS,
        10,
        "retired_fields",
        rest,
    );
}

proof fn table_back(table: TableView, rest: Seq<u8>)
    requires
        table.valid(),
        table.retired_series.len() <= MAX_LOGICAL_STREAMS,
    ensures
        take_table(table_bytes(table) + rest) == Ok::<(TableView, Seq<u8>), Error>((table, rest)),
        table_bytes(table).len() >= 17,
{
    bytes::scalars_round_trip();
    let from_fields = listed(table.retired_fields, retired_field_writer()) + rest;
    let from_series = listed(table.retired_series, series_writer()) + from_fields;
    let from_versions = listed(table.versions, version_writer()) + from_series;
    let from_clock = option_i64_bytes(table.last_ts) + from_versions;
    assert(table_bytes(table) + rest =~= bytes::le32(table.table.value) + from_clock);
    u32_back(table.table.value, from_clock);
    option_i64_back(table.last_ts, from_versions);
    versions_back(table.versions, from_series);
    retired_series_back(table.retired_series, from_fields);
    retired_fields_back(table.retired_fields, rest);
}

proof fn unit_back(unit: UnitMeta, rest: Seq<u8>)
    requires
        unit.valid(),
    ensures
        take_unit(unit_bytes(unit) + rest) == Ok::<(UnitMeta, Seq<u8>), Error>((unit, rest)),
{
    let s7 = bytes::le32(unit.body_crc32) + rest;
    let s6 = bytes::le64(unit.file_len) + s7;
    let s5 = bytes::le64(unit.total_rows) + s6;
    let s4 = bytes::le32(unit.section_count) + s5;
    let s3 = bytes::lei64(unit.max_ts) + s4;
    let s2 = bytes::lei64(unit.min_ts) + s3;
    let s1 = seq![unit.level] + s2;
    assert(unit_bytes(unit) + rest =~= bytes::le64(unit.unit_id) + s1);
    u64_back(unit.unit_id, s1);
    byte_back(unit.level, s2);
    i64_back(unit.min_ts, s3);
    i64_back(unit.max_ts, s4);
    u32_back(unit.section_count, s5);
    u64_back(unit.total_rows, s6);
    u64_back(unit.file_len, s7);
    u32_back(unit.body_crc32, rest);
}

pub(crate) proof fn unit_width(unit: UnitMeta)
    ensures
        unit_bytes(unit).len() == 49,
{
    bytes::scalars_round_trip();
}

/// Whether every table's retirements fit the count that a reader accepts.
pub open spec fn retirements_fit(manifest: ManifestView) -> bool {
    forall|i: int|
        0 <= i < manifest.tables.len() ==> (#[trigger] manifest.tables[i]).retired_series.len()
            <= MAX_LOGICAL_STREAMS
}

/// A catalog that was written reads back as it was. Left out are catalogs whose body is larger than
/// a file may hold, and those with more retired series in one table than a reader accepts.
#[verifier::spinoff_prover]
pub proof fn catalog_round_trip(manifest: ManifestView)
    requires
        manifest.valid(),
        retirements_fit(manifest),
        body_bytes(manifest).len() <= MAX_MANIFEST_BODY_BYTES,
    ensures
        file_read(file_bytes(manifest)) == Ok::<ManifestView, Error>(manifest),
{
    bytes::scalars_round_trip();
    let body = body_bytes(manifest);
    let file = file_bytes(manifest);
    assert(file.take(4) =~= manifest_magic());
    assert(file.subrange(4, 6) =~= bytes::le16(1));
    assert(file.subrange(6, 8) =~= bytes::le16(0));
    assert(file.subrange(8, 16) =~= bytes::le64(manifest.identity.generation));
    assert(file.subrange(16, 20) =~= bytes::le32(body.len() as u32));
    assert(file.subrange(20, 24) =~= bytes::le32(checksum::crc32(body)));
    assert(file.skip(24) =~= body);
    body_back(manifest);
}

proof fn checkpoint_back(checkpoint: Checkpoint, rest: Seq<u8>)
    requires
        checkpoint.valid(),
    ensures
        take_checkpoint(checkpoint_bytes(checkpoint) + rest) == Ok::<(Checkpoint, Seq<u8>), Error>(
            (checkpoint, rest),
        ),
{
    let s2 = bytes::le64(checkpoint.next_seq) + rest;
    let s1 = bytes::le64(checkpoint.offset) + s2;
    assert(checkpoint_bytes(checkpoint) + rest =~= bytes::le64(checkpoint.segment_first_seq) + s1);
    u64_back(checkpoint.segment_first_seq, s1);
    u64_back(checkpoint.offset, s2);
    u64_back(checkpoint.next_seq, rest);
}

proof fn identity_back(identity: ManifestIdentity, rest: Seq<u8>)
    ensures
        take_identity(identity_bytes(identity) + rest, identity.generation) == Ok::<
            (ManifestIdentity, Seq<u8>),
            Error,
        >((identity, rest)),
{
    let s4 = bytes::le64(identity.writer_epoch) + rest;
    let s3 = bytes::le64(identity.shard_id) + s4;
    let s2 = bytes::le64(identity.generation) + s3;
    let s1 = bytes::le32(identity.table_high_water) + s2;
    assert(identity_bytes(identity) + rest =~= bytes::le64(identity.unit_high_water) + s1);
    u64_back(identity.unit_high_water, s1);
    u32_back(identity.table_high_water, s2);
    u64_back(identity.generation, s3);
    u64_back(identity.shard_id, s4);
    u64_back(identity.writer_epoch, rest);
}

proof fn retention_back(retention: RetentionState, rest: Seq<u8>)
    ensures
        take_retention(retention_bytes(retention) + rest) == Ok::<
            (RetentionState, Seq<u8>),
            Error,
        >((retention, rest)),
{
    let s1 = option_u64_bytes(retention.heads_generation) + rest;
    assert(retention_bytes(retention) + rest =~= option_i64_bytes(retention.floor) + s1);
    option_i64_back(retention.floor, s1);
    option_u64_back(retention.heads_generation, rest);
}

proof fn tables_back(tables: Seq<TableView>, rest: Seq<u8>)
    requires
        tables.len() <= MAX_TABLES,
        forall|i: int| 0 <= i < tables.len() ==> (#[trigger] tables[i]).valid(),
        forall|i: int|
            0 <= i < tables.len() ==> (#[trigger] tables[i]).retired_series.len()
                <= MAX_LOGICAL_STREAMS,
    ensures
        take_tables(listed(tables, table_writer()) + rest) == Ok::<
            (Seq<TableView>, Seq<u8>),
            Error,
        >((tables, rest)),
{
    assert forall|i: int, after: Seq<u8>| 0 <= i < tables.len() implies #[trigger] table_reader()(
        table_writer()(tables[i]) + after,
    ) == Ok::<(TableView, Seq<u8>), Error>((tables[i], after)) by {
        table_back(tables[i], after);
    }
    assert forall|i: int| 0 <= i < tables.len() implies (#[trigger] table_writer()(
        tables[i],
    )).len() >= 17 by {
        table_back(tables[i], rest);
    }
    list_back(tables, table_writer(), table_reader(), MAX_TABLES, 17, "tables", rest);
}

proof fn units_back(units: Seq<UnitMeta>, rest: Seq<u8>)
    requires
        units.len() <= MAX_LIVE_UNITS,
        forall|i: int| 0 <= i < units.len() ==> (#[trigger] units[i]).valid(),
    ensures
        take_units(listed(units, unit_writer()) + rest) == Ok::<(Seq<UnitMeta>, Seq<u8>), Error>(
            (units, rest),
        ),
{
    assert forall|i: int, after: Seq<u8>| 0 <= i < units.len() implies #[trigger] unit_reader()(
        unit_writer()(units[i]) + after,
    ) == Ok::<(UnitMeta, Seq<u8>), Error>((units[i], after)) by {
        unit_back(units[i], after);
    }
    assert forall|i: int| 0 <= i < units.len() implies (#[trigger] unit_writer()(units[i])).len()
        >= 49 by {
        unit_width(units[i]);
    }
    list_back(units, unit_writer(), unit_reader(), MAX_LIVE_UNITS, 49, "live_units", rest);
}

proof fn body_back(manifest: ManifestView)
    requires
        manifest.valid(),
        retirements_fit(manifest),
    ensures
        body_read(manifest.identity.generation, body_bytes(manifest)) == Ok::<
            ManifestView,
            Error,
        >(manifest),
{
    let none = Seq::<u8>::empty();
    let from_units = listed(manifest.units, unit_writer()) + none;
    let from_tables = listed(manifest.tables, table_writer()) + from_units;
    let from_retention = retention_bytes(manifest.retention) + from_tables;
    let from_identity = identity_bytes(manifest.identity) + from_retention;
    assert(body_bytes(manifest) =~= checkpoint_bytes(manifest.checkpoint) + from_identity);
    checkpoint_back(manifest.checkpoint, from_identity);
    identity_back(manifest.identity, from_retention);
    retention_back(manifest.retention, from_tables);
    tables_back(manifest.tables, from_units);
    units_back(manifest.units, none);
}

} // verus!
