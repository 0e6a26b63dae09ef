//! A catalog has one file: whatever is accepted is what would be written.
use vstd::prelude::*;

use super::catalog::{FieldRetirement, SeriesRetirement, TableView, UnitMeta};
use super::grammar;
use crate::bytes;
use crate::checksum;
use crate::error::Result;
use crate::limits::{MAX_LIVE_UNITS, MAX_LOGICAL_STREAMS, MAX_TABLES};
use crate::types::{FieldSchema, VersionView};

verus! {

proof fn halves(source: Seq<u8>, at: int)
    requires
        0 <= at <= source.len(),
    ensures
        source == source.take(at) + source.skip(at),
{
    assert(source =~= source.take(at) + source.skip(at));
}

proof fn u8_front(source: Seq<u8>)
    requires
        grammar::take_u8(source) is Ok,
    ensures
        ({
            let (value, rest) = grammar::take_u8(source)->Ok_0;
            source == seq![value] + rest
        }),
{
    assert(source =~= seq![source[0]] + source.skip(1));
}

proof fn u16_front(source: Seq<u8>)
    requires
        grammar::take_u16(source) is Ok,
    ensures
        ({
            let (value, rest) = grammar::take_u16(source)->Ok_0;
            source == bytes::le16(value) + rest
        }),
{
    bytes::scalars_round_trip();
    halves(source, 2);
    assert(source.take(2).len() == 2);
}

proof fn u32_front(source: Seq<u8>)
    requires
        grammar::take_u32(source) is Ok,
    ensures
        ({
            let (value, rest) = grammar::take_u32(source)->Ok_0;
            source == bytes::le32(value) + rest
        }),
{
    bytes::scalars_round_trip();
    halves(source, 4);
    assert(source.take(4).len() == 4);
}

proof fn u64_front(source: Seq<u8>)
    requires
        grammar::take_u64(source) is Ok,
    ensures
        ({
            let (value, rest) = grammar::take_u64(source)->Ok_0;
            source == bytes::le64(value) + rest
        }),
{
    bytes::scalars_round_trip();
    halves(source, 8);
    assert(source.take(8).len() == 8);
}

proof fn i64_front(source: Seq<u8>)
    requires
        grammar::take_i64(source) is Ok,
    ensures
        ({
            let (value, rest) = grammar::take_i64(source)->Ok_0;
            source == bytes::lei64(value) + rest
        }),
{
    bytes::scalars_round_trip();
    halves(source, 8);
    assert(source.take(8).len() == 8);
}

proof fn option_i64_front(source: Seq<u8>)
    requires
        grammar::take_option_i64(source) is Ok,
    ensures
        ({
            let (value, rest) = grammar::take_option_i64(source)->Ok_0;
            source == grammar::option_i64_bytes(value) + rest
        }),
{
    u8_front(source);
    let (tag, rest) = grammar::take_u8(source)->Ok_0;
    if tag == 1 {
        i64_front(rest);
        let (value, after) = grammar::take_i64(rest)->Ok_0;
        assert(source =~= (seq![1u8] + bytes::lei64(value)) + after);
    }
}

proof fn option_u64_front(source: Seq<u8>)
    requires
        grammar::take_option_u64(source) is Ok,
    ensures
        ({
            let (value, rest) = grammar::take_option_u64(source)->Ok_0;
            source == grammar::option_u64_bytes(value) + rest
        }),
{
    u8_front(source);
    let (tag, rest) = grammar::take_u8(source)->Ok_0;
    if tag == 1 {
        u64_front(rest);
        let (value, after) = grammar::take_u64(rest)->Ok_0;
        assert(source =~= (seq![1u8] + bytes::le64(value)) + after);
    }
}

/// Items that are each what would be written are so together.
proof fn many_front<T>(
    source: Seq<u8>,
    count: int,
    reader: spec_fn(Seq<u8>) -> Result<(T, Seq<u8>)>,
    writer: spec_fn(T) -> Seq<u8>,
)
    requires
        0 <= count,
        grammar::take_many(source, count, reader) is Ok,
        forall|s: Seq<u8>|
            (#[trigger] reader(s)) is Ok ==> s == writer(reader(s)->Ok_0.0) + reader(s)->Ok_0.1,
    ensures
        ({
            let (items, rest) = grammar::take_many(source, count, reader)->Ok_0;
            items.len() == count && source == grammar::written(items, writer) + rest
        }),
    decreases count,
{
    if count > 0 {
        many_front(source, count - 1, reader, writer);
        let (front, middle) = grammar::take_many(source, count - 1, reader)->Ok_0;
        let (last, rest) = reader(middle)->Ok_0;
        let items = front.push(last);
        assert(items.drop_last() =~= front);
        assert(source =~= (grammar::written(front, writer) + writer(last)) + rest);
    } else {
        assert(source =~= Seq::<u8>::empty() + source);
    }
}

/// A counted list is what would be written.
proof fn list_front<T>(
    source: Seq<u8>,
    maximum: u32,
    width: int,
    name: &'static str,
    reader: spec_fn(Seq<u8>) -> Result<(T, Seq<u8>)>,
    writer: spec_fn(T) -> Seq<u8>,
)
    requires
        grammar::take_count(source, maximum, width, name) matches Ok((count, rest))
            && grammar::take_many(rest, count, reader) is Ok,
        forall|s: Seq<u8>|
            (#[trigger] reader(s)) is Ok ==> s == writer(reader(s)->Ok_0.0) + reader(s)->Ok_0.1,
    ensures
        ({
            let (count, rest) = grammar::take_count(source, maximum, width, name)->Ok_0;
            let (items, after) = grammar::take_many(rest, count, reader)->Ok_0;
            source == grammar::listed(items, writer) + after
        }),
{
    u32_front(source);
    let (count, rest) = grammar::take_count(source, maximum, width, name)->Ok_0;
    many_front(rest, count, reader, writer);
    let (items, after) = grammar::take_many(rest, count, reader)->Ok_0;
    assert(source =~= (bytes::le32(items.len() as u32) + grammar::written(items, writer)) + after);
}

proof fn field_front(source: Seq<u8>)
    ensures
        grammar::take_field(source) matches Ok((field, rest)) ==> source == grammar::field_bytes(
            field,
        ) + rest,
{
    if grammar::take_field(source) is Ok {
        u16_front(source);
        let (field, rest) = grammar::take_u16(source)->Ok_0;
        u8_front(rest);
        let (tag, after) = grammar::take_u8(rest)->Ok_0;
        assert(source =~= (bytes::le16(field) + seq![tag]) + after);
    }
}

proof fn validity_front(source: Seq<u8>)
    requires
        grammar::take_validity(source) is Ok,
    ensures
        ({
            let (validity, rest) = grammar::take_validity(source)->Ok_0;
            source == grammar::validity_bytes(validity) + rest
        }),
{
    u8_front(source);
    let (tag, rest) = grammar::take_u8(source)->Ok_0;
    if tag == 0 {
        u32_front(rest);
        let (seconds, after) = grammar::take_u32(rest)->Ok_0;
        assert(source =~= (seq![0u8] + bytes::le32(seconds)) + after);
    }
}

proof fn version_front(source: Seq<u8>)
    ensures
        grammar::take_version(source) matches Ok((version, rest)) ==> source
            == grammar::version_bytes(version) + rest,
{
    if grammar::take_version(source) is Ok {
        u32_front(source);
        let (number, a) = grammar::take_u32(source)->Ok_0;
        validity_front(a);
        let (validity, b) = grammar::take_validity(a)->Ok_0;
        option_i64_front(b);
        let (effective, c) = grammar::take_option_i64(b)->Ok_0;
        let reader = grammar::field_reader();
        let writer = grammar::field_writer();
        assert forall|s: Seq<u8>| (#[trigger] reader(s)) is Ok implies s == writer(
            reader(s)->Ok_0.0,
        ) + reader(s)->Ok_0.1 by {
            field_front(s);
        }
        list_front::<FieldSchema>(c, MAX_LOGICAL_STREAMS, 3, "fields", reader, writer);
        let (version, rest) = grammar::take_version(source)->Ok_0;
        assert(source =~= (bytes::le32(number) + grammar::validity_bytes(validity)
            + grammar::option_i64_bytes(effective) + grammar::listed(version.fields, writer))
            + rest);
    }
}

proof fn series_front(source: Seq<u8>)
    ensures
        grammar::take_series(source) matches Ok((retirement, rest)) ==> source
            == grammar::series_bytes(retirement) + rest,
{
    if grammar::take_series(source) is Ok {
        u64_front(source);
        let (series, a) = grammar::take_u64(source)->Ok_0;
        i64_front(a);
        let (retire_ts, b) = grammar::take_i64(a)->Ok_0;
        assert(source =~= (bytes::le64(series) + bytes::lei64(retire_ts)) + b);
    }
}

proof fn retired_field_front(source: Seq<u8>)
    ensures
        grammar::take_retired_field(source) matches Ok((retirement, rest)) ==> source
            == grammar::retired_field_bytes(retirement) + rest,
{
    if grammar::take_retired_field(source) is Ok {
        u16_front(source);
        let (field, a) = grammar::take_u16(source)->Ok_0;
        i64_front(a);
        let (retire_ts, b) = grammar::take_i64(a)->Ok_0;
        assert(source =~= (bytes::le16(field) + bytes::lei64(retire_ts)) + b);
    }
}

proof fn versions_front(source: Seq<u8>)
    requires
        grammar::take_versions(source) is Ok,
    ensures
        ({
            let (versions, rest) = grammar::take_versions(source)->Ok_0;
            source == grammar::listed(versions, grammar::version_writer()) + rest
        }),
{
    let reader = grammar::version_reader();
    let writer = grammar::version_writer();
    assert forall|s: Seq<u8>| (#[trigger] reader(s)) is Ok implies s == writer(reader(s)->Ok_0.0)
        + reader(s)->Ok_0.1 by {
        version_front(s);
    }
    list_front::<VersionView>(source, MAX_LOGICAL_STREAMS, 10, "table_versions", reader, writer);
}

proof fn retired_series_front(source: Seq<u8>)
    requires
        grammar::take_retired_series(source) is Ok,
    ensures
        ({
            let (retired, rest) = grammar::take_retired_series(source)->Ok_0;
            source == grammar::listed(retired, grammar::series_writer()) + rest
        }),
{
    let reader = grammar::series_reader();
    let writer = grammar::series_writer();
    assert forall|s: Seq<u8>| (#[trigger] reader(s)) is Ok implies s == writer(reader(s)->Ok_0.0)
        + reader(s)->Ok_0.1 by {
        series_front(s);
    }
    list_front::<SeriesRetirement>(
        source,
        MAX_LOGICAL_STREAMS,
        16,
        "retired_series",
        reader,
        writer,
    );
}

proof fn retired_fields_front(source: Seq<u8>)
    requires
        grammar::take_retired_fields(source) is Ok,
    ensures
        ({
            let (retired, rest) = grammar::take_retired_fields(source)->Ok_0;
            source == grammar::listed(retired, grammar::retired_field_writer()) + rest
        }),
{
    let reader = grammar::retired_field_reader();
    let writer = grammar::retired_field_writer();
    assert forall|s: Seq<u8>| (#[trigger] reader(s)) is Ok implies s == writer(reader(s)->Ok_0.0)
        + reader(s)->Ok_0.1 by {
        retired_field_front(s);
    }
    list_front::<FieldRetirement>(
        source,
        MAX_LOGICAL_STREAMS,
        10,
        "retired_fields",
        reader,
        writer,
    );
}

proof fn table_front(source: Seq<u8>)
    ensures
        grammar::take_table(source) matches Ok((table, rest)) ==> source == grammar::table_bytes(
            table,
        ) + rest,
{
    if grammar::take_table(source) is Ok {
        u32_front(source);
        let (table, a) = grammar::take_u32(source)->Ok_0;
        option_i64_front(a);
        let (last_ts, b) = grammar::take_option_i64(a)->Ok_0;
        versions_front(b);
        let (versions, c) = grammar::take_versions(b)->Ok_0;
        retired_series_front(c);
        let (series, d) = grammar::take_retired_series(c)->Ok_0;
        retired_fields_front(d);
        let (fields, e) = grammar::take_retired_fields(d)->Ok_0;
        assert(source =~= (bytes::le32(table) + grammar::option_i64_bytes(last_ts)
            + grammar::listed(versions, grammar::version_writer()) + grammar::listed(
            series,
            grammar::series_writer(),
        ) + grammar::listed(fields, grammar::retired_field_writer())) + e);
    }
}

proof fn unit_front(source: Seq<u8>)
    ensures
        grammar::take_unit(source) matches Ok((unit, rest)) ==> source == grammar::unit_bytes(unit)
            + rest,
{
    if grammar::take_unit(source) is Ok {
        let (unit, rest) = grammar::take_unit(source)->Ok_0;
        u64_front(source);
        let a = grammar::take_u64(source)->Ok_0.1;
        u8_front(a);
        let b = grammar::take_u8(a)->Ok_0.1;
        i64_front(b);
        let c = grammar::take_i64(b)->Ok_0.1;
        i64_front(c);
        let d = grammar::take_i64(c)->Ok_0.1;
        u32_front(d);
        let e = grammar::take_u32(d)->Ok_0.1;
        u64_front(e);
        let f = grammar::take_u64(e)->Ok_0.1;
        u64_front(f);
        let g = grammar::take_u64(f)->Ok_0.1;
        u32_front(g);
        assert(source =~= (bytes::le64(unit.unit_id) + seq![unit.level] + bytes::lei64(unit.min_ts)
            + bytes::lei64(unit.max_ts) + bytes::le32(unit.section_count) + bytes::le64(
            unit.total_rows,
        ) + bytes::le64(unit.file_len) + bytes::le32(unit.body_crc32)) + rest);
    }
}

proof fn tables_front(source: Seq<u8>)
    requires
        grammar::take_tables(source) is Ok,
    ensures
        ({
            let (tables, rest) = grammar::take_tables(source)->Ok_0;
            source == grammar::listed(tables, grammar::table_writer()) + rest
        }),
{
    let reader = grammar::table_reader();
    let writer = grammar::table_writer();
    assert forall|s: Seq<u8>| (#[trigger] reader(s)) is Ok implies s == writer(reader(s)->Ok_0.0)
        + reader(s)->Ok_0.1 by {
        table_front(s);
    }
    list_front::<TableView>(source, MAX_TABLES, 17, "tables", reader, writer);
}

proof fn units_front(source: Seq<u8>)
    requires
        grammar::take_units(source) is Ok,
    ensures
        ({
            let (units, rest) = grammar::take_units(source)->Ok_0;
            source == grammar::listed(units, grammar::unit_writer()) + rest
        }),
{
    let reader = grammar::unit_reader();
    let writer = grammar::unit_writer();
    assert forall|s: Seq<u8>| (#[trigger] reader(s)) is Ok implies s == writer(reader(s)->Ok_0.0)
        + reader(s)->Ok_0.1 by {
        unit_front(s);
    }
    list_front::<UnitMeta>(source, MAX_LIVE_UNITS, 49, "live_units", reader, writer);
}

proof fn checkpoint_front(source: Seq<u8>)
    requires
        grammar::take_checkpoint(source) is Ok,
    ensures
        ({
            let (checkpoint, rest) = grammar::take_checkpoint(source)->Ok_0;
            source == grammar::checkpoint_bytes(checkpoint) + rest
        }),
{
    let (checkpoint, rest) = grammar::take_checkpoint(source)->Ok_0;
    u64_front(source);
    let a = grammar::take_u64(source)->Ok_0.1;
    u64_front(a);
    let b = grammar::take_u64(a)->Ok_0.1;
    u64_front(b);
    assert(source =~= (bytes::le64(checkpoint.segment_first_seq) + bytes::le64(checkpoint.offset)
        + bytes::le64(checkpoint.next_seq)) + rest);
}

proof fn identity_front(source: Seq<u8>, generation: u64)
    requires
        grammar::take_identity(source, generation) is Ok,
    ensures
        ({
            let (identity, rest) = grammar::take_identity(source, generation)->Ok_0;
            identity.generation == generation && source == grammar::identity_bytes(identity) + rest
        }),
{
    let (identity, rest) = grammar::take_identity(source, generation)->Ok_0;
    u64_front(source);
    let a = grammar::take_u64(source)->Ok_0.1;
    u32_front(a);
    let b = grammar::take_u32(a)->Ok_0.1;
    u64_front(b);
    let c = grammar::take_u64(b)->Ok_0.1;
    u64_front(c);
    let d = grammar::take_u64(c)->Ok_0.1;
    u64_front(d);
    assert(source =~= (bytes::le64(identity.unit_high_water) + bytes::le32(
        identity.table_high_water,
    ) + bytes::le64(identity.generation) + bytes::le64(identity.shard_id) + bytes::le64(
        identity.writer_epoch,
    )) + rest);
}

proof fn retention_front(source: Seq<u8>)
    requires
        grammar::take_retention(source) is Ok,
    ensures
        ({
            let (retention, rest) = grammar::take_retention(source)->Ok_0;
            source == grammar::retention_bytes(retention) + rest
        }),
{
    let (retention, rest) = grammar::take_retention(source)->Ok_0;
    option_i64_front(source);
    let a = grammar::take_option_i64(source)->Ok_0.1;
    option_u64_front(a);
    assert(source =~= (grammar::option_i64_bytes(retention.floor) + grammar::option_u64_bytes(
        retention.heads_generation,
    )) + rest);
}

proof fn body_front(generation: u64, body: Seq<u8>)
    requires
        grammar::body_read(generation, body) is Ok,
    ensures
        ({
            let manifest = grammar::body_read(generation, body)->Ok_0;
            manifest.identity.generation == generation && body == grammar::body_bytes(manifest)
        }),
{
    checkpoint_front(body);
    let (checkpoint, a) = grammar::take_checkpoint(body)->Ok_0;
    identity_front(a, generation);
    let (identity, b) = grammar::take_identity(a, generation)->Ok_0;
    retention_front(b);
    let (retention, c) = grammar::take_retention(b)->Ok_0;
    tables_front(c);
    let (tables, d) = grammar::take_tables(c)->Ok_0;
    units_front(d);
    let (units, e) = grammar::take_units(d)->Ok_0;
    assert(body =~= grammar::checkpoint_bytes(checkpoint) + grammar::identity_bytes(identity)
        + grammar::retention_bytes(retention) + grammar::listed(tables, grammar::table_writer())
        + grammar::listed(units, grammar::unit_writer()));
}

/// A file that is accepted as a catalog is exactly the file that the catalog is written to. So no
/// two files hold the same catalog, and a file that differs from what was published in any byte is
/// refused or holds another catalog.
pub proof fn accepted_catalogs_are_canonical(file: Seq<u8>)
    requires
        grammar::file_read(file) is Ok,
    ensures
        file == grammar::file_bytes(grammar::file_read(file)->Ok_0),
{
    bytes::scalars_round_trip();
    let manifest = grammar::file_read(file)->Ok_0;
    let generation = bytes::un64(file.subrange(8, 16));
    let body = file.skip(24);
    body_front(generation, body);
    assert(file.subrange(4, 6).len() == 2);
    assert(file.subrange(6, 8).len() == 2);
    assert(file.subrange(8, 16).len() == 8);
    assert(file.subrange(16, 20).len() == 4);
    assert(file.subrange(20, 24).len() == 4);
    assert(bytes::le16(bytes::un16(file.subrange(4, 6))) == file.subrange(4, 6));
    assert(bytes::le16(bytes::un16(file.subrange(6, 8))) == file.subrange(6, 8));
    assert(bytes::le32(bytes::un32(file.subrange(16, 20))) == file.subrange(16, 20));
    assert(bytes::le32(bytes::un32(file.subrange(20, 24))) == file.subrange(20, 24));
    assert(file =~= file.take(4) + file.subrange(4, 6) + file.subrange(6, 8) + file.subrange(8, 16)
        + file.subrange(16, 20) + file.subrange(20, 24) + body);
    assert(body.len() == bytes::un32(file.subrange(16, 20)));
    assert(checksum::crc32(body) == bytes::un32(file.subrange(20, 24)));
}

} // verus!
