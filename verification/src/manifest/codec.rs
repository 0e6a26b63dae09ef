//! Writing and reading catalog files.
use vstd::prelude::*;

use super::catalog::{
    self, FieldRetirement, Manifest, ManifestIdentity, ManifestView, RetentionState,
    SeriesRetirement, TableCatalog, TableView, UnitMeta,
};
use super::grammar;
use crate::bytes;
use crate::checksum;
use crate::error::{self, Error, Result};
use crate::limits::{
    MAX_LIVE_UNITS, MAX_LOGICAL_STREAMS, MAX_MANIFEST_BODY_BYTES, MAX_TABLES,
};
use crate::types::{
    self, FieldId, FieldSchema, SeriesId, TableId, TableVersion, Validity, ValueType, VersionView,
};
use crate::wal::Checkpoint;

verus! {

pub const MANIFEST_HEADER_BYTES: usize = grammar::MANIFEST_HEADER_BYTES;

/// A size that a machine word holds.
pub open spec fn sized(size: int) -> Result<usize> {
    if size > usize::MAX {
        Err(error::limit("manifest_body_bytes", u64::MAX, MAX_MANIFEST_BODY_BYTES as u64))
    } else {
        Ok(size as usize)
    }
}

/// A running size.
#[derive(Clone, Copy, Debug)]
pub struct BodySize {
    pub size: usize,
}

impl BodySize {
    pub fn add(&mut self, more: usize) -> (r: Result<()>)
        ensures
            r is Ok == (old(self).size + more <= usize::MAX),
            match r {
                Ok(_) => final(self).size == old(self).size + more,
                Err(e) => e == error::limit(
                    "manifest_body_bytes",
                    u64::MAX,
                    MAX_MANIFEST_BODY_BYTES as u64,
                ) && final(self).size == old(self).size,
            },
    {
        if self.size > usize::MAX - more {
            return Err(
                Error::limit("manifest_body_bytes", u64::MAX, MAX_MANIFEST_BODY_BYTES as u64),
            );
        }
        self.size = self.size + more;
        Ok(())
    }

    pub fn add_items(&mut self, count: usize, width: usize) -> (r: Result<()>)
        requires
            width > 0,
        ensures
            r is Ok == (old(self).size + count * width <= usize::MAX),
            match r {
                Ok(_) => final(self).size == old(self).size + count * width,
                Err(e) => e == error::limit(
                    "manifest_body_bytes",
                    u64::MAX,
                    MAX_MANIFEST_BODY_BYTES as u64,
                ) && final(self).size == old(self).size,
            },
    {
        assert(count > usize::MAX / width ==> count * width > usize::MAX) by (nonlinear_arith)
            requires
                width > 0,
        ;
        assert(count <= usize::MAX / width ==> count * width <= usize::MAX) by (nonlinear_arith)
            requires
                width > 0,
        ;
        if count > usize::MAX / width {
            return Err(
                Error::limit("manifest_body_bytes", u64::MAX, MAX_MANIFEST_BODY_BYTES as u64),
            );
        }
        self.add(count * width)
    }
}

fn option_width(present: bool) -> (width: usize)
    ensures
        width == (if present {
            9int
        } else {
            1
        }),
{
    if present {
        9
    } else {
        1
    }
}

proof fn option_widths()
    ensures
        forall|v: Option<i64>|
            #[trigger] grammar::option_i64_bytes(v).len() == (if v is Some {
                9int
            } else {
                1
            }),
        forall|v: Option<u64>|
            #[trigger] grammar::option_u64_bytes(v).len() == (if v is Some {
                9int
            } else {
                1
            }),
{
    bytes::scalars_round_trip();
}

proof fn field_list_len(fields: Seq<FieldSchema>)
    ensures
        grammar::written(fields, grammar::field_writer()).len() == fields.len() * 3,
{
    bytes::scalars_round_trip();
    assert forall|i: int| 0 <= i < fields.len() implies (#[trigger] grammar::field_writer()(
        fields[i],
    )).len() == 3 by {}
    grammar::written_len(fields, grammar::field_writer(), 3);
}

proof fn series_list_len(series: Seq<SeriesRetirement>)
    ensures
        grammar::written(series, grammar::series_writer()).len() == series.len() * 16,
{
    bytes::scalars_round_trip();
    assert forall|i: int| 0 <= i < series.len() implies (#[trigger] grammar::series_writer()(
        series[i],
    )).len() == 16 by {}
    grammar::written_len(series, grammar::series_writer(), 16);
}

proof fn retired_list_len(fields: Seq<FieldRetirement>)
    ensures
        grammar::written(fields, grammar::retired_field_writer()).len() == fields.len() * 10,
{
    bytes::scalars_round_trip();
    assert forall|i: int| 0 <= i < fields.len() implies (#[trigger] grammar::retired_field_writer()(
        fields[i],
    )).len() == 10 by {}
    grammar::written_len(fields, grammar::retired_field_writer(), 10);
}

proof fn unit_list_len(units: Seq<UnitMeta>)
    ensures
        grammar::written(units, grammar::unit_writer()).len() == units.len() * 49,
{
    assert forall|i: int| 0 <= i < units.len() implies (#[trigger] grammar::unit_writer()(
        units[i],
    )).len() == 49 by {
        grammar::unit_width(units[i]);
    }
    grammar::written_len(units, grammar::unit_writer(), 49);
}

fn measure_version(version: &TableVersion) -> (r: Result<usize>)
    ensures
        r == sized(grammar::version_bytes(version@).len() as int),
{
    proof {
        bytes::scalars_round_trip();
        option_widths();
        field_list_len(version.fields@);
    }
    let fixed: usize = if version.validity.duration().is_some() {
        13
    } else {
        9
    };
    let mut size = BodySize { size: fixed + option_width(version.effective_from.is_some()) };
    match size.add_items(version.fields.len(), 3) {
        Ok(_) => Ok(size.size),
        Err(e) => Err(e),
    }
}

fn measure_table(table: &TableCatalog) -> (r: Result<usize>)
    ensures
        r == sized(grammar::table_bytes(table@).len() as int),
{
    let ghost versions = table@.versions;
    proof {
        bytes::scalars_round_trip();
        option_widths();
        series_list_len(table.retired_series@);
        retired_list_len(table.retired_fields@);
        assert(versions.take(0) =~= Seq::<VersionView>::empty());
    }
    let mut size = BodySize { size: 16 + option_width(table.last_ts.is_some()) };
    let mut index: usize = 0;
    while index < table.versions.len()
        invariant
            index <= table.versions@.len(),
            versions == table@.versions,
            versions.len() == table.versions@.len(),
            size.size == 16 + grammar::option_i64_bytes(table.last_ts).len() + grammar::written(
                versions.take(index as int),
                grammar::version_writer(),
            ).len(),
            grammar::table_bytes(table@).len() >= 16 + grammar::option_i64_bytes(
                table.last_ts,
            ).len() + grammar::written(versions, grammar::version_writer()).len(),
        decreases table.versions@.len() - index,
    {
        proof {
            grammar::written_prefix(versions, grammar::version_writer(), index as int);
            grammar::written_prefix(versions, grammar::version_writer(), index + 1);
            assert(versions[index as int] == table.versions@[index as int]@);
        }
        let width: usize = match measure_version(&table.versions[index]) {
            Ok(width) => width,
            Err(e) => return Err(e),
        };
        match size.add(width) {
            Ok(_) => {},
            Err(e) => return Err(e),
        }
        index += 1;
    }
    assert(versions.take(versions.len() as int) =~= versions);
    match size.add_items(table.retired_series.len(), 16) {
        Ok(_) => {},
        Err(e) => return Err(e),
    }
    match size.add_items(table.retired_fields.len(), 10) {
        Ok(_) => Ok(size.size),
        Err(e) => Err(e),
    }
}

/// The size of a catalog's body.
pub fn measure_body(manifest: &Manifest) -> (r: Result<usize>)
    ensures
        r == sized(grammar::body_bytes(manifest@).len() as int),
{
    let ghost tables = manifest@.tables;
    proof {
        bytes::scalars_round_trip();
        option_widths();
        unit_list_len(manifest.units@);
        assert(tables.take(0) =~= Seq::<TableView>::empty());
    }
    let mut size = BodySize {
        size: 68 + option_width(manifest.retention.floor.is_some()) + option_width(
            manifest.retention.heads_generation.is_some(),
        ),
    };
    let ghost fixed = size.size as int;
    let mut index: usize = 0;
    while index < manifest.tables.len()
        invariant
            index <= manifest.tables@.len(),
            tables == manifest@.tables,
            tables.len() == manifest.tables@.len(),
            size.size == fixed + grammar::written(
                tables.take(index as int),
                grammar::table_writer(),
            ).len(),
            grammar::body_bytes(manifest@).len() >= fixed + grammar::written(
                tables,
                grammar::table_writer(),
            ).len(),
        decreases manifest.tables@.len() - index,
    {
        proof {
            grammar::written_prefix(tables, grammar::table_writer(), index as int);
            grammar::written_prefix(tables, grammar::table_writer(), index + 1);
            assert(tables[index as int] == manifest.tables@[index as int]@);
        }
        let width: usize = match measure_table(&manifest.tables[index]) {
            Ok(width) => width,
            Err(e) => return Err(e),
        };
        match size.add(width) {
            Ok(_) => {},
            Err(e) => return Err(e),
        }
        index += 1;
    }
    assert(tables.take(tables.len() as int) =~= tables);
    match size.add_items(manifest.units.len(), 49) {
        Ok(_) => Ok(size.size),
        Err(e) => Err(e),
    }
}

fn put_option_i64(output: &mut Vec<u8>, value: Option<i64>)
    ensures
        final(output)@ == old(output)@ + grammar::option_i64_bytes(value),
{
    match value {
        None => {
            output.push(0);
        },
        Some(value) => {
            output.push(1);
            bytes::put_i64(output, value);
        },
    }
    assert(output@ =~= old(output)@ + grammar::option_i64_bytes(value));
}

fn put_option_u64(output: &mut Vec<u8>, value: Option<u64>)
    ensures
        final(output)@ == old(output)@ + grammar::option_u64_bytes(value),
{
    match value {
        None => {
            output.push(0);
        },
        Some(value) => {
            output.push(1);
            bytes::put_u64(output, value);
        },
    }
    assert(output@ =~= old(output)@ + grammar::option_u64_bytes(value));
}

fn encode_version(version: &TableVersion, output: &mut Vec<u8>)
    requires
        version.fields@.len() <= u32::MAX,
    ensures
        final(output)@ == old(output)@ + grammar::version_bytes(version@),
{
    bytes::put_u32(output, version.version_no);
    match version.validity {
        Validity::DurationSeconds(seconds) => {
            output.push(0);
            bytes::put_u32(output, seconds.get());
        },
        Validity::Forever => {
            output.push(1);
        },
    }
    put_option_i64(output, version.effective_from);
    bytes::put_u32(output, version.fields.len() as u32);
    let ghost fields = version.fields@;
    let ghost head = output@;
    assert(head =~= old(output)@ + (bytes::le32(version.version_no) + grammar::validity_bytes(
        version.validity,
    ) + grammar::option_i64_bytes(version.effective_from) + bytes::le32(fields.len() as u32)));
    assert(fields.take(0) =~= Seq::<FieldSchema>::empty());
    assert(output@ =~= head + grammar::written(fields.take(0), grammar::field_writer()));
    let mut index: usize = 0;
    while index < version.fields.len()
        invariant
            index <= fields.len(),
            fields == version.fields@,
            output@ == head + grammar::written(fields.take(index as int), grammar::field_writer()),
        decreases fields.len() - index,
    {
        let field = version.fields[index];
        bytes::put_u16(output, field.field.get());
        output.push(field.value_type.tag());
        proof {
            grammar::written_prefix(fields, grammar::field_writer(), index as int);
            assert(output@ =~= head + grammar::written(
                fields.take(index + 1),
                grammar::field_writer(),
            ));
        }
        index += 1;
    }
    assert(fields.take(fields.len() as int) =~= fields);
    assert(output@ =~= old(output)@ + grammar::version_bytes(version@));
}

fn encode_versions(versions: &[TableVersion], output: &mut Vec<u8>)
    requires
        versions@.len() <= u32::MAX,
        forall|i: int|
            0 <= i < versions@.len() ==> (#[trigger] versions@[i]).fields@.len() <= u32::MAX,
    ensures
        final(output)@ == old(output)@ + grammar::listed(
            types::version_views(versions@),
            grammar::version_writer(),
        ),
{
    bytes::put_u32(output, versions.len() as u32);
    let ghost views = types::version_views(versions@);
    let ghost head = output@;
    assert(views.take(0) =~= Seq::<VersionView>::empty());
    assert(output@ =~= head + grammar::written(views.take(0), grammar::version_writer()));
    let mut index: usize = 0;
    while index < versions.len()
        invariant
            index <= versions@.len(),
            views == types::version_views(versions@),
            views.len() == versions@.len(),
            forall|i: int|
                0 <= i < versions@.len() ==> (#[trigger] versions@[i]).fields@.len() <= u32::MAX,
            output@ == head + grammar::written(
                views.take(index as int),
                grammar::version_writer(),
            ),
        decreases versions@.len() - index,
    {
        encode_version(&versions[index], output);
        proof {
            grammar::written_prefix(views, grammar::version_writer(), index as int);
            assert(views[index as int] == versions@[index as int]@);
            assert(output@ =~= head + grammar::written(
                views.take(index + 1),
                grammar::version_writer(),
            ));
        }
        index += 1;
    }
    assert(views.take(views.len() as int) =~= views);
    assert(output@ =~= old(output)@ + grammar::listed(views, grammar::version_writer()));
}

fn encode_table(table: &TableCatalog, output: &mut Vec<u8>)
    requires
        countable(table@),
    ensures
        final(output)@ == old(output)@ + grammar::table_bytes(table@),
{
    bytes::put_u32(output, table.table.get());
    put_option_i64(output, table.last_ts);
    proof {
        assert forall|i: int| 0 <= i < table.versions@.len() implies (
        #[trigger] table.versions@[i]).fields@.len() <= u32::MAX by {
            assert(table@.versions[i].fields.len() <= u32::MAX);
        }
    }
    encode_versions(table.versions.as_slice(), output);
    bytes::put_u32(output, table.retired_series.len() as u32);
    let ghost series = table.retired_series@;
    let ghost head = output@;
    assert(series.take(0) =~= Seq::<SeriesRetirement>::empty());
    assert(output@ =~= head + grammar::written(series.take(0), grammar::series_writer()));
    let mut index: usize = 0;
    while index < table.retired_series.len()
        invariant
            index <= series.len(),
            series == table.retired_series@,
            output@ == head + grammar::written(
                series.take(index as int),
                grammar::series_writer(),
            ),
        decreases series.len() - index,
    {
        let retirement = table.retired_series[index];
        bytes::put_u64(output, retirement.series.get());
        bytes::put_i64(output, retirement.retire_ts);
        proof {
            grammar::written_prefix(series, grammar::series_writer(), index as int);
            assert(output@ =~= head + grammar::written(
                series.take(index + 1),
                grammar::series_writer(),
            ));
        }
        index += 1;
    }
    assert(series.take(series.len() as int) =~= series);
    let ghost middle = output@;
    bytes::put_u32(output, table.retired_fields.len() as u32);
    let ghost fields = table.retired_fields@;
    let ghost tail = output@;
    assert(fields.take(0) =~= Seq::<FieldRetirement>::empty());
    assert(output@ =~= tail + grammar::written(fields.take(0), grammar::retired_field_writer()));
    let mut at: usize = 0;
    while at < table.retired_fields.len()
        invariant
            at <= fields.len(),
            fields == table.retired_fields@,
            output@ == tail + grammar::written(
                fields.take(at as int),
                grammar::retired_field_writer(),
            ),
        decreases fields.len() - at,
    {
        let retirement = table.retired_fields[at];
        bytes::put_u16(output, retirement.field.get());
        bytes::put_i64(output, retirement.retire_ts);
        proof {
            grammar::written_prefix(fields, grammar::retired_field_writer(), at as int);
            assert(output@ =~= tail + grammar::written(
                fields.take(at + 1),
                grammar::retired_field_writer(),
            ));
        }
        at += 1;
    }
    assert(fields.take(fields.len() as int) =~= fields);
    assert(output@ =~= old(output)@ + grammar::table_bytes(table@));
}

/// Whether every count of a table fits 32 bits.
spec fn countable(table: TableView) -> bool {
    &&& table.versions.len() <= u32::MAX
    &&& table.retired_series.len() <= u32::MAX
    &&& table.retired_fields.len() <= u32::MAX
    &&& forall|i: int|
        0 <= i < table.versions.len() ==> (#[trigger] table.versions[i]).fields.len() <= u32::MAX
}

/// One item is no longer than all of them together.
proof fn item_within<T>(items: Seq<T>, writer: spec_fn(T) -> Seq<u8>, i: int)
    requires
        0 <= i < items.len(),
    ensures
        writer(items[i]).len() <= grammar::written(items, writer).len(),
{
    grammar::written_prefix(items, writer, i);
    grammar::written_prefix(items, writer, i + 1);
}

/// The counts of a body that fits the file format fit 32 bits.
proof fn small_body_is_countable(manifest: ManifestView)
    requires
        grammar::body_bytes(manifest).len() <= MAX_MANIFEST_BODY_BYTES,
    ensures
        manifest.tables.len() <= u32::MAX,
        manifest.units.len() <= u32::MAX,
        forall|i: int| 0 <= i < manifest.tables.len() ==> countable(#[trigger] manifest.tables[i]),
{
    bytes::scalars_round_trip();
    unit_list_len(manifest.units);
    assert forall|i: int| 0 <= i < manifest.tables.len() implies (#[trigger] grammar::table_writer()(
        manifest.tables[i],
    )).len() >= 4 by {}
    grammar::written_at_least(manifest.tables, grammar::table_writer(), 4);
    assert forall|i: int| 0 <= i < manifest.tables.len() implies countable(
        #[trigger] manifest.tables[i],
    ) by {
        let table = manifest.tables[i];
        item_within(manifest.tables, grammar::table_writer(), i);
        series_list_len(table.retired_series);
        retired_list_len(table.retired_fields);
        assert forall|j: int|
            0 <= j < table.versions.len() implies (#[trigger] grammar::version_writer()(
            table.versions[j],
        )).len() >= 4 by {}
        grammar::written_at_least(table.versions, grammar::version_writer(), 4);
        assert forall|j: int| 0 <= j < table.versions.len() implies (
        #[trigger] table.versions[j]).fields.len() <= u32::MAX by {
            item_within(table.versions, grammar::version_writer(), j);
            field_list_len(table.versions[j].fields);
        }
    }
}

fn encode_units(units: &[UnitMeta], output: &mut Vec<u8>)
    requires
        units@.len() <= u32::MAX,
    ensures
        final(output)@ == old(output)@ + grammar::listed(units@, grammar::unit_writer()),
{
    bytes::put_u32(output, units.len() as u32);
    let ghost head = output@;
    assert(units@.take(0) =~= Seq::<UnitMeta>::empty());
    assert(output@ =~= head + grammar::written(units@.take(0), grammar::unit_writer()));
    let mut index: usize = 0;
    while index < units.len()
        invariant
            index <= units@.len(),
            output@ == head + grammar::written(units@.take(index as int), grammar::unit_writer()),
        decreases units@.len() - index,
    {
        let unit = units[index];
        let ghost before = output@;
        bytes::put_u64(output, unit.unit_id());
        output.push(unit.level());
        bytes::put_i64(output, unit.min_ts());
        bytes::put_i64(output, unit.max_ts());
        bytes::put_u32(output, unit.section_count());
        bytes::put_u64(output, unit.total_rows());
        bytes::put_u64(output, unit.file_len());
        bytes::put_u32(output, unit.body_crc32());
        proof {
            assert(output@ =~= before + grammar::unit_bytes(unit));
            grammar::written_prefix(units@, grammar::unit_writer(), index as int);
            assert(output@ =~= head + grammar::written(
                units@.take(index + 1),
                grammar::unit_writer(),
            ));
        }
        index += 1;
    }
    assert(units@.take(units@.len() as int) =~= units@);
    assert(output@ =~= old(output)@ + grammar::listed(units@, grammar::unit_writer()));
}

fn encode_body(manifest: &Manifest, output: &mut Vec<u8>)
    requires
        grammar::body_bytes(manifest@).len() <= MAX_MANIFEST_BODY_BYTES,
    ensures
        final(output)@ == old(output)@ + grammar::body_bytes(manifest@),
{
    proof {
        small_body_is_countable(manifest@);
    }
    let checkpoint = manifest.checkpoint;
    bytes::put_u64(output, checkpoint.segment_first_seq());
    bytes::put_u64(output, checkpoint.offset());
    bytes::put_u64(output, checkpoint.next_seq());
    assert(output@ =~= old(output)@ + grammar::checkpoint_bytes(checkpoint));
    let ghost first = output@;
    let identity = manifest.identity;
    bytes::put_u64(output, identity.unit_high_water());
    bytes::put_u32(output, identity.table_high_water());
    bytes::put_u64(output, identity.generation());
    bytes::put_u64(output, identity.shard_id());
    bytes::put_u64(output, identity.writer_epoch());
    assert(output@ =~= first + grammar::identity_bytes(identity));
    let ghost second = output@;
    let retention = manifest.retention;
    put_option_i64(output, retention.floor());
    put_option_u64(output, retention.heads_generation());
    assert(output@ =~= second + grammar::retention_bytes(retention));
    let ghost third = output@;
    bytes::put_u32(output, manifest.tables.len() as u32);
    let ghost tables = manifest@.tables;
    let ghost head = output@;
    assert(tables.take(0) =~= Seq::<TableView>::empty());
    assert(output@ =~= head + grammar::written(tables.take(0), grammar::table_writer()));
    let mut index: usize = 0;
    while index < manifest.tables.len()
        invariant
            index <= manifest.tables@.len(),
            tables == manifest@.tables,
            tables.len() == manifest.tables@.len(),
            forall|i: int| 0 <= i < tables.len() ==> countable(#[trigger] tables[i]),
            output@ == head + grammar::written(tables.take(index as int), grammar::table_writer()),
        decreases manifest.tables@.len() - index,
    {
        proof {
            assert(tables[index as int] == manifest.tables@[index as int]@);
            grammar::written_prefix(tables, grammar::table_writer(), index as int);
        }
        encode_table(&manifest.tables[index], output);
        assert(output@ =~= head + grammar::written(
            tables.take(index + 1),
            grammar::table_writer(),
        ));
        index += 1;
    }
    assert(tables.take(tables.len() as int) =~= tables);
    assert(output@ =~= third + grammar::listed(tables, grammar::table_writer()));
    encode_units(manifest.units.as_slice(), output);
    assert(output@ =~= old(output)@ + grammar::body_bytes(manifest@));
}

/// Writes a catalog file. It fails exactly where the body is larger than a file may hold.
pub fn encode(manifest: &Manifest) -> (r: Result<Vec<u8>>)
    ensures
        ({
            let size = grammar::body_bytes(manifest@).len();
            match r {
                Ok(file) => size <= MAX_MANIFEST_BODY_BYTES && file@ == grammar::file_bytes(
                    manifest@,
                ),
                Err(e) => size > MAX_MANIFEST_BODY_BYTES && e == error::limit(
                    "manifest_body_bytes",
                    if size > usize::MAX {
                        u64::MAX
                    } else {
                        size as u64
                    },
                    MAX_MANIFEST_BODY_BYTES as u64,
                ),
            }
        }),
{
    let measured: usize = match measure_body(manifest) {
        Ok(measured) => measured,
        Err(e) => return Err(e),
    };
    if measured > MAX_MANIFEST_BODY_BYTES as usize {
        return Err(
            Error::limit("manifest_body_bytes", measured as u64, MAX_MANIFEST_BODY_BYTES as u64),
        );
    }
    let mut body: Vec<u8> = Vec::new();
    encode_body(manifest, &mut body);
    assert(body@ =~= grammar::body_bytes(manifest@));
    let mut file: Vec<u8> = vec![76u8, 83, 77, 49];
    assert(file@ =~= grammar::manifest_magic());
    bytes::put_u16(&mut file, 1);
    bytes::put_u16(&mut file, 0);
    bytes::put_u64(&mut file, manifest.identity.generation());
    bytes::put_u32(&mut file, body.len() as u32);
    bytes::put_u32(&mut file, checksum::crc32_of(body.as_slice()));
    bytes::put_slice(&mut file, body.as_slice());
    assert(file@ =~= grammar::file_bytes(manifest@));
    Ok(file)
}

/// A place in a body that is being read.
pub struct Cursor<'a> {
    pub source: &'a [u8],
    pub offset: usize,
}

/// Whether an outcome is the one that the layout gives for what was left, and leaves what it
/// leaves.
pub open spec fn agrees<T>(
    outcome: Result<T>,
    expected: Result<(T, Seq<u8>)>,
    rest: Seq<u8>,
) -> bool {
    match (outcome, expected) {
        (Ok(value), Ok((wanted, left))) => value == wanted && rest == left,
        (Err(e), Err(wanted)) => e == wanted,
        _ => false,
    }
}

impl<'a> Cursor<'a> {
    pub open spec fn wf(&self) -> bool {
        self.offset <= self.source@.len()
    }

    pub open spec fn rest(&self) -> Seq<u8> {
        self.source@.skip(self.offset as int)
    }

    pub fn new(source: &'a [u8]) -> (cursor: Self)
        ensures
            cursor.wf(),
            cursor.rest() == source@,
    {
        let cursor = Cursor { source, offset: 0 };
        assert(cursor.rest() =~= source@);
        cursor
    }

    pub fn is_exhausted(&self) -> (exhausted: bool)
        requires
            self.wf(),
        ensures
            exhausted == (self.rest().len() == 0),
    {
        self.offset == self.source.len()
    }

    pub fn remaining(&self) -> (remaining: usize)
        requires
            self.wf(),
        ensures
            remaining == self.rest().len(),
    {
        self.source.len() - self.offset
    }

    /// Moves over `width` bytes that are there.
    fn skip_over(&mut self, width: usize)
        requires
            old(self).wf(),
            width <= old(self).rest().len(),
        ensures
            final(self).wf(),
            final(self).source == old(self).source,
            final(self).offset == old(self).offset + width,
            final(self).rest() == old(self).rest().skip(width as int),
    {
        let length: usize = self.source.len();
        assert(self.offset + width <= length);
        self.offset = self.offset + width;
        assert(self.rest() =~= old(self).rest().skip(width as int));
    }

    pub fn read_u8(&mut self) -> (r: Result<u8>)
        requires
            old(self).wf(),
        ensures
            final(self).wf(),
            agrees(r, grammar::take_u8(old(self).rest()), final(self).rest()),
    {
        if self.remaining() < 1 {
            return Err(Error::corruption("MANIFEST", "truncated byte"));
        }
        let value: u8 = self.source[self.offset];
        self.skip_over(1);
        Ok(value)
    }

    pub fn read_u16(&mut self) -> (r: Result<u16>)
        requires
            old(self).wf(),
        ensures
            final(self).wf(),
            agrees(r, grammar::take_u16(old(self).rest()), final(self).rest()),
    {
        if self.remaining() < 2 {
            return Err(Error::corruption("MANIFEST", "truncated scalar"));
        }
        let value: u16 = bytes::u16_at(self.source, self.offset);
        assert(self.source@.subrange(self.offset as int, self.offset + 2) =~= self.rest().take(2));
        self.skip_over(2);
        Ok(value)
    }

    pub fn read_u32(&mut self) -> (r: Result<u32>)
        requires
            old(self).wf(),
        ensures
            final(self).wf(),
            agrees(r, grammar::take_u32(old(self).rest()), final(self).rest()),
    {
        if self.remaining() < 4 {
            return Err(Error::corruption("MANIFEST", "truncated scalar"));
        }
        let value: u32 = bytes::u32_at(self.source, self.offset);
        assert(self.source@.subrange(self.offset as int, self.offset + 4) =~= self.rest().take(4));
        self.skip_over(4);
        Ok(value)
    }

    pub fn read_u64(&mut self) -> (r: Result<u64>)
        requires
            old(self).wf(),
        ensures
            final(self).wf(),
            agrees(r, grammar::take_u64(old(self).rest()), final(self).rest()),
    {
        if self.remaining() < 8 {
            return Err(Error::corruption("MANIFEST", "truncated scalar"));
        }
        let value: u64 = bytes::u64_at(self.source, self.offset);
        assert(self.source@.subrange(self.offset as int, self.offset + 8) =~= self.rest().take(8));
        self.skip_over(8);
        Ok(value)
    }

    pub fn read_i64(&mut self) -> (r: Result<i64>)
        requires
            old(self).wf(),
        ensures
            final(self).wf(),
            agrees(r, grammar::take_i64(old(self).rest()), final(self).rest()),
    {
        if self.remaining() < 8 {
            return Err(Error::corruption("MANIFEST", "truncated scalar"));
        }
        let value: i64 = bytes::i64_at(self.source, self.offset);
        assert(self.source@.subrange(self.offset as int, self.offset + 8) =~= self.rest().take(8));
        self.skip_over(8);
        Ok(value)
    }

    pub fn read_option_i64(&mut self) -> (r: Result<Option<i64>>)
        requires
            old(self).wf(),
        ensures
            final(self).wf(),
            agrees(r, grammar::take_option_i64(old(self).rest()), final(self).rest()),
    {
        match self.read_u8() {
            Err(e) => Err(e),
            Ok(0) => Ok(None),
            Ok(1) => match self.read_i64() {
                Err(e) => Err(e),
                Ok(value) => Ok(Some(value)),
            },
            Ok(_) => Err(Error::corruption("MANIFEST", "unknown Option<i64> tag")),
        }
    }

    pub fn read_option_u64(&mut self) -> (r: Result<Option<u64>>)
        requires
            old(self).wf(),
        ensures
            final(self).wf(),
            agrees(r, grammar::take_option_u64(old(self).rest()), final(self).rest()),
    {
        match self.read_u8() {
            Err(e) => Err(e),
            Ok(0) => Ok(None),
            Ok(1) => match self.read_u64() {
                Err(e) => Err(e),
                Ok(value) => Ok(Some(value)),
            },
            Ok(_) => Err(Error::corruption("MANIFEST", "unknown Option<u64> tag")),
        }
    }

    pub fn read_count(&mut self, maximum: u32, width: usize, name: &'static str) -> (r: Result<
        usize,
    >)
        requires
            old(self).wf(),
            width <= 1024,
        ensures
            final(self).wf(),
            match (r, grammar::take_count(old(self).rest(), maximum, width as int, name)) {
                (Ok(count), Ok((wanted, left))) => count == wanted && final(self).rest() == left,
                (Err(e), Err(wanted)) => e == wanted,
                _ => false,
            },
    {
        let count: u32 = match self.read_u32() {
            Ok(count) => count,
            Err(e) => return Err(e),
        };
        if count > maximum {
            return Err(Error::limit(name, count as u64, maximum as u64));
        }
        assert(count * width <= 4_398_046_510_080) by (nonlinear_arith)
            requires
                count <= 4_294_967_295,
                width <= 1024,
        ;
        let needed: u64 = count as u64 * width as u64;
        if needed > self.remaining() as u64 {
            return Err(Error::corruption("MANIFEST", "count exceeds remaining body"));
        }
        Ok(count as usize)
    }
}

/// A refused item refuses the whole list.
proof fn item_refusal_is_final<T>(
    source: Seq<u8>,
    count: int,
    whole: int,
    reader: spec_fn(Seq<u8>) -> Result<(T, Seq<u8>)>,
)
    requires
        0 <= count <= whole,
    ensures
        grammar::take_many(source, count, reader) is Err ==> grammar::take_many(
            source,
            whole,
            reader,
        ) == Err::<(Seq<T>, Seq<u8>), Error>(grammar::take_many(source, count, reader)->Err_0),
    decreases whole - count,
{
    if count < whole {
        item_refusal_is_final(source, count + 1, whole, reader);
    }
}

fn decode_value_type(tag: u8) -> (r: Result<ValueType>)
    ensures
        r == grammar::value_type_of(tag),
{
    match tag {
        0 => Ok(ValueType::UInt),
        1 => Ok(ValueType::Sq1),
        2 => Ok(ValueType::F32Bits),
        _ => Err(Error::corruption("MANIFEST", "unknown value type tag")),
    }
}

fn decode_field(cursor: &mut Cursor<'_>) -> (r: Result<FieldSchema>)
    requires
        old(cursor).wf(),
    ensures
        final(cursor).wf(),
        agrees(r, grammar::take_field(old(cursor).rest()), final(cursor).rest()),
{
    let field: u16 = match cursor.read_u16() {
        Ok(field) => field,
        Err(e) => return Err(e),
    };
    let tag: u8 = match cursor.read_u8() {
        Ok(tag) => tag,
        Err(e) => return Err(e),
    };
    match decode_value_type(tag) {
        Ok(value_type) => Ok(FieldSchema { field: FieldId { value: field }, value_type }),
        Err(e) => Err(e),
    }
}

fn decode_validity(cursor: &mut Cursor<'_>) -> (r: Result<Validity>)
    requires
        old(cursor).wf(),
    ensures
        final(cursor).wf(),
        agrees(r, grammar::take_validity(old(cursor).rest()), final(cursor).rest()),
        r matches Ok(validity) ==> validity.wf(),
{
    match cursor.read_u8() {
        Err(e) => Err(e),
        Ok(0) => match cursor.read_u32() {
            Err(e) => Err(e),
            Ok(seconds) => match Validity::duration_seconds(seconds) {
                Ok(validity) => Ok(validity),
                Err(_) => Err(Error::corruption("MANIFEST", "finite validity is zero")),
            },
        },
        Ok(1) => Ok(Validity::Forever),
        Ok(_) => Err(Error::corruption("MANIFEST", "unknown validity tag")),
    }
}

fn decode_fields(cursor: &mut Cursor<'_>, count: usize) -> (r: Result<Vec<FieldSchema>>)
    requires
        old(cursor).wf(),
    ensures
        final(cursor).wf(),
        match (r, grammar::take_many(old(cursor).rest(), count as int, grammar::field_reader())) {
            (Ok(items), Ok((wanted, left))) => items@ == wanted && final(cursor).rest() == left,
            (Err(e), Err(wanted)) => e == wanted,
            _ => false,
        },
{
    let ghost source = cursor.rest();
    let mut items: Vec<FieldSchema> = Vec::new();
    let mut index: usize = 0;
    while index < count
        invariant
            index <= count,
            source == old(cursor).rest(),
            cursor.wf(),
            grammar::take_many(source, index as int, grammar::field_reader()) == Ok::<
                (Seq<FieldSchema>, Seq<u8>),
                Error,
            >((items@, cursor.rest())),
        decreases count - index,
    {
        proof {
            item_refusal_is_final(source, index + 1, count as int, grammar::field_reader());
        }
        match decode_field(cursor) {
            Ok(item) => items.push(item),
            Err(e) => return Err(e),
        }
        index += 1;
    }
    Ok(items)
}

fn decode_version(cursor: &mut Cursor<'_>) -> (r: Result<TableVersion>)
    requires
        old(cursor).wf(),
    ensures
        final(cursor).wf(),
        match (r, grammar::take_version(old(cursor).rest())) {
            (Ok(version), Ok((wanted, left))) => version@ == wanted && version.wf()
                && final(cursor).rest() == left,
            (Err(e), Err(wanted)) => e == wanted,
            _ => false,
        },
{
    let version_no: u32 = match cursor.read_u32() {
        Ok(version_no) => version_no,
        Err(e) => return Err(e),
    };
    let validity = match decode_validity(cursor) {
        Ok(validity) => validity,
        Err(e) => return Err(e),
    };
    let effective_from: Option<i64> = match cursor.read_option_i64() {
        Ok(effective_from) => effective_from,
        Err(e) => return Err(e),
    };
    let count: usize = match cursor.read_count(MAX_LOGICAL_STREAMS, 3, "fields") {
        Ok(count) => count,
        Err(e) => return Err(e),
    };
    let fields = match decode_fields(cursor, count) {
        Ok(fields) => fields,
        Err(e) => return Err(e),
    };
    TableVersion::restore(version_no, validity, fields, effective_from)
}

fn decode_versions(cursor: &mut Cursor<'_>) -> (r: Result<Vec<TableVersion>>)
    requires
        old(cursor).wf(),
    ensures
        final(cursor).wf(),
        match (r, grammar::take_versions(old(cursor).rest())) {
            (Ok(items), Ok((wanted, left))) => types::version_views(items@) == wanted && (forall|
                i: int,
            |
                0 <= i < items@.len() ==> (#[trigger] items@[i]).wf()) && final(cursor).rest()
                == left,
            (Err(e), Err(wanted)) => e == wanted,
            _ => false,
        },
{
    let count: usize = match cursor.read_count(MAX_LOGICAL_STREAMS, 10, "table_versions") {
        Ok(count) => count,
        Err(e) => return Err(e),
    };
    let ghost source = cursor.rest();
    let mut items: Vec<TableVersion> = Vec::new();
    let mut index: usize = 0;
    assert(types::version_views(items@) =~= Seq::<VersionView>::empty());
    while index < count
        invariant
            index <= count,
            grammar::take_count(old(cursor).rest(), MAX_LOGICAL_STREAMS, 10, "table_versions") == Ok::<
                (int, Seq<u8>),
                Error,
            >((count as int, source)),
            cursor.wf(),
            forall|i: int| 0 <= i < items@.len() ==> (#[trigger] items@[i]).wf(),
            grammar::take_many(source, index as int, grammar::version_reader()) == Ok::<
                (Seq<VersionView>, Seq<u8>),
                Error,
            >((types::version_views(items@), cursor.rest())),
        decreases count - index,
    {
        proof {
            item_refusal_is_final(source, index + 1, count as int, grammar::version_reader());
        }
        let ghost before = items@;
        match decode_version(cursor) {
            Ok(item) => {
                items.push(item);
                assert(types::version_views(items@) =~= types::version_views(before).push(item@));
            },
            Err(e) => return Err(e),
        }
        index += 1;
    }
    Ok(items)
}

fn decode_retired_series(cursor: &mut Cursor<'_>) -> (r: Result<Vec<SeriesRetirement>>)
    requires
        old(cursor).wf(),
    ensures
        final(cursor).wf(),
        match (r, grammar::take_retired_series(old(cursor).rest())) {
            (Ok(items), Ok((wanted, left))) => items@ == wanted && final(cursor).rest() == left,
            (Err(e), Err(wanted)) => e == wanted,
            _ => false,
        },
{
    let count: usize = match cursor.read_count(MAX_LOGICAL_STREAMS, 16, "retired_series") {
        Ok(count) => count,
        Err(e) => return Err(e),
    };
    let ghost source = cursor.rest();
    let mut items: Vec<SeriesRetirement> = Vec::new();
    let mut index: usize = 0;
    while index < count
        invariant
            index <= count,
            grammar::take_count(old(cursor).rest(), MAX_LOGICAL_STREAMS, 16, "retired_series") == Ok::<
                (int, Seq<u8>),
                Error,
            >((count as int, source)),
            cursor.wf(),
            grammar::take_many(source, index as int, grammar::series_reader()) == Ok::<
                (Seq<SeriesRetirement>, Seq<u8>),
                Error,
            >((items@, cursor.rest())),
        decreases count - index,
    {
        proof {
            item_refusal_is_final(source, index + 1, count as int, grammar::series_reader());
        }
        let series: u64 = match cursor.read_u64() {
            Ok(series) => series,
            Err(e) => return Err(e),
        };
        let retire_ts: i64 = match cursor.read_i64() {
            Ok(retire_ts) => retire_ts,
            Err(e) => return Err(e),
        };
        items.push(SeriesRetirement { series: SeriesId { value: series }, retire_ts });
        index += 1;
    }
    Ok(items)
}

fn decode_retired_fields(cursor: &mut Cursor<'_>) -> (r: Result<Vec<FieldRetirement>>)
    requires
        old(cursor).wf(),
    ensures
        final(cursor).wf(),
        match (r, grammar::take_retired_fields(old(cursor).rest())) {
            (Ok(items), Ok((wanted, left))) => items@ == wanted && final(cursor).rest() == left,
            (Err(e), Err(wanted)) => e == wanted,
            _ => false,
        },
{
    let count: usize = match cursor.read_count(MAX_LOGICAL_STREAMS, 10, "retired_fields") {
        Ok(count) => count,
        Err(e) => return Err(e),
    };
    let ghost source = cursor.rest();
    let mut items: Vec<FieldRetirement> = Vec::new();
    let mut index: usize = 0;
    while index < count
        invariant
            index <= count,
            grammar::take_count(old(cursor).rest(), MAX_LOGICAL_STREAMS, 10, "retired_fields") == Ok::<
                (int, Seq<u8>),
                Error,
            >((count as int, source)),
            cursor.wf(),
            grammar::take_many(source, index as int, grammar::retired_field_reader()) == Ok::<
                (Seq<FieldRetirement>, Seq<u8>),
                Error,
            >((items@, cursor.rest())),
        decreases count - index,
    {
        proof {
            item_refusal_is_final(
                source,
                index + 1,
                count as int,
                grammar::retired_field_reader(),
            );
        }
        let field: u16 = match cursor.read_u16() {
            Ok(field) => field,
            Err(e) => return Err(e),
        };
        let retire_ts: i64 = match cursor.read_i64() {
            Ok(retire_ts) => retire_ts,
            Err(e) => return Err(e),
        };
        items.push(FieldRetirement { field: FieldId { value: field }, retire_ts });
        index += 1;
    }
    Ok(items)
}

fn decode_table(cursor: &mut Cursor<'_>) -> (r: Result<TableCatalog>)
    requires
        old(cursor).wf(),
    ensures
        final(cursor).wf(),
        match (r, grammar::take_table(old(cursor).rest())) {
            (Ok(table), Ok((wanted, left))) => table@ == wanted && table.valid()
                && final(cursor).rest() == left,
            (Err(e), Err(wanted)) => e == wanted,
            _ => false,
        },
{
    let table: u32 = match cursor.read_u32() {
        Ok(table) => table,
        Err(e) => return Err(e),
    };
    let last_ts: Option<i64> = match cursor.read_option_i64() {
        Ok(last_ts) => last_ts,
        Err(e) => return Err(e),
    };
    let versions = match decode_versions(cursor) {
        Ok(versions) => versions,
        Err(e) => return Err(e),
    };
    let retired_series = match decode_retired_series(cursor) {
        Ok(retired_series) => retired_series,
        Err(e) => return Err(e),
    };
    let retired_fields = match decode_retired_fields(cursor) {
        Ok(retired_fields) => retired_fields,
        Err(e) => return Err(e),
    };
    TableCatalog::restore(TableId::new(table), last_ts, versions, retired_series, retired_fields)
}

fn decode_tables(cursor: &mut Cursor<'_>) -> (r: Result<Vec<TableCatalog>>)
    requires
        old(cursor).wf(),
    ensures
        final(cursor).wf(),
        match (r, grammar::take_tables(old(cursor).rest())) {
            (Ok(items), Ok((wanted, left))) => catalog::table_views(items@) == wanted && (forall|
                i: int,
            |
                0 <= i < items@.len() ==> (#[trigger] items@[i]).valid()) && final(cursor).rest()
                == left,
            (Err(e), Err(wanted)) => e == wanted,
            _ => false,
        },
{
    let count: usize = match cursor.read_count(MAX_TABLES, 17, "tables") {
        Ok(count) => count,
        Err(e) => return Err(e),
    };
    let ghost source = cursor.rest();
    let mut items: Vec<TableCatalog> = Vec::new();
    let mut index: usize = 0;
    assert(catalog::table_views(items@) =~= Seq::<TableView>::empty());
    while index < count
        invariant
            index <= count,
            grammar::take_count(old(cursor).rest(), MAX_TABLES, 17, "tables") == Ok::<
                (int, Seq<u8>),
                Error,
            >((count as int, source)),
            cursor.wf(),
            forall|i: int| 0 <= i < items@.len() ==> (#[trigger] items@[i]).valid(),
            grammar::take_many(source, index as int, grammar::table_reader()) == Ok::<
                (Seq<TableView>, Seq<u8>),
                Error,
            >((catalog::table_views(items@), cursor.rest())),
        decreases count - index,
    {
        proof {
            item_refusal_is_final(source, index + 1, count as int, grammar::table_reader());
        }
        let ghost before = items@;
        match decode_table(cursor) {
            Ok(item) => {
                items.push(item);
                assert(catalog::table_views(items@) =~= catalog::table_views(before).push(item@));
            },
            Err(e) => return Err(e),
        }
        index += 1;
    }
    Ok(items)
}

fn decode_unit(cursor: &mut Cursor<'_>) -> (r: Result<UnitMeta>)
    requires
        old(cursor).wf(),
    ensures
        final(cursor).wf(),
        agrees(r, grammar::take_unit(old(cursor).rest()), final(cursor).rest()),
{
    let unit_id: u64 = match cursor.read_u64() {
        Ok(value) => value,
        Err(e) => return Err(e),
    };
    let level: u8 = match cursor.read_u8() {
        Ok(value) => value,
        Err(e) => return Err(e),
    };
    let min_ts: i64 = match cursor.read_i64() {
        Ok(value) => value,
        Err(e) => return Err(e),
    };
    let max_ts: i64 = match cursor.read_i64() {
        Ok(value) => value,
        Err(e) => return Err(e),
    };
    let section_count: u32 = match cursor.read_u32() {
        Ok(value) => value,
        Err(e) => return Err(e),
    };
    let total_rows: u64 = match cursor.read_u64() {
        Ok(value) => value,
        Err(e) => return Err(e),
    };
    let file_len: u64 = match cursor.read_u64() {
        Ok(value) => value,
        Err(e) => return Err(e),
    };
    let body_crc32: u32 = match cursor.read_u32() {
        Ok(value) => value,
        Err(e) => return Err(e),
    };
    UnitMeta::new(
        unit_id,
        level,
        min_ts,
        max_ts,
        section_count,
        total_rows,
        file_len,
        body_crc32,
    )
}

fn decode_units(cursor: &mut Cursor<'_>) -> (r: Result<Vec<UnitMeta>>)
    requires
        old(cursor).wf(),
    ensures
        final(cursor).wf(),
        match (r, grammar::take_units(old(cursor).rest())) {
            (Ok(items), Ok((wanted, left))) => items@ == wanted && (forall|i: int|
                0 <= i < items@.len() ==> (#[trigger] items@[i]).valid()) && final(cursor).rest()
                == left,
            (Err(e), Err(wanted)) => e == wanted,
            _ => false,
        },
{
    let count: usize = match cursor.read_count(MAX_LIVE_UNITS, 49, "live_units") {
        Ok(count) => count,
        Err(e) => return Err(e),
    };
    let ghost source = cursor.rest();
    let mut items: Vec<UnitMeta> = Vec::new();
    let mut index: usize = 0;
    while index < count
        invariant
            index <= count,
            grammar::take_count(old(cursor).rest(), MAX_LIVE_UNITS, 49, "live_units") == Ok::<
                (int, Seq<u8>),
                Error,
            >((count as int, source)),
            cursor.wf(),
            forall|i: int| 0 <= i < items@.len() ==> (#[trigger] items@[i]).valid(),
            grammar::take_many(source, index as int, grammar::unit_reader()) == Ok::<
                (Seq<UnitMeta>, Seq<u8>),
                Error,
            >((items@, cursor.rest())),
        decreases count - index,
    {
        proof {
            item_refusal_is_final(source, index + 1, count as int, grammar::unit_reader());
        }
        match decode_unit(cursor) {
            Ok(item) => items.push(item),
            Err(e) => return Err(e),
        }
        index += 1;
    }
    Ok(items)
}

fn decode_checkpoint(cursor: &mut Cursor<'_>) -> (r: Result<Checkpoint>)
    requires
        old(cursor).wf(),
    ensures
        final(cursor).wf(),
        agrees(r, grammar::take_checkpoint(old(cursor).rest()), final(cursor).rest()),
{
    let segment: u64 = match cursor.read_u64() {
        Ok(value) => value,
        Err(e) => return Err(e),
    };
    let offset: u64 = match cursor.read_u64() {
        Ok(value) => value,
        Err(e) => return Err(e),
    };
    let next_seq: u64 = match cursor.read_u64() {
        Ok(value) => value,
        Err(e) => return Err(e),
    };
    Checkpoint::new(segment, offset, next_seq)
}

fn decode_identity(cursor: &mut Cursor<'_>, generation: u64) -> (r: Result<ManifestIdentity>)
    requires
        old(cursor).wf(),
    ensures
        final(cursor).wf(),
        agrees(r, grammar::take_identity(old(cursor).rest(), generation), final(cursor).rest()),
{
    let unit_high_water: u64 = match cursor.read_u64() {
        Ok(value) => value,
        Err(e) => return Err(e),
    };
    let table_high_water: u32 = match cursor.read_u32() {
        Ok(value) => value,
        Err(e) => return Err(e),
    };
    let found: u64 = match cursor.read_u64() {
        Ok(value) => value,
        Err(e) => return Err(e),
    };
    if found != generation {
        return Err(Error::corruption("MANIFEST", "header and body generations disagree"));
    }
    let shard_id: u64 = match cursor.read_u64() {
        Ok(value) => value,
        Err(e) => return Err(e),
    };
    let writer_epoch: u64 = match cursor.read_u64() {
        Ok(value) => value,
        Err(e) => return Err(e),
    };
    Ok(
        ManifestIdentity::new(
            generation,
            unit_high_water,
            table_high_water,
            shard_id,
            writer_epoch,
        ),
    )
}

fn decode_retention(cursor: &mut Cursor<'_>) -> (r: Result<RetentionState>)
    requires
        old(cursor).wf(),
    ensures
        final(cursor).wf(),
        agrees(r, grammar::take_retention(old(cursor).rest()), final(cursor).rest()),
{
    let floor: Option<i64> = match cursor.read_option_i64() {
        Ok(value) => value,
        Err(e) => return Err(e),
    };
    let heads_generation: Option<u64> = match cursor.read_option_u64() {
        Ok(value) => value,
        Err(e) => return Err(e),
    };
    Ok(RetentionState::new(floor, heads_generation))
}

fn decode_body(generation: u64, body: &[u8]) -> (r: Result<Manifest>)
    ensures
        match (r, grammar::body_read(generation, body@)) {
            (Ok(manifest), Ok(wanted)) => manifest@ == wanted && manifest.valid(),
            (Err(e), Err(wanted)) => e == wanted,
            _ => false,
        },
{
    let mut cursor = Cursor::new(body);
    let checkpoint = match decode_checkpoint(&mut cursor) {
        Ok(checkpoint) => checkpoint,
        Err(e) => return Err(e),
    };
    let identity = match decode_identity(&mut cursor, generation) {
        Ok(identity) => identity,
        Err(e) => return Err(e),
    };
    let retention = match decode_retention(&mut cursor) {
        Ok(retention) => retention,
        Err(e) => return Err(e),
    };
    let tables = match decode_tables(&mut cursor) {
        Ok(tables) => tables,
        Err(e) => return Err(e),
    };
    let units = match decode_units(&mut cursor) {
        Ok(units) => units,
        Err(e) => return Err(e),
    };
    if !cursor.is_exhausted() {
        return Err(Error::corruption("MANIFEST", "trailing body bytes"));
    }
    let ghost table_list = tables@;
    let ghost unit_list = units@;
    match Manifest::restore(identity, checkpoint, retention, tables, units) {
        Ok(manifest) => {
            proof {
                assert forall|i: int| 0 <= i < manifest@.tables.len() implies (
                #[trigger] manifest@.tables[i]).valid() by {
                    assert(manifest@.tables[i] == table_list[i]@);
                    assert(table_list[i].valid());
                }
                assert forall|i: int| 0 <= i < manifest@.units.len() implies (
                #[trigger] manifest@.units[i]).valid() by {
                    assert(unit_list[i].valid());
                }
            }
            Ok(manifest)
        },
        Err(e) => Err(e),
    }
}

/// Reads a catalog file.
pub fn decode(source: &[u8]) -> (r: Result<Manifest>)
    ensures
        match (r, grammar::file_read(source@)) {
            (Ok(manifest), Ok(wanted)) => manifest@ == wanted && manifest.valid(),
            (Err(e), Err(wanted)) => e == wanted,
            _ => false,
        },
{
    if source.len() < MANIFEST_HEADER_BYTES {
        return Err(Error::corruption("MANIFEST", "truncated header"));
    }
    let magic: [u8; 4] = [76u8, 83, 77, 49];
    assert(magic@ =~= grammar::manifest_magic());
    let head = vstd::slice::slice_subrange(source, 0, 4);
    assert(head@ =~= source@.take(4));
    if !bytes::same_bytes(head, magic.as_slice()) {
        return Err(Error::corruption("MANIFEST", "magic mismatch"));
    }
    if bytes::u16_at(source, 4) != 1 {
        return Err(Error::corruption("MANIFEST", "format version mismatch"));
    }
    if bytes::u16_at(source, 6) != 0 {
        return Err(Error::corruption("MANIFEST", "reserved field is nonzero"));
    }
    let generation: u64 = bytes::u64_at(source, 8);
    let body_len: u32 = bytes::u32_at(source, 16);
    if body_len > MAX_MANIFEST_BODY_BYTES {
        return Err(
            Error::limit("manifest_body_bytes", body_len as u64, MAX_MANIFEST_BODY_BYTES as u64),
        );
    }
    if source.len() != body_len as usize + MANIFEST_HEADER_BYTES {
        return Err(Error::corruption("MANIFEST", "file length mismatch"));
    }
    let body = vstd::slice::slice_subrange(source, MANIFEST_HEADER_BYTES, source.len());
    assert(body@ =~= source@.skip(MANIFEST_HEADER_BYTES as int));
    if checksum::crc32_of(body) != bytes::u32_at(source, 20) {
        return Err(Error::corruption("MANIFEST", "body CRC32 mismatch"));
    }
    decode_body(generation, body)
}

} // verus!
