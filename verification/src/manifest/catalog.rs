use vstd::prelude::*;

use super::validate;
use crate::error::{self, Error, Result};
use crate::limits::{MAX_LIVE_UNITS, MAX_TABLES, MAX_UNIT_FILE_BYTES, MAX_UNIT_SECTIONS};
use crate::ordmap::OrderedMap;
use crate::types::{self, FieldId, SeriesId, TableId, TableVersion, VersionView};
use crate::wal::Checkpoint;

verus! {

/// Which catalog this is, and the identifiers that were ever allocated.
#[derive(Clone, Copy, Debug, PartialEq, Eq, Structural)]
pub struct ManifestIdentity {
    pub generation: u64,
    pub unit_high_water: u64,
    pub table_high_water: u32,
    pub shard_id: u64,
    pub writer_epoch: u64,
}

impl ManifestIdentity {
    pub fn new(
        generation: u64,
        unit_high_water: u64,
        table_high_water: u32,
        shard_id: u64,
        writer_epoch: u64,
    ) -> (identity: Self)
        ensures
            identity == (ManifestIdentity {
                generation,
                unit_high_water,
                table_high_water,
                shard_id,
                writer_epoch,
            }),
    {
        ManifestIdentity { generation, unit_high_water, table_high_water, shard_id, writer_epoch }
    }

    pub fn generation(self) -> (generation: u64)
        ensures
            generation == self.generation,
    {
        self.generation
    }

    pub fn unit_high_water(self) -> (high_water: u64)
        ensures
            high_water == self.unit_high_water,
    {
        self.unit_high_water
    }

    pub fn table_high_water(self) -> (high_water: u32)
        ensures
            high_water == self.table_high_water,
    {
        self.table_high_water
    }

    pub fn shard_id(self) -> (shard: u64)
        ensures
            shard == self.shard_id,
    {
        self.shard_id
    }

    pub fn writer_epoch(self) -> (epoch: u64)
        ensures
            epoch == self.writer_epoch,
    {
        self.writer_epoch
    }
}

/// From when on values are kept, and which head file stands for what was dropped.
#[derive(Clone, Copy, Debug, PartialEq, Eq, Structural)]
pub struct RetentionState {
    pub floor: Option<i64>,
    pub heads_generation: Option<u64>,
}

impl Default for RetentionState {
    fn default() -> (state: Self)
        ensures
            state == (RetentionState { floor: None, heads_generation: None }),
    {
        RetentionState { floor: None, heads_generation: None }
    }
}

impl RetentionState {
    pub fn new(floor: Option<i64>, heads_generation: Option<u64>) -> (state: Self)
        ensures
            state == (RetentionState { floor, heads_generation }),
    {
        RetentionState { floor, heads_generation }
    }

    pub fn floor(self) -> (floor: Option<i64>)
        ensures
            floor == self.floor,
    {
        self.floor
    }

    pub fn heads_generation(self) -> (generation: Option<u64>)
        ensures
            generation == self.heads_generation,
    {
        self.heads_generation
    }
}

#[derive(Clone, Copy, Debug, PartialEq, Eq, Structural)]
pub struct SeriesRetirement {
    pub series: SeriesId,
    pub retire_ts: i64,
}

impl SeriesRetirement {
    pub fn new(series: SeriesId, retire_ts: i64) -> (retirement: Self)
        ensures
            retirement == (SeriesRetirement { series, retire_ts }),
    {
        SeriesRetirement { series, retire_ts }
    }

    pub fn series(self) -> (series: SeriesId)
        ensures
            series == self.series,
    {
        self.series
    }

    pub fn retire_ts(self) -> (retire_ts: i64)
        ensures
            retire_ts == self.retire_ts,
    {
        self.retire_ts
    }
}

#[derive(Clone, Copy, Debug, PartialEq, Eq, Structural)]
pub struct FieldRetirement {
    pub field: FieldId,
    pub retire_ts: i64,
}

impl FieldRetirement {
    pub fn new(field: FieldId, retire_ts: i64) -> (retirement: Self)
        ensures
            retirement == (FieldRetirement { field, retire_ts }),
    {
        FieldRetirement { field, retire_ts }
    }

    pub fn field(self) -> (field: FieldId)
        ensures
            field == self.field,
    {
        self.field
    }

    pub fn retire_ts(self) -> (retire_ts: i64)
        ensures
            retire_ts == self.retire_ts,
    {
        self.retire_ts
    }
}

/// Whether series identifiers strictly increase.
pub open spec fn series_ordered(retired: Seq<SeriesRetirement>) -> bool {
    forall|i: int, j: int|
        0 <= i < j < retired.len() ==> (#[trigger] retired[i]).series.value < (
        #[trigger] retired[j]).series.value
}

/// Whether field identifiers strictly increase.
pub open spec fn retired_fields_ordered(retired: Seq<FieldRetirement>) -> bool {
    forall|i: int, j: int|
        0 <= i < j < retired.len() ==> (#[trigger] retired[i]).field.value < (
        #[trigger] retired[j]).field.value
}

pub fn check_series(retired: &[SeriesRetirement]) -> (good: bool)
    ensures
        good == series_ordered(retired@),
{
    let mut index: usize = 1;
    while index < retired.len()
        invariant
            1 <= index,
            index <= retired@.len() || retired@.len() == 0,
            forall|i: int, j: int|
                0 <= i < j < index && j < retired@.len() ==> (
                #[trigger] retired@[i]).series.value < (#[trigger] retired@[j]).series.value,
        decreases retired@.len() - index,
    {
        if retired[index - 1].series.value >= retired[index].series.value {
            assert(!(retired@[index - 1].series.value < retired@[index as int].series.value));
            return false;
        }
        assert forall|i: int, j: int| 0 <= i < j < index + 1 && j < retired@.len() implies (
        #[trigger] retired@[i]).series.value < (#[trigger] retired@[j]).series.value by {
            if j == index && i < index - 1 {
                assert(retired@[i].series.value < retired@[index - 1].series.value);
            }
        }
        index += 1;
    }
    true
}

pub fn check_retired_fields(retired: &[FieldRetirement]) -> (good: bool)
    ensures
        good == retired_fields_ordered(retired@),
{
    let mut index: usize = 1;
    while index < retired.len()
        invariant
            1 <= index,
            index <= retired@.len() || retired@.len() == 0,
            forall|i: int, j: int|
                0 <= i < j < index && j < retired@.len() ==> (
                #[trigger] retired@[i]).field.value < (#[trigger] retired@[j]).field.value,
        decreases retired@.len() - index,
    {
        if retired[index - 1].field.value >= retired[index].field.value {
            assert(!(retired@[index - 1].field.value < retired@[index as int].field.value));
            return false;
        }
        assert forall|i: int, j: int| 0 <= i < j < index + 1 && j < retired@.len() implies (
        #[trigger] retired@[i]).field.value < (#[trigger] retired@[j]).field.value by {
            if j == index && i < index - 1 {
                assert(retired@[i].field.value < retired@[index - 1].field.value);
            }
        }
        index += 1;
    }
    true
}

/// What the catalog knows of one table.
#[derive(Clone, Debug, PartialEq, Eq)]
pub struct TableCatalog {
    pub table: TableId,
    pub last_ts: Option<i64>,
    pub versions: Vec<TableVersion>,
    pub retired_series: Vec<SeriesRetirement>,
    pub retired_fields: Vec<FieldRetirement>,
}

pub struct TableView {
    pub table: TableId,
    pub last_ts: Option<i64>,
    pub versions: Seq<VersionView>,
    pub retired_series: Seq<SeriesRetirement>,
    pub retired_fields: Seq<FieldRetirement>,
}

impl View for TableCatalog {
    type V = TableView;

    open spec fn view(&self) -> TableView {
        TableView {
            table: self.table,
            last_ts: self.last_ts,
            versions: types::version_views(self.versions@),
            retired_series: self.retired_series@,
            retired_fields: self.retired_fields@,
        }
    }
}

impl TableView {
    /// Why the parts do not make a table.
    pub open spec fn refusal(self) -> Option<Error> {
        if validate::versions_refusal(self.last_ts, self.versions) is Some {
            validate::versions_refusal(self.last_ts, self.versions)
        } else if !series_ordered(self.retired_series) {
            Some(validate::table_corruption("series retirements are not strictly ordered"))
        } else if !retired_fields_ordered(self.retired_fields) {
            Some(validate::table_corruption("field retirements are not strictly ordered"))
        } else if !(forall|i: int|
            0 <= i < self.retired_fields.len() ==> types::has_field(
                self.versions.last().fields,
                (#[trigger] self.retired_fields[i]).field,
            )) {
            Some(validate::table_corruption("retired field is absent from latest version"))
        } else {
            None
        }
    }

    pub open spec fn valid(self) -> bool {
        &&& forall|i: int| 0 <= i < self.versions.len() ==> (#[trigger] self.versions[i]).wf()
        &&& self.refusal() is None
    }
}

impl TableCatalog {
    pub open spec fn valid(&self) -> bool {
        self@.valid()
    }

    pub fn restore(
        table: TableId,
        last_ts: Option<i64>,
        versions: Vec<TableVersion>,
        retired_series: Vec<SeriesRetirement>,
        retired_fields: Vec<FieldRetirement>,
    ) -> (r: Result<Self>)
        requires
            forall|i: int| 0 <= i < versions@.len() ==> (#[trigger] versions@[i]).wf(),
        ensures
            ({
                let parts = TableView {
                    table,
                    last_ts,
                    versions: types::version_views(versions@),
                    retired_series: retired_series@,
                    retired_fields: retired_fields@,
                };
                match r {
                    Ok(catalog) => parts.refusal() is None && catalog@ == parts
                        && catalog.valid(),
                    Err(e) => parts.refusal() == Some(e),
                }
            }),
    {
        let ghost views = types::version_views(versions@);
        match validate::validate_versions(last_ts, versions.as_slice()) {
            Ok(_) => {},
            Err(e) => return Err(e),
        }
        if !check_series(retired_series.as_slice()) {
            return Err(
                Error::corruption("MANIFEST table", "series retirements are not strictly ordered"),
            );
        }
        if !check_retired_fields(retired_fields.as_slice()) {
            return Err(
                Error::corruption("MANIFEST table", "field retirements are not strictly ordered"),
            );
        }
        let latest = &versions[versions.len() - 1];
        assert(views.last() == latest@);
        let mut index: usize = 0;
        while index < retired_fields.len()
            invariant
                index <= retired_fields@.len(),
                latest.wf(),
                versions@.len() > 0,
                views == types::version_views(versions@),
                views.last() == latest@,
                validate::versions_refusal(last_ts, views) is None,
                series_ordered(retired_series@),
                retired_fields_ordered(retired_fields@),
                forall|i: int|
                    0 <= i < index ==> types::has_field(
                        latest.fields@,
                        (#[trigger] retired_fields@[i]).field,
                    ),
            decreases retired_fields@.len() - index,
        {
            if types::find_field(latest.fields.as_slice(), retired_fields[index].field).is_none() {
                assert(!types::has_field(
                    views.last().fields,
                    retired_fields@[index as int].field,
                ));
                return Err(
                    Error::corruption(
                        "MANIFEST table",
                        "retired field is absent from latest version",
                    ),
                );
            }
            index += 1;
        }
        let catalog = TableCatalog { table, last_ts, versions, retired_series, retired_fields };
        assert forall|i: int| 0 <= i < catalog@.versions.len() implies (
        #[trigger] catalog@.versions[i]).wf() by {
            assert(versions@[i].wf());
        }
        Ok(catalog)
    }

    pub fn table(&self) -> (table: TableId)
        ensures
            table == self.table,
    {
        self.table
    }

    pub fn last_ts(&self) -> (last_ts: Option<i64>)
        ensures
            last_ts == self.last_ts,
    {
        self.last_ts
    }

    pub fn versions(&self) -> (versions: &[TableVersion])
        ensures
            versions@ == self.versions@,
    {
        self.versions.as_slice()
    }

    pub fn retired_series(&self) -> (retired: &[SeriesRetirement])
        ensures
            retired@ == self.retired_series@,
    {
        self.retired_series.as_slice()
    }

    pub fn retired_fields(&self) -> (retired: &[FieldRetirement])
        ensures
            retired@ == self.retired_fields@,
    {
        self.retired_fields.as_slice()
    }

    /// An equal table.
    pub fn copy(&self) -> (copy: Self)
        ensures
            copy@ == self@,
    {
        let versions = types::copy_versions(self.versions.as_slice());
        let retired_series = copy_slice(self.retired_series.as_slice());
        let retired_fields = copy_slice(self.retired_fields.as_slice());
        TableCatalog {
            table: self.table,
            last_ts: self.last_ts,
            versions,
            retired_series,
            retired_fields,
        }
    }
}

/// An equal vector of plain values.
pub fn copy_slice<T: Copy>(source: &[T]) -> (copy: Vec<T>)
    ensures
        copy@ == source@,
{
    let mut copy: Vec<T> = Vec::new();
    let mut index: usize = 0;
    while index < source.len()
        invariant
            index <= source@.len(),
            copy@ == source@.take(index as int),
        decreases source@.len() - index,
    {
        copy.push(source[index]);
        index += 1;
        assert(copy@ =~= source@.take(index as int));
    }
    assert(copy@ =~= source@);
    copy
}

/// One sealed unit: its identifier, its compaction level and what it holds.
#[derive(Clone, Copy, Debug, PartialEq, Eq, Structural)]
pub struct UnitMeta {
    pub unit_id: u64,
    pub level: u8,
    pub min_ts: i64,
    pub max_ts: i64,
    pub section_count: u32,
    pub total_rows: u64,
    pub file_len: u64,
    pub body_crc32: u32,
}

impl UnitMeta {
    /// Why the parts do not make a unit.
    pub open spec fn refusal(self) -> Option<Error> {
        if self.level > 2 || self.min_ts > self.max_ts || self.section_count == 0
            || self.section_count > MAX_UNIT_SECTIONS || self.total_rows == 0 {
            Some(
                error::corruption(
                    "MANIFEST unit",
                    "level, time range, section count, or row count is invalid",
                ),
            )
        } else if self.file_len > MAX_UNIT_FILE_BYTES {
            Some(error::limit("unit_file_bytes", self.file_len, MAX_UNIT_FILE_BYTES))
        } else {
            None
        }
    }

    pub open spec fn valid(self) -> bool {
        self.refusal() is None
    }

    pub fn new(
        unit_id: u64,
        level: u8,
        min_ts: i64,
        max_ts: i64,
        section_count: u32,
        total_rows: u64,
        file_len: u64,
        body_crc32: u32,
    ) -> (r: Result<Self>)
        ensures
            ({
                let unit = UnitMeta {
                    unit_id,
                    level,
                    min_ts,
                    max_ts,
                    section_count,
                    total_rows,
                    file_len,
                    body_crc32,
                };
                r == (match unit.refusal() {
                    Some(e) => Err::<UnitMeta, Error>(e),
                    None => Ok(unit),
                })
            }),
    {
        if level > 2 || min_ts > max_ts || section_count == 0 || section_count > MAX_UNIT_SECTIONS
            || total_rows == 0 {
            return Err(
                Error::corruption(
                    "MANIFEST unit",
                    "level, time range, section count, or row count is invalid",
                ),
            );
        }
        if file_len > MAX_UNIT_FILE_BYTES {
            return Err(Error::limit("unit_file_bytes", file_len, MAX_UNIT_FILE_BYTES));
        }
        Ok(
            UnitMeta {
                unit_id,
                level,
                min_ts,
                max_ts,
                section_count,
                total_rows,
                file_len,
                body_crc32,
            },
        )
    }

    pub fn unit_id(self) -> (id: u64)
        ensures
            id == self.unit_id,
    {
        self.unit_id
    }

    pub fn level(self) -> (level: u8)
        ensures
            level == self.level,
    {
        self.level
    }

    pub fn min_ts(self) -> (ts: i64)
        ensures
            ts == self.min_ts,
    {
        self.min_ts
    }

    pub fn max_ts(self) -> (ts: i64)
        ensures
            ts == self.max_ts,
    {
        self.max_ts
    }

    pub fn section_count(self) -> (count: u32)
        ensures
            count == self.section_count,
    {
        self.section_count
    }

    pub fn total_rows(self) -> (rows: u64)
        ensures
            rows == self.total_rows,
    {
        self.total_rows
    }

    pub fn file_len(self) -> (len: u64)
        ensures
            len == self.file_len,
    {
        self.file_len
    }

    pub fn body_crc32(self) -> (crc: u32)
        ensures
            crc == self.body_crc32,
    {
        self.body_crc32
    }

    /// Units are ordered by their first timestamp, then by identifier.
    pub open spec fn spec_before(self, other: UnitMeta) -> bool {
        self.min_ts < other.min_ts || (self.min_ts == other.min_ts && self.unit_id < other.unit_id)
    }

    pub fn before(self, other: UnitMeta) -> (before: bool)
        ensures
            before == self.spec_before(other),
    {
        self.min_ts < other.min_ts || (self.min_ts == other.min_ts && self.unit_id < other.unit_id)
    }
}

/// Whether units are in routing order.
pub open spec fn units_ordered(units: Seq<UnitMeta>) -> bool {
    forall|i: int, j: int|
        0 <= i < j < units.len() ==> (#[trigger] units[i]).spec_before(#[trigger] units[j])
}

/// Whether no identifier occurs twice.
pub open spec fn ids_distinct(units: Seq<UnitMeta>) -> bool {
    forall|i: int, j: int|
        0 <= i < j < units.len() ==> (#[trigger] units[i]).unit_id != (#[trigger] units[j]).unit_id
}

pub fn check_units_ordered(units: &[UnitMeta]) -> (good: bool)
    ensures
        good == units_ordered(units@),
{
    let mut index: usize = 1;
    while index < units.len()
        invariant
            1 <= index,
            index <= units@.len() || units@.len() == 0,
            forall|i: int, j: int|
                0 <= i < j < index && j < units@.len() ==> (#[trigger] units@[i]).spec_before(
                    #[trigger] units@[j],
                ),
        decreases units@.len() - index,
    {
        if !units[index - 1].before(units[index]) {
            assert(!units@[index - 1].spec_before(units@[index as int]));
            return false;
        }
        assert forall|i: int, j: int| 0 <= i < j < index + 1 && j < units@.len() implies (
        #[trigger] units@[i]).spec_before(#[trigger] units@[j]) by {
            if j == index && i < index - 1 {
                assert(units@[i].spec_before(units@[index - 1]));
            }
        }
        index += 1;
    }
    true
}

pub fn check_ids_distinct(units: &[UnitMeta]) -> (good: bool)
    ensures
        good == ids_distinct(units@),
{
    let mut seen: OrderedMap<u64, bool> = OrderedMap::new();
    let mut index: usize = 0;
    while index < units.len()
        invariant
            index <= units@.len(),
            seen.wf(),
            forall|i: int| 0 <= i < index ==> seen@.contains_key((#[trigger] units@[i]).unit_id),
            forall|id: u64| #[trigger]
                seen@.contains_key(id) ==> exists|i: int|
                    0 <= i < index && (#[trigger] units@[i]).unit_id == id,
            forall|i: int, j: int|
                0 <= i < j < index ==> (#[trigger] units@[i]).unit_id != (
                #[trigger] units@[j]).unit_id,
        decreases units@.len() - index,
    {
        let id: u64 = units[index].unit_id;
        if seen.contains_key(&id) {
            proof {
                let i = choose|i: int| 0 <= i < index && (#[trigger] units@[i]).unit_id == id;
                assert(units@[i].unit_id == units@[index as int].unit_id);
            }
            return false;
        }
        let ghost before = seen@;
        seen.insert(id, true);
        proof {
            assert forall|other: u64| #[trigger] seen@.contains_key(other) implies exists|i: int|
                0 <= i < index + 1 && (#[trigger] units@[i]).unit_id == other by {
                if other == id {
                    assert(units@[index as int].unit_id == other);
                } else {
                    assert(before.contains_key(other));
                    let i = choose|i: int|
                        0 <= i < index && (#[trigger] units@[i]).unit_id == other;
                    assert(units@[i].unit_id == other);
                }
            }
        }
        index += 1;
    }
    true
}

/// The catalog of a database.
#[derive(Clone, Debug, PartialEq, Eq)]
pub struct Manifest {
    pub identity: ManifestIdentity,
    pub checkpoint: Checkpoint,
    pub retention: RetentionState,
    pub tables: Vec<TableCatalog>,
    pub units: Vec<UnitMeta>,
}

pub struct ManifestView {
    pub identity: ManifestIdentity,
    pub checkpoint: Checkpoint,
    pub retention: RetentionState,
    pub tables: Seq<TableView>,
    pub units: Seq<UnitMeta>,
}

pub open spec fn table_views(tables: Seq<TableCatalog>) -> Seq<TableView> {
    tables.map_values(|table: TableCatalog| table@)
}

impl View for Manifest {
    type V = ManifestView;

    open spec fn view(&self) -> ManifestView {
        ManifestView {
            identity: self.identity,
            checkpoint: self.checkpoint,
            retention: self.retention,
            tables: table_views(self.tables@),
            units: self.units@,
        }
    }
}

/// Whether table identifiers strictly increase.
pub open spec fn tables_ordered(tables: Seq<TableView>) -> bool {
    forall|i: int, j: int|
        0 <= i < j < tables.len() ==> (#[trigger] tables[i]).table.value < (
        #[trigger] tables[j]).table.value
}

pub open spec fn manifest_corruption(reason: &'static str) -> Error {
    error::corruption("MANIFEST", reason)
}

impl ManifestView {
    /// Why the parts do not make a catalog.
    pub open spec fn refusal(self) -> Option<Error> {
        if self.tables.len() > MAX_TABLES {
            Some(error::limit("tables", self.tables.len() as u64, MAX_TABLES as u64))
        } else if self.units.len() > MAX_LIVE_UNITS {
            Some(error::limit("live_units", self.units.len() as u64, MAX_LIVE_UNITS as u64))
        } else if !tables_ordered(self.tables) {
            Some(manifest_corruption("tables are not strictly ordered"))
        } else if !units_ordered(self.units) {
            Some(manifest_corruption("units are not ordered by minimum time and identifier"))
        } else if !ids_distinct(self.units) {
            Some(manifest_corruption("unit identifier is duplicated"))
        } else if (self.tables.len() > 0 && self.tables.last().table.value
            > self.identity.table_high_water) || (exists|i: int|
            0 <= i < self.units.len() && (#[trigger] self.units[i]).unit_id
                > self.identity.unit_high_water) {
            Some(manifest_corruption("allocation high water is below a live identifier"))
        } else {
            None
        }
    }

    pub open spec fn valid(self) -> bool {
        &&& self.checkpoint.valid()
        &&& forall|i: int| 0 <= i < self.tables.len() ==> (#[trigger] self.tables[i]).valid()
        &&& forall|i: int| 0 <= i < self.units.len() ==> (#[trigger] self.units[i]).valid()
        &&& self.refusal() is None
    }
}

pub fn validate_count(name: &'static str, actual: usize, maximum: u32) -> (r: Result<()>)
    ensures
        r == (if actual > maximum {
            Err::<(), Error>(error::limit(name, actual as u64, maximum as u64))
        } else {
            Ok(())
        }),
{
    if actual as u64 > maximum as u64 {
        return Err(Error::limit(name, actual as u64, maximum as u64));
    }
    Ok(())
}

impl Manifest {
    pub open spec fn valid(&self) -> bool {
        self@.valid()
    }

    /// Builds a catalog from its parts.
    pub fn restore(
        identity: ManifestIdentity,
        checkpoint: Checkpoint,
        retention: RetentionState,
        tables: Vec<TableCatalog>,
        units: Vec<UnitMeta>,
    ) -> (r: Result<Self>)
        ensures
            ({
                let parts = ManifestView {
                    identity,
                    checkpoint,
                    retention,
                    tables: table_views(tables@),
                    units: units@,
                };
                match r {
                    Ok(manifest) => parts.refusal() is None && manifest@ == parts,
                    Err(e) => parts.refusal() == Some(e),
                }
            }),
    {
        match validate_count("tables", tables.len(), MAX_TABLES) {
            Ok(_) => {},
            Err(e) => return Err(e),
        }
        match validate_count("live_units", units.len(), MAX_LIVE_UNITS) {
            Ok(_) => {},
            Err(e) => return Err(e),
        }
        let ghost views = table_views(tables@);
        let mut index: usize = 1;
        while index < tables.len()
            invariant
                1 <= index,
                index <= tables@.len() || tables@.len() == 0,
                tables@.len() <= MAX_TABLES,
                units@.len() <= MAX_LIVE_UNITS,
                views == table_views(tables@),
                forall|i: int, j: int|
                    0 <= i < j < index && j < tables@.len() ==> (
                    #[trigger] views[i]).table.value < (#[trigger] views[j]).table.value,
            decreases tables@.len() - index,
        {
            assert(views[index - 1] == tables@[index - 1]@);
            assert(views[index as int] == tables@[index as int]@);
            if tables[index - 1].table.value >= tables[index].table.value {
                assert(!(views[index - 1].table.value < views[index as int].table.value));
                return Err(Error::corruption("MANIFEST", "tables are not strictly ordered"));
            }
            assert forall|i: int, j: int| 0 <= i < j < index + 1 && j < tables@.len() implies (
            #[trigger] views[i]).table.value < (#[trigger] views[j]).table.value by {
                if j == index && i < index - 1 {
                    assert(views[i].table.value < views[index - 1].table.value);
                }
            }
            index += 1;
        }
        if !check_units_ordered(units.as_slice()) {
            return Err(
                Error::corruption(
                    "MANIFEST",
                    "units are not ordered by minimum time and identifier",
                ),
            );
        }
        if !check_ids_distinct(units.as_slice()) {
            return Err(Error::corruption("MANIFEST", "unit identifier is duplicated"));
        }
        if tables.len() > 0 && tables[tables.len() - 1].table.value > identity.table_high_water {
            assert(views.last() == tables@.last()@);
            return Err(
                Error::corruption("MANIFEST", "allocation high water is below a live identifier"),
            );
        }
        let mut at: usize = 0;
        while at < units.len()
            invariant
                at <= units@.len(),
                tables@.len() <= MAX_TABLES,
                units@.len() <= MAX_LIVE_UNITS,
                tables_ordered(views),
                views == table_views(tables@),
                units_ordered(units@),
                ids_distinct(units@),
                forall|i: int|
                    0 <= i < at ==> (#[trigger] units@[i]).unit_id <= identity.unit_high_water,
            decreases units@.len() - at,
        {
            if units[at].unit_id > identity.unit_high_water {
                assert(units@[at as int].unit_id > identity.unit_high_water);
                return Err(
                    Error::corruption(
                        "MANIFEST",
                        "allocation high water is below a live identifier",
                    ),
                );
            }
            at += 1;
        }
        assert(tables@.len() > 0 ==> views.last() == tables@.last()@);
        Ok(Manifest { identity, checkpoint, retention, tables, units })
    }

    pub fn identity(&self) -> (identity: ManifestIdentity)
        ensures
            identity == self.identity,
    {
        self.identity
    }

    pub fn checkpoint(&self) -> (checkpoint: Checkpoint)
        ensures
            checkpoint == self.checkpoint,
    {
        self.checkpoint
    }

    pub fn retention(&self) -> (retention: RetentionState)
        ensures
            retention == self.retention,
    {
        self.retention
    }

    pub fn tables(&self) -> (tables: &[TableCatalog])
        ensures
            tables@ == self.tables@,
    {
        self.tables.as_slice()
    }

    pub fn units(&self) -> (units: &[UnitMeta])
        ensures
            units@ == self.units@,
    {
        self.units.as_slice()
    }
}

/// Equal tables, in the same order.
pub fn copy_tables(tables: &[TableCatalog]) -> (copies: Vec<TableCatalog>)
    ensures
        table_views(copies@) == table_views(tables@),
{
    let mut copies: Vec<TableCatalog> = Vec::new();
    let mut index: usize = 0;
    while index < tables.len()
        invariant
            index <= tables@.len(),
            copies@.len() == index,
            forall|k: int| 0 <= k < index ==> (#[trigger] copies@[k])@ == tables@[k]@,
        decreases tables@.len() - index,
    {
        copies.push(tables[index].copy());
        index += 1;
    }
    assert(table_views(copies@) =~= table_views(tables@));
    copies
}

} // verus!
