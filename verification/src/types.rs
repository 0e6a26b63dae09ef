//! Identifiers, values and schemas.
use vstd::prelude::*;

use crate::error::{self, Error, Result};
use crate::ordmap::OrderedKey;

verus! {

#[derive(Clone, Copy, Debug, PartialEq, Eq, PartialOrd, Ord, Hash, Structural)]
pub struct TableId {
    pub value: u32,
}

#[derive(Clone, Copy, Debug, PartialEq, Eq, PartialOrd, Ord, Hash, Structural)]
pub struct SeriesId {
    pub value: u64,
}

#[derive(Clone, Copy, Debug, PartialEq, Eq, PartialOrd, Ord, Hash, Structural)]
pub struct FieldId {
    pub value: u16,
}

impl TableId {
    pub fn new(value: u32) -> (id: Self)
        ensures
            id.value == value,
    {
        TableId { value }
    }

    pub fn get(self) -> (value: u32)
        ensures
            value == self.value,
    {
        self.value
    }
}

impl SeriesId {
    pub fn new(value: u64) -> (id: Self)
        ensures
            id.value == value,
    {
        SeriesId { value }
    }

    pub fn get(self) -> (value: u64)
        ensures
            value == self.value,
    {
        self.value
    }
}

impl FieldId {
    pub fn new(value: u16) -> (id: Self)
        ensures
            id.value == value,
    {
        FieldId { value }
    }

    pub fn get(self) -> (value: u16)
        ensures
            value == self.value,
    {
        self.value
    }
}

impl OrderedKey for TableId {
    open spec fn rank(self) -> int {
        self.value as int
    }

    proof fn rank_injective(left: Self, right: Self) {
    }

    fn precedes(&self, other: &Self) -> (before: bool) {
        self.value < other.value
    }
}

/// One stream of values: a field of a series in a table.
#[derive(Clone, Copy, Debug, PartialEq, Eq, PartialOrd, Ord, Hash, Structural)]
pub struct StreamKey {
    pub table: TableId,
    pub series: SeriesId,
    pub field: FieldId,
}

impl StreamKey {
    pub fn new(table: TableId, series: SeriesId, field: FieldId) -> (key: Self)
        ensures
            key == (StreamKey { table, series, field }),
    {
        StreamKey { table, series, field }
    }

    pub fn table(self) -> (table: TableId)
        ensures
            table == self.table,
    {
        self.table
    }

    pub fn series(self) -> (series: SeriesId)
        ensures
            series == self.series,
    {
        self.series
    }

    pub fn field(self) -> (field: FieldId)
        ensures
            field == self.field,
    {
        self.field
    }
}

/// The order of streams inside a table: by series, then by field.
pub open spec fn stream_rank(series: SeriesId, field: FieldId) -> int {
    series.value * 65_536 + field.value
}

impl OrderedKey for StreamKey {
    /// By table, then series, then field.
    open spec fn rank(self) -> int {
        self.table.value * 0x1_0000_0000_0000_0000_0000int + stream_rank(self.series, self.field)
    }

    proof fn rank_injective(left: Self, right: Self) {
    }

    fn precedes(&self, other: &Self) -> (before: bool) {
        self.table.value < other.table.value || (self.table.value == other.table.value && (
        self.series.value < other.series.value || (self.series.value == other.series.value
            && self.field.value < other.field.value)))
    }
}

/// An 8-bit quality code. The largest code stands for an absent value and is not one of them.
#[derive(Clone, Copy, Debug, PartialEq, Eq, Structural)]
pub struct Sq1 {
    pub code: u8,
}

impl Sq1 {
    pub open spec fn wf(self) -> bool {
        self.code != 255
    }

    pub fn new(code: u8) -> (value: Option<Self>)
        ensures
            value == (if code == 255 {
                None
            } else {
                Some(Sq1 { code })
            }),
    {
        if code == 255 {
            None
        } else {
            Some(Sq1 { code })
        }
    }

    pub fn code(self) -> (code: u8)
        ensures
            code == self.code,
    {
        self.code
    }
}

/// A 32-bit pattern that is kept bit for bit.
#[derive(Clone, Copy, Debug, PartialEq, Eq, Structural)]
pub struct F32Bits {
    pub bits: u32,
}

impl F32Bits {
    pub fn from_bits(bits: u32) -> (value: Self)
        ensures
            value.bits == bits,
    {
        F32Bits { bits }
    }

    pub fn bits(self) -> (bits: u32)
        ensures
            bits == self.bits,
    {
        self.bits
    }
}

#[derive(Clone, Copy, Debug, PartialEq, Eq, Structural)]
pub enum ValueType {
    UInt,
    Sq1,
    F32Bits,
}

impl ValueType {
    pub open spec fn spec_tag(self) -> u8 {
        match self {
            ValueType::UInt => 0,
            ValueType::Sq1 => 1,
            ValueType::F32Bits => 2,
        }
    }

    pub fn tag(self) -> (tag: u8)
        ensures
            tag == self.spec_tag(),
    {
        match self {
            ValueType::UInt => 0,
            ValueType::Sq1 => 1,
            ValueType::F32Bits => 2,
        }
    }
}

#[derive(Clone, Copy, Debug, PartialEq, Eq, Structural)]
pub enum CellValue {
    Null,
    UInt(u64),
    Sq1(Sq1),
    F32Bits(F32Bits),
}

impl CellValue {
    pub open spec fn wf(self) -> bool {
        self matches CellValue::Sq1(value) ==> value.wf()
    }

    /// Whether the value may stand in a field of this type. Null may stand everywhere.
    pub open spec fn spec_matches(self, kind: ValueType) -> bool {
        match self {
            CellValue::Null => true,
            CellValue::UInt(_) => kind == ValueType::UInt,
            CellValue::Sq1(_) => kind == ValueType::Sq1,
            CellValue::F32Bits(_) => kind == ValueType::F32Bits,
        }
    }

    pub fn matches(self, kind: ValueType) -> (fits: bool)
        ensures
            fits == self.spec_matches(kind),
    {
        match self {
            CellValue::Null => true,
            CellValue::UInt(_) => kind == ValueType::UInt,
            CellValue::Sq1(_) => kind == ValueType::Sq1,
            CellValue::F32Bits(_) => kind == ValueType::F32Bits,
        }
    }
}

/// A positive number of seconds.
#[derive(Clone, Copy, Debug, PartialEq, Eq, Structural)]
pub struct Seconds {
    pub value: u32,
}

impl Seconds {
    pub fn get(self) -> (value: u32)
        ensures
            value == self.value,
    {
        self.value
    }
}

/// How long a value stays live after its timestamp.
#[derive(Clone, Copy, Debug, PartialEq, Eq, Structural)]
pub enum Validity {
    DurationSeconds(Seconds),
    Forever,
}

impl Validity {
    pub open spec fn wf(self) -> bool {
        self matches Validity::DurationSeconds(seconds) ==> seconds.value > 0
    }

    pub fn duration_seconds(seconds: u32) -> (r: Result<Self>)
        ensures
            r == (if seconds == 0 {
                Err::<Validity, Error>(error::invalid("validity", "duration must be positive"))
            } else {
                Ok(Validity::DurationSeconds(Seconds { value: seconds }))
            }),
    {
        if seconds == 0 {
            return Err(Error::invalid("validity", "duration must be positive"));
        }
        Ok(Validity::DurationSeconds(Seconds { value: seconds }))
    }

    /// The finite duration in seconds, if there is one.
    pub fn duration(self) -> (seconds: Option<u32>)
        ensures
            seconds == (match self {
                Validity::DurationSeconds(seconds) => Some(seconds.value),
                Validity::Forever => None,
            }),
    {
        match self {
            Validity::DurationSeconds(seconds) => Some(seconds.value),
            Validity::Forever => None,
        }
    }
}

#[derive(Clone, Copy, Debug, PartialEq, Eq, Structural)]
pub struct FieldSchema {
    pub field: FieldId,
    pub value_type: ValueType,
}

impl FieldSchema {
    pub fn new(field: FieldId, value_type: ValueType) -> (schema: Self)
        ensures
            schema == (FieldSchema { field, value_type }),
    {
        FieldSchema { field, value_type }
    }

    pub fn field(self) -> (field: FieldId)
        ensures
            field == self.field,
    {
        self.field
    }

    pub fn value_type(self) -> (value_type: ValueType)
        ensures
            value_type == self.value_type,
    {
        self.value_type
    }
}

/// Whether field identifiers strictly increase.
pub open spec fn fields_ordered(fields: Seq<FieldSchema>) -> bool {
    forall|i: int, j: int|
        0 <= i < j < fields.len() ==> (#[trigger] fields[i]).field.value < (
        #[trigger] fields[j]).field.value
}

/// Whether a schema has the field.
pub open spec fn has_field(fields: Seq<FieldSchema>, field: FieldId) -> bool {
    exists|i: int| 0 <= i < fields.len() && (#[trigger] fields[i]).field == field
}

/// The type of a field that the schema has.
pub open spec fn field_type(fields: Seq<FieldSchema>, field: FieldId) -> ValueType {
    fields[choose|i: int| 0 <= i < fields.len() && (#[trigger] fields[i]).field == field].value_type
}

pub(crate) proof fn field_type_at(fields: Seq<FieldSchema>, i: int)
    requires
        fields_ordered(fields),
        0 <= i < fields.len(),
    ensures
        has_field(fields, fields[i].field),
        field_type(fields, fields[i].field) == fields[i].value_type,
{
    let field = fields[i].field;
    assert(fields[i].field == field);
    let j = choose|j: int| 0 <= j < fields.len() && (#[trigger] fields[j]).field == field;
    if i < j {
        assert(fields[i].field.value < fields[j].field.value);
    } else if j < i {
        assert(fields[j].field.value < fields[i].field.value);
    }
}

/// Checks that field identifiers strictly increase.
pub fn check_fields(fields: &[FieldSchema]) -> (good: bool)
    ensures
        good == fields_ordered(fields@),
{
    let mut index: usize = 1;
    while index < fields.len()
        invariant
            1 <= index,
            index <= fields@.len() || fields@.len() == 0,
            forall|i: int, j: int|
                0 <= i < j < index && j < fields@.len() ==> (
                #[trigger] fields@[i]).field.value < (#[trigger] fields@[j]).field.value,
        decreases fields@.len() - index,
    {
        if fields[index - 1].field.value >= fields[index].field.value {
            assert(!(fields@[index - 1].field.value < fields@[index as int].field.value));
            return false;
        }
        assert forall|i: int, j: int| 0 <= i < j < index + 1 && j < fields@.len() implies (
        #[trigger] fields@[i]).field.value < (#[trigger] fields@[j]).field.value by {
            if j == index && i < index - 1 {
                assert(fields@[i].field.value < fields@[index - 1].field.value);
            }
        }
        index += 1;
    }
    true
}

/// Looks a field up in a schema.
pub fn find_field(fields: &[FieldSchema], field: FieldId) -> (found: Option<usize>)
    requires
        fields_ordered(fields@),
    ensures
        match found {
            Some(at) => at < fields@.len() && fields@[at as int].field == field && has_field(
                fields@,
                field,
            ) && field_type(fields@, field) == fields@[at as int].value_type,
            None => !has_field(fields@, field),
        },
{
    let mut low: usize = 0;
    let mut high: usize = fields.len();
    while low < high
        invariant
            fields_ordered(fields@),
            low <= high <= fields@.len(),
            forall|i: int| 0 <= i < low ==> (#[trigger] fields@[i]).field.value < field.value,
            forall|i: int|
                high <= i < fields@.len() ==> field.value <= (#[trigger] fields@[i]).field.value,
        decreases high - low,
    {
        let middle: usize = low + (high - low) / 2;
        if fields[middle].field.value < field.value {
            assert forall|i: int| 0 <= i < middle + 1 implies (
            #[trigger] fields@[i]).field.value < field.value by {
                if i < middle {
                    assert(fields@[i].field.value < fields@[middle as int].field.value);
                }
            }
            low = middle + 1;
        } else {
            assert forall|i: int| middle <= i < fields@.len() implies field.value <= (
            #[trigger] fields@[i]).field.value by {
                if middle < i {
                    assert(fields@[middle as int].field.value < fields@[i].field.value);
                }
            }
            high = middle;
        }
    }
    if low < fields.len() && fields[low].field == field {
        proof {
            field_type_at(fields@, low as int);
        }
        Some(low)
    } else {
        proof {
            if has_field(fields@, field) {
                let i = choose|i: int|
                    0 <= i < fields@.len() && (#[trigger] fields@[i]).field == field;
                if low < i {
                    assert(fields@[low as int].field.value < fields@[i].field.value);
                }
            }
        }
        None
    }
}

/// One version of a table's schema. It is inactive until its first value arrives.
#[derive(Clone, Debug, PartialEq, Eq)]
pub struct TableVersion {
    pub version_no: u32,
    pub validity: Validity,
    pub fields: Vec<FieldSchema>,
    pub effective_from: Option<i64>,
}

pub struct VersionView {
    pub version_no: u32,
    pub validity: Validity,
    pub fields: Seq<FieldSchema>,
    pub effective_from: Option<i64>,
}

impl View for TableVersion {
    type V = VersionView;

    open spec fn view(&self) -> VersionView {
        VersionView {
            version_no: self.version_no,
            validity: self.validity,
            fields: self.fields@,
            effective_from: self.effective_from,
        }
    }
}

impl VersionView {
    pub open spec fn wf(self) -> bool {
        self.validity.wf() && fields_ordered(self.fields)
    }
}

impl TableVersion {
    pub open spec fn wf(&self) -> bool {
        self@.wf()
    }

    /// Rebuilds a version from stored parts.
    pub fn restore(
        version_no: u32,
        validity: Validity,
        fields: Vec<FieldSchema>,
        effective_from: Option<i64>,
    ) -> (r: Result<Self>)
        ensures
            match r {
                Ok(version) => fields_ordered(fields@) && version@ == (VersionView {
                    version_no,
                    validity,
                    fields: fields@,
                    effective_from,
                }),
                Err(e) => !fields_ordered(fields@) && e == error::corruption(
                    "table version",
                    "fields are not strictly ordered",
                ),
            },
    {
        if !check_fields(fields.as_slice()) {
            return Err(Error::corruption("table version", "fields are not strictly ordered"));
        }
        Ok(TableVersion { version_no, validity, fields, effective_from })
    }

    pub fn version_no(&self) -> (number: u32)
        ensures
            number == self.version_no,
    {
        self.version_no
    }

    pub fn validity(&self) -> (validity: Validity)
        ensures
            validity == self.validity,
    {
        self.validity
    }

    pub fn fields(&self) -> (fields: &[FieldSchema])
        ensures
            fields@ == self.fields@,
    {
        self.fields.as_slice()
    }

    pub fn effective_from(&self) -> (effective: Option<i64>)
        ensures
            effective == self.effective_from,
    {
        self.effective_from
    }

    /// An equal version.
    pub fn copy(&self) -> (copy: Self)
        ensures
            copy@ == self@,
    {
        let mut fields: Vec<FieldSchema> = Vec::new();
        let mut index: usize = 0;
        while index < self.fields.len()
            invariant
                index <= self.fields@.len(),
                fields@ == self.fields@.take(index as int),
            decreases self.fields@.len() - index,
        {
            fields.push(self.fields[index]);
            index += 1;
            assert(fields@ =~= self.fields@.take(index as int));
        }
        assert(fields@ =~= self.fields@);
        TableVersion {
            version_no: self.version_no,
            validity: self.validity,
            fields,
            effective_from: self.effective_from,
        }
    }
}

pub open spec fn version_views(versions: Seq<TableVersion>) -> Seq<VersionView> {
    versions.map_values(|version: TableVersion| version@)
}

/// Equal versions, in the same order.
pub fn copy_versions(versions: &[TableVersion]) -> (copies: Vec<TableVersion>)
    ensures
        version_views(copies@) == version_views(versions@),
{
    let mut copies: Vec<TableVersion> = Vec::new();
    let mut index: usize = 0;
    while index < versions.len()
        invariant
            index <= versions@.len(),
            copies@.len() == index,
            forall|k: int| 0 <= k < index ==> (#[trigger] copies@[k])@ == versions@[k]@,
        decreases versions@.len() - index,
    {
        copies.push(versions[index].copy());
        index += 1;
    }
    assert(version_views(copies@) =~= version_views(versions@));
    copies
}

/// What a new version of a table looks like.
#[derive(Clone, Debug, PartialEq, Eq)]
pub struct VersionSpec {
    pub validity: Validity,
    pub fields: Vec<FieldSchema>,
}

impl VersionSpec {
    pub fn new(validity: Validity, fields: Vec<FieldSchema>) -> (r: Result<Self>)
        ensures
            match r {
                Ok(spec) => fields_ordered(fields@) && spec.validity == validity && spec.fields
                    == fields,
                Err(e) => !fields_ordered(fields@) && e == error::invalid(
                    "fields",
                    "fields must be strictly ordered",
                ),
            },
    {
        if !check_fields(fields.as_slice()) {
            return Err(Error::invalid("fields", "fields must be strictly ordered"));
        }
        Ok(VersionSpec { validity, fields })
    }
}

} // verus!
