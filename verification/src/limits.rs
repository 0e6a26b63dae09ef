use vstd::prelude::*;

use crate::error::{self, Error, Result};

verus! {

pub const MAX_WAL_RECORD_PAYLOAD: u32 = 65_536;
pub const DEFAULT_WAL_SEGMENT_BYTES: u32 = 1_048_576;
pub const MAX_WAL_SEGMENT_BYTES: u32 = 67_108_864;
pub const DEFAULT_WAL_BYTES: u32 = 5_242_880;
pub const MAX_WAL_BYTES: u32 = 26_214_400;
pub const DEFAULT_SEAL_BYTES: u32 = 2_621_440;
pub const MAX_SEAL_BYTES: u32 = MAX_WAL_BYTES;
pub const DEFAULT_SEAL_INTERVAL_SECS: u32 = 300;
pub const HOSTED_SEAL_INTERVAL_SECS: u32 = 1_800;
pub const DEFAULT_SEAL_MEMORY_BYTES: u32 = 33_554_432;
pub const MAX_SEAL_MEMORY_BYTES: u32 = 67_108_864;
pub const DEFAULT_L1_WINDOW_SECS: u64 = 7_200;
pub const DEFAULT_L2_WINDOW_SECS: u64 = 86_400;
pub const MIN_COMPACTION_WINDOW_SECS: u64 = 1;
pub const MAX_TABLES: u32 = 65_536;
pub const MAX_UNIT_SECTIONS: u32 = 65_536;
pub const MAX_SECTION_ROWS: u32 = 65_536;
pub const MAX_UNIT_FILE_BYTES: u64 = 8_589_934_592;
pub const MAX_LOGICAL_STREAMS: u32 = 262_144;
pub const MAX_RETENTION_HEADS: u32 = 262_144;
pub const MAX_LIVE_UNITS: u32 = 8_192;
pub const MAX_MANIFEST_BODY_BYTES: u32 = 67_108_864;
pub const MAX_AGGREGATION_LEVELS: u8 = 3;
pub const MAX_QUERY_SLOTS: u32 = 1_048_576;
pub const MAX_OPERATION_MEMORY_BYTES: u32 = 16_777_216;
pub const SECTION_WORKING_MEMORY_BYTES: u32 = 4_194_304;
pub const SECTION_DECODE_MEMORY_BYTES: u32 = 8_388_608;
pub const MAX_OPEN_FILES: u16 = 64;
pub const DEFAULT_DIRECTORY_CACHE_BYTES: u32 = 1_048_576;
pub const MAX_DIRECTORY_CACHE_BYTES: u32 = 16_777_216;
pub const MAX_TAIL_INDEX_BYTES: u32 = 67_108_864;
pub const MAX_THREADS: u8 = 0;
pub const MAX_STRIPPED_BINARY_BYTES: u32 = 2_097_152;
pub const MAX_IDLE_RSS_BYTES: u32 = 2_097_152;
pub const MAX_OPERATION_RSS_BYTES: u32 = 16_777_216;
pub const MAX_RECOVERY_RSS_BYTES: u32 = 16_777_216;

/// A hard budget of the store.
#[derive(Clone, Copy, Debug, PartialEq, Eq, Structural)]
pub enum Limit {
    WalRecordPayload,
    WalSegmentBytes,
    WalBytes,
    SealBytes,
    SealMemoryBytes,
    Tables,
    UnitSections,
    SectionRows,
    UnitFileBytes,
    LogicalStreams,
    RetentionHeads,
    LiveUnits,
    ManifestBodyBytes,
    AggregationLevels,
    QuerySlots,
    OperationMemoryBytes,
    OpenFiles,
    DirectoryCacheBytes,
    TailIndexBytes,
    Threads,
    StrippedBinaryBytes,
    IdleRssBytes,
    OperationRssBytes,
    RecoveryRssBytes,
}

impl Limit {
    pub open spec fn spec_name(self) -> &'static str {
        match self {
            Limit::WalRecordPayload => "wal_record_payload",
            Limit::WalSegmentBytes => "wal_segment_bytes",
            Limit::WalBytes => "wal_bytes",
            Limit::SealBytes => "seal_bytes",
            Limit::SealMemoryBytes => "seal_memory_bytes",
            Limit::Tables => "tables",
            Limit::UnitSections => "unit_sections",
            Limit::SectionRows => "section_rows",
            Limit::UnitFileBytes => "unit_file_bytes",
            Limit::LogicalStreams => "logical_streams",
            Limit::RetentionHeads => "retention_heads",
            Limit::LiveUnits => "live_units",
            Limit::ManifestBodyBytes => "manifest_body_bytes",
            Limit::AggregationLevels => "aggregation_levels",
            Limit::QuerySlots => "query_slots",
            Limit::OperationMemoryBytes => "operation_memory_bytes",
            Limit::OpenFiles => "open_files",
            Limit::DirectoryCacheBytes => "directory_cache_bytes",
            Limit::TailIndexBytes => "tail_index_bytes",
            Limit::Threads => "threads",
            Limit::StrippedBinaryBytes => "stripped_binary_bytes",
            Limit::IdleRssBytes => "idle_rss_bytes",
            Limit::OperationRssBytes => "operation_rss_bytes",
            Limit::RecoveryRssBytes => "recovery_rss_bytes",
        }
    }

    pub open spec fn spec_maximum(self) -> u64 {
        match self {
            Limit::WalRecordPayload => MAX_WAL_RECORD_PAYLOAD as u64,
            Limit::WalSegmentBytes => MAX_WAL_SEGMENT_BYTES as u64,
            Limit::WalBytes => MAX_WAL_BYTES as u64,
            Limit::SealBytes => MAX_SEAL_BYTES as u64,
            Limit::SealMemoryBytes => MAX_SEAL_MEMORY_BYTES as u64,
            Limit::Tables => MAX_TABLES as u64,
            Limit::UnitSections => MAX_UNIT_SECTIONS as u64,
            Limit::SectionRows => MAX_SECTION_ROWS as u64,
            Limit::UnitFileBytes => MAX_UNIT_FILE_BYTES as u64,
            Limit::LogicalStreams => MAX_LOGICAL_STREAMS as u64,
            Limit::RetentionHeads => MAX_RETENTION_HEADS as u64,
            Limit::LiveUnits => MAX_LIVE_UNITS as u64,
            Limit::ManifestBodyBytes => MAX_MANIFEST_BODY_BYTES as u64,
            Limit::AggregationLevels => MAX_AGGREGATION_LEVELS as u64,
            Limit::QuerySlots => MAX_QUERY_SLOTS as u64,
            Limit::OperationMemoryBytes => MAX_OPERATION_MEMORY_BYTES as u64,
            Limit::OpenFiles => MAX_OPEN_FILES as u64,
            Limit::DirectoryCacheBytes => MAX_DIRECTORY_CACHE_BYTES as u64,
            Limit::TailIndexBytes => MAX_TAIL_INDEX_BYTES as u64,
            Limit::Threads => MAX_THREADS as u64,
            Limit::StrippedBinaryBytes => MAX_STRIPPED_BINARY_BYTES as u64,
            Limit::IdleRssBytes => MAX_IDLE_RSS_BYTES as u64,
            Limit::OperationRssBytes => MAX_OPERATION_RSS_BYTES as u64,
            Limit::RecoveryRssBytes => MAX_RECOVERY_RSS_BYTES as u64,
        }
    }

    pub fn name(self) -> (name: &'static str)
        ensures
            name == self.spec_name(),
    {
        match self {
            Limit::WalRecordPayload => "wal_record_payload",
            Limit::WalSegmentBytes => "wal_segment_bytes",
            Limit::WalBytes => "wal_bytes",
            Limit::SealBytes => "seal_bytes",
            Limit::SealMemoryBytes => "seal_memory_bytes",
            Limit::Tables => "tables",
            Limit::UnitSections => "unit_sections",
            Limit::SectionRows => "section_rows",
            Limit::UnitFileBytes => "unit_file_bytes",
            Limit::LogicalStreams => "logical_streams",
            Limit::RetentionHeads => "retention_heads",
            Limit::LiveUnits => "live_units",
            Limit::ManifestBodyBytes => "manifest_body_bytes",
            Limit::AggregationLevels => "aggregation_levels",
            Limit::QuerySlots => "query_slots",
            Limit::OperationMemoryBytes => "operation_memory_bytes",
            Limit::OpenFiles => "open_files",
            Limit::DirectoryCacheBytes => "directory_cache_bytes",
            Limit::TailIndexBytes => "tail_index_bytes",
            Limit::Threads => "threads",
            Limit::StrippedBinaryBytes => "stripped_binary_bytes",
            Limit::IdleRssBytes => "idle_rss_bytes",
            Limit::OperationRssBytes => "operation_rss_bytes",
            Limit::RecoveryRssBytes => "recovery_rss_bytes",
        }
    }

    pub fn maximum(self) -> (maximum: u64)
        ensures
            maximum == self.spec_maximum(),
    {
        match self {
            Limit::WalRecordPayload => MAX_WAL_RECORD_PAYLOAD as u64,
            Limit::WalSegmentBytes => MAX_WAL_SEGMENT_BYTES as u64,
            Limit::WalBytes => MAX_WAL_BYTES as u64,
            Limit::SealBytes => MAX_SEAL_BYTES as u64,
            Limit::SealMemoryBytes => MAX_SEAL_MEMORY_BYTES as u64,
            Limit::Tables => MAX_TABLES as u64,
            Limit::UnitSections => MAX_UNIT_SECTIONS as u64,
            Limit::SectionRows => MAX_SECTION_ROWS as u64,
            Limit::UnitFileBytes => MAX_UNIT_FILE_BYTES as u64,
            Limit::LogicalStreams => MAX_LOGICAL_STREAMS as u64,
            Limit::RetentionHeads => MAX_RETENTION_HEADS as u64,
            Limit::LiveUnits => MAX_LIVE_UNITS as u64,
            Limit::ManifestBodyBytes => MAX_MANIFEST_BODY_BYTES as u64,
            Limit::AggregationLevels => MAX_AGGREGATION_LEVELS as u64,
            Limit::QuerySlots => MAX_QUERY_SLOTS as u64,
            Limit::OperationMemoryBytes => MAX_OPERATION_MEMORY_BYTES as u64,
            Limit::OpenFiles => MAX_OPEN_FILES as u64,
            Limit::DirectoryCacheBytes => MAX_DIRECTORY_CACHE_BYTES as u64,
            Limit::TailIndexBytes => MAX_TAIL_INDEX_BYTES as u64,
            Limit::Threads => MAX_THREADS as u64,
            Limit::StrippedBinaryBytes => MAX_STRIPPED_BINARY_BYTES as u64,
            Limit::IdleRssBytes => MAX_IDLE_RSS_BYTES as u64,
            Limit::OperationRssBytes => MAX_OPERATION_RSS_BYTES as u64,
            Limit::RecoveryRssBytes => MAX_RECOVERY_RSS_BYTES as u64,
        }
    }
}

/// Accepts `actual` exactly up to the budget's maximum.
pub fn ensure_at_most(limit_of: Limit, actual: u64) -> (r: Result<()>)
    ensures
        r == at_most(limit_of, actual),
{
    let maximum: u64 = limit_of.maximum();
    if actual <= maximum {
        Ok(())
    } else {
        Err(Error::limit(limit_of.name(), actual, maximum))
    }
}

pub open spec fn at_most(limit_of: Limit, actual: u64) -> Result<()> {
    if actual <= limit_of.spec_maximum() {
        Ok(())
    } else {
        Err(error::limit(limit_of.spec_name(), actual, limit_of.spec_maximum()))
    }
}

/// Why an operation may not hold so many items of a size at once.
pub open spec fn memory_refusal(count: int, size: int) -> Option<Error> {
    let maximum = Limit::OperationMemoryBytes.spec_maximum();
    if count * size > usize::MAX {
        Some(error::limit("operation_memory_bytes", u64::MAX, maximum))
    } else if count * size > maximum {
        Some(error::limit("operation_memory_bytes", (count * size) as u64, maximum))
    } else {
        None
    }
}

/// Accepts so many items of a size exactly up to the memory budget of an operation.
pub fn ensure_memory(count: usize, size: usize) -> (r: Result<()>)
    ensures
        error::refuses(r, memory_refusal(count as int, size as int)),
{
    match count.checked_mul(size) {
        None => Err(
            Error::limit(
                "operation_memory_bytes",
                u64::MAX,
                Limit::OperationMemoryBytes.maximum(),
            ),
        ),
        Some(bytes) => ensure_at_most(Limit::OperationMemoryBytes, bytes as u64),
    }
}

/// Every budget accepts its maximum and rejects the next larger amount.
pub proof fn budgets_are_sharp(limit_of: Limit)
    ensures
        at_most(limit_of, limit_of.spec_maximum()) is Ok,
        limit_of.spec_maximum() < u64::MAX ==> at_most(
            limit_of,
            (limit_of.spec_maximum() + 1) as u64,
        ) is Err,
{
}

/// An amount is accepted exactly up to the number that its budget stands for, and refused with
/// the amount and that number.
pub proof fn budgets_are_these(limit_of: Limit, actual: u64, r: Result<()>)
    requires
        r == at_most(limit_of, actual),
    ensures
        r is Ok <==> actual <= match limit_of {
            Limit::WalRecordPayload => 65_536u64,
            Limit::WalSegmentBytes => 67_108_864,
            Limit::WalBytes => 26_214_400,
            Limit::SealBytes => 26_214_400,
            Limit::SealMemoryBytes => 67_108_864,
            Limit::Tables => 65_536,
            Limit::UnitSections => 65_536,
            Limit::SectionRows => 65_536,
            Limit::UnitFileBytes => 8_589_934_592,
            Limit::LogicalStreams => 262_144,
            Limit::RetentionHeads => 262_144,
            Limit::LiveUnits => 8_192,
            Limit::ManifestBodyBytes => 67_108_864,
            Limit::AggregationLevels => 3,
            Limit::QuerySlots => 1_048_576,
            Limit::OperationMemoryBytes => 16_777_216,
            Limit::OpenFiles => 64,
            Limit::DirectoryCacheBytes => 16_777_216,
            Limit::TailIndexBytes => 67_108_864,
            Limit::Threads => 0,
            Limit::StrippedBinaryBytes => 2_097_152,
            Limit::IdleRssBytes => 2_097_152,
            Limit::OperationRssBytes => 16_777_216,
            Limit::RecoveryRssBytes => 16_777_216,
        },
        r matches Err(e) ==> (e matches Error::ResourceExhausted(detail) && detail.actual == actual),
{
}

/// An operation may hold so many items of a size exactly if they take at most sixteen mebibytes.
pub proof fn operations_hold_sixteen_mebibytes(count: usize, size: usize, r: Result<()>)
    requires
        error::refuses(r, memory_refusal(count as int, size as int)),
    ensures
        r is Ok <==> count * size <= 16_777_216,
{
}

/// Every budget has the name under which it is refused.
pub proof fn budgets_are_named(limit_of: Limit)
    ensures
        limit_of.spec_name() == match limit_of {
            Limit::WalRecordPayload => "wal_record_payload",
            Limit::WalSegmentBytes => "wal_segment_bytes",
            Limit::WalBytes => "wal_bytes",
            Limit::SealBytes => "seal_bytes",
            Limit::SealMemoryBytes => "seal_memory_bytes",
            Limit::Tables => "tables",
            Limit::UnitSections => "unit_sections",
            Limit::SectionRows => "section_rows",
            Limit::UnitFileBytes => "unit_file_bytes",
            Limit::LogicalStreams => "logical_streams",
            Limit::RetentionHeads => "retention_heads",
            Limit::LiveUnits => "live_units",
            Limit::ManifestBodyBytes => "manifest_body_bytes",
            Limit::AggregationLevels => "aggregation_levels",
            Limit::QuerySlots => "query_slots",
            Limit::OperationMemoryBytes => "operation_memory_bytes",
            Limit::OpenFiles => "open_files",
            Limit::DirectoryCacheBytes => "directory_cache_bytes",
            Limit::TailIndexBytes => "tail_index_bytes",
            Limit::Threads => "threads",
            Limit::StrippedBinaryBytes => "stripped_binary_bytes",
            Limit::IdleRssBytes => "idle_rss_bytes",
            Limit::OperationRssBytes => "operation_rss_bytes",
            Limit::RecoveryRssBytes => "recovery_rss_bytes",
        },
{
}

} // verus!
