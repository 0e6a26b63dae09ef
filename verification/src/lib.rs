//! The storage core of LiteSDB: catalog, retention heads, queries, maintenance and the shared
//! write-ahead log, stated over plain values and proved.
//!
//! File and directory work belongs to the embedding program. Where an operation has to touch the
//! disk, the library decides what must be written, and the embedder performs it.

pub mod bytes;
pub mod checksum;
pub mod db;
pub mod error;
pub mod files;
pub mod handover;
pub mod layout;
pub mod lifecycle;
pub mod limits;
pub mod maintenance;
pub mod manifest;
pub mod names;
pub mod options;
pub mod ordmap;
pub mod progress;
pub mod query;
pub mod recording;
pub mod retention;
pub mod scheduler;
pub mod shared_wal;
pub mod tail;
pub mod text;
pub mod types;
pub mod unit;
pub mod upkeep;
pub mod wal;

pub use db::{Db, WriterStatus};
pub use error::{ArgDetail, CorruptionDetail, Error, ErrorKind, LimitDetail, OpDetail, Result};
pub use maintenance::{CompactLevel, CompactReport, RetentionReport, SealReport};
pub use options::{CompactionPolicy, Duration, OpenOptions, SealPolicy, SyncPolicy};
pub use query::{Fact, FactCursor, Lookup, Slot, Snapshot};
pub use scheduler::MaintenanceReport;
pub use shared_wal::{
    SharedDbId, SharedDurablePosition, SharedWal, SharedWalOptions, SharedWalStatus,
};
pub use tail::{Observation, ObservationEntry};
pub use types::{
    CellValue, F32Bits, FieldId, FieldSchema, SeriesId, Sq1, StreamKey, TableId, TableVersion,
    Validity, ValueType, VersionSpec,
};
pub use wal::DurablePosition;
