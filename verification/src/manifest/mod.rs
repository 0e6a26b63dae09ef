//! The catalog of a database: its tables, its sealed units and where replay starts.

pub mod canonical;
pub mod catalog;
pub mod codec;
pub mod grammar;
pub mod replay;
pub mod succession;
pub mod transition;
pub mod validate;

pub use catalog::{
    FieldRetirement, Manifest, ManifestIdentity, RetentionState, SeriesRetirement, TableCatalog,
    UnitMeta,
};
