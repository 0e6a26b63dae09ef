//! Reading streams back out of sealed units and the tail.

pub mod alike;
pub mod answers;
pub mod batch;
pub mod contract;
pub mod cursor;
pub mod facts;
pub mod group;
pub mod meaning;
pub mod plan;
pub mod primitives;
pub mod recall;
pub mod regrid;
pub mod resample;
pub mod sample;
pub mod snapshot;
pub mod walk;
pub mod writing;

pub use contract::VersionContract;
pub use cursor::FactCursor;
pub use facts::Fact;
pub use primitives::{Lookup, Slot};
pub use snapshot::Snapshot;
