//! One write-ahead log that many logical databases share.

pub mod acceptance;
pub mod admission;
pub mod archive;
pub mod authority;
pub mod batch;
pub mod boundary;
pub mod conduct;
pub mod export;
pub mod frame;
pub mod gc;
pub mod history;
pub mod member;
pub mod membership;
pub mod owner;
pub mod poison;
pub mod recover;
pub mod registry;
pub mod reopen;
pub mod rescan;
pub mod state;
pub mod store;
pub mod types;

pub use state::SharedWal;
pub use types::{SharedDbId, SharedDurablePosition, SharedWalOptions, SharedWalStatus};
