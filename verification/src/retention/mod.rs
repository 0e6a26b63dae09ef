//! The last live value of every stream, kept when the units that held it expire.

pub mod ahead;
pub mod carry;
pub mod fold;
pub mod head;

pub use fold::fold;
pub use head::{RetentionHead, RetentionHeads};
