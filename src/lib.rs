//! Membership-tree primitives for a group key-agreement protocol: validity
//! windows of credentials, an array-backed ratchet tree with resolutions, and
//! the key helpers of an application key-value store.
pub mod application;
pub mod error;
pub mod lifetime;
pub mod time;
pub mod tree;

pub use application::{prefix_pattern, sanitize, Item};
pub use error::MlsError;
pub use lifetime::Lifetime;
pub use time::MlsTime;
pub use tree::{LeafNode, ParentNode, TreeKemPublic};
