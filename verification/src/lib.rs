//! A priority queue whose only storage is an ordered key-value store.
//!
//! Each priority present is one key of the store, written most
//! significant byte first so that the store's byte order is the order of
//! the priorities. The value under a key is a packed, length-prefixed list
//! of the elements that share the priority, oldest first. The queue serves
//! the last element under the last key.
//!
//! - [`wire`]: the big-endian 32-bit fields of the packed list.
//! - [`packed`]: the packed list, encoded, decoded, appended to and cut.
//! - [`store`]: the store and its keys.
//! - [`layout`]: how the entries of the queue lie in the store.
//! - [`model`]: the queue as a sequence of entries, and what holds of it.
//! - [`queue`]: the queue itself.

pub mod layout;
pub mod model;
pub mod packed;
pub mod queue;
pub mod store;
pub mod wire;

pub use packed::next_element;
pub use queue::{PriorityQueue, PriorityQueueImpl};
pub use wire::as_u32_be;
