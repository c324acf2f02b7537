//! Persistent tier of a hybrid cache: packing entries into aligned region
//! buffers, the on-disk entry format, the catalog that indexes flushed
//! entries, and the region lifecycle that reclaims space.

pub mod bits;
pub mod config;
pub mod codec;
pub mod buffer;
pub mod catalog;
pub mod region;
pub mod flusher;
