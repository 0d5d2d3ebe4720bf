//! Hierarchical key-index and windowed navigation engine for an ordered
//! key-value store (sled). Keys are opaque byte sequences; when a delimiter
//! is configured, each key is split into segments that form a virtual
//! directory tree, which the navigation session browses in fixed-size
//! windows.

pub mod bytes;
pub mod index;
pub mod laws;
pub mod nav;
pub mod scroll;
pub mod split;
pub mod store;
pub mod window;
pub mod wrap;
