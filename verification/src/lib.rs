//! Verified core of a directory-tree diff tool: change records, a binary
//! codec for diff logs, a pure model of directory trees, a diff engine over
//! that model, and a replay (apply) engine.

pub mod apply;
pub mod bytes;
pub mod codec;
pub mod diff;
pub mod record;
pub mod tree;
