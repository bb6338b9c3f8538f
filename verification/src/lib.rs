//! An embedded key-value store organised as a log-structured merge tree.
//!
//! Keys and values are byte strings. Writes go to an in-memory buffer, which is
//! sealed into immutable sorted tables; a checksummed log records which tables
//! are live, and a compaction planner moves tables down the levels.

pub mod directory;
pub mod disk;
pub mod encoding;
pub mod error;
pub mod iter;
pub mod levels;
pub mod memstore;
pub mod merging;
pub mod model;
pub mod moves;
pub mod planner;
pub mod range;
pub mod scanning;
pub mod store;
pub mod toc;
pub mod util;
