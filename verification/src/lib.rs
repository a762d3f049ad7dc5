//! Point-in-time integrity snapshots of a directory tree and structural
//! diffs between them.
//!
//! A snapshot records, per file, two independent cryptographic digests and
//! three lightweight content fingerprints (size, NUL-byte flag, non-ASCII
//! flag), all computed in a single streaming pass.  Snapshots form a
//! recursive tree of directories keyed by path segment, kept sorted so that
//! two snapshots can be compared by a linear merge that aggregates change
//! counts at every directory level.

pub mod order;
pub mod metrics;
pub mod tree;
pub mod diff;
pub mod report;
pub mod db;
