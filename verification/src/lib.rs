//! Verified core of a directory mirroring engine.
//!
//! The library models paths as byte strings with `/` separators and provides
//! the pure logic of the engine: rebasing a file path from one root directory
//! onto another, the table of last-observed modification times, the per-tick
//! diff that decides which files to copy, and the initialization plan that
//! clears a working directory and repopulates it from a backup directory.
//! All filesystem access stays outside the library; callers hand in snapshots
//! and carry out the returned copy plans.

pub mod init;
pub mod paths;
pub mod table;
pub mod tick;
