//! Verified core of a utility that relocates files matching a regular
//! expression into a destination directory and prunes directories left empty.
//!
//! The library works on an in-memory snapshot of a directory tree. The
//! matcher collects the files whose full path matches a pattern, the mover
//! plans one rename per matched file, the directory ensurer records a
//! destination directory together with its missing ancestors, and the pruner
//! removes every directory that is empty once its own descendants have been
//! pruned. Reading the real tree and carrying the plans out is left to an
//! unverified driver.

pub mod ensurer;
pub mod matcher;
pub mod mover;
pub mod paths;
pub mod pattern;
pub mod pruner;
pub mod tree;
