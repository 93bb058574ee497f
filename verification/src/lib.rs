//! Verified core of a Unity asset-package extractor.
//!
//! An asset package unpacks (outside this library) into a staging
//! directory with one subdirectory per entry, each holding a `pathname`
//! text file naming the destination and an `asset` payload (a file or a
//! directory tree).  This library holds the part worth verifying: the
//! per-entry decisions (marker present, pathname sanitization, lexical
//! containment under the destination root, payload present) and the
//! recursive plan that materializes a payload tree under its resolved
//! target.  Decompression, staging and the filesystem writes themselves
//! are left to the surrounding program, which feeds this library plain
//! values and executes the plan it returns.

pub mod cli;
pub mod extract;
pub mod fsmodel;
pub mod pathname;
pub mod payload;
