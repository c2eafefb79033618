//! Groups the compiler errors found in regression build logs by their
//! canonical text, and renders the groups as a Markdown report.
//!
//! A run builds many packages with two toolchains and keeps a log for each
//! package that builds with the first and fails with the second. The
//! modules follow the way from those logs to the report:
//!
//! - `paths` finds the regression logs in the listing of a directory of
//!   logs, and `regressions` holds them, one for each package;
//! - `filter` picks the compiler errors out of a log;
//! - `canon` brings an error into its canonical form, in which what the
//!   compiler quotes is replaced by a placeholder;
//! - `errors` groups the packages by the canonical errors of their logs;
//! - `report` renders the groups.
//!
//! Nothing here reads a file or a directory: the caller lists directories
//! and reads logs, and hands over what it found, failures included. Maps
//! are kept in ascending order, so that the same logs always give the same
//! report.

pub mod canon;
pub mod errors;
pub mod filter;
pub mod package;
pub mod paths;
pub mod regressions;
pub mod report;
pub mod sorted;
pub mod text;
