//! Service resolution and resource aggregation over a frozen process snapshot.
//!
//! The crate reconstructs the process hierarchy from a flat listing, decides
//! which processes count as services, resolves configured service entries
//! against that hierarchy and sums CPU time and resident memory over subtrees.
//! It also lays out the report that presents the result.
//!
//! - `tree`: the hierarchy as a mathematical value, with its laws.
//! - `forest`: why a bounded climb along parent links detects every cycle.
//! - `proc`: the hierarchy in executable form.
//! - `conf`: configured entries, their syntax and their resolution.
//! - `pattern`, `text`, `order`: matching, characters and pid lists.
//! - `report`, `machine`, `fmt`: the service list, the machine summary and
//!   the JSON form of a report.
//!
//! Nothing here reads files, the clock or the process table: callers hand
//! over what they have read and print what they get back.

pub mod conf;
pub mod fmt;
pub mod forest;
pub mod machine;
pub mod order;
pub mod pattern;
pub mod proc;
pub mod report;
pub mod text;
pub mod tree;
