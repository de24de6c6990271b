//! Verified core of a local port monitor: parsing the output of a
//! socket-listing utility, resolving process display names from a live
//! process table, aggregating one record per listening port, and the
//! decision logic around process termination and global statistics.

pub mod kill;
pub mod name_clean;
pub mod parser;
pub mod ports;
pub mod resolver;
pub mod stats;
mod sysmon;
pub mod text;
