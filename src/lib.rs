//! Disk-usage audit: sizes of files and directories, aggregated bottom-up,
//! with a sorted report of the entries at or above a size threshold.

pub mod order;
pub mod report;
pub mod stats;
pub mod walk;
