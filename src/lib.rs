//! An inventory engine for disk usage: a scan lifecycle that records files
//! under requested roots while keeping protected locations out, and a
//! summary of sizes per directory.

pub mod paths;
pub mod scan;
pub mod summary;
