//! What holds of reads and writes taken together.

pub mod committing;
pub mod isolation;
pub mod overlays;
pub mod readers;
pub mod reading;
pub mod storing;
pub mod tables;
pub mod transactions;
pub mod values;
pub mod views;
pub mod writing;
