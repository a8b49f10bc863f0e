//! Extraction of structured records from batches of spreadsheet files:
//! cell addressing and date serials, configuration validation, sheet
//! resolution and result merging, and bounded admission of files with
//! progress accounting.

pub mod address;
pub mod batch;
pub mod config;
pub mod datetime;
pub mod merge;
pub mod resolve;
pub mod text;
