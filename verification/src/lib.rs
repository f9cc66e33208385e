//! Per-station temperature statistics over `name;value` records.
//!
//! Temperatures are held exactly, as whole numbers of billionths of a degree.
//! A run parses line-aligned chunks of a text into tables of running
//! statistics and merges those tables; the result does not depend on how
//! the text was cut into chunks.

pub mod bytes;
pub mod chunk;
pub mod coordinator;
pub mod names;
pub mod number;
pub mod records;
pub mod report;
pub mod run;
pub mod split;
pub mod summary;
pub mod table;
pub mod tally;
