//! Finds payment card numbers (PANs) in arbitrary bytes.

pub mod bytes;
pub mod classify;
pub mod count;
pub mod csv_line;
pub mod debug;
pub mod dedup;
pub mod detect;
pub mod files;
pub mod grouping;
pub mod luhn;
pub mod mask;
pub mod order;
pub mod plan;
pub mod report;
pub mod scan;
pub mod scheme;
pub mod signals;
pub mod stamp;
pub mod targets;
pub mod text;
pub mod walk;
