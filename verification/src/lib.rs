//! Character-frequency statistics over text.
//!
//! The library counts the Unicode scalar values of a string (whitespace
//! excluded), orders the resulting character/count entries by character or by
//! count, applies one of several display modes (plain, percentage, top-N,
//! threshold filters), and renders each surviving entry as one output line.

pub mod count;
pub mod order;
pub mod pipeline;
pub mod present;
pub mod text;
