//! Extraction of the header metadata of a Value Change Dump (VCD) text file:
//! date, version, timescale and free-form comments, located as
//! `$command ... $end` spans in a stream of space-separated tokens.

pub mod error;
pub mod laws;
pub mod parser;
pub mod tokens;
pub mod types;
pub mod vcd;
