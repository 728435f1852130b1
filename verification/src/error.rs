//! The one error type of the library: every detected anomaly is fatal to the
//! whole parse and is reported with the source line on which it was seen.

use vstd::prelude::*;

verus! {

/// A fatal parse error: the line on which the anomaly was detected and a
/// human-readable message, either `"<command> missing an $end"` or
/// `"Multiple <command> commands is invalid"`.
#[derive(Debug)]
pub struct LoadError {
    pub line: usize,
    pub message: String,
}

} // verus!
