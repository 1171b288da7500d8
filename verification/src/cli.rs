//! The command surface: an input path and an output path, both required.

use vstd::prelude::*;

verus! {

/// The parameters of one run.
pub struct Command {
    /// Path of the input; it may be compressed.
    pub input: String,
    /// Path of the output, written with the compression of the input.
    pub output: String,
}

} // verus!
