use vstd::prelude::*;

verus! {

/// The parsed command surface: a positional input path, an optional output
/// path, and the scale factor. Argument parsing itself is done by the
/// command-line front end around the library; this type carries the result
/// as plain values.
pub struct Cli {
    pub input: String,
    pub output: Option<String>,
    pub scale: u32,
}

} // verus!
