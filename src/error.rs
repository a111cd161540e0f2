use vstd::prelude::*;

verus! {

/// The errors that stop a run before the directory walk begins.
#[derive(Debug)]
pub enum ConfigError {
    /// The requested number of files is not a non-negative integer.
    InvalidNumberOfFiles(String),
    /// A glob pattern could not be compiled.
    InvalidGlobPattern,
}

} // verus!
