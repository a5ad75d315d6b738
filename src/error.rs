use vstd::prelude::*;

verus! {

/// What can go wrong while building a finder or loading files.
#[derive(Debug, PartialEq, Eq)]
pub enum Error {
    /// A name template could not be parsed or rendered.
    Template { template: String },
    /// A rendered name is not a valid glob pattern.
    Pattern { pattern: String },
    /// A search root is not an absolute path.
    NotAbsolute { path: String },
    /// No registered format handles this extension.
    UnknownFormat { extension: String },
    /// A file could not be read.
    Io { path: String, message: String },
    /// A file could not be decoded.
    Decode { path: String, message: String },
}

} // verus!
