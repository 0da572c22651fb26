//! The failures a build can end in.

use vstd::prelude::*;

verus! {

/// `std::io::Error`, the error of an input or output operation. It is
/// carried through; nothing is known of what one holds.
#[verifier::external_type_specification]
#[verifier::external_body]
pub struct ExIoError(std::io::Error);

/// Why a build was given up.
#[derive(Debug)]
pub enum Error {
    /// A key of the manifest holds a value of the wrong type.
    TypeMismatch,
    /// The manifest lacks the key named here.
    MissingKey(String),
    /// The file system refused an access.
    Io(std::io::Error),
    /// The manifest is no TOML document.
    Syntax,
    /// The analyzer's answer is malformed: the line at this place of it,
    /// the first line counted as 0, has not exactly one colon, or names a
    /// file without an extension.
    MalformedLine(usize),
    /// The analyzer ended with another exit code than 0. What it wrote to
    /// its standard output comes first, what it wrote to its standard error
    /// second.
    AnalyzerFailed(String, String),
    /// The compiler ended with another exit code than 0. What it wrote to
    /// its standard output comes first, what it wrote to its standard error
    /// second.
    CompilerFailed(String, String),
    /// Files of one directory depend on each other in a circle, so that no
    /// order can compile each after what it needs.
    Cycle,
}

impl From<std::io::Error> for Error {
    /// The error of the build that holds `x`.
    fn from(x: std::io::Error) -> (e: Error) {
        Error::Io(x)
    }
}

impl vstd::std_specs::convert::FromSpecImpl<std::io::Error> for Error {
    open spec fn obeys_from_spec() -> bool {
        true
    }

    open spec fn from_spec(x: std::io::Error) -> Error {
        Error::Io(x)
    }
}

} // verus!
