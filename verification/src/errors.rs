//! The error taxonomy of the assembly engine.

use vstd::prelude::*;

verus! {

/// Naming a path can fail only when a segment is not representable as
/// text; callers detect that at the boundary and report it here.
#[derive(Debug, PartialEq, Eq, Structural)]
pub enum NamingError {
    NotUtf8,
}

/// Registering a template source can fail.
#[derive(Debug, PartialEq, Eq, Structural)]
pub enum RegistrationError {
    /// Two files normalize to one identifier.
    DuplicateIdentifier,
    /// The template source cannot be read.
    SourceUnreadable,
    /// The path is not representable as text.
    NotUtf8,
}

/// Loading a data file can fail.
#[derive(Debug, PartialEq, Eq, Structural)]
pub enum DataError {
    /// The extension is neither `json` nor `toml`.
    UnsupportedDataFormat,
    /// The file cannot be opened or read.
    Unreadable,
    /// The content does not parse under its declared format.
    Unparsable,
}

/// Resolving the configuration can fail.
#[derive(Debug, PartialEq, Eq, Structural)]
pub enum ConfigError {
    /// No main template path was supplied.
    MissingTemplate,
    /// No output path was supplied.
    MissingOutput,
}

} // verus!
