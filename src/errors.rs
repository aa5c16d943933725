use vstd::prelude::*;

verus! {

/// Why one manifest line could not be read.
#[derive(Debug, Clone, Copy, PartialEq, Eq, Structural)]
pub enum ParseReason {
    /// The line holds no ` *` between digest and path.
    MissingSeparator,
    /// The digest is not an even number of hexadecimal digits.
    InvalidHex,
}

/// What the library's operations can fail with.
#[derive(Debug, Clone, PartialEq, Eq)]
pub enum Error {
    /// A manifest line, counted from 1, is malformed.
    ParseError { line: usize, reason: ParseReason },
    /// A manifest lists this relative path more than once.
    DuplicateEntry { path: Vec<u8> },
    /// No manifest was named and none was found in the root directory.
    AmbiguousOrMissingManifest,
    /// The algorithm of a named manifest cannot be told from its extension.
    AmbiguousAlgorithm,
    /// The manifest exists and overwriting was not allowed.
    AlreadyExists { path: Vec<u8> },
    /// A file could not be read for a reason other than its absence.
    IOError { path: Vec<u8> },
    /// A discovered path cannot be expressed relative to the root.
    NotRelative { path: Vec<u8> },
    /// Some entry's digest differs from the file's.
    VerificationFailed,
    /// No digest differs, but some entries have no file.
    EntriesMissing,
    /// All entries match, but files exist that the catalog does not list.
    UnknownEntriesPresent,
}

/// The short message of each error.
pub open spec fn message_of(e: Error) -> Seq<char> {
    match e {
        Error::ParseError { .. } => "malformed manifest line"@,
        Error::DuplicateEntry { .. } => "entry appears more than once in the manifest"@,
        Error::AmbiguousOrMissingManifest => "failed to detect signature file"@,
        Error::AmbiguousAlgorithm => "failed to detect the algorithm from the catalog file name"@,
        Error::AlreadyExists { .. } => "catalog file already exists"@,
        Error::IOError { .. } => "failed reading file"@,
        Error::NotRelative { .. } => "unable to get relative path"@,
        Error::VerificationFailed => "Failed entries found"@,
        Error::EntriesMissing => "Missing entries found"@,
        Error::UnknownEntriesPresent => "Unknown entries found"@,
    }
}

impl Error {
    /// A short message for the operator.
    pub fn message(&self) -> (r: &'static str)
        ensures
            r@ == message_of(*self),
    {
        match self {
            Error::ParseError { .. } => "malformed manifest line",
            Error::DuplicateEntry { .. } => "entry appears more than once in the manifest",
            Error::AmbiguousOrMissingManifest => "failed to detect signature file",
            Error::AmbiguousAlgorithm => "failed to detect the algorithm from the catalog file name",
            Error::AlreadyExists { .. } => "catalog file already exists",
            Error::IOError { .. } => "failed reading file",
            Error::NotRelative { .. } => "unable to get relative path",
            Error::VerificationFailed => "Failed entries found",
            Error::EntriesMissing => "Missing entries found",
            Error::UnknownEntriesPresent => "Unknown entries found",
        }
    }
}

} // verus!
