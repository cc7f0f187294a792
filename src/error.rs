//! What can go wrong while assembling a speller.
use vstd::prelude::*;
use vstd::string::StringExecFns;

verus! {

/// Errors raised while building a speller; queries never fail.
#[derive(Debug, PartialEq, Eq)]
pub enum BuildError {
    /// A source file could not be opened or read.
    IoError(String),
    /// A structured (JSON) source was malformed.
    JsonError(String),
    /// A delimited (CSV/TSV) source was malformed.
    CSVError(String),
    /// A source file's extension maps to no known format.
    FileTypeNotSupported,
    /// A source file was expected to be JSON.
    NotJsonFile,
    /// A delimited record lacks the configured word or count column.
    CSVIndexError,
    /// A text line lacks the configured word or count field.
    TXTIndexError,
    /// A count field is not an integer.
    ParseCountError,
    /// Every source was read but the vocabulary is empty.
    DictNotFound,
    /// The builder was given no source at all.
    EmptySourceConfiguration,
}

/// The human-readable description of an error.
pub open spec fn message_of(e: BuildError) -> Seq<char> {
    match e {
        BuildError::IoError(m) => "IO error: "@ + m@,
        BuildError::JsonError(m) => "JSON error: "@ + m@,
        BuildError::CSVError(m) => "CSV error: "@ + m@,
        BuildError::FileTypeNotSupported => "File type not supported"@,
        BuildError::NotJsonFile => "Local dictionary must be a JSON file"@,
        BuildError::CSVIndexError => "CSV index error"@,
        BuildError::TXTIndexError => "TXT index error"@,
        BuildError::ParseCountError => "Error parsing count"@,
        BuildError::DictNotFound => "Dictionary not found"@,
        BuildError::EmptySourceConfiguration => "No dictionary source configured"@,
    }
}

impl BuildError {
    /// Describes the error for people.
    pub fn message(&self) -> (r: String)
        ensures
            r@ == message_of(*self),
    {
        match self {
            BuildError::IoError(m) => String::from_str("IO error: ").concat(m.as_str()),
            BuildError::JsonError(m) => String::from_str("JSON error: ").concat(m.as_str()),
            BuildError::CSVError(m) => String::from_str("CSV error: ").concat(m.as_str()),
            BuildError::FileTypeNotSupported => String::from_str("File type not supported"),
            BuildError::NotJsonFile => String::from_str("Local dictionary must be a JSON file"),
            BuildError::CSVIndexError => String::from_str("CSV index error"),
            BuildError::TXTIndexError => String::from_str("TXT index error"),
            BuildError::ParseCountError => String::from_str("Error parsing count"),
            BuildError::DictNotFound => String::from_str("Dictionary not found"),
            BuildError::EmptySourceConfiguration => String::from_str(
                "No dictionary source configured",
            ),
        }
    }
}

} // verus!
