//! Errors reported by the library.

use vstd::prelude::*;
use vstd::string::StringExecFns;

verus! {

/// What went wrong, with a human-readable explanation.
#[derive(Debug)]
pub enum SbsError {
    /// A required field is absent or a constraint rule is violated.
    ConfigError(String),
    /// The word source is missing or unreadable.
    DictionaryError(String),
    /// Reading from or writing to a stream failed.
    IoError(String),
    /// A request or configuration could not be decoded.
    SerializationError(String),
    /// A definition lookup or the lookup service itself failed.
    ValidationError(String),
}

impl SbsError {
    /// The explanation, prefixed by the kind of failure.
    pub fn to_string(&self) -> (r: String)
        ensures
            r@ == match self {
                SbsError::ConfigError(m) => "Configuration error: "@ + m@,
                SbsError::DictionaryError(m) => "Dictionary error: "@ + m@,
                SbsError::IoError(m) => "IO error: "@ + m@,
                SbsError::SerializationError(m) => "Serialization error: "@ + m@,
                SbsError::ValidationError(m) => "Validation error: "@ + m@,
            },
    {
        match self {
            SbsError::ConfigError(m) => "Configuration error: ".to_owned().concat(m.as_str()),
            SbsError::DictionaryError(m) => "Dictionary error: ".to_owned().concat(m.as_str()),
            SbsError::IoError(m) => "IO error: ".to_owned().concat(m.as_str()),
            SbsError::SerializationError(m) => "Serialization error: ".to_owned().concat(m.as_str()),
            SbsError::ValidationError(m) => "Validation error: ".to_owned().concat(m.as_str()),
        }
    }
}

} // verus!
