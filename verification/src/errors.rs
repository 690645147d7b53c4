use vstd::prelude::*;
use vstd::string::{StrSliceExecFns, StringExecFns};

verus! {

/// Errors surfaced by the engine and its segments.
#[derive(Debug)]
pub enum NyroError {
    /// The named model is not in the configuration.
    ModelUnknown(String),
    /// The insert body is not a JSON object.
    NotObject,
    /// The named required field is missing from the record.
    MissingField(String),
    /// The `id` field is missing or does not hold a `u64`.
    InvalidId,
    /// The log cannot grow any further.
    StorageIO,
    /// The record cannot be encoded within the frame limits.
    CodecFailure,
}

impl NyroError {
    /// The error text, as clients of the engine see it.
    pub fn message(&self) -> (r: String)
        ensures
            r@ == match self {
                NyroError::ModelUnknown(m) => "Model '"@ + m@ + "' not defined in configuration"@,
                NyroError::NotObject => "Data must be a JSON object"@,
                NyroError::MissingField(f) => "Missing required field: '"@ + f@ + "'"@,
                NyroError::InvalidId => "Missing or invalid 'id' field"@,
                NyroError::StorageIO => "Storage write failed"@,
                NyroError::CodecFailure => "Failed to encode log entry"@,
            },
    {
        match self {
            NyroError::ModelUnknown(m) => {
                let mut s = String::from_str("Model '");
                s.append(m.as_str());
                s.append("' not defined in configuration");
                s
            },
            NyroError::NotObject => String::from_str("Data must be a JSON object"),
            NyroError::MissingField(f) => {
                let mut s = String::from_str("Missing required field: '");
                s.append(f.as_str());
                s.append("'");
                s
            },
            NyroError::InvalidId => String::from_str("Missing or invalid 'id' field"),
            NyroError::StorageIO => String::from_str("Storage write failed"),
            NyroError::CodecFailure => String::from_str("Failed to encode log entry"),
        }
    }
}

} // verus!
