//! Errors, and how they read.
use vstd::prelude::*;

verus! {

/// What can go wrong.
#[derive(Debug)]
pub enum KyokuError {
    FileNotFound { path: String },
    UnsupportedFormat { ext: String },
    /// A file whose tags cannot be read, and why.
    TagRead { path: String, reason: String },
    Database(String),
    Io(String),
    Config(String),
    /// A service that cannot be reached or understood.
    External(String),
}

impl KyokuError {
    /// How the error reads.
    pub open spec fn text(self) -> Seq<char> {
        match self {
            KyokuError::FileNotFound { path } => "File not found: "@ + path@,
            KyokuError::UnsupportedFormat { ext } => "Unsupported audio format: "@ + ext@,
            KyokuError::TagRead { path, reason } => "Tag read error for "@ + path@ + ": "@ + reason@,
            KyokuError::Database(e) => "Database error: "@ + e@,
            KyokuError::Io(e) => "IO error: "@ + e@,
            KyokuError::Config(e) => "Configuration error: "@ + e@,
            KyokuError::External(e) => "External service error: "@ + e@,
        }
    }

    /// How the error reads.
    pub fn message(&self) -> (r: String)
        ensures
            r@ == self.text(),
    {
        match self {
            KyokuError::FileNotFound { path } => prefixed("File not found: ", path.as_str()),
            KyokuError::UnsupportedFormat { ext } => prefixed(
                "Unsupported audio format: ",
                ext.as_str(),
            ),
            KyokuError::TagRead { path, reason } => {
                let mut s = prefixed("Tag read error for ", path.as_str());
                s.append(": ");
                s.append(reason.as_str());
                s
            },
            KyokuError::Database(e) => prefixed("Database error: ", e.as_str()),
            KyokuError::Io(e) => prefixed("IO error: ", e.as_str()),
            KyokuError::Config(e) => prefixed("Configuration error: ", e.as_str()),
            KyokuError::External(e) => prefixed("External service error: ", e.as_str()),
        }
    }
}

fn prefixed(a: &str, b: &str) -> (r: String)
    ensures
        r@ == a@ + b@,
{
    let mut s = a.to_owned();
    s.append(b);
    s
}

} // verus!
