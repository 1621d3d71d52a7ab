//! The error kinds that the sync core reports.

use vstd::prelude::*;
use vstd::string::*;

verus! {

/// Every failure the sync core can surface to a caller.
#[derive(Debug, Clone)]
pub enum AppError {
    /// A protocol operation got a status it could not accept.
    WebDav(String),
    /// An operation was attempted with no active client.
    NotConnected,
    /// The requested note does not exist on the server.
    NoteNotFound(String),
    /// Malformed document content (JSON or frontmatter).
    ParseError(String),
    /// Settings or credential persistence failed.
    StorageError(String),
    /// The server rejected the supplied credentials.
    InvalidCredentials,
    /// The transport itself failed.
    NetworkError(String),
    /// A timestamp string matched none of the accepted forms.
    InvalidTimestamp(String),
}

impl AppError {
    /// The stable human-readable description of this error.
    pub open spec fn message_spec(&self) -> Seq<char> {
        match self {
            AppError::WebDav(d) => "WebDav error: "@ + d@,
            AppError::NotConnected => "Not connected to server"@,
            AppError::NoteNotFound(id) => "Note not found: "@ + id@,
            AppError::ParseError(d) => "Parse error: "@ + d@,
            AppError::StorageError(d) => "Storage error: "@ + d@,
            AppError::InvalidCredentials => "Invalid credentials"@,
            AppError::NetworkError(d) => "Network error: "@ + d@,
            AppError::InvalidTimestamp(t) => "Invalid timestamp: "@ + t@,
        }
    }

    /// Renders the stable human-readable description of this error.
    pub fn message(&self) -> (r: String)
        ensures
            r@ == self.message_spec(),
    {
        match self {
            AppError::WebDav(d) => String::from_str("WebDav error: ").concat(d.as_str()),
            AppError::NotConnected => String::from_str("Not connected to server"),
            AppError::NoteNotFound(id) => String::from_str("Note not found: ").concat(id.as_str()),
            AppError::ParseError(d) => String::from_str("Parse error: ").concat(d.as_str()),
            AppError::StorageError(d) => String::from_str("Storage error: ").concat(d.as_str()),
            AppError::InvalidCredentials => String::from_str("Invalid credentials"),
            AppError::NetworkError(d) => String::from_str("Network error: ").concat(d.as_str()),
            AppError::InvalidTimestamp(t) => String::from_str("Invalid timestamp: ").concat(
                t.as_str(),
            ),
        }
    }
}

} // verus!
