//! The error kinds of the store.

use vstd::prelude::*;
use vstd::string::StringExecFns;

verus! {

/// What can go wrong in the engine, on the wire or at start-up.
#[derive(Debug, Clone, PartialEq, Eq)]
pub enum KvError {
    /// A failure of the underlying storage, with its description.
    Io(String),
    /// Bytes that do not decode, or a value too long to encode.
    Serialize(String),
    /// The key to remove is not in the store.
    KeyNotFound,
    /// An index entry names a generation that no log file holds.
    ReaderNotFound,
    /// Bytes that should be text are not UTF-8.
    Utf8,
    /// An error message received from the other end of a connection.
    StringError(String),
    /// The data directory was last opened with another engine.
    WrongEngine,
}

impl KvError {
    /// The text that describes the error to a user.
    pub open spec fn spec_message(self) -> Seq<char> {
        match self {
            KvError::Io(detail) => "Io Error: "@ + detail@,
            KvError::Serialize(detail) => "serialize/deserialize error: "@ + detail@,
            KvError::KeyNotFound => "Key not found"@,
            KvError::ReaderNotFound => "Reader not found"@,
            KvError::Utf8 => "utf8 error"@,
            KvError::StringError(detail) => "response error message: "@ + detail@,
            KvError::WrongEngine => "wrone engine"@,
        }
    }

    /// Renders the error as text.
    pub fn message(&self) -> (text: String)
        ensures
            text@ == self.spec_message(),
    {
        match self {
            KvError::Io(detail) => String::from_str("Io Error: ").concat(detail.as_str()),
            KvError::Serialize(detail) => String::from_str("serialize/deserialize error: ").concat(
                detail.as_str(),
            ),
            KvError::KeyNotFound => String::from_str("Key not found"),
            KvError::ReaderNotFound => String::from_str("Reader not found"),
            KvError::Utf8 => String::from_str("utf8 error"),
            KvError::StringError(detail) => String::from_str("response error message: ").concat(
                detail.as_str(),
            ),
            KvError::WrongEngine => String::from_str("wrone engine"),
        }
    }
}

} // verus!
