use vstd::prelude::*;

verus! {

/// Errors surfaced at the engine boundary.
#[derive(Debug, Clone)]
pub enum KvsError {
    /// Operating-system level I/O failure, described by the caller that met it.
    Io(String),
    /// A malformed record was met while deserializing the log.
    Serde(String),
    /// `remove` was called for a key that is not present.
    KeyNotFound,
    /// The index resolved a key to a record that is not a `Set` command.
    UnexpectedCommandType,
    /// The reader pool was empty when a read was dispatched.
    NoReaderAvailable,
    /// Any other failure, described by a message.
    StringError(String),
}

impl KvsError {
    /// A human-readable description of the error, as the front ends
    /// print it.
    pub fn message(&self) -> (m: String)
        ensures
            self is KeyNotFound ==> m@ == "Key not found"@,
    {
        match self {
            KvsError::Io(s) => s.clone(),
            KvsError::Serde(s) => s.clone(),
            KvsError::KeyNotFound => "Key not found".to_owned(),
            KvsError::UnexpectedCommandType => "Unexpected command type".to_owned(),
            KvsError::NoReaderAvailable => "No reader available".to_owned(),
            KvsError::StringError(s) => s.clone(),
        }
    }
}

} // verus!
