use vstd::prelude::*;

verus! {

/// Errors of this crate.
#[derive(Debug, PartialEq, Eq)]
pub enum ArrowError {
    /// Returned when functionality is not yet available.
    NotYetImplemented(String),
    /// Triggered by an external error: its message and the description of its source.
    External(String, String),
    Schema(String),
    /// Error of an input/output operation, by its description.
    Io(String),
    InvalidArgumentError(String),
    /// Error during import or export to/from the foreign interface
    Ffi(String),
    /// Error during import or export to/from IPC
    Ipc(String),
    /// Error during import or export to/from a format
    ExternalFormat(String),
    KeyOverflowError,
    /// Error during arithmetic operation. Normally returned
    /// during checked operations
    ArithmeticError(String),
    Other(String),
}

impl ArrowError {
    /// Wraps the description of an external error in an `ArrowError`.
    pub fn from_external_error(error: String) -> (r: Self)
        ensures
            r matches ArrowError::External(m, s) && m@ == Seq::<char>::empty() && s@ == error@,
    {
        ArrowError::External(String::new(), error)
    }
}

/// The result type of this crate.
pub type Result<T> = core::result::Result<T, ArrowError>;

} // verus!
