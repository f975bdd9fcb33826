use vstd::prelude::*;

verus! {

/// The kinds of faults the library reports.
#[non_exhaustive]
#[derive(Debug, Clone, Copy, PartialEq, Eq, Structural)]
pub enum ErrorKind {
    /// Something went wrong at the storage-engine level.
    SledError,
    /// Could not serialize or deserialize an entity or a descriptor.
    SerializationError,
    /// Any kind of file-system error while using the database.
    IOError,
    /// An integrity constraint has been violated while trying to remove an
    /// entity from the database.
    IntegrityError,
    /// An entity was not found.
    NotFound,
    /// An entity was used without being registered first in the database.
    UnregisteredEntity,
}

/// An error raised by the library: a kind together with a message.
///
/// For `IntegrityError` and `UnregisteredEntity` the message is the name
/// of the offending keyspace.
#[derive(Debug)]
pub struct Error {
    error_kind: ErrorKind,
    message: String,
}

impl Error {
    /// Creates a new error from an error kind and a message.
    pub fn new(error_kind: ErrorKind, message: String) -> (r: Error)
        ensures
            r.kind_spec() == error_kind,
            r.message_spec() == message@,
    {
        Error { error_kind, message }
    }

    /// The kind of this error.
    pub fn kind(&self) -> (r: ErrorKind)
        ensures
            r == self.kind_spec(),
    {
        self.error_kind
    }

    /// The message carried by this error.
    pub fn message(&self) -> (r: &String)
        ensures
            r@ == self.message_spec(),
    {
        &self.message
    }

    /// The kind, as a spec-level value.
    pub closed spec fn kind_spec(&self) -> ErrorKind {
        self.error_kind
    }

    /// The message, as a spec-level value.
    pub closed spec fn message_spec(&self) -> Seq<char> {
        self.message@
    }
}

} // verus!
