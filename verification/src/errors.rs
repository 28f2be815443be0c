//! The typed failures of the library. Every operation reports its failure to
//! the immediate caller; nothing is recovered silently.

use vstd::prelude::*;

use crate::object_id::ObjectID;

verus! {

/// What went wrong, with the data a caller needs to pinpoint it.
#[derive(Debug)]
pub enum YsErrorKind {
    /// An underlying storage or filesystem failure, with the position it was
    /// reported for when one is known.
    IO { message: String, path: Option<String> },
    /// A stored object could not be encoded or decoded.
    Serialization { message: String },
    /// A referenced object identifier is absent from the store: the reference
    /// and the store have come apart.
    MissingObject { id: ObjectID },
    /// A named branch has no pointer entry.
    MissingBranch { name: String },
    /// The repository's metadata layout is absent or invalid at this path.
    NotARepository { path: String },
    /// Text that should spell an object identifier does not.
    InvalidID,
    /// A working-directory entry that is neither a file nor a directory.
    UnsupportedEntryKind { path: String },
}

/// The unified error value of the library.
#[derive(Debug)]
pub struct YsError {
    /// What went wrong.
    pub kind: YsErrorKind,
}

impl YsError {
    /// An IO failure tied to the path it was reported for.
    pub fn path_error(message: String, path: String) -> (r: Self)
        ensures
            r.kind matches YsErrorKind::IO { message: m, path: Some(q) } && m@ == message@ && q@
                == path@,
    {
        YsError { kind: YsErrorKind::IO { message, path: Some(path) } }
    }

    /// An error that marks text which does not spell an object identifier.
    pub fn invalid_id() -> (r: Self)
        ensures
            r.kind is InvalidID,
    {
        YsError { kind: YsErrorKind::InvalidID }
    }

    /// An error that marks an identifier absent from the object store.
    pub fn missing_object(id: ObjectID) -> (r: Self)
        ensures
            r.kind matches YsErrorKind::MissingObject { id: i } && i@ == id@,
    {
        YsError { kind: YsErrorKind::MissingObject { id } }
    }

    /// An error that marks a branch without a pointer entry.
    pub fn missing_branch(name: String) -> (r: Self)
        ensures
            r.kind matches YsErrorKind::MissingBranch { name: n } && n@ == name@,
    {
        YsError { kind: YsErrorKind::MissingBranch { name } }
    }

    /// An error that marks a stored object whose bytes cannot be decoded.
    pub fn serialization(message: String) -> (r: Self)
        ensures
            r.kind matches YsErrorKind::Serialization { message: m } && m@ == message@,
    {
        YsError { kind: YsErrorKind::Serialization { message } }
    }
}

} // verus!
