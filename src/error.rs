//! Errors of the library and the transport-independent kind of each.
use vstd::prelude::*;

verus! {

/// The transport-independent classes of failure.
#[derive(Debug, Clone, Copy, PartialEq, Eq, Structural)]
pub enum ErrorKind {
    BadRequest,
    NotFound,
    Conflict,
    PreconditionRequired,
    Internal,
}

impl ErrorKind {
    /// The HTTP status a transport reports for this kind.
    pub open spec fn spec_status(self) -> u16 {
        match self {
            ErrorKind::BadRequest => 400,
            ErrorKind::NotFound => 404,
            ErrorKind::Conflict => 409,
            ErrorKind::PreconditionRequired => 412,
            ErrorKind::Internal => 500,
        }
    }

    pub fn status(&self) -> (r: u16)
        ensures
            r == self.spec_status(),
    {
        match self {
            ErrorKind::BadRequest => 400,
            ErrorKind::NotFound => 404,
            ErrorKind::Conflict => 409,
            ErrorKind::PreconditionRequired => 412,
            ErrorKind::Internal => 500,
        }
    }
}

/// Every failure the library reports.
#[derive(Debug, Clone, PartialEq, Eq)]
pub enum Error {
    /// A group name is empty.
    EmptyName,
    /// A group name is longer than the limit, in bytes.
    NameTooLong(usize),
    /// A group name starts or ends with white space.
    NameWhitespace,
    /// A group name holds a character outside the allowed set.
    NameInvalidCharacters,
    /// A group path is not valid percent-encoding of UTF-8.
    InvalidUrlEncoding,
    /// A group path holds a backslash followed by this character.
    InvalidPathEscape(char),
    /// A group path ends with a lone backslash.
    IncompletePathEscape,
    /// A group path holds an empty segment.
    EmptyPathSegment,
    /// A group path ends with a delimiter.
    TrailingPathDelimiter,
    /// A group path names no group.
    EmptyPath,
    /// A group path has more segments than allowed.
    PathTooDeep(usize),
    /// A query holds a backslash, at this character position, that escapes nothing allowed.
    InvalidQueryEscape(usize),
    /// A query constraint names a field the columns do not have.
    UnknownField(String),
    /// A query constraint applies an operator the field's type does not support.
    UnsupportedOperator(String),
    /// A query value cannot be read as the field's type.
    ValueParse(String, String),
    /// No group has this id.
    GroupNotFound(u128),
    /// The requested parent group does not exist.
    ParentNotFound(u128),
    /// Some of the named groups do not exist.
    GroupsNotFound(Vec<u128>),
    /// The stored revision differs from the expected one.
    RevisionMismatch { stored: i32, expected: i32 },
    /// A group was asked to become its own parent.
    OwnParent,
    /// A parent change would close a cycle.
    Cycle,
    /// A parent change whose parent chain is longer than the walk that checks for cycles.
    HierarchyTooDeep,
    /// Another group already has this parent and name.
    NameTaken,
    /// A group that still has children cannot be deleted.
    HasChildren,
    /// An update came without a revision precondition.
    MissingIfMatch,
    /// A revision precondition could not be read.
    InvalidIfMatch,
    /// The store could not complete the operation (a freshly drawn id was taken, a counter would overflow).
    Internal,
}

impl Error {
    pub open spec fn spec_kind(&self) -> ErrorKind {
        match self {
            Error::GroupNotFound(_) | Error::ParentNotFound(_) | Error::GroupsNotFound(_) => ErrorKind::NotFound,
            Error::NameTaken | Error::HasChildren => ErrorKind::Conflict,
            Error::MissingIfMatch => ErrorKind::PreconditionRequired,
            Error::Internal => ErrorKind::Internal,
            _ => ErrorKind::BadRequest,
        }
    }

    /// The class of this failure.
    pub fn kind(&self) -> (r: ErrorKind)
        ensures
            r == self.spec_kind(),
    {
        match self {
            Error::GroupNotFound(_) | Error::ParentNotFound(_) | Error::GroupsNotFound(_) => ErrorKind::NotFound,
            Error::NameTaken | Error::HasChildren => ErrorKind::Conflict,
            Error::MissingIfMatch => ErrorKind::PreconditionRequired,
            Error::Internal => ErrorKind::Internal,
            _ => ErrorKind::BadRequest,
        }
    }
}

} // verus!
