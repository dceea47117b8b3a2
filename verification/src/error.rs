//! Errors returned by the command surface.

use vstd::prelude::*;

verus! {

/// A command-surface failure.
///
/// `AddressError` reports a malformed address string (purely local, no I/O
/// attempted).  `BindError` reports the operating system refusing to bind the
/// listener; the detail string from the OS is preserved.  `StatusError`
/// reports an operation that is invalid in the current lifecycle state:
/// starting while a server exists, stopping while none does, or sending or
/// closing against an unknown connection or an absent server.
#[derive(Debug, Clone, PartialEq, Eq)]
pub enum ServerError {
    AddressError(String),
    BindError(String),
    StatusError(String),
}

/// Mathematical image of a `ServerError`: the same three variants over
/// character sequences, so contracts can pin the exact message.
pub ghost enum ServerErrorModel {
    AddressError(Seq<char>),
    BindError(Seq<char>),
    StatusError(Seq<char>),
}

impl View for ServerError {
    type V = ServerErrorModel;

    open spec fn view(&self) -> ServerErrorModel {
        match self {
            ServerError::AddressError(s) => ServerErrorModel::AddressError(s@),
            ServerError::BindError(s) => ServerErrorModel::BindError(s@),
            ServerError::StatusError(s) => ServerErrorModel::StatusError(s@),
        }
    }
}

impl ServerError {
    /// Human-readable description, prefixed with the error kind.
    pub fn message(&self) -> (r: String)
        ensures
            r@ == self.message_spec(),
    {
        let prefix = match self {
            ServerError::AddressError(_) => "AddressError: ",
            ServerError::BindError(_) => "BindError: ",
            ServerError::StatusError(_) => "StatusError: ",
        };
        let detail = match self {
            ServerError::AddressError(s) => s.as_str(),
            ServerError::BindError(s) => s.as_str(),
            ServerError::StatusError(s) => s.as_str(),
        };
        let mut r = prefix.to_owned();
        r.append(detail);
        r
    }

    /// The message `message` returns: the kind, a colon, and the detail.
    pub open spec fn message_spec(&self) -> Seq<char> {
        match self {
            ServerError::AddressError(s) => "AddressError: "@ + s@,
            ServerError::BindError(s) => "BindError: "@ + s@,
            ServerError::StatusError(s) => "StatusError: "@ + s@,
        }
    }
}

} // verus!
