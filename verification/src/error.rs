//! The store's error type. Every failure is representable as a textual
//! message; expected conditions (empty stack on pop, unknown id on update)
//! are ordinary result values, never panics.

use vstd::prelude::*;

verus! {

use vstd::string::StringExecFns;

/// The mathematical value of an [`Error`].
#[verifier::ext_equal]
pub ghost enum ErrorModel {
    /// An update addressed an id that no row carries.
    NotFound { id: int },
    /// The persistence layer failed; the message is surfaced verbatim.
    Storage { message: Seq<char> },
    /// A window of the presentation layer could not be resolved.
    WindowNotFound { name: Seq<char> },
}

#[derive(Debug)]
enum ErrorKind {
    NotFound { id: i64 },
    Storage { message: String },
    WindowNotFound { name: String },
}

/// An error surfaced by the store or its callers.
#[derive(Debug)]
pub struct Error {
    kind: ErrorKind,
}

impl View for Error {
    type V = ErrorModel;

    closed spec fn view(&self) -> ErrorModel {
        match self.kind {
            ErrorKind::NotFound { id } => ErrorModel::NotFound { id: id as int },
            ErrorKind::Storage { message } => ErrorModel::Storage { message: message@ },
            ErrorKind::WindowNotFound { name } => ErrorModel::WindowNotFound { name: name@ },
        }
    }
}

impl Error {
    /// The error an update returns when no row carries the given id.
    pub fn not_found(id: i64) -> (e: Error)
        ensures
            e@ == (ErrorModel::NotFound { id: id as int }),
    {
        Error { kind: ErrorKind::NotFound { id } }
    }

    /// The error a persistence failure surfaces as.
    pub fn storage(message: String) -> (e: Error)
        ensures
            e@ == (ErrorModel::Storage { message: message@ }),
    {
        Error { kind: ErrorKind::Storage { message } }
    }

    /// The error the window layer reports for a window it cannot resolve.
    pub fn window_not_found(name: &str) -> (e: Error)
        ensures
            e@ == (ErrorModel::WindowNotFound { name: name@ }),
    {
        Error { kind: ErrorKind::WindowNotFound { name: name.to_owned() } }
    }

    pub fn is_not_found(&self) -> (r: bool)
        ensures
            r == (self@ is NotFound),
    {
        match &self.kind {
            ErrorKind::NotFound { .. } => true,
            _ => false,
        }
    }

    pub fn is_storage(&self) -> (r: bool)
        ensures
            r == (self@ is Storage),
    {
        match &self.kind {
            ErrorKind::Storage { .. } => true,
            _ => false,
        }
    }

    /// The failure as a textual message.
    pub fn message(&self) -> (r: String)
        ensures
            self@ is NotFound ==> r@ == "Task not found"@,
            self@ matches ErrorModel::Storage { message } ==> r@ == "Storage error: "@ + message,
            self@ matches ErrorModel::WindowNotFound { name } ==> r@ == "Window not found: "@
                + name,
    {
        match &self.kind {
            ErrorKind::NotFound { .. } => String::from_str("Task not found"),
            ErrorKind::Storage { message } => {
                let mut r = String::from_str("Storage error: ");
                r.append(message.as_str());
                r
            },
            ErrorKind::WindowNotFound { name } => {
                let mut r = String::from_str("Window not found: ");
                r.append(name.as_str());
                r
            },
        }
    }
}

} // verus!
