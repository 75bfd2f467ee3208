//! What can go wrong.
use vstd::prelude::*;

verus! {

/// An error, with its message or with the values it is about.
#[derive(Debug)]
pub enum Error {
    /// A setting or a request that makes no sense.
    Config(String),
    /// A name or a path that cannot be used.
    InvalidPath(String),
    /// Something that is not there.
    NotFound(String),
    /// A text that does not parse.
    Parse(String),
    /// What the machine refused.
    Io(String),
    /// Anything else.
    Other(String),
    /// A path that leads out of the vault.
    PathTraversalAttempt { path: String },
    /// A path under a component that the note functions never touch.
    ProtectedPath { path: String, component: String },
    /// A file of more bytes than the limit allows.
    FileTooLarge { path: String, size: u64, max: u64 },
    /// A file that changed since the caller read it.
    ConcurrencyError { reason: String },
}

/// The model of an error.
pub enum Fault {
    Config(Seq<char>),
    InvalidPath(Seq<char>),
    NotFound(Seq<char>),
    Parse(Seq<char>),
    Io(Seq<char>),
    Other(Seq<char>),
    PathTraversalAttempt { path: Seq<char> },
    ProtectedPath { path: Seq<char>, component: Seq<char> },
    FileTooLarge { path: Seq<char>, size: u64, max: u64 },
    ConcurrencyError { reason: Seq<char> },
}

impl View for Error {
    type V = Fault;

    open spec fn view(&self) -> Fault {
        match self {
            Error::Config(s) => Fault::Config(s@),
            Error::InvalidPath(s) => Fault::InvalidPath(s@),
            Error::NotFound(s) => Fault::NotFound(s@),
            Error::Parse(s) => Fault::Parse(s@),
            Error::Io(s) => Fault::Io(s@),
            Error::Other(s) => Fault::Other(s@),
            Error::PathTraversalAttempt { path } => Fault::PathTraversalAttempt { path: path@ },
            Error::ProtectedPath { path, component } => Fault::ProtectedPath {
                path: path@,
                component: component@,
            },
            Error::FileTooLarge { path, size, max } => Fault::FileTooLarge {
                path: path@,
                size: *size,
                max: *max,
            },
            Error::ConcurrencyError { reason } => Fault::ConcurrencyError { reason: reason@ },
        }
    }
}

/// Three texts one after the other.
pub open spec fn around(before: Seq<char>, middle: Seq<char>, after: Seq<char>) -> Seq<char> {
    before + middle + after
}

/// Three texts one after the other.
pub fn wrap(before: &str, middle: &str, after: &str) -> (out: String)
    ensures
        out@ == around(before@, middle@, after@),
{
    let mut out: String = String::new();
    out.append(before);
    out.append(middle);
    out.append(after);
    assert(out@ =~= around(before@, middle@, after@));
    out
}

} // verus!
