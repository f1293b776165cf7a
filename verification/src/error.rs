//! Errors that the log, the store and a node's transitions report.

use vstd::prelude::*;
use vstd::string::StringExecFns;

verus! {

/// What went wrong.
///
/// `Internal` is an invariant violation, `Config` a bad startup parameter,
/// `IO` a failure of the store, `ChannelClosed` a peer that went away, and
/// `Abort` tells a client that its request was dropped when leadership moved.
#[derive(Debug, PartialEq, Eq)]
pub enum Error {
    Abort,
    Config(String),
    Internal(String),
    IO(String),
    ChannelClosed,
}

/// The mathematical value of an [`Error`].
pub enum ErrorView {
    Abort,
    Config(Seq<char>),
    Internal(Seq<char>),
    IO(Seq<char>),
    ChannelClosed,
}

impl View for Error {
    type V = ErrorView;

    open spec fn view(&self) -> ErrorView {
        match self {
            Error::Abort => ErrorView::Abort,
            Error::Config(m) => ErrorView::Config(m@),
            Error::Internal(m) => ErrorView::Internal(m@),
            Error::IO(m) => ErrorView::IO(m@),
            Error::ChannelClosed => ErrorView::ChannelClosed,
        }
    }
}

impl Clone for Error {
    fn clone(&self) -> (r: Self)
        ensures
            r@ == self@,
    {
        match self {
            Error::Abort => Error::Abort,
            Error::Config(m) => Error::Config(m.clone()),
            Error::Internal(m) => Error::Internal(m.clone()),
            Error::IO(m) => Error::IO(m.clone()),
            Error::ChannelClosed => Error::ChannelClosed,
        }
    }
}

impl Error {
    /// An invariant violation with the given description.
    pub fn internal(msg: &str) -> (e: Error)
        ensures
            e@ == ErrorView::Internal(msg@),
    {
        Error::Internal(String::from_str(msg))
    }

    /// A bad startup parameter with the given description.
    pub fn config(msg: &str) -> (e: Error)
        ensures
            e@ == ErrorView::Config(msg@),
    {
        Error::Config(String::from_str(msg))
    }

    /// The text that describes the error.
    pub fn message(&self) -> (s: String)
        ensures
            s@ == match self@ {
                ErrorView::Abort => "Operation aborted"@,
                ErrorView::Config(m) => m,
                ErrorView::Internal(m) => m,
                ErrorView::IO(m) => m,
                ErrorView::ChannelClosed => "Channel closed"@,
            },
    {
        match self {
            Error::Abort => String::from_str("Operation aborted"),
            Error::Config(m) => m.clone(),
            Error::Internal(m) => m.clone(),
            Error::IO(m) => m.clone(),
            Error::ChannelClosed => String::from_str("Channel closed"),
        }
    }

    /// Whether the two errors are the same variant with the same text.
    pub fn same(&self, other: &Error) -> (r: bool)
        ensures
            r == (self@ == other@),
    {
        match (self, other) {
            (Error::Abort, Error::Abort) => true,
            (Error::Config(a), Error::Config(b)) => *a == *b,
            (Error::Internal(a), Error::Internal(b)) => *a == *b,
            (Error::IO(a), Error::IO(b)) => *a == *b,
            (Error::ChannelClosed, Error::ChannelClosed) => true,
            _ => false,
        }
    }
}

} // verus!
