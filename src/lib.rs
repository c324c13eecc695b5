//! Point-in-time archive of a repository's branches and tags.
use vstd::prelude::*;

pub mod apis;
pub mod browse;
pub mod fetch;
pub mod history;
pub mod keeper;
pub mod listing;
pub mod session;
pub mod snapshot;

verus! {

/// Errors of the archive.
#[derive(Debug)]
pub enum Error {
    /// The store could not be read or written.
    Sqlite(String),
    /// A git command failed.
    Git(String),
    /// Reading or writing a file failed.
    Io(String),
    /// The configuration is wrong.
    Config(String),
    /// A fetch line carries an unknown operation code.
    InvalidOperation,
    /// A line of git's output is not UTF-8 text.
    NotText,
    /// The remote refused to update this ref.
    Rejected(String),
    /// A remote-tracking ref belongs to another remote than the archived one.
    UnknownRemote(String),
}

/// The errors of the archive, with text as sequences of characters.
pub enum ErrorView {
    Sqlite(Seq<char>),
    Git(Seq<char>),
    Io(Seq<char>),
    Config(Seq<char>),
    InvalidOperation,
    NotText,
    Rejected(Seq<char>),
    UnknownRemote(Seq<char>),
}

impl View for Error {
    type V = ErrorView;

    open spec fn view(&self) -> ErrorView {
        match self {
            Error::Sqlite(s) => ErrorView::Sqlite(s@),
            Error::Git(s) => ErrorView::Git(s@),
            Error::Io(s) => ErrorView::Io(s@),
            Error::Config(s) => ErrorView::Config(s@),
            Error::InvalidOperation => ErrorView::InvalidOperation,
            Error::NotText => ErrorView::NotText,
            Error::Rejected(s) => ErrorView::Rejected(s@),
            Error::UnknownRemote(s) => ErrorView::UnknownRemote(s@),
        }
    }
}

} // verus!
