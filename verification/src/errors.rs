//! The errors that the store and the configuration report.
use vstd::prelude::*;

verus! {

/// An error of the store or of the configuration, with its message.
#[derive(Debug, PartialEq, Eq)]
pub enum Error {
    /// Any failure other than an entry that can never fit.
    Custom(String),
    /// A single entry weighs more than the whole cache may hold.
    CacheEntryTooLarge(String),
}

/// What an [`Error`] says: its kind and its message.
pub enum ErrorView {
    Custom(Seq<char>),
    CacheEntryTooLarge(Seq<char>),
}

impl View for Error {
    type V = ErrorView;

    open spec fn view(&self) -> ErrorView {
        match self {
            Error::Custom(m) => ErrorView::Custom(m@),
            Error::CacheEntryTooLarge(m) => ErrorView::CacheEntryTooLarge(m@),
        }
    }
}

impl ErrorView {
    pub open spec fn message(self) -> Seq<char> {
        match self {
            ErrorView::Custom(m) => m,
            ErrorView::CacheEntryTooLarge(m) => m,
        }
    }
}

impl Error {
    /// The message of the error, as its `Display` shows it.
    pub fn to_string(&self) -> (s: String)
        ensures
            s@ == self@.message(),
    {
        match self {
            Error::Custom(m) => m.clone(),
            Error::CacheEntryTooLarge(m) => m.clone(),
        }
    }
}

} // verus!
