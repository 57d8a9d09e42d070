//! The ways in which a search ends without results.

use vstd::prelude::*;
use vstd::string::StringExecFns;

verus! {

/// Why a search gave no results.
#[derive(Debug)]
pub enum SearchError {
    /// The root path does not exist.
    PathNotFound,
    /// The search was told to stop.
    Cancelled,
    /// The search took longer than it is given.
    TimedOut,
    /// The results could not be reached; the text says what failed.
    Synchronization(String),
}

impl SearchError {
    /// The text that the caller is given.
    pub open spec fn message_text(self) -> Seq<char> {
        match self {
            SearchError::PathNotFound => "path does not exist"@,
            SearchError::Cancelled => "Search cancelled"@,
            SearchError::TimedOut => "Search operation timed out"@,
            SearchError::Synchronization(detail) => detail@,
        }
    }

    /// The text that the caller is given.
    pub fn message(&self) -> (r: String)
        ensures
            r@ == self.message_text(),
    {
        match self {
            SearchError::PathNotFound => String::from_str("path does not exist"),
            SearchError::Cancelled => String::from_str("Search cancelled"),
            SearchError::TimedOut => String::from_str("Search operation timed out"),
            SearchError::Synchronization(detail) => detail.clone(),
        }
    }
}

} // verus!
