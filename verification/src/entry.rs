//! What a walk of the directory tree reports of one entry.

use crate::clock::{format_local, has_plain_shape, in_plain_years, local_time_text, representable};
use crate::result::{ResultView, SearchResult};
use vstd::prelude::*;

verus! {

/// One file or directory met during a walk.
#[derive(Debug)]
pub struct Entry {
    /// The base name: the last component of the path.
    pub name: String,
    /// The full path.
    pub path: String,
    pub is_dir: bool,
    /// How many levels below the root the entry lies; the root itself is at
    /// depth 0.
    pub depth: usize,
}

/// An [`Entry`] as plain mathematical values.
pub struct EntryView {
    pub name: Seq<char>,
    pub path: Seq<char>,
    pub is_dir: bool,
    pub depth: nat,
}

impl View for Entry {
    type V = EntryView;

    open spec fn view(&self) -> EntryView {
        EntryView {
            name: self.name@,
            path: self.path@,
            is_dir: self.is_dir,
            depth: self.depth as nat,
        }
    }
}

/// When an entry was last changed.
#[derive(Clone, Copy, Debug, PartialEq, Eq, Structural)]
pub struct ModifiedTime {
    /// Seconds since the start of 1970 in UTC.
    pub epoch_secs: i64,
    /// How many seconds local time was ahead of UTC at that moment.
    pub utc_offset_secs: i32,
}

/// What the file system tells of an entry once its metadata is read.
#[derive(Clone, Copy, Debug, PartialEq, Eq, Structural)]
pub struct FileFacts {
    /// The length in bytes.
    pub len: u64,
    /// The time of the last change; `None` where it could not be read.
    pub modified: Option<ModifiedTime>,
}

/// The result that an entry with these facts gives. There is none where the
/// metadata or the time of the last change could not be read, or where the
/// time has no calendar date. A directory is given size zero.
pub open spec fn result_view(entry: EntryView, facts: Option<FileFacts>) -> Option<ResultView> {
    match facts {
        Some(FileFacts { len, modified: Some(at) }) => if representable(
            at.epoch_secs as int,
            at.utc_offset_secs as int,
        ) {
            Some(
                ResultView {
                    name: entry.name,
                    path: entry.path,
                    is_dir: entry.is_dir,
                    size: if entry.is_dir {
                        0
                    } else {
                        len
                    },
                    modified_at: local_time_text(at.epoch_secs as int, at.utc_offset_secs as int),
                },
            )
        } else {
            None
        },
        _ => None,
    }
}

/// The time of the last change was read, and the local clock shows a year
/// from 0 to 9999 for it.
pub open spec fn plainly_dated(facts: Option<FileFacts>) -> bool {
    facts matches Some(FileFacts { modified: Some(at), .. }) && in_plain_years(
        at.epoch_secs as int,
        at.utc_offset_secs as int,
    )
}

/// Every result made from an entry is well formed.
pub proof fn lemma_result_view_well_formed(entry: EntryView, facts: Option<FileFacts>)
    ensures
        result_view(entry, facts) matches Some(r) ==> r.well_formed() && r.name == entry.name
            && r.path == entry.path && r.is_dir == entry.is_dir,
{
}

/// Makes the result for an entry whose metadata was asked for. `facts` is
/// `None` where the metadata could not be read.
pub fn build_result(entry: &Entry, facts: Option<FileFacts>) -> (r: Option<SearchResult>)
    ensures
        match r {
            Some(found) => {
                &&& result_view(entry@, facts) == Some(found@)
                &&& plainly_dated(facts) ==> has_plain_shape(found@.modified_at)
            },
            None => result_view(entry@, facts) is None,
        },
{
    let read = match facts {
        Some(read) => read,
        None => {
            return None;
        },
    };
    let at = match read.modified {
        Some(at) => at,
        None => {
            return None;
        },
    };
    match format_local(at.epoch_secs, at.utc_offset_secs) {
        Some(text) => Some(
            SearchResult::new(entry.name.clone(), entry.path.clone(), entry.is_dir, read.len, text),
        ),
        None => None,
    }
}

} // verus!
