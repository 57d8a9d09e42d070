//! One match of a search, as it is handed back to the caller.

use vstd::prelude::*;

verus! {

/// What a [`SearchResult`] says, as plain mathematical values.
pub struct ResultView {
    pub name: Seq<char>,
    pub path: Seq<char>,
    pub is_dir: bool,
    pub size: u64,
    pub modified_at: Seq<char>,
}

impl ResultView {
    /// A directory is reported with size zero.
    pub open spec fn well_formed(self) -> bool {
        self.is_dir ==> self.size == 0
    }
}

/// One entry that met every criterion of the request.
#[derive(Debug)]
pub struct SearchResult {
    name: String,
    path: String,
    is_dir: bool,
    size: u64,
    modified_at: String,
}

impl View for SearchResult {
    type V = ResultView;

    closed spec fn view(&self) -> ResultView {
        ResultView {
            name: self.name@,
            path: self.path@,
            is_dir: self.is_dir,
            size: self.size,
            modified_at: self.modified_at@,
        }
    }
}

/// The views of a run of results, in order.
pub open spec fn views(results: Seq<SearchResult>) -> Seq<ResultView> {
    results.map_values(|r: SearchResult| r@)
}

impl SearchResult {
    #[verifier::type_invariant]
    spec fn directory_has_no_size(self) -> bool {
        self.is_dir ==> self.size == 0
    }

    /// A result with the given fields; for a directory the size is put to
    /// zero, whatever `size` holds.
    pub fn new(name: String, path: String, is_dir: bool, size: u64, modified_at: String) -> (r:
        Self)
        ensures
            r@ == (ResultView {
                name: name@,
                path: path@,
                is_dir,
                size: if is_dir {
                    0
                } else {
                    size
                },
                modified_at: modified_at@,
            }),
            r@.well_formed(),
    {
        SearchResult { name, path, is_dir, size: if is_dir { 0 } else { size }, modified_at }
    }

    /// The base name of the entry.
    pub fn name(&self) -> (r: &str)
        ensures
            r@ == self@.name,
    {
        self.name.as_str()
    }

    /// The full path of the entry.
    pub fn path(&self) -> (r: &str)
        ensures
            r@ == self@.path,
    {
        self.path.as_str()
    }

    /// Whether the entry is a directory.
    pub fn is_dir(&self) -> (r: bool)
        ensures
            r == self@.is_dir,
    {
        self.is_dir
    }

    /// The size in bytes; zero for a directory.
    pub fn size(&self) -> (r: u64)
        ensures
            r == self@.size,
            self@.well_formed(),
    {
        proof {
            use_type_invariant(self);
        }
        self.size
    }

    /// The time of the last change as local date and time; for years from 0
    /// to 9999 in the form `YYYY-MM-DD HH:MM:SS`.
    pub fn modified_at(&self) -> (r: &str)
        ensures
            r@ == self@.modified_at,
    {
        self.modified_at.as_str()
    }
}

impl Clone for SearchResult {
    fn clone(&self) -> (r: Self)
        ensures
            r@ == self@,
    {
        proof {
            use_type_invariant(self);
        }
        SearchResult {
            name: self.name.clone(),
            path: self.path.clone(),
            is_dir: self.is_dir,
            size: self.size,
            modified_at: self.modified_at.clone(),
        }
    }
}

} // verus!
