//! What a search asks for: a term, how deep to go, which kind of entry, and
//! which extensions.

use crate::text::{
    ascii_case_equal, chars_of, extension_of, final_dot, is_substring, is_white_space,
    lemma_final_dot_unique, lowercase_of, same_text, split_on, split_trimmed, to_lowercase, trim,
    trimmed, without_trailing_space,
};
use vstd::prelude::*;

verus! {

/// How far below the root a search goes.
#[derive(Clone, Copy, Debug, PartialEq, Eq, Structural)]
pub enum DepthPolicy {
    /// The immediate children of the root.
    TopLevelOnly,
    /// Everything below the root, however deep.
    Recursive,
}

/// Which kind of entry a search returns.
#[derive(Clone, Copy, Debug, PartialEq, Eq, Structural)]
pub enum TargetType {
    Files,
    Folders,
    Both,
}

impl DepthPolicy {
    /// An entry `depth` levels below the root is within reach. The root
    /// itself, at depth 0, never is: a search looks below it.
    pub open spec fn allows(self, depth: nat) -> bool {
        match self {
            DepthPolicy::TopLevelOnly => depth == 1,
            DepthPolicy::Recursive => depth >= 1,
        }
    }

    /// The policy that the word `level` stands for: `top` is the top level
    /// only, every other word the whole subtree.
    pub open spec fn of_level(level: Seq<char>) -> DepthPolicy {
        if level == "top"@ {
            DepthPolicy::TopLevelOnly
        } else {
            DepthPolicy::Recursive
        }
    }

    /// The policy that the word `level` stands for.
    pub fn from_level(level: &str) -> (r: DepthPolicy)
        ensures
            r == DepthPolicy::of_level(level@),
    {
        if same_text(level, "top") {
            DepthPolicy::TopLevelOnly
        } else {
            DepthPolicy::Recursive
        }
    }

    /// The least depth at which a walk under this policy reports entries:
    /// one level below the root.
    pub fn min_depth(self) -> (r: usize)
        ensures
            r == 1,
            forall|depth: usize|
                self.allows(depth as nat) <==> r <= depth <= match self {
                    DepthPolicy::TopLevelOnly => 1,
                    DepthPolicy::Recursive => usize::MAX,
                },
    {
        1
    }

    /// The greatest depth that a walk under this policy descends to.
    pub fn max_depth(self) -> (r: usize)
        ensures
            r == match self {
                DepthPolicy::TopLevelOnly => 1,
                DepthPolicy::Recursive => usize::MAX,
            },
            forall|depth: usize| self.allows(depth as nat) <==> 1 <= depth <= r,
    {
        match self {
            DepthPolicy::TopLevelOnly => 1,
            DepthPolicy::Recursive => usize::MAX,
        }
    }

    /// Whether an entry `depth` levels below the root is within reach.
    pub fn permits(self, depth: usize) -> (r: bool)
        ensures
            r == self.allows(depth as nat),
    {
        match self {
            DepthPolicy::TopLevelOnly => depth == 1,
            DepthPolicy::Recursive => depth >= 1,
        }
    }
}

impl TargetType {
    /// An entry of this kind is among those asked for.
    pub open spec fn accepts(self, is_dir: bool) -> bool {
        match self {
            TargetType::Files => !is_dir,
            TargetType::Folders => is_dir,
            TargetType::Both => true,
        }
    }

    /// The kind that the word `target` stands for: `folders`, `files`, and
    /// every other word for both.
    pub open spec fn of_target(target: Seq<char>) -> TargetType {
        if target == "folders"@ {
            TargetType::Folders
        } else if target == "files"@ {
            TargetType::Files
        } else {
            TargetType::Both
        }
    }

    /// The kind that the word `target` stands for.
    pub fn from_target(target: &str) -> (r: TargetType)
        ensures
            r == TargetType::of_target(target@),
    {
        if same_text(target, "folders") {
            TargetType::Folders
        } else if same_text(target, "files") {
            TargetType::Files
        } else {
            TargetType::Both
        }
    }

    /// Whether an entry of this kind is among those asked for.
    pub fn admits(self, is_dir: bool) -> (r: bool)
        ensures
            r == self.accepts(is_dir),
    {
        match self {
            TargetType::Files => !is_dir,
            TargetType::Folders => is_dir,
            TargetType::Both => true,
        }
    }
}

/// The term as it is matched: in lowercase. The empty term stays empty.
pub open spec fn folded_term(term: Seq<char>) -> Seq<char> {
    if term.len() == 0 {
        term
    } else {
        lowercase_of(term)
    }
}

/// A list is blank where nothing is left of it once the white space at its
/// ends is taken away: where it is empty or holds white space only.
pub open spec fn is_blank(list: Seq<char>) -> bool {
    trimmed(list).len() == 0
}

/// The extensions that a comma-separated list names: none where the list is
/// blank, else each piece between commas without the white space around it.
pub open spec fn listed_extensions(list: Seq<char>) -> Seq<Seq<char>> {
    if is_blank(list) {
        Seq::empty()
    } else {
        split_on(list, ',').map_values(|piece: Seq<char>| trimmed(piece))
    }
}

/// A list is blank exactly where each of its characters is white space;
/// the empty list is, and asks for no extension.
pub proof fn lemma_blank_is_all_white_space(list: Seq<char>)
    ensures
        is_blank(list) <==> forall|i: int| 0 <= i < list.len() ==> is_white_space(#[trigger] list[i]),
        list.len() == 0 ==> listed_extensions(list) == Seq::<Seq<char>>::empty(),
    decreases list.len(),
{
    if list.len() > 0 {
        if is_white_space(list[0]) {
            lemma_blank_is_all_white_space(list.drop_first());
            if is_blank(list.drop_first()) {
                assert forall|i: int| 0 <= i < list.len() implies is_white_space(
                    #[trigger] list[i],
                ) by {
                    if i > 0 {
                        assert(list.drop_first()[i - 1] == list[i]);
                    }
                }
            } else {
                let j = choose|j: int|
                    0 <= j < list.drop_first().len() && !is_white_space(
                        #[trigger] list.drop_first()[j],
                    );
                assert(!is_white_space(list[j + 1]));
            }
        } else {
            lemma_trailing_space_keeps_the_first(list);
        }
    }
}

/// Taking trailing white space off a text that starts with another
/// character leaves that character in place.
proof fn lemma_trailing_space_keeps_the_first(s: Seq<char>)
    requires
        s.len() > 0,
        !is_white_space(s[0]),
    ensures
        without_trailing_space(s).len() > 0,
    decreases s.len(),
{
    if is_white_space(s.last()) {
        assert(s.len() > 1);
        assert(s.drop_last()[0] == s[0]);
        lemma_trailing_space_keeps_the_first(s.drop_last());
    }
}

/// A request as plain mathematical values.
pub struct RequestView {
    /// The term, in lowercase.
    pub term: Seq<char>,
    pub depth: DepthPolicy,
    pub target: TargetType,
    /// The extensions asked for; empty where any extension will do.
    pub extensions: Seq<Seq<char>>,
}

impl RequestView {
    /// The lowercase form of the base name holds the term.
    pub open spec fn name_matches(self, name: Seq<char>) -> bool {
        is_substring(self.term, lowercase_of(name))
    }

    /// The extension `ext` equals one of those asked for, up to the case of
    /// ASCII letters.
    pub open spec fn lists(self, ext: Seq<char>) -> bool {
        exists|i: int|
            0 <= i < self.extensions.len() && ascii_case_equal(#[trigger] self.extensions[i], ext)
    }

    /// A directory passes; so does any entry when no extension is asked
    /// for. Otherwise the base name must have an extension, and that
    /// extension must be one of those asked for: a name without a `.` is
    /// turned away.
    pub open spec fn extension_matches(self, name: Seq<char>, is_dir: bool) -> bool {
        is_dir || self.extensions.len() == 0 || match extension_of(name) {
            Some(ext) => self.lists(ext),
            None => false,
        }
    }

    /// An entry with this base name and kind meets the criteria on kind,
    /// name and extension.
    pub open spec fn criteria_hold(self, name: Seq<char>, is_dir: bool) -> bool {
        &&& self.target.accepts(is_dir)
        &&& self.name_matches(name)
        &&& self.extension_matches(name, is_dir)
    }
}

/// While extensions are asked for, a file whose base name holds no `.` is
/// turned away, whatever the list holds; one whose name ends in `.` passes
/// where the list has an empty piece.
pub proof fn lemma_name_without_extension_is_turned_away(request: RequestView, name: Seq<char>)
    requires
        request.extensions.len() > 0,
    ensures
        !name.contains('.') ==> !request.extension_matches(name, false),
        name.len() > 0 && name.last() == '.' && request.extensions.contains(Seq::empty())
            ==> request.extension_matches(name, false),
{
    if !name.contains('.') {
        assert forall|at: int| !final_dot(name, at) by {
            if final_dot(name, at) {
                assert(name[at] == '.');
            }
        }
    }
    if name.len() > 0 && name.last() == '.' && request.extensions.contains(Seq::empty()) {
        let at = name.len() - 1;
        assert(final_dot(name, at));
        let chosen = choose|k: int| final_dot(name, k);
        lemma_final_dot_unique(name, chosen, at);
        assert(name.subrange(at + 1, name.len() as int) =~= Seq::<char>::empty());
        let i = choose|i: int|
            0 <= i < request.extensions.len() && request.extensions[i] == Seq::<char>::empty();
        assert(ascii_case_equal(request.extensions[i], Seq::<char>::empty()));
    }
}

/// The view of the request that the four words of a caller stand for.
pub open spec fn request_of(
    term: Seq<char>,
    level: Seq<char>,
    target: Seq<char>,
    extensions: Seq<char>,
) -> RequestView {
    RequestView {
        term: folded_term(term),
        depth: DepthPolicy::of_level(level),
        target: TargetType::of_target(target),
        extensions: listed_extensions(extensions),
    }
}

/// What one search asks for. It does not change while the search runs.
pub struct SearchRequest {
    term: Vec<char>,
    depth: DepthPolicy,
    target: TargetType,
    extensions: Vec<Vec<char>>,
}

impl View for SearchRequest {
    type V = RequestView;

    closed spec fn view(&self) -> RequestView {
        RequestView {
            term: self.term@,
            depth: self.depth,
            target: self.target,
            extensions: self.extensions@.map_values(|e: Vec<char>| e@),
        }
    }
}

impl SearchRequest {
    /// Reads a request from the four words of a caller.
    pub fn new(search_term: &str, level: &str, target: &str, file_extensions: &str) -> (r: Self)
        ensures
            r@ == request_of(search_term@, level@, target@, file_extensions@),
    {
        let term = if search_term.is_empty() {
            Vec::new()
        } else {
            let folded = to_lowercase(search_term);
            chars_of(folded.as_str())
        };
        let extensions = if trim(file_extensions).len() == 0 {
            Vec::new()
        } else {
            split_trimmed(file_extensions, ',')
        };
        let r = SearchRequest {
            term,
            depth: DepthPolicy::from_level(level),
            target: TargetType::from_target(target),
            extensions,
        };
        assert(r@.term =~= folded_term(search_term@));
        assert(r@.extensions =~= listed_extensions(file_extensions@));
        r
    }

    /// How far below the root the search goes.
    pub fn depth(&self) -> (r: DepthPolicy)
        ensures
            r == self@.depth,
    {
        self.depth
    }

    /// Which kind of entry the search returns.
    pub fn target(&self) -> (r: TargetType)
        ensures
            r == self@.target,
    {
        self.target
    }

    /// Whether the lowercase form of `name` holds the term.
    pub fn name_matches(&self, name: &str) -> (r: bool)
        ensures
            r == self@.name_matches(name@),
    {
        let folded = to_lowercase(name);
        let hay = chars_of(folded.as_str());
        crate::text::contains(&hay, &self.term)
    }

    /// Whether an entry with this base name and kind passes the filter on
    /// extensions.
    pub fn extension_matches(&self, name: &str, is_dir: bool) -> (r: bool)
        ensures
            r == self@.extension_matches(name@, is_dir),
    {
        if is_dir || self.extensions.len() == 0 {
            return true;
        }
        let chars = chars_of(name);
        let ext = match crate::text::extension(&chars) {
            Some(ext) => ext,
            None => {
                return false;
            },
        };
        let mut i: usize = 0;
        while i < self.extensions.len()
            invariant
                i <= self.extensions.len(),
                extension_of(name@) == Some(ext@),
                forall|j: int|
                    0 <= j < i ==> !ascii_case_equal(#[trigger] self@.extensions[j], ext@),
            decreases self.extensions.len() - i,
        {
            if crate::text::eq_ignore_ascii_case(&self.extensions[i], &ext) {
                assert(self@.extensions[i as int] == self.extensions@[i as int]@);
                return true;
            }
            assert(self@.extensions[i as int] == self.extensions@[i as int]@);
            i += 1;
        }
        false
    }

    /// The entry filter: whether an entry with this base name and kind
    /// meets every criterion of the request.
    pub fn criteria_hold(&self, name: &str, is_dir: bool) -> (r: bool)
        ensures
            r == self@.criteria_hold(name@, is_dir),
    {
        if !self.target.admits(is_dir) {
            return false;
        }
        if !self.name_matches(name) {
            return false;
        }
        self.extension_matches(name, is_dir)
    }
}

} // verus!
