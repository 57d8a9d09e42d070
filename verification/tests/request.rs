use finder_search::engine::{begin_entry, entry_admitted, EntryAction};
use finder_search::entry::Entry;
use finder_search::request::{DepthPolicy, SearchRequest, TargetType};

fn entry(name: &str, is_dir: bool, depth: usize) -> Entry {
    Entry { name: name.to_string(), path: format!("/r/{}", name), is_dir, depth }
}

#[test]
fn level_word_top_means_top_level_only() {
    assert_eq!(DepthPolicy::from_level("top"), DepthPolicy::TopLevelOnly);
    assert_eq!(DepthPolicy::from_level("recursive"), DepthPolicy::Recursive);
    assert_eq!(DepthPolicy::from_level(""), DepthPolicy::Recursive);
    assert_eq!(DepthPolicy::from_level("Top"), DepthPolicy::Recursive);
    assert_eq!(DepthPolicy::from_level("top "), DepthPolicy::Recursive);
}

#[test]
fn depth_policy_limits() {
    assert_eq!(DepthPolicy::TopLevelOnly.min_depth(), 1);
    assert_eq!(DepthPolicy::Recursive.min_depth(), 1);
    assert_eq!(DepthPolicy::TopLevelOnly.max_depth(), 1);
    assert_eq!(DepthPolicy::Recursive.max_depth(), usize::MAX);
    assert!(!DepthPolicy::TopLevelOnly.permits(0));
    assert!(DepthPolicy::TopLevelOnly.permits(1));
    assert!(!DepthPolicy::TopLevelOnly.permits(2));
    assert!(!DepthPolicy::Recursive.permits(0));
    assert!(DepthPolicy::Recursive.permits(1));
    assert!(DepthPolicy::Recursive.permits(2));
    assert!(DepthPolicy::Recursive.permits(usize::MAX));
}

#[test]
fn target_words() {
    assert_eq!(TargetType::from_target("folders"), TargetType::Folders);
    assert_eq!(TargetType::from_target("files"), TargetType::Files);
    assert_eq!(TargetType::from_target("both"), TargetType::Both);
    assert_eq!(TargetType::from_target(""), TargetType::Both);
    assert_eq!(TargetType::from_target("Files"), TargetType::Both);
}

#[test]
fn target_admits_its_kind() {
    assert!(TargetType::Files.admits(false));
    assert!(!TargetType::Files.admits(true));
    assert!(TargetType::Folders.admits(true));
    assert!(!TargetType::Folders.admits(false));
    assert!(TargetType::Both.admits(true));
    assert!(TargetType::Both.admits(false));
}

#[test]
fn request_keeps_depth_and_target() {
    let r = SearchRequest::new("x", "top", "folders", "");
    assert_eq!(r.depth(), DepthPolicy::TopLevelOnly);
    assert_eq!(r.target(), TargetType::Folders);
}

#[test]
fn name_is_matched_in_lowercase() {
    let r = SearchRequest::new("RePort", "recursive", "both", "");
    assert!(r.name_matches("Quarterly REPORT.pdf"));
    assert!(r.name_matches("report"));
    assert!(!r.name_matches("repor"));
    let umlaut = SearchRequest::new("ÜBER", "recursive", "both", "");
    assert!(umlaut.name_matches("über uns.txt"));
}

#[test]
fn empty_term_matches_every_name() {
    let r = SearchRequest::new("", "recursive", "both", "");
    assert!(r.name_matches("anything"));
    assert!(r.name_matches(""));
}

#[test]
fn extension_filter_ignores_ascii_case() {
    let r = SearchRequest::new("", "recursive", "both", "txt,MD");
    assert!(r.extension_matches("a.TXT", false));
    assert!(r.extension_matches("a.md", false));
    assert!(!r.extension_matches("a.png", false));
    assert!(!r.extension_matches("txt", false));
    assert!(r.extension_matches("archive.tar.md", false));
    assert!(!r.extension_matches("archive.md.tar", false));
}

#[test]
fn extension_filter_leaves_directories_alone() {
    let r = SearchRequest::new("", "recursive", "both", "txt");
    assert!(r.extension_matches("photos", true));
    assert!(r.extension_matches("photos.png", true));
}

#[test]
fn blank_extension_list_disables_the_filter() {
    for list in ["", " ", "\t \n"] {
        let r = SearchRequest::new("", "recursive", "both", list);
        assert!(r.extension_matches("a.png", false));
        assert!(r.extension_matches("noext", false));
    }
}

#[test]
fn extension_list_is_read_without_surrounding_space() {
    let r = SearchRequest::new("", "recursive", "both", " txt , md ");
    assert!(r.extension_matches("a.txt", false));
    assert!(r.extension_matches("a.md", false));
    assert!(!r.extension_matches("a.png", false));
}

#[test]
fn empty_piece_in_the_list_matches_an_empty_extension_only() {
    let r = SearchRequest::new("", "recursive", "both", "txt,");
    assert!(r.extension_matches("a.txt", false));
    assert!(r.extension_matches("trailing.", false));
    assert!(!r.extension_matches("README", false));
    assert!(!r.extension_matches("a.png", false));
    let only_comma = SearchRequest::new("", "recursive", "both", ",");
    assert!(only_comma.extension_matches("trailing.", false));
    assert!(!only_comma.extension_matches("README", false));
    assert!(!only_comma.extension_matches("a.txt", false));
}

#[test]
fn a_name_without_a_dot_fails_every_extension_filter() {
    for list in ["txt", "txt,md", ",", " , txt"] {
        let r = SearchRequest::new("", "recursive", "both", list);
        assert!(!r.extension_matches("README", false));
        assert!(!r.extension_matches("", false));
        assert!(r.extension_matches("README", true));
    }
}

#[test]
fn criteria_need_kind_name_and_extension() {
    let r = SearchRequest::new("rep", "recursive", "files", "txt");
    assert!(r.criteria_hold("Report.TXT", false));
    assert!(!r.criteria_hold("Report.TXT", true));
    assert!(!r.criteria_hold("notes.txt", false));
    assert!(!r.criteria_hold("report.png", false));
}

#[test]
fn entry_beyond_the_depth_is_not_admitted() {
    let top = SearchRequest::new("", "top", "both", "");
    assert!(!entry_admitted(&top, &entry("root", true, 0)));
    assert!(entry_admitted(&top, &entry("child", false, 1)));
    assert!(!entry_admitted(&top, &entry("grandchild", false, 2)));
    let all = SearchRequest::new("", "recursive", "both", "");
    assert!(!entry_admitted(&all, &entry("root", true, 0)));
    assert!(entry_admitted(&all, &entry("child", false, 1)));
    assert!(entry_admitted(&all, &entry("grandchild", false, 2)));
    assert!(entry_admitted(&all, &entry("deep", false, 40)));
}

#[test]
fn worker_aborts_skips_or_reads() {
    let r = SearchRequest::new("rep", "recursive", "files", "");
    assert_eq!(begin_entry(&r, &entry("report.txt", false, 1), true), EntryAction::Abort);
    assert_eq!(begin_entry(&r, &entry("notes.txt", false, 1), true), EntryAction::Abort);
    assert_eq!(begin_entry(&r, &entry("report.txt", false, 1), false), EntryAction::ReadFacts);
    assert_eq!(begin_entry(&r, &entry("notes.txt", false, 1), false), EntryAction::Skip);
    assert_eq!(begin_entry(&r, &entry("reports", true, 1), false), EntryAction::Skip);
}
