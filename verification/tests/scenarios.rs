use finder_search::engine::{perform_parallel_search, Visit};
use finder_search::entry::{Entry, FileFacts, ModifiedTime};
use finder_search::error::SearchError;
use finder_search::orchestrator::{search, Race};
use finder_search::result::SearchResult;
use finder_search::token::CancellationToken;

fn visit(name: &str, is_dir: bool, depth: usize, epoch_secs: i64) -> Visit {
    Visit {
        entry: Entry {
            name: name.to_string(),
            path: format!("/data/{}", name),
            is_dir,
            depth,
        },
        cancel_seen: false,
        facts: Some(FileFacts {
            len: 100,
            modified: Some(ModifiedTime { epoch_secs, utc_offset_secs: 0 }),
        }),
    }
}

fn sample_tree() -> Vec<Visit> {
    vec![
        visit("data", true, 0, 1_700_000_000),
        visit("Report.TXT", false, 1, 1_700_000_100),
        visit("notes.txt", false, 1, 1_700_000_200),
        visit("image.png", false, 1, 1_700_000_300),
        visit("Reports", true, 1, 1_700_000_400),
    ]
}

fn names(found: &[SearchResult]) -> Vec<String> {
    found.iter().map(|r| r.name().to_string()).collect()
}

#[test]
fn term_matches_files_and_folders_whatever_the_case() {
    let found = perform_parallel_search(&sample_tree(), "report", "recursive", "both", "").unwrap();
    assert_eq!(names(&found), vec!["Reports".to_string(), "Report.TXT".to_string()]);
}

#[test]
fn files_with_extension_leave_out_folders_and_other_names() {
    let found = perform_parallel_search(&sample_tree(), "report", "recursive", "files", "txt").unwrap();
    assert_eq!(names(&found), vec!["Report.TXT".to_string()]);
}

#[test]
fn missing_root_is_reported_and_nothing_is_examined() {
    let mut token = CancellationToken::new();
    token.cancel();
    let before = token;
    let race = Race::Walked(sample_tree());
    let outcome = search("report", false, &race, "recursive", "both", "", &mut token);
    assert_eq!(outcome.unwrap_err(), "path does not exist");
    assert_eq!(token.generation(), before.generation());
    assert!(token.is_cancelled());
}

#[test]
fn cancelled_walk_gives_no_results() {
    let mut tree = sample_tree();
    tree[3].cancel_seen = true;
    let outcome = perform_parallel_search(&tree, "", "recursive", "both", "");
    assert!(matches!(outcome, Err(SearchError::Cancelled)));
}
