use finder_search::engine::{perform_parallel_search, Visit};
use finder_search::entry::{Entry, FileFacts, ModifiedTime};
use finder_search::error::SearchError;
use finder_search::orchestrator::{
    advance, search, Race, SearchAction, SearchEvent, SearchPhase, SEARCH_TIMEOUT_SECS,
};
use finder_search::result::SearchResult;
use finder_search::token::{cancel_search, CancellationToken};

fn visit(name: &str, is_dir: bool, depth: usize, epoch_secs: i64) -> Visit {
    Visit {
        entry: Entry { name: name.to_string(), path: format!("/w/{}", name), is_dir, depth },
        cancel_seen: false,
        facts: Some(FileFacts {
            len: 9,
            modified: Some(ModifiedTime { epoch_secs, utc_offset_secs: 0 }),
        }),
    }
}

fn names(found: &[SearchResult]) -> Vec<String> {
    found.iter().map(|r| r.name().to_string()).collect()
}

fn all_events() -> Vec<SearchEvent> {
    vec![
        SearchEvent::Requested,
        SearchEvent::RootFound,
        SearchEvent::RootMissing,
        SearchEvent::TraversalFinished,
        SearchEvent::CancelObserved,
        SearchEvent::DeadlineElapsed,
        SearchEvent::SynchronizationFailed("lock".to_string()),
    ]
}

#[test]
fn token_starts_clear() {
    let t = CancellationToken::new();
    assert!(!t.is_cancelled());
    assert_eq!(t.generation(), 0);
    let d = CancellationToken::default();
    assert!(!d.is_cancelled());
    assert_eq!(d.generation(), 0);
}

#[test]
fn cancel_sets_the_flag_and_keeps_the_generation() {
    let mut t = CancellationToken::new();
    t.cancel();
    assert!(t.is_cancelled());
    assert_eq!(t.generation(), 0);
    t.cancel();
    assert!(t.is_cancelled());
    assert_eq!(t.generation(), 0);
}

#[test]
fn renew_clears_a_stale_cancel() {
    let mut t = CancellationToken::new();
    t.cancel();
    t.renew();
    assert!(!t.is_cancelled());
    assert_eq!(t.generation(), 1);
    t.renew();
    assert_eq!(t.generation(), 2);
}

#[test]
fn cancel_search_reaches_the_token() {
    let mut t = CancellationToken::new();
    assert_eq!(cancel_search(Some(&mut t)), Ok(()));
    assert!(t.is_cancelled());
}

#[test]
fn cancel_search_fails_without_a_token() {
    assert_eq!(cancel_search(None), Err("Failed to cancel search".to_string()));
}

#[test]
fn error_texts() {
    assert_eq!(SearchError::PathNotFound.message(), "path does not exist");
    assert_eq!(SearchError::Cancelled.message(), "Search cancelled");
    assert_eq!(SearchError::TimedOut.message(), "Search operation timed out");
    assert_eq!(SearchError::Synchronization("poisoned lock".to_string()).message(), "poisoned lock");
}

#[test]
fn deadline_is_thirty_seconds() {
    assert_eq!(SEARCH_TIMEOUT_SECS, 30);
}

#[test]
fn a_search_runs_from_idle_to_completed() {
    let s = advance(SearchPhase::Idle, SearchEvent::Requested);
    assert_eq!(s.phase, SearchPhase::Validating);
    assert!(matches!(s.action, SearchAction::CheckRoot));
    let s = advance(s.phase, SearchEvent::RootFound);
    assert_eq!(s.phase, SearchPhase::Running);
    assert!(matches!(s.action, SearchAction::StartTraversal));
    let s = advance(s.phase, SearchEvent::TraversalFinished);
    assert_eq!(s.phase, SearchPhase::Completed);
    assert!(matches!(s.action, SearchAction::ReturnResults));
}

#[test]
fn a_missing_root_fails_before_any_traversal() {
    let s = advance(SearchPhase::Validating, SearchEvent::RootMissing);
    assert_eq!(s.phase, SearchPhase::Failed);
    assert!(matches!(s.action, SearchAction::ReturnError(SearchError::PathNotFound)));
}

#[test]
fn running_ends_in_one_of_four_outcomes() {
    let s = advance(SearchPhase::Running, SearchEvent::CancelObserved);
    assert_eq!(s.phase, SearchPhase::Cancelled);
    assert!(matches!(s.action, SearchAction::ReturnError(SearchError::Cancelled)));
    let s = advance(SearchPhase::Running, SearchEvent::DeadlineElapsed);
    assert_eq!(s.phase, SearchPhase::TimedOut);
    assert!(matches!(s.action, SearchAction::ReturnError(SearchError::TimedOut)));
    let s = advance(SearchPhase::Running, SearchEvent::SynchronizationFailed("lock".to_string()));
    assert_eq!(s.phase, SearchPhase::Failed);
    match s.action {
        SearchAction::ReturnError(SearchError::Synchronization(text)) => assert_eq!(text, "lock"),
        other => panic!("unexpected action {:?}", other),
    }
}

#[test]
fn outcomes_are_final() {
    for phase in [SearchPhase::Completed, SearchPhase::TimedOut, SearchPhase::Cancelled, SearchPhase::Failed] {
        assert!(phase.terminal());
        for event in all_events() {
            let s = advance(phase, event);
            assert_eq!(s.phase, phase);
            assert!(matches!(s.action, SearchAction::Nothing));
        }
    }
    for phase in [SearchPhase::Idle, SearchPhase::Validating, SearchPhase::Running] {
        assert!(!phase.terminal());
    }
}

#[test]
fn events_out_of_turn_change_nothing() {
    let s = advance(SearchPhase::Idle, SearchEvent::TraversalFinished);
    assert_eq!(s.phase, SearchPhase::Idle);
    assert!(matches!(s.action, SearchAction::Nothing));
    let s = advance(SearchPhase::Validating, SearchEvent::CancelObserved);
    assert_eq!(s.phase, SearchPhase::Validating);
    assert!(matches!(s.action, SearchAction::Nothing));
    let s = advance(SearchPhase::Running, SearchEvent::RootMissing);
    assert_eq!(s.phase, SearchPhase::Running);
    assert!(matches!(s.action, SearchAction::Nothing));
}

#[test]
fn search_returns_sorted_results_and_renews_the_token() {
    let mut token = CancellationToken::new();
    token.cancel();
    let race = Race::Walked(vec![
        visit("a.txt", false, 1, 1_600_000_000),
        visit("b.txt", false, 1, 1_700_000_000),
        visit("c.png", false, 1, 1_650_000_000),
    ]);
    let found = search("", true, &race, "top", "files", "txt", &mut token).unwrap();
    assert_eq!(names(&found), vec!["b.txt", "a.txt"]);
    assert!(!token.is_cancelled());
    assert_eq!(token.generation(), 1);
}

#[test]
fn search_reports_a_cancelled_walk() {
    let mut token = CancellationToken::new();
    let mut walked = vec![visit("a.txt", false, 1, 1_600_000_000), visit("b.txt", false, 1, 1_700_000_000)];
    walked[1].cancel_seen = true;
    let outcome = search("", true, &Race::Walked(walked), "top", "files", "", &mut token);
    assert_eq!(outcome.unwrap_err(), "Search cancelled");
}

#[test]
fn search_reports_the_deadline() {
    let mut token = CancellationToken::new();
    let outcome = search("", true, &Race::DeadlineElapsed, "top", "files", "", &mut token);
    assert_eq!(outcome.unwrap_err(), "Search operation timed out");
    assert_eq!(token.generation(), 1);
}

#[test]
fn search_reports_a_failed_lock_in_its_own_words() {
    let mut token = CancellationToken::new();
    let race = Race::SynchronizationFailed("poisoned lock: another task failed inside".to_string());
    let outcome = search("", true, &race, "top", "files", "", &mut token);
    assert_eq!(outcome.unwrap_err(), "poisoned lock: another task failed inside");
}

#[test]
fn top_level_search_returns_nothing_from_deeper() {
    let walked = vec![
        visit("root", true, 0, 1_600_000_000),
        visit("child", false, 1, 1_600_000_100),
        visit("grandchild", false, 2, 1_600_000_200),
        visit("deeper", false, 3, 1_600_000_300),
    ];
    let top = perform_parallel_search(&walked, "", "top", "both", "").unwrap();
    assert_eq!(names(&top), vec!["child"]);
    let all = perform_parallel_search(&walked, "", "recursive", "both", "").unwrap();
    assert_eq!(names(&all), vec!["deeper", "grandchild", "child"]);
}

#[test]
fn the_root_itself_is_never_returned() {
    let walked = vec![visit("Reports", true, 0, 1_600_000_000)];
    for level in ["top", "recursive"] {
        let found = perform_parallel_search(&walked, "report", level, "folders", "").unwrap();
        assert!(found.is_empty());
        let any = perform_parallel_search(&walked, "", level, "both", "").unwrap();
        assert!(any.is_empty());
    }
}

#[test]
fn same_walk_gives_the_same_results_again() {
    let walked = vec![
        visit("a", false, 1, 1_600_000_000),
        visit("b", false, 1, 1_600_000_000),
        visit("c", false, 1, 1_700_000_000),
    ];
    let first = perform_parallel_search(&walked, "", "recursive", "both", "").unwrap();
    let second = perform_parallel_search(&walked, "", "recursive", "both", "").unwrap();
    assert_eq!(names(&first), vec!["c", "a", "b"]);
    assert_eq!(names(&first), names(&second));
}

#[test]
fn order_of_visits_matters_among_ties_only() {
    let one = vec![
        visit("a", false, 1, 1_600_000_000),
        visit("b", false, 1, 1_600_000_000),
        visit("c", false, 1, 1_700_000_000),
    ];
    let other = vec![
        visit("b", false, 1, 1_600_000_000),
        visit("c", false, 1, 1_700_000_000),
        visit("a", false, 1, 1_600_000_000),
    ];
    let x = perform_parallel_search(&one, "", "recursive", "both", "").unwrap();
    let y = perform_parallel_search(&other, "", "recursive", "both", "").unwrap();
    assert_eq!(names(&x), vec!["c", "a", "b"]);
    assert_eq!(names(&y), vec!["c", "b", "a"]);
    let stamps = |v: &[SearchResult]| v.iter().map(|r| r.modified_at().to_string()).collect::<Vec<_>>();
    assert_eq!(stamps(&x), stamps(&y));
}

#[test]
fn unreadable_entries_are_left_out_without_error() {
    let mut walked = vec![
        visit("a", false, 1, 1_600_000_000),
        visit("b", false, 1, 1_600_000_100),
        visit("c", false, 1, 1_600_000_200),
    ];
    walked[0].facts = None;
    walked[1].facts = Some(FileFacts { len: 3, modified: None });
    let found = perform_parallel_search(&walked, "", "recursive", "both", "").unwrap();
    assert_eq!(names(&found), vec!["c"]);
}

#[test]
fn empty_walk_gives_no_results() {
    let found = perform_parallel_search(&Vec::new(), "x", "recursive", "both", "").unwrap();
    assert!(found.is_empty());
}

#[test]
fn every_result_meets_the_request() {
    let walked = vec![
        visit("Report.TXT", false, 1, 1_600_000_000),
        visit("report.md", false, 2, 1_600_000_100),
        visit("Reports", true, 1, 1_600_000_200),
        visit("summary.txt", false, 1, 1_600_000_300),
    ];
    let found = perform_parallel_search(&walked, "REPORT", "recursive", "both", "txt").unwrap();
    assert_eq!(names(&found), vec!["Reports", "Report.TXT"]);
    for r in &found {
        assert!(r.name().to_lowercase().contains("report"));
        assert!(r.is_dir() || r.name().to_ascii_lowercase().ends_with(".txt"));
        assert!(!r.is_dir() || r.size() == 0);
    }
    for pair in found.windows(2) {
        assert!(pair[0].modified_at() >= pair[1].modified_at());
    }
}
