use finder_search::order::text_no_later;
use finder_search::text::{
    chars_of, contains, eq_ignore_ascii_case, extension, matches_at, same_text, split_trimmed,
    to_ascii_lower, trim,
};

fn chars(s: &str) -> Vec<char> {
    s.chars().collect()
}

#[test]
fn chars_of_keeps_every_character_in_order() {
    assert_eq!(chars_of("a.Ü z"), vec!['a', '.', 'Ü', ' ', 'z']);
    assert_eq!(chars_of(""), Vec::<char>::new());
}

#[test]
fn same_text_tells_equal_from_different() {
    assert!(same_text("top", "top"));
    assert!(!same_text("top", "Top"));
    assert!(!same_text("top", "to"));
    assert!(same_text("", ""));
}

#[test]
fn ascii_lower_changes_capitals_only() {
    assert_eq!(to_ascii_lower('A'), 'a');
    assert_eq!(to_ascii_lower('Z'), 'z');
    assert_eq!(to_ascii_lower('m'), 'm');
    assert_eq!(to_ascii_lower('@'), '@');
    assert_eq!(to_ascii_lower('['), '[');
    assert_eq!(to_ascii_lower('Ü'), 'Ü');
}

#[test]
fn ascii_case_is_ignored_in_comparison() {
    assert!(eq_ignore_ascii_case(&chars("TXT"), &chars("txt")));
    assert!(eq_ignore_ascii_case(&chars(""), &chars("")));
    assert!(!eq_ignore_ascii_case(&chars("txt"), &chars("txt ")));
    assert!(!eq_ignore_ascii_case(&chars("Ü"), &chars("ü")));
    assert!(!eq_ignore_ascii_case(&chars("tx"), &chars("ty")));
}

#[test]
fn contains_finds_a_run_anywhere() {
    assert!(contains(&chars("quarterly report"), &chars("report")));
    assert!(contains(&chars("report"), &chars("report")));
    assert!(contains(&chars("report"), &chars("")));
    assert!(contains(&chars(""), &chars("")));
    assert!(contains(&chars("aab"), &chars("ab")));
    assert!(!contains(&chars("repor"), &chars("report")));
    assert!(!contains(&chars(""), &chars("r")));
    assert!(!contains(&chars("rep ort"), &chars("report")));
}

#[test]
fn matches_at_looks_at_one_place() {
    assert!(matches_at(&chars("abcabc"), &chars("bc"), 1));
    assert!(matches_at(&chars("abcabc"), &chars("bc"), 4));
    assert!(!matches_at(&chars("abcabc"), &chars("bc"), 0));
    assert!(matches_at(&chars("abc"), &chars(""), 3));
    assert!(!matches_at(&chars("abc"), &chars("bc"), 2));
    assert!(!matches_at(&chars("abc"), &chars(""), 4));
    assert!(!matches_at(&chars("abc"), &chars("abcd"), 0));
}

#[test]
fn extension_is_what_follows_the_last_dot() {
    assert_eq!(extension(&chars("Report.TXT")), Some(chars("TXT")));
    assert_eq!(extension(&chars("archive.tar.gz")), Some(chars("gz")));
    assert_eq!(extension(&chars("notes")), None);
    assert_eq!(extension(&chars("")), None);
    assert_eq!(extension(&chars("trailing.")), Some(chars("")));
    assert_eq!(extension(&chars(".profile")), Some(chars("profile")));
}

#[test]
fn split_gives_one_piece_more_than_separators() {
    assert_eq!(split_trimmed("txt,md", ','), vec![chars("txt"), chars("md")]);
    assert_eq!(split_trimmed("txt", ','), vec![chars("txt")]);
    assert_eq!(split_trimmed("", ','), vec![chars("")]);
    assert_eq!(split_trimmed(",", ','), vec![chars(""), chars("")]);
    assert_eq!(split_trimmed("a,,b,", ','), vec![chars("a"), chars(""), chars("b"), chars("")]);
}

#[test]
fn split_pieces_lose_the_space_around_them() {
    assert_eq!(split_trimmed(" txt , md\t", ','), vec![chars("txt"), chars("md")]);
    assert_eq!(split_trimmed("a b, c", ','), vec![chars("a b"), chars("c")]);
}

#[test]
fn dictionary_order_on_texts() {
    assert!(text_no_later("", ""));
    assert!(text_no_later("", "a"));
    assert!(!text_no_later("a", ""));
    assert!(text_no_later("abc", "abd"));
    assert!(!text_no_later("abd", "abc"));
    assert!(text_no_later("ab", "abc"));
    assert!(!text_no_later("abc", "ab"));
    assert!(text_no_later("same", "same"));
    assert!(text_no_later("2023-12-31 23:59:59", "2024-01-01 00:00:00"));
    assert!(!text_no_later("2024-01-01 00:00:00", "2023-12-31 23:59:59"));
    assert!(text_no_later("z", "é"));
}

#[test]
fn trim_takes_white_space_off_both_ends_only() {
    assert_eq!(trim("  a b \t\n"), chars("a b"));
    assert_eq!(trim("a"), chars("a"));
    assert_eq!(trim(""), chars(""));
    assert_eq!(trim(" \t\r\n"), chars(""));
    assert_eq!(trim("\u{a0}x\u{2003}"), chars("x"));
    assert_eq!(trim("\u{3000}"), chars(""));
    assert_eq!(trim("_ x _"), chars("_ x _"));
    for text in ["", " ", " a", "a ", " a b ", "\u{2028}q\u{85}", "tab\there"] {
        assert_eq!(trim(text), chars(text.trim()));
    }
}
