//! Display helpers, glob matching and fuzzy scoring.

use fc::find::fuzzy_score_pre;
use fc::util::{format_bytes, format_duration, git_priority, glob_match, progress_bar};

#[test]
fn format_bytes_ranges() {
    assert_eq!(format_bytes(0), "0B");
    assert_eq!(format_bytes(512), "512B");
    assert_eq!(format_bytes(1023), "1023B");
    assert_eq!(format_bytes(1024), "1.0K");
    assert_eq!(format_bytes(1536), "1.5K");
    assert_eq!(format_bytes(1024 * 1024), "1.0M");
    assert_eq!(format_bytes(1024 * 1024 * 1024), "1.0G");
    assert_eq!(format_bytes(2 * 1024 * 1024 * 1024), "2.0G");
}

#[test]
fn format_duration_seconds_and_minutes() {
    assert_eq!(format_duration(0), "0s");
    assert_eq!(format_duration(45), "45s");
    assert_eq!(format_duration(59), "59s");
    assert_eq!(format_duration(60), "1m00s");
    assert_eq!(format_duration(90), "1m30s");
    assert_eq!(format_duration(3661), "61m01s");
}

#[test]
fn progress_bar_boundaries() {
    let bar = progress_bar(0, 10);
    assert!(bar.contains(&"\u{2591}".repeat(10)));

    let bar = progress_bar(100, 10);
    assert!(bar.contains(&"\u{2588}".repeat(10)));

    let bar = progress_bar(50, 10);
    assert!(bar.contains(&"\u{2588}".repeat(5)));
}

#[test]
fn glob_exact_match() {
    assert!(glob_match("hello", "hello"));
    assert!(glob_match("hello", "HELLO")); // case insensitive
    assert!(!glob_match("hello", "world"));
}

#[test]
fn glob_star_wildcard() {
    assert!(glob_match("*.rs", "main.rs"));
    assert!(glob_match("*.rs", "MOD.RS"));
    assert!(!glob_match("*.rs", "main.py"));
    assert!(glob_match("*", "anything"));
    assert!(glob_match("src*", "src/main.rs"));
}

#[test]
fn glob_question_mark() {
    assert!(glob_match("?.rs", "a.rs"));
    assert!(!glob_match("?.rs", "ab.rs"));
    assert!(!glob_match("?.rs", ".rs"));
}

#[test]
fn glob_combined() {
    assert!(glob_match("*test*", "my_test_file"));
    assert!(glob_match("?oo*", "foobar"));
    assert!(!glob_match("?oo*", "oobar"));
}

#[test]
fn glob_empty() {
    assert!(glob_match("", ""));
    assert!(!glob_match("", "a"));
    assert!(glob_match("*", ""));
}

#[test]
fn fuzzy_exact_match() {
    let q: Vec<char> = "main".chars().collect();
    let score = fuzzy_score_pre(&q, "main.rs", 7);
    assert!(score.is_some());
    assert!(score.unwrap() > 0);
}

#[test]
fn fuzzy_subsequence() {
    let q: Vec<char> = "mr".chars().collect();
    let score = fuzzy_score_pre(&q, "main.rs", 7);
    assert!(score.is_some());
}

#[test]
fn fuzzy_no_match() {
    let q: Vec<char> = "xyz".chars().collect();
    let score = fuzzy_score_pre(&q, "main.rs", 7);
    assert!(score.is_none());
}

#[test]
fn fuzzy_empty_query() {
    let q: Vec<char> = Vec::new();
    let score = fuzzy_score_pre(&q, "anything", 8);
    assert_eq!(score, Some(0));
}

#[test]
fn fuzzy_path_separator_bonus() {
    let q: Vec<char> = "ar".chars().collect();
    // "a" at start of segment after "/" should get bonus
    let score_with_sep = fuzzy_score_pre(&q, "src/app.rs", 10);
    let score_without = fuzzy_score_pre(&q, "sxcapprrs", 9);
    assert!(score_with_sep.unwrap_or(0) > score_without.unwrap_or(0));
}

#[test]
fn fuzzy_case_insensitive() {
    let q: Vec<char> = "main".chars().collect();
    let score = fuzzy_score_pre(&q, "main.rs", 7);
    assert!(score.is_some());
}

#[test]
fn fuzzy_longer_text_penalty() {
    let q: Vec<char> = "a".chars().collect();
    let short = fuzzy_score_pre(&q, "a", 1);
    let long = fuzzy_score_pre(&q, "a_very_long_filename.txt", 24);
    assert!(short.unwrap() > long.unwrap());
}

#[test]
fn git_priority_ranks_deletions_highest() {
    assert_eq!(git_priority('D'), 5);
    assert_eq!(git_priority('M'), 4);
    assert_eq!(git_priority('A'), 3);
    assert_eq!(git_priority('R'), 2);
    assert_eq!(git_priority('?'), 1);
    assert_eq!(git_priority(' '), 0);
}
