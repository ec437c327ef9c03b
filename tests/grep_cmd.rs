use rtk::condense::{clean_line, pick_excerpt, shorten_line};
use rtk::hits::{parse_hit, parse_hits, parse_output, split_lines};
use rtk::path::compact_path;
use rtk::search::{aggregate, RawMatch};

fn hit(file: &str, line: usize, content: &str) -> RawMatch {
    RawMatch { file: file.to_string(), line, content: content.to_string() }
}

#[test]
fn test_clean_line() {
    let line = "            const result = someFunction();";
    let cleaned = clean_line(line, 50, false, "result");
    assert!(!cleaned.starts_with(' '));
    assert!(cleaned.len() <= 50);
}

#[test]
fn test_compact_path() {
    let path = "/Users/patrick/dev/project/src/components/Button.tsx";
    let compact = compact_path(path);
    assert!(compact.len() <= 60);
}

#[test]
fn compact_path_keeps_root_and_last_two() {
    let path = "/Users/patrick/dev/project/src/components/Button.tsx";
    assert_eq!(compact_path(path), "/.../components/Button.tsx");
}

#[test]
fn compact_path_leaves_short_paths() {
    assert_eq!(compact_path("src/main.rs"), "src/main.rs");
    let fifty = "a".repeat(46) + "/b.c";
    assert_eq!(fifty.len(), 50);
    assert_eq!(compact_path(&fifty), fifty);
}

#[test]
fn compact_path_leaves_few_segments() {
    let path = "a".repeat(60) + "/b/c";
    assert_eq!(compact_path(&path), path);
}

#[test]
fn compact_path_is_idempotent() {
    let path = "/Users/patrick/dev/project/src/components/very/deeply/nested/Button.tsx";
    let once = compact_path(path);
    assert_eq!(compact_path(&once), once);
    let long = "root".to_string() + &"/middle_segment".repeat(5) + "/" + &"d".repeat(30) + "/" + &"f".repeat(30);
    let once = compact_path(&long);
    assert_eq!(once, "root/.../".to_string() + &"d".repeat(30) + "/" + &"f".repeat(30));
    assert!(once.len() > 50);
    assert_eq!(compact_path(&once), once);
}

#[test]
fn compact_path_can_grow_with_a_short_middle() {
    let path = "a".repeat(25) + "/x/" + &"b".repeat(25) + "/c";
    let compact = compact_path(&path);
    assert_eq!(compact, "a".repeat(25) + "/.../" + &"b".repeat(25) + "/c");
    assert!(compact.len() > path.len());
}

#[test]
fn clean_line_trims_short_lines() {
    assert_eq!(clean_line("   short line  ", 50, false, "short"), "short line");
}

#[test]
fn clean_line_centres_on_the_pattern() {
    let line = "x".repeat(100) + "needle" + &"y".repeat(100);
    let out = clean_line(&line, 30, false, "NEEDLE");
    assert_eq!(out, "...".to_string() + &"x".repeat(10) + "needle" + &"y".repeat(14) + "...");
}

#[test]
fn clean_line_shifts_window_at_the_end() {
    let line = "a".repeat(60) + "end";
    let out = clean_line(&line, 20, false, "end");
    assert_eq!(out, "...".to_string() + &"a".repeat(17) + "end");
}

#[test]
fn clean_line_cuts_when_pattern_is_absent() {
    let line = "b".repeat(40);
    assert_eq!(clean_line(&line, 10, false, "zzz"), "b".repeat(7) + "...");
}

#[test]
fn clean_line_tiny_budget_does_not_panic() {
    let line = "b".repeat(40);
    assert_eq!(clean_line(&line, 2, false, "zzz"), "...");
}

#[test]
fn clean_line_context_mode_returns_span() {
    let line = "  the quick brown fox jumps over the lazy dog  ";
    assert_eq!(clean_line(line, 30, true, "LAZY"), " fox jumps over the lazy dog");
}

#[test]
fn clean_line_context_mode_escapes_pattern() {
    let line = "abc".to_string() + &"-".repeat(30) + "a.c";
    assert_eq!(clean_line(&line, 50, true, "a.c"), "-".repeat(20) + "a.c");
}

#[test]
fn clean_line_context_too_long_falls_back() {
    let line = "q".repeat(100) + "hit";
    assert_eq!(clean_line(&line, 10, true, "hit"), "...".to_string() + &"q".repeat(7) + "hit");
}

#[test]
fn clean_line_length_stays_in_budget() {
    for len in [0usize, 5, 49, 50, 51, 120] {
        let line = "z".repeat(len);
        assert!(clean_line(&line, 50, false, "absent").chars().count() <= 50);
        assert!(clean_line(&line, 50, true, "absent").chars().count() <= 50);
    }
}

#[test]
fn shorten_line_uses_given_lowercase() {
    let t = "A".repeat(20) + "Key" + &"B".repeat(20);
    let lower = t.to_lowercase();
    assert_eq!(shorten_line(&t, &lower, "key", 9), "...".to_string() + "AAAKeyBBB" + "...");
    assert_eq!(shorten_line(&t, &t, "key", 9), "A".repeat(6) + "...");
}

#[test]
fn aggregate_empty_result() {
    let (text, total) = aggregate(&Vec::new(), 80, 50, false, "foo");
    assert_eq!(text, "🔍 0 for 'foo'");
    assert_eq!(total, 0);
}

#[test]
fn aggregate_caps_one_file() {
    let raw: Vec<RawMatch> = (1..=25).map(|i| hit("src/main.rs", i, &format!("match {}", i))).collect();
    let (text, total) = aggregate(&raw, 80, 10, false, "match");
    assert_eq!(total, 25);
    let mut expected = String::from("🔍 25 in 1F:\n\n📄 src/main.rs (25):\n");
    for i in 1..=10 {
        expected.push_str(&format!("  {:>4}: match {}\n", i, i));
    }
    expected.push_str("  +15\n\n... +15\n");
    assert_eq!(text, expected);
    let rows = text.lines().filter(|l| l.starts_with("    ") && l.contains(": match")).count();
    assert_eq!(rows, 10);
}

#[test]
fn aggregate_orders_files() {
    let raw = vec![hit("b.rs", 1, "x"), hit("a.rs", 2, "  y  "), hit("b.rs", 3, "z")];
    let (text, total) = aggregate(&raw, 80, 10, false, "x");
    assert_eq!(total, 3);
    assert_eq!(text, "🔍 3 in 2F:\n\n📄 a.rs (1):\n     2: y\n\n📄 b.rs (2):\n     1: x\n     3: z\n\n");
}

#[test]
fn aggregate_stops_mid_file() {
    let raw = vec![hit("b.rs", 1, "x"), hit("a.rs", 2, "y"), hit("b.rs", 3, "z"), hit("c.rs", 4, "w")];
    let (text, _) = aggregate(&raw, 80, 2, false, "x");
    assert_eq!(text, "🔍 4 in 3F:\n\n📄 a.rs (1):\n     2: y\n\n📄 b.rs (2):\n     1: x\n\n... +2\n");
}

#[test]
fn aggregate_zero_cap_shows_no_rows() {
    let raw = vec![hit("a.rs", 1, "x")];
    let (text, _) = aggregate(&raw, 80, 0, false, "x");
    assert_eq!(text, "🔍 1 in 1F:\n\n... +1\n");
}

#[test]
fn aggregate_remainder_counts_against_file() {
    let mut raw: Vec<RawMatch> = (1..=3).map(|i| hit("a.rs", i, "a")).collect();
    raw.extend((1..=12).map(|i| hit("b.rs", i, "b")));
    let (text, _) = aggregate(&raw, 80, 5, false, "a");
    assert!(text.contains("📄 b.rs (12):\n"));
    assert!(text.contains("  +2\n"));
    assert!(text.ends_with("... +10\n"));
}

#[test]
fn aggregate_compacts_long_paths() {
    let file = "/Users/patrick/dev/project/src/components/Button.tsx";
    let (text, _) = aggregate(&vec![hit(file, 7, "x")], 80, 10, false, "x");
    assert!(text.contains("📄 /.../components/Button.tsx (1):\n"));
}

#[test]
fn parse_hit_three_fields() {
    let m = parse_hit("src/a.rs:12:let x = 1; // a:b", "dir").unwrap();
    assert_eq!(m.file, "src/a.rs");
    assert_eq!(m.line, 12);
    assert_eq!(m.content, "let x = 1; // a:b");
}

#[test]
fn parse_hit_two_fields_uses_path() {
    let m = parse_hit("42:hello", "file.txt").unwrap();
    assert_eq!(m.file, "file.txt");
    assert_eq!(m.line, 42);
    assert_eq!(m.content, "hello");
}

#[test]
fn parse_hit_bad_number_is_zero() {
    assert_eq!(parse_hit("a.rs:xx:body", "p").unwrap().line, 0);
    assert_eq!(parse_hit("a.rs::body", "p").unwrap().line, 0);
    assert_eq!(parse_hit("a.rs:+7:body", "p").unwrap().line, 7);
    assert_eq!(parse_hit("a.rs:99999999999999999999999:body", "p").unwrap().line, 0);
}

#[test]
fn parse_hit_without_colon_is_skipped() {
    assert!(parse_hit("no separator here", "p").is_none());
}

#[test]
fn parse_hits_keeps_order() {
    let lines = vec!["a.rs:1:x".to_string(), "junk".to_string(), "b.rs:2:y".to_string()];
    let hits = parse_hits(&lines, "p");
    assert_eq!(hits.len(), 2);
    assert_eq!(hits[0].file, "a.rs");
    assert_eq!(hits[1].line, 2);
}

#[test]
fn split_lines_follows_str_lines() {
    assert_eq!(split_lines("foo\r\nbar\n\nbaz\r"), vec!["foo", "bar", "", "baz\r"]);
    assert_eq!(split_lines("a\nb\n"), vec!["a", "b"]);
    assert!(split_lines("").is_empty());
}

#[test]
fn parse_output_collects_hits() {
    let hits = parse_output("a.rs:3:one\r\nnoise\n7:two\n", "dir/x.rs");
    assert_eq!(hits.len(), 2);
    assert_eq!((hits[0].file.as_str(), hits[0].line, hits[0].content.as_str()), ("a.rs", 3, "one"));
    assert_eq!((hits[1].file.as_str(), hits[1].line, hits[1].content.as_str()), ("dir/x.rs", 7, "two"));
    assert!(parse_output("  \n\n", "p").is_empty());
}

#[test]
fn pick_excerpt_prefers_fitting_context_match() {
    let t = "hello wide world";
    assert_eq!(pick_excerpt(t, Some("wide world".to_string()), t, "world", 12), "wide world");
    assert_eq!(pick_excerpt(t, Some("hello wide world".to_string()), t, "world", 12), "...o wide world");
    assert_eq!(pick_excerpt(t, None, t, "world", 16), t);
}

#[test]
fn clean_line_trims_unicode_whitespace() {
    assert_eq!(clean_line("\u{3000}\u{a0} wide \t\u{2028}", 50, false, "wide"), "wide");
}

#[test]
fn compact_path_limit_counts_bytes() {
    let path = "é".repeat(20) + "/a/b/c/d";
    assert_eq!(path.chars().count(), 28);
    assert_eq!(compact_path(&path), path);
    let long = "é".repeat(22) + "/a/b/c/d";
    assert_eq!(long.chars().count(), 30);
    assert_eq!(compact_path(&long), "é".repeat(22) + "/.../c/d");
}
