use find_in_files::config::{parse_jobs, ConfigError, SearchOptions};
use find_in_files::matcher::{contains_bytes, line_matches, prepare_query, to_ascii_lower};
use find_in_files::tree::{search_tree, Node};
use find_in_files::walker::{classify, EntryKind, Step, WorkerBudget};

fn file(path: &str, lines: &[&str]) -> Node {
    Node::File {
        path: path.to_string(),
        lines: lines.iter().map(|l| l.as_bytes().to_vec()).collect(),
    }
}

fn dir(children: Vec<Node>) -> Node {
    Node::Directory { children }
}

fn options(query: &str, match_case: bool, recursive: bool, jobs: &str) -> SearchOptions {
    match SearchOptions::new(query.as_bytes(), match_case, recursive, jobs.as_bytes(), true) {
        Ok(o) => o,
        Err(e) => panic!("options refused: {:?}", e),
    }
}

/// root/a.txt "hello world", root/sub/b.txt "HELLO", root/sub/c.log "nothing"
fn sample_tree() -> Node {
    dir(vec![
        file("root/a.txt", &["hello world"]),
        dir(vec![file("root/sub/b.txt", &["HELLO"]), file("root/sub/c.log", &["nothing"])]),
    ])
}

fn sorted(mut v: Vec<String>) -> Vec<String> {
    v.sort();
    v
}

#[test]
fn scenario_case_insensitive_recursive() {
    let r = search_tree(&sample_tree(), &options("hello", false, true, "4"));
    assert_eq!(sorted(r), vec!["root/a.txt".to_string(), "root/sub/b.txt".to_string()]);
}

#[test]
fn scenario_not_recursive() {
    let r = search_tree(&sample_tree(), &options("hello", false, false, "4"));
    assert_eq!(r, vec!["root/a.txt".to_string()]);
}

#[test]
fn scenario_match_case() {
    let r = search_tree(&sample_tree(), &options("hello", true, true, "4"));
    assert_eq!(r, vec!["root/a.txt".to_string()]);
}

#[test]
fn invalid_jobs_is_reported() {
    assert_eq!(parse_jobs(b"abc"), Err(ConfigError::InvalidJobs));
    match SearchOptions::new(b"hello", false, false, b"abc", true) {
        Err(e) => assert_eq!(e, ConfigError::InvalidJobs),
        Ok(_) => panic!("accepted an invalid job count"),
    }
}

#[test]
fn missing_root_is_reported() {
    match SearchOptions::new(b"hello", false, false, b"4", false) {
        Err(e) => assert_eq!(e, ConfigError::NotADirectory),
        Ok(_) => panic!("accepted a root that is not a directory"),
    }
    // the root is checked before the job count
    match SearchOptions::new(b"hello", false, false, b"abc", false) {
        Err(e) => assert_eq!(e, ConfigError::NotADirectory),
        Ok(_) => panic!("accepted a root that is not a directory"),
    }
}

#[test]
fn jobs_parsing_edges() {
    assert_eq!(parse_jobs(b"1"), Ok(1));
    assert_eq!(parse_jobs(b"16"), Ok(16));
    assert_eq!(parse_jobs(b"+4"), Ok(4));
    assert_eq!(parse_jobs(b"007"), Ok(7));
    assert_eq!(parse_jobs(b"0"), Err(ConfigError::InvalidJobs));
    assert_eq!(parse_jobs(b""), Err(ConfigError::InvalidJobs));
    assert_eq!(parse_jobs(b"+"), Err(ConfigError::InvalidJobs));
    assert_eq!(parse_jobs(b"-3"), Err(ConfigError::InvalidJobs));
    assert_eq!(parse_jobs(b"4 "), Err(ConfigError::InvalidJobs));
    let max = usize::MAX.to_string();
    assert_eq!(parse_jobs(max.as_bytes()), Ok(usize::MAX));
    let too_big = format!("{}0", usize::MAX);
    assert_eq!(parse_jobs(too_big.as_bytes()), Err(ConfigError::InvalidJobs));
}

#[test]
fn options_hold_prepared_query() {
    let o = options("HeLLo", false, true, "3");
    assert_eq!(o.query, b"hello".to_vec());
    assert!(!o.match_case);
    assert!(o.recursive);
    assert_eq!(o.max_workers, 3);
    let o = options("HeLLo", true, false, "2");
    assert_eq!(o.query, b"HeLLo".to_vec());
    assert!(o.match_case);
    assert!(!o.recursive);
}

#[test]
fn case_policy_on_lines() {
    let lower = prepare_query(b"query", false);
    assert!(line_matches(b"a Query here", &lower, false));
    let upper = prepare_query(b"Query", false);
    assert_eq!(upper, b"query".to_vec());
    assert!(line_matches(b"a query here", &upper, false));
    let exact = prepare_query(b"query", true);
    assert!(!line_matches(b"a Query here", &exact, true));
    assert!(line_matches(b"a query here", &exact, true));
    let exact_upper = prepare_query(b"Query", true);
    assert!(!line_matches(b"a query here", &exact_upper, true));
}

#[test]
fn lowering_is_ascii_only() {
    assert_eq!(to_ascii_lower(b"AbZ@[`{"), b"abz@[`{".to_vec());
    let s = "ÄÖ Straße".as_bytes();
    assert_eq!(to_ascii_lower(s), "ÄÖ straße".as_bytes().to_vec());
}

#[test]
fn substring_edges() {
    assert!(contains_bytes(b"", b""));
    assert!(contains_bytes(b"abc", b""));
    assert!(!contains_bytes(b"", b"a"));
    assert!(contains_bytes(b"abc", b"abc"));
    assert!(contains_bytes(b"abc", b"c"));
    assert!(!contains_bytes(b"ab", b"abc"));
    assert!(contains_bytes(b"aaab", b"aab"));
}

#[test]
fn empty_query_matches_any_line() {
    let r = search_tree(&sample_tree(), &options("", false, true, "1"));
    assert_eq!(r.len(), 3);
}

#[test]
fn file_without_lines_never_matches() {
    let t = dir(vec![file("root/empty.txt", &[]), file("root/x.txt", &["", "xhello"])]);
    assert_eq!(search_tree(&t, &options("hello", false, true, "2")), vec!["root/x.txt".to_string()]);
}

#[test]
fn depth_two_file_skipped_without_recursion() {
    assert_eq!(classify(EntryKind::Directory, false, 0), Step::Descend);
    assert_eq!(classify(EntryKind::Directory, false, 1), Step::Skip);
    assert_eq!(classify(EntryKind::Directory, true, 5), Step::Descend);
    assert_eq!(classify(EntryKind::File, false, 3), Step::Scan);
    assert_eq!(classify(EntryKind::Other, true, 0), Step::Skip);
    let t = dir(vec![
        file("r/top.txt", &["needle"]),
        dir(vec![file("r/d/deep.txt", &["needle"]), dir(vec![file("r/d/e/deeper.txt", &["needle"])])]),
    ]);
    assert_eq!(search_tree(&t, &options("needle", true, false, "2")), vec!["r/top.txt".to_string()]);
    assert_eq!(
        search_tree(&t, &options("needle", true, true, "2")),
        vec!["r/top.txt".to_string(), "r/d/deep.txt".to_string(), "r/d/e/deeper.txt".to_string()]
    );
}

#[test]
fn root_file_is_scanned() {
    let t = file("only.txt", &["some needle"]);
    assert_eq!(search_tree(&t, &options("NEEDLE", false, false, "1")), vec!["only.txt".to_string()]);
    assert!(search_tree(&Node::Other, &options("x", false, true, "1")).is_empty());
}

#[test]
fn each_match_recorded_once_for_any_worker_limit() {
    let t = dir(vec![
        file("r/a", &["x", "match", "match again"]),
        dir(vec![file("r/s/b", &["MATCH"]), Node::Other, file("r/s/c", &["no"])]),
        file("r/d", &["matchmatch"]),
    ]);
    let expected = vec!["r/a".to_string(), "r/s/b".to_string(), "r/d".to_string()];
    for jobs in ["1", "2", "8", "1000"] {
        assert_eq!(search_tree(&t, &options("match", false, true, jobs)), expected);
    }
}

#[test]
fn repeated_search_same_results() {
    let t = sample_tree();
    let o = options("hello", false, true, "3");
    let first = sorted(search_tree(&t, &o));
    let second = sorted(search_tree(&t, &o));
    assert_eq!(first, second);
}

#[test]
fn budget_never_exceeds_limit() {
    let mut b = WorkerBudget::new(3);
    assert_eq!(b.in_flight(), 1);
    assert_eq!(b.max_workers(), 3);
    assert!(b.is_drained());
    assert!(b.try_admit());
    assert!(b.try_admit());
    assert_eq!(b.in_flight(), 3);
    assert!(!b.try_admit());
    assert_eq!(b.in_flight(), 3);
    assert!(!b.is_drained());
    b.finish();
    assert_eq!(b.in_flight(), 2);
    assert!(b.try_admit());
    assert!(!b.try_admit());
    b.finish();
    b.finish();
    assert!(b.is_drained());
}

#[test]
fn budget_of_one_runs_everything_inline() {
    let mut b = WorkerBudget::new(1);
    for _ in 0..5 {
        assert!(!b.try_admit());
        assert_eq!(b.in_flight(), 1);
    }
    assert!(b.is_drained());
}
