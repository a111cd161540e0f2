use recent_files::filter::PathFilter;
use recent_files::options::{parse_count, split_patterns, NUM_FILES};
use recent_files::paths::extension;
use recent_files::scan::Scan;
use recent_files::select::{rank, Entry, TopN};
use recent_files::extindex::ExtIndex;
use recent_files::timefmt::time_to_string;
use recent_files::{ConfigError, Options};

#[test]
fn counts_are_decimal() {
    assert_eq!(parse_count("0"), Some(0));
    assert_eq!(parse_count("17"), Some(17));
    assert_eq!(parse_count("+3"), Some(3));
    assert_eq!(parse_count("18446744073709551615"), Some(usize::MAX));
    assert_eq!(parse_count("18446744073709551616"), None);
    assert_eq!(parse_count(""), None);
    assert_eq!(parse_count("+"), None);
    assert_eq!(parse_count("-1"), None);
    assert_eq!(parse_count("4x"), None);
    assert_eq!(parse_count(" 4"), None);
}

#[test]
fn patterns_split_on_commas() {
    assert_eq!(split_patterns("*.rs,*.md"), vec!["*.rs", "*.md"]);
    assert_eq!(split_patterns(""), vec![""]);
    assert_eq!(split_patterns("a,,b,"), vec!["a", "", "b", ""]);
}

#[test]
fn options_defaults_and_flags() {
    let o = Options::from_args(None, None, false, false).unwrap();
    assert_eq!(o.nums, NUM_FILES);
    assert_eq!(o.nums, 5);
    assert!(o.glob.is_none());
    assert!(!o.no_ext);
    assert!(o.recent);
    let o = Options::from_args(Some("9"), Some("*.c,*.h"), true, true).unwrap();
    assert_eq!(o.nums, 9);
    assert_eq!(o.glob.unwrap(), vec!["*.c", "*.h"]);
    assert!(o.no_ext);
    assert!(!o.recent);
}

#[test]
fn bad_number_is_reported_with_its_text() {
    match Options::from_args(Some("ten"), None, false, false) {
        Err(ConfigError::InvalidNumberOfFiles(t)) => assert_eq!(t, "ten"),
        _ => panic!("expected an invalid number"),
    }
}

#[test]
fn bad_glob_is_an_error() {
    let o = Options::from_args(None, Some("*.rs,a[b"), false, false).unwrap();
    assert!(matches!(Scan::new(&o), Err(ConfigError::InvalidGlobPattern)));
    let patterns = Some(vec!["{a".to_string()]);
    assert!(matches!(PathFilter::new(&patterns), Err(ConfigError::InvalidGlobPattern)));
}

#[test]
fn filter_matches_any_pattern() {
    let f = PathFilter::new(&Some(vec!["*.rs".to_string(), "*.md".to_string()])).unwrap();
    assert!(f.is_match("./src/main.rs"));
    assert!(f.is_match("README.md"));
    assert!(!f.is_match("./notes.txt"));
    let all = PathFilter::new(&None).unwrap();
    assert!(all.is_match("./notes.txt"));
    let none = PathFilter::new(&Some(vec![])).unwrap();
    assert!(!none.is_match("./notes.txt"));
}

#[test]
fn extensions_of_paths() {
    assert_eq!(extension("./a/b.txt"), Some("txt".to_string()));
    assert_eq!(extension("./a/archive.tar.gz"), Some("gz".to_string()));
    assert_eq!(extension("./a.d/README"), None);
    assert_eq!(extension("./.bashrc"), None);
    assert_eq!(extension("./trailing."), None);
    assert_eq!(extension("plain.rs"), Some("rs".to_string()));
}

#[test]
fn times_are_written_in_utc() {
    assert_eq!(time_to_string(0), "1970-01-01   00:00:00");
    assert_eq!(time_to_string(1_700_000_000_500_000_000), "2023-11-14   22:13:20");
}

#[test]
fn top_n_evicts_the_worst() {
    let mut t = TopN::new(2, false);
    for (p, time) in [("x", 5u64), ("y", 1), ("z", 3), ("w", 9)] {
        t.push(Entry { path: p.to_string(), last_accessed_time: time });
        assert!(t.len() <= 2);
    }
    let kept: Vec<String> = t.into_ranked().into_iter().map(|e| e.path).collect();
    assert_eq!(kept, vec!["y", "z"]);
}

#[test]
fn rank_orders_both_ways() {
    let make = || {
        vec![
            Entry { path: "a".to_string(), last_accessed_time: 2 },
            Entry { path: "b".to_string(), last_accessed_time: 7 },
            Entry { path: "c".to_string(), last_accessed_time: 4 },
        ]
    };
    let down: Vec<u64> = rank(make(), true).iter().map(|e| e.last_accessed_time).collect();
    assert_eq!(down, vec![7, 4, 2]);
    let up: Vec<u64> = rank(make(), false).iter().map(|e| e.last_accessed_time).collect();
    assert_eq!(up, vec![2, 4, 7]);
    assert!(rank(Vec::new(), true).is_empty());
}

#[test]
fn index_keeps_latest_time() {
    let mut ix = ExtIndex::new();
    ix.note("txt", 5);
    ix.note("txt", 3);
    ix.note("rs", 1);
    ix.note("txt", 8);
    assert_eq!(ix.len(), 2);
    let mut rows: Vec<(String, u64)> =
        ix.into_entries().into_iter().map(|e| (e.path, e.last_accessed_time)).collect();
    rows.sort();
    assert_eq!(rows, vec![("rs".to_string(), 1), ("txt".to_string(), 8)]);
}

#[test]
fn equal_times_keep_input_order() {
    let make = || {
        vec![
            Entry { path: "p".to_string(), last_accessed_time: 3 },
            Entry { path: "q".to_string(), last_accessed_time: 5 },
            Entry { path: "r".to_string(), last_accessed_time: 3 },
            Entry { path: "s".to_string(), last_accessed_time: 5 },
        ]
    };
    let down: Vec<String> = rank(make(), true).into_iter().map(|e| e.path).collect();
    assert_eq!(down, vec!["q", "s", "p", "r"]);
    let up: Vec<String> = rank(make(), false).into_iter().map(|e| e.path).collect();
    assert_eq!(up, vec!["p", "r", "q", "s"]);
}

#[test]
fn top_n_evicts_the_first_of_equal_worst() {
    let mut t = TopN::new(2, true);
    t.push(Entry { path: "a".to_string(), last_accessed_time: 4 });
    t.push(Entry { path: "b".to_string(), last_accessed_time: 4 });
    t.push(Entry { path: "c".to_string(), last_accessed_time: 4 });
    let kept: Vec<String> = t.into_ranked().into_iter().map(|e| e.path).collect();
    assert_eq!(kept, vec!["b", "c"]);
}
