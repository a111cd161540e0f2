use recent_files::scan::{Report, Scan};
use recent_files::Options;

const T1: u64 = 1_000_000_000;
const T2: u64 = 3_000_000_000;
const T3: u64 = 2_000_000_000;

fn run(nums: Option<&str>, glob: Option<&str>, no_ext: bool, oldest: bool) -> Report {
    let options = Options::from_args(nums, glob, no_ext, oldest).unwrap();
    let mut scan = Scan::new(&options).unwrap();
    scan.visit("./", false, false, None);
    scan.visit("./a.txt", true, false, Some(T1));
    scan.visit("./b.txt", true, false, Some(T2));
    scan.visit("./c.log", true, false, Some(T3));
    scan.finish()
}

fn paths(report: &Report) -> Vec<String> {
    report.top.iter().map(|e| e.path.clone()).collect()
}

#[test]
fn default_options_rank_most_recent_first() {
    let report = run(None, None, false, false);
    assert_eq!(report.total_files, 3);
    assert_eq!(report.nums, 5);
    assert!(report.recent);
    assert_eq!(paths(&report), vec!["./b.txt", "./c.log", "./a.txt"]);
}

#[test]
fn one_oldest_file() {
    let report = run(Some("1"), None, false, true);
    assert_eq!(paths(&report), vec!["./a.txt"]);
    assert_eq!(report.top[0].last_accessed_time, T1);
}

#[test]
fn glob_restricts_count_and_results() {
    let report = run(None, Some("*.log"), false, false);
    assert_eq!(report.total_files, 1);
    assert_eq!(paths(&report), vec!["./c.log"]);
    let exts = report.by_ext.unwrap();
    assert_eq!(exts.len(), 1);
    assert_eq!(exts[0].path, "log");
}

#[test]
fn no_ext_drops_only_the_extension_summary() {
    let with = run(None, None, false, false);
    let without = run(None, None, true, false);
    assert!(with.by_ext.is_some());
    assert!(without.by_ext.is_none());
    assert_eq!(paths(&with), paths(&without));
    assert_eq!(with.total_files, without.total_files);
}

#[test]
fn extension_summary_keeps_latest_time_per_extension() {
    let report = run(None, None, false, false);
    let exts = report.by_ext.unwrap();
    let names: Vec<String> = exts.iter().map(|e| e.path.clone()).collect();
    assert_eq!(names, vec!["txt", "log"]);
    assert_eq!(exts[0].last_accessed_time, T2);
    assert_eq!(exts[1].last_accessed_time, T3);
}

#[test]
fn extension_summary_oldest_first_and_limited() {
    let report = run(Some("1"), None, false, true);
    let exts = report.by_ext.unwrap();
    assert_eq!(exts.len(), 1);
    assert_eq!(exts[0].path, "log");
    assert_eq!(exts[0].last_accessed_time, T3);
}

#[test]
fn kept_files_never_exceed_the_limit() {
    let options = Options::from_args(Some("2"), None, false, false).unwrap();
    let mut scan = Scan::new(&options).unwrap();
    for i in 0..10u64 {
        scan.visit(&format!("./f{}.txt", i), true, false, Some(i * 7 % 10));
    }
    let report = scan.finish();
    assert_eq!(report.total_files, 10);
    let times: Vec<u64> = report.top.iter().map(|e| e.last_accessed_time).collect();
    assert_eq!(times, vec![9, 8]);
}

#[test]
fn zero_limit_keeps_nothing() {
    let report = run(Some("0"), None, false, false);
    assert_eq!(report.total_files, 3);
    assert!(report.top.is_empty());
    assert!(report.by_ext.unwrap().is_empty());
}

// Files without an extension are ranked like any other file; only the
// summary by extension leaves them out.
#[test]
fn links_directories_and_missing_times() {
    let options = Options::from_args(None, None, false, false).unwrap();
    let mut scan = Scan::new(&options).unwrap();
    scan.visit("./dir", false, false, Some(5));
    scan.visit("./link.txt", true, true, Some(5));
    scan.visit("./locked.txt", true, false, None);
    scan.visit("./README", true, false, Some(7));
    assert_eq!(scan.total_files(), 2);
    let report = scan.finish();
    assert_eq!(paths(&report), vec!["./README"]);
    assert!(report.by_ext.unwrap().is_empty());
}

#[test]
fn files_outside_the_glob_are_not_counted() {
    let options = Options::from_args(None, Some("*.rs,*.md"), false, true).unwrap();
    let mut scan = Scan::new(&options).unwrap();
    scan.visit("./src/lib.rs", true, false, Some(4));
    scan.visit("./notes.txt", true, false, Some(1));
    scan.visit("./README.md", true, false, Some(2));
    let report = scan.finish();
    assert_eq!(report.total_files, 2);
    assert_eq!(paths(&report), vec!["./README.md", "./src/lib.rs"]);
}

#[test]
fn two_runs_over_the_same_entries_agree() {
    let first = run(Some("2"), None, false, false);
    let second = run(Some("2"), None, false, false);
    assert_eq!(paths(&first), paths(&second));
    assert_eq!(first.total_files, second.total_files);
    let names = |r: &Report| -> Vec<(String, u64)> {
        r.by_ext.as_ref().unwrap().iter().map(|e| (e.path.clone(), e.last_accessed_time)).collect()
    };
    assert_eq!(names(&first), names(&second));
}
