use disk_scan::scan::{FileInfo, PathFilter, ScanStatus, Scanner};

fn record(path: &str, size: u64) -> FileInfo {
    FileInfo::new(path.to_string(), size, 0, 0, 0)
}

fn scanner_protecting(locations: &[&str]) -> Scanner {
    Scanner::new(PathFilter::new(locations.iter().map(|s| s.to_string()).collect()))
}

#[test]
fn filter_matches_whole_components() {
    let f = PathFilter::new(vec!["/sys".to_string()]);
    assert!(f.should_skip("/sys"));
    assert!(f.should_skip("/sys/kernel/x"));
    assert!(!f.should_skip("/system/x"));
    assert!(!f.should_skip("/home/sys"));
}

#[test]
fn empty_filter_protects_nothing() {
    let f = PathFilter::new(Vec::new());
    assert!(!f.should_skip("/"));
    assert!(!f.should_skip("/anything"));
}

#[test]
fn default_status_is_idle() {
    let s = ScanStatus::default();
    assert!(!s.running);
    assert_eq!((s.scanned_files, s.scanned_bytes), (0, 0));
    assert!(s.current_path.is_none());
}

#[test]
fn new_scanner_is_idle_and_empty() {
    let s = scanner_protecting(&[]);
    assert!(!s.status().running);
    assert!(s.results().is_empty());
    assert!(s.roots().is_empty());
}

#[test]
fn two_files_total_seven_bytes() {
    let mut s = scanner_protecting(&[]);
    assert!(s.start(vec!["/tmp/t".to_string()]));
    assert!(s.status().running);
    assert!(s.may_begin_root());
    assert!(s.record(record("/tmp/t/a.txt", 2)));
    assert!(s.record(record("/tmp/t/b.txt", 5)));
    s.finish();
    let st = s.status();
    assert!(!st.running);
    assert_eq!(s.results().len(), 2);
    assert_eq!(st.scanned_files, 2);
    assert_eq!(st.scanned_bytes, 7);
    assert!(st.current_path.is_none());
}

#[test]
fn progress_tracks_last_recorded_path() {
    let mut s = scanner_protecting(&[]);
    s.start(vec!["/r".to_string()]);
    s.record(record("/r/one", 1));
    assert_eq!(s.status().current_path, Some("/r/one".to_string()));
    let results = s.results();
    assert_eq!(results[0].path, "/r/one");
    assert_eq!(results[0].size, 1);
}

#[test]
fn start_while_running_changes_nothing() {
    let mut s = scanner_protecting(&[]);
    assert!(s.start(vec!["/first".to_string()]));
    s.record(record("/first/f", 3));
    assert!(!s.start(vec!["/second".to_string()]));
    assert_eq!(s.roots(), vec!["/first".to_string()]);
    assert_eq!(s.results().len(), 1);
    assert_eq!(s.status().scanned_bytes, 3);
    assert!(s.status().running);
}

#[test]
fn restart_after_finish_clears_results() {
    let mut s = scanner_protecting(&[]);
    s.start(vec!["/first".to_string()]);
    s.record(record("/first/f", 3));
    s.finish();
    assert!(s.start(vec!["/second".to_string()]));
    assert!(s.results().is_empty());
    assert_eq!(s.status().scanned_files, 0);
    assert_eq!(s.status().scanned_bytes, 0);
    assert_eq!(s.roots(), vec!["/second".to_string()]);
}

#[test]
fn cancel_stops_new_work() {
    let mut s = scanner_protecting(&[]);
    s.start(vec!["/r".to_string()]);
    s.record(record("/r/a", 4));
    s.cancel();
    assert!(!s.may_begin_root());
    assert!(!s.may_visit("/r/b"));
    assert!(s.status().running);
    s.finish();
    assert!(!s.status().running);
    assert_eq!(s.results().len(), 1);
}

#[test]
fn cancel_on_idle_scanner_is_harmless() {
    let mut s = scanner_protecting(&[]);
    s.cancel();
    assert!(!s.status().running);
    assert!(s.results().is_empty());
    assert!(s.start(vec!["/r".to_string()]));
    assert!(s.may_begin_root());
}

#[test]
fn protected_paths_stay_out_unless_requested() {
    let mut s = scanner_protecting(&["/sys"]);
    s.start(vec!["/home".to_string()]);
    assert!(s.excludes("/sys/a"));
    assert!(!s.may_visit("/sys/a"));
    assert!(s.may_visit("/home/a"));
    assert!(!s.record(record("/sys/a", 9)));
    assert!(s.record(record("/home/a", 1)));
    assert_eq!(s.results().len(), 1);
    assert_eq!(s.status().scanned_bytes, 1);
    s.finish();

    s.start(vec!["/sys/kernel".to_string()]);
    assert!(!s.excludes("/sys/kernel/b"));
    assert!(s.excludes("/sys/other"));
    assert!(s.record(record("/sys/kernel/b", 2)));
    assert!(!s.record(record("/sys/other", 2)));
    assert_eq!(s.results().len(), 1);
}

#[test]
fn record_on_idle_scanner_is_ignored() {
    let mut s = scanner_protecting(&[]);
    assert!(!s.record(record("/x/y", 5)));
    assert!(s.results().is_empty());
    assert_eq!(s.status().scanned_files, 0);
}
