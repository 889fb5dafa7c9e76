use disk_scan::scan::FileInfo;
use disk_scan::summary::{summarize_by_folder, summarize_sizes};

fn record(path: &str, size: u64) -> FileInfo {
    FileInfo::new(path.to_string(), size, 0, 0, 0)
}

#[test]
fn summarize_three_records() {
    let files = vec![record("/a/x.txt", 10), record("/a/y.txt", 5), record("/b/z.txt", 20)];
    let r = summarize_by_folder(&files);
    assert_eq!(r, vec![("/b".to_string(), 20), ("/a".to_string(), 15)]);
}

#[test]
fn summarize_empty_collection() {
    let files: Vec<FileInfo> = Vec::new();
    assert!(summarize_by_folder(&files).is_empty());
}

#[test]
fn summarize_leaves_out_paths_without_parent() {
    let files = vec![record("/", 7), record("/c/d/e.bin", 3)];
    let r = summarize_by_folder(&files);
    assert_eq!(r, vec![("/c/d".to_string(), 3)]);
}

#[test]
fn summarize_groups_by_immediate_parent() {
    let files = vec![record("/a/b/x", 1), record("/a/y", 2), record("/a/b/z", 4)];
    let r = summarize_by_folder(&files);
    assert_eq!(r, vec![("/a/b".to_string(), 5), ("/a".to_string(), 2)]);
}

#[test]
fn summarize_sizes_keeps_first_seen_order_on_ties() {
    let entries = vec![
        (Some("/p".to_string()), 3),
        (None, 100),
        (Some("/q".to_string()), 1),
        (Some("/q".to_string()), 2),
        (Some("/r".to_string()), 9),
    ];
    let r = summarize_sizes(&entries);
    assert_eq!(r, vec![("/r".to_string(), 9), ("/p".to_string(), 3), ("/q".to_string(), 3)]);
}

#[test]
fn summarize_sizes_sums_large_values() {
    let entries = vec![(Some("/big".to_string()), u64::MAX - 1), (Some("/big".to_string()), 1)];
    assert_eq!(summarize_sizes(&entries), vec![("/big".to_string(), u64::MAX)]);
}

#[test]
fn file_info_reads_extension() {
    let f = record("/a/x.txt", 1);
    assert_eq!(f.ext, "txt");
    assert_eq!(record("/a/archive.tar.gz", 1).ext, "gz");
    assert_eq!(record("/a/Makefile", 1).ext, "");
    assert_eq!(record("/a/.hidden", 1).ext, "");
}

#[test]
fn file_info_duplicate_keeps_fields() {
    let f = FileInfo::new("/d/e.rs".to_string(), 42, 1, 2, 3);
    let g = f.duplicate();
    assert_eq!(g.path, "/d/e.rs");
    assert_eq!((g.size, g.modified, g.accessed, g.created), (42, 1, 2, 3));
    assert_eq!(g.ext, "rs");
}
