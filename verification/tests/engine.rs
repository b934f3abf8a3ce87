use disk_tree::agg::aggregate_folder_sizes;
use disk_tree::paths::{
    ascii_lower, basename_of, contains_sub, extension_of, parent_of, path_ancestors, split_char,
    str_le, str_starts_with, trim_str,
};
use disk_tree::search::clean_extensions;
use disk_tree::sizes::fs_get;
use disk_tree::walk::progress_events;
use disk_tree::{to_scan_result, FileEntry, FileKey};

fn entry(path: &str, size: u64, ino: u64) -> FileEntry {
    (path.to_string(), size, FileKey { dev: 1, ino })
}

#[test]
fn path_ancestors_works() {
    let a = path_ancestors("/a/b/c/file.txt");
    assert!(a.iter().any(|x| x == "/a/b/c"));
    assert!(a.iter().any(|x| x == "/a/b"));
    assert!(a.iter().any(|x| x == "/a"));
}

#[test]
fn aggregate_computes_recursive_folder_sizes() {
    let files = vec![
        entry("root/a.txt", 5, 1),
        entry("root/b.txt", 5, 2),
        entry("root/sub/c.txt", 3, 3),
    ];
    let sizes = aggregate_folder_sizes("root", &files);
    assert_eq!(fs_get(&sizes, "root"), Some(13), "root should sum to 13 bytes");
    assert_eq!(fs_get(&sizes, "root/sub"), Some(3), "sub should be 3 bytes");
}

#[test]
fn hard_links_counted_once() {
    let files = vec![entry("root/a.txt", 100, 7), entry("root/hardlink_to_a.txt", 100, 7)];
    assert_eq!(files.len(), 2);
    let sizes = aggregate_folder_sizes("root", &files);
    assert_eq!(fs_get(&sizes, "root"), Some(100));
}

#[test]
fn distinct_keys_sum_to_total() {
    let files = vec![
        entry("root/x", 1, 1),
        entry("root/y", 2, 2),
        entry("root/d/z", 3, 3),
    ];
    let sizes = aggregate_folder_sizes("root", &files);
    assert_eq!(fs_get(&sizes, "root"), Some(6));
    assert_eq!(fs_get(&sizes, "root/d"), Some(3));
}

#[test]
fn sibling_prefix_roots_stay_separate() {
    let files = vec![entry("/data/a", 4, 1), entry("/data2/sub/b", 9, 2)];
    let sizes = aggregate_folder_sizes("/data", &files);
    assert_eq!(fs_get(&sizes, "/data"), Some(4), "a /data2 entry adds nothing to /data");
    assert_eq!(fs_get(&sizes, "/data2"), None);
    assert_eq!(fs_get(&sizes, "/data2/sub"), None);
}

#[test]
fn progress_events_hit_milestones() {
    let mut files: Vec<FileEntry> = Vec::new();
    for i in 0..250u64 {
        files.push(entry(&format!("root/f{}", i), 1, i + 1));
    }
    let ev = progress_events(&files);
    assert_eq!(ev[0].files_count, 0);
    assert!(ev.iter().any(|p| p.files_count > 0 && p.files_count % 200 == 0));
    assert_eq!(ev[ev.len() - 2].files_count, 250);
    assert_eq!(ev[ev.len() - 1].files_count, 250);
    assert_eq!(ev[ev.len() - 1].status.as_deref(), Some("Computing folder sizes…"));
    for w in ev.windows(2) {
        assert!(w[0].files_count <= w[1].files_count);
    }
    let milestone = ev.iter().find(|p| p.files_count == 200).unwrap();
    assert_eq!(milestone.current_path.as_deref(), Some("root/f199"));
}

#[test]
fn meter_notifies_each_two_hundredth_file() {
    let seen: std::cell::RefCell<Vec<disk_tree::ScanProgress>> =
        std::cell::RefCell::new(Vec::new());
    let mut meter = disk_tree::walk::ProgressMeter {
        sink: |p: disk_tree::ScanProgress| {
            seen.borrow_mut().push(p);
        },
        count: 0,
    };
    for i in 0..400u64 {
        meter.on_file(&format!("r/f{}", i));
    }
    let got = seen.borrow();
    assert_eq!(got.len(), 2, "one notification per two hundred files");
    assert_eq!(got[0].files_count, 200);
    assert_eq!(got[0].current_path.as_deref(), Some("r/f199"));
    assert_eq!(got[1].files_count, 400);
}

#[test]
fn to_scan_result_packages_fields() {
    let files = vec![entry("root/x.txt", 4, 1)];
    let sizes = aggregate_folder_sizes("root", &files);
    let result = to_scan_result("root", &files, &sizes).unwrap();
    assert_eq!(result.files.len(), 1);
    assert_eq!(result.files[0].size, 4);
    assert_eq!(result.folder_sizes.len(), 1);
    assert!(!result.root.is_empty());
}

#[test]
fn string_helpers_work() {
    assert_eq!(parent_of("/a/b").as_deref(), Some("/a"));
    assert_eq!(parent_of("/a").as_deref(), Some("/"));
    assert_eq!(parent_of("a"), None);
    assert_eq!(basename_of("dir/file.tar.gz").as_deref(), Some("file.tar.gz"));
    assert_eq!(extension_of("dir/file.tar.gz").as_deref(), Some("gz"));
    assert_eq!(extension_of("dir/.gitignore"), None);
    assert_eq!(extension_of("dir/file."), Some(String::new()));
    assert_eq!(extension_of("dir/noext"), None);
    assert_eq!(ascii_lower("AbC.TXT"), "abc.txt");
    assert_eq!(trim_str("  x y\t"), "x y");
    let pieces = split_char("a,,b", ',');
    assert_eq!(pieces, vec!["a".to_string(), String::new(), "b".to_string()]);
    assert!(str_starts_with("/data2/x", "/data"));
    assert!(!str_starts_with("/dat", "/data"));
    assert!(contains_sub("hello world", "lo wo"));
    assert!(!contains_sub("hello", "z"));
    assert!(str_le("abc", "abd"));
    assert!(str_le("ab", "abc"));
    assert!(!str_le("b", "abc"));
}

#[test]
fn extension_cleaning_normalizes() {
    let cleaned = clean_extensions(" .TXT, md ,,");
    assert_eq!(cleaned, vec!["txt".to_string(), "md".to_string()]);
}
