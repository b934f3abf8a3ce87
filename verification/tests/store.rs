use disk_tree::agg::aggregate_folder_sizes;
use disk_tree::db::{get_scan_result, list_roots, open_db, open_db_in_memory, write_scan};
use disk_tree::search::find_files;
use disk_tree::{scan_directory, FileEntry, FileKey, ScanError};

fn entry(path: &str, size: u64, ino: u64) -> FileEntry {
    (path.to_string(), size, FileKey { dev: 1, ino })
}

#[test]
fn db_round_trip_preserves_counts_and_names() {
    let conn = open_db_in_memory().expect("failed to open db with migrations");
    let root = "test-data";
    let files = vec![entry("test-data/one.txt", 5, 1), entry("test-data/two.txt", 5, 2)];
    let folder_sizes = aggregate_folder_sizes(root, &files);
    write_scan(&conn, root, &files, &folder_sizes).expect("failed to write scan");

    let loaded = get_scan_result(&conn, root)
        .expect("failed to load scan")
        .expect("expected some scan data");
    assert_eq!(loaded.root, root);
    assert_eq!(loaded.files.len(), files.len());
    assert_eq!(loaded.folder_sizes.len(), folder_sizes.len());
    assert_eq!(loaded.files[0].path, "test-data/one.txt");
    assert_eq!(loaded.files[0].size, 5);
    assert_eq!(loaded.files[0].file_key, FileKey { dev: 1, ino: 1 });

    let mut stmt = conn.prepare("SELECT name, type FROM files ORDER BY path").unwrap();
    let rows: Vec<(Option<String>, Option<String>)> = stmt
        .query_map([], |row| Ok((row.get(0)?, row.get(1)?)))
        .unwrap()
        .collect::<Result<_, _>>()
        .unwrap();
    assert_eq!(rows.len(), 2);
    assert!(rows.contains(&(Some("one.txt".to_string()), Some("txt".to_string()))));
    assert!(rows.contains(&(Some("two.txt".to_string()), Some("txt".to_string()))));
}

#[test]
fn folder_rows_carry_basenames() {
    let conn = open_db_in_memory().unwrap();
    let root = "top";
    let files = vec![entry("top/sub/c.txt", 3, 1)];
    let sizes = aggregate_folder_sizes(root, &files);
    write_scan(&conn, root, &files, &sizes).unwrap();
    let mut stmt = conn.prepare("SELECT path, name FROM folders ORDER BY path").unwrap();
    let rows: Vec<(String, Option<String>)> = stmt
        .query_map([], |row| Ok((row.get(0)?, row.get(1)?)))
        .unwrap()
        .collect::<Result<_, _>>()
        .unwrap();
    assert!(rows.contains(&("top".to_string(), Some("top".to_string()))));
    assert!(rows.contains(&("top/sub".to_string(), Some("sub".to_string()))));
}

#[test]
fn unreachable_store_path_reports_an_error() {
    assert!(open_db("/no-such-directory-anywhere/x/y/z.db").is_err());
}

#[test]
fn large_scan_round_trips_across_batches() {
    let conn = open_db_in_memory().unwrap();
    let root = "big";
    let mut files: Vec<FileEntry> = Vec::new();
    for i in 0..250u64 {
        files.push(entry(&format!("big/f{:03}", i), i, i + 1));
    }
    let folder_sizes = aggregate_folder_sizes(root, &files);
    write_scan(&conn, root, &files, &folder_sizes).unwrap();
    let loaded = get_scan_result(&conn, root).unwrap().unwrap();
    assert_eq!(loaded.files.len(), 250);
}

#[test]
fn rescan_replaces_stale_rows() {
    let conn = open_db_in_memory().unwrap();
    let root = "r";
    let both = vec![entry("r/a.txt", 1, 1), entry("r/b.txt", 2, 2)];
    let sizes_both = aggregate_folder_sizes(root, &both);
    write_scan(&conn, root, &both, &sizes_both).unwrap();

    let only_a = vec![entry("r/a.txt", 1, 1)];
    let sizes_a = aggregate_folder_sizes(root, &only_a);
    write_scan(&conn, root, &only_a, &sizes_a).unwrap();

    let loaded = get_scan_result(&conn, root).unwrap().unwrap();
    assert_eq!(loaded.files.len(), 1);
    assert_eq!(loaded.files[0].path, "r/a.txt");
}

#[test]
fn missing_root_loads_nothing() {
    let conn = open_db_in_memory().unwrap();
    assert!(get_scan_result(&conn, "nowhere").unwrap().is_none());
}

#[test]
fn empty_query_returns_all_sorted() {
    let conn = open_db_in_memory().unwrap();
    let root = "r";
    let files = vec![
        entry("r/b.txt", 1, 1),
        entry("r/a.txt", 2, 2),
        entry("r/sub/c.txt", 3, 3),
    ];
    let sizes = aggregate_folder_sizes(root, &files);
    write_scan(&conn, root, &files, &sizes).unwrap();
    let found = find_files(&conn, root, "", None).unwrap();
    assert_eq!(found.len(), 3);
    let paths: Vec<&str> = found.iter().map(|e| e.path.as_str()).collect();
    assert_eq!(paths, vec!["r/a.txt", "r/b.txt", "r/sub/c.txt"]);
}

#[test]
fn extension_filter_excludes_others() {
    let conn = open_db_in_memory().unwrap();
    let root = "r";
    let files = vec![
        entry("r/a.txt", 1, 1),
        entry("r/b.MD", 2, 2),
        entry("r/c.rs", 3, 3),
    ];
    let sizes = aggregate_folder_sizes(root, &files);
    write_scan(&conn, root, &files, &sizes).unwrap();
    let found = find_files(&conn, root, "", Some("TXT, .md")).unwrap();
    assert_eq!(found.len(), 2);
    assert!(found.iter().all(|e| !e.path.ends_with(".rs")));
    assert!(found.iter().any(|e| e.path == "r/a.txt"));
    assert!(found.iter().any(|e| e.path == "r/b.MD"));
}

#[test]
fn fuzzy_query_matches_case_insensitively() {
    let conn = open_db_in_memory().unwrap();
    let root = "r";
    let files = vec![entry("r/Notes.TXT", 7, 1), entry("r/other.md", 2, 2)];
    let sizes = aggregate_folder_sizes(root, &files);
    write_scan(&conn, root, &files, &sizes).unwrap();
    let found = find_files(&conn, root, "notes", None).unwrap();
    assert_eq!(found.len(), 1);
    assert_eq!(found[0].path, "r/Notes.TXT");
    assert_eq!(found[0].size, 7);

    let none = find_files(&conn, root, "zzz", None).unwrap();
    assert!(none.is_empty());
}

#[test]
fn query_and_extension_filter_combine() {
    let conn = open_db_in_memory().unwrap();
    let root = "r";
    let files = vec![
        entry("r/alpha.txt", 1, 1),
        entry("r/alpha.md", 2, 2),
        entry("r/beta.txt", 3, 3),
    ];
    let sizes = aggregate_folder_sizes(root, &files);
    write_scan(&conn, root, &files, &sizes).unwrap();
    let found = find_files(&conn, root, "alpha", Some("txt")).unwrap();
    assert_eq!(found.len(), 1);
    assert_eq!(found[0].path, "r/alpha.txt");
}

#[test]
fn listed_roots_have_rows() {
    let conn = open_db_in_memory().unwrap();
    let files_b = vec![entry("b/x", 1, 1)];
    let sizes_b = aggregate_folder_sizes("b", &files_b);
    write_scan(&conn, "b", &files_b, &sizes_b).unwrap();

    let files_a = vec![entry("a/y", 1, 2)];
    let sizes_a = aggregate_folder_sizes("a", &files_a);
    write_scan(&conn, "a", &files_a, &sizes_a).unwrap();

    let empty_files: Vec<FileEntry> = Vec::new();
    let empty_sizes: Vec<(String, u64)> = Vec::new();
    write_scan(&conn, "empty", &empty_files, &empty_sizes).unwrap();

    let roots = list_roots(&conn).unwrap();
    assert_eq!(roots, vec!["a".to_string(), "b".to_string()]);
}

#[test]
fn scan_rejects_missing_directory() {
    let conn = open_db_in_memory().unwrap();
    let r = scan_directory(&conn, "no-such-dir-anywhere-here", |_p| {});
    match r {
        Err(ScanError::NotADirectory(p)) => assert_eq!(p, "no-such-dir-anywhere-here"),
        _ => panic!("expected a not-a-directory error"),
    }
}
