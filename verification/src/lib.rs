use vstd::prelude::*;

pub mod paths;
pub mod sizes;
pub mod agg;
pub mod walk;
pub mod db;
pub mod search;
pub use walk::{
    index_directory, index_directory_parallel_with_progress, index_directory_with_progress,
};
verus! {

/// Identity of a physical file on a volume: device id plus inode number.
/// Two directory entries with equal keys are hard links to the same file.
#[derive(Clone, Copy, Debug, Hash, PartialEq, Eq, Structural)]
pub struct FileKey {
    pub dev: u64,
    pub ino: u64,
}

/// One progress notification delivered while a scan runs.
#[derive(Clone, Debug)]
pub struct ScanProgress {
    pub files_count: u64,
    pub current_path: Option<String>,
    pub status: Option<String>,
}

/// One directory-tree occurrence of a regular file: path, byte size, identity key.
pub type FileEntry = (String, u64, FileKey);

/// A file record in serializable form, as handed to callers and stored.
#[derive(Clone, Debug)]
pub struct FileEntrySer {
    pub path: String,
    pub size: u64,
    pub file_key: FileKey,
}

impl FileEntrySer {
    /// A field-for-field copy of the record.
    pub fn clone_record(&self) -> (r: FileEntrySer)
        ensures
            r == *self,
    {
        FileEntrySer { path: self.path.clone(), size: self.size, file_key: self.file_key }
    }
}

/// The outcome of one completed scan of a root directory.
#[derive(Clone, Debug)]
pub struct ScanResult {
    pub root: String,
    pub files: Vec<FileEntrySer>,
    pub folder_sizes: Vec<(String, u64)>,
}

/// The raw-entry form of a sequence of serializable file records.
pub open spec fn ser_view(s: Seq<FileEntrySer>) -> Seq<FileEntry> {
    s.map_values(|e: FileEntrySer| (e.path, e.size, e.file_key))
}

/// Folder totals read only each entry's path characters, size and key, so
/// lists that agree on those agree on every total.
pub proof fn lemma_totals_depend_on_views(
    root: Seq<char>,
    a: Seq<FileEntry>,
    b: Seq<FileEntry>,
)
    requires
        a.len() == b.len(),
        forall|i: int|
            0 <= i < a.len() ==> (#[trigger] a[i]).0@ == (#[trigger] b[i]).0@ && a[i].1 == b[i].1
                && a[i].2 == b[i].2,
    ensures
        crate::agg::total_size(a) == crate::agg::total_size(b),
        forall|f: Seq<char>|
            crate::agg::folder_total(root, a, f) == crate::agg::folder_total(root, b, f),
        forall|f: Seq<char>|
            crate::agg::folder_appears(root, a, f) == crate::agg::folder_appears(root, b, f),
    decreases a.len(),
{
    if a.len() > 0 {
        assert forall|i: int|
            0 <= i < a.drop_last().len() implies (#[trigger] a.drop_last()[i]).0@ == (
        #[trigger] b.drop_last()[i]).0@ && a.drop_last()[i].1 == b.drop_last()[i].1
            && a.drop_last()[i].2 == b.drop_last()[i].2 by {
            assert(a.drop_last()[i] == a[i]);
            assert(b.drop_last()[i] == b[i]);
        }
        lemma_totals_depend_on_views(root, a.drop_last(), b.drop_last());
        assert(a.last().0@ == b.last().0@ && a.last().1 == b.last().1 && a.last().2 == b.last().2);
        assert forall|k: FileKey|
            crate::agg::has_key(a.drop_last(), k) == crate::agg::has_key(b.drop_last(), k) by {
            if crate::agg::has_key(a.drop_last(), k) {
                let t = choose|t: int|
                    0 <= t < a.drop_last().len() && a.drop_last()[t].2 == k;
                assert(b.drop_last()[t].2 == k);
            }
            if crate::agg::has_key(b.drop_last(), k) {
                let t = choose|t: int|
                    0 <= t < b.drop_last().len() && b.drop_last()[t].2 == k;
                assert(a.drop_last()[t].2 == k);
            }
        }
        assert forall|f: Seq<char>|
            crate::agg::folder_total(root, a, f) == crate::agg::folder_total(root, b, f) by {
            assert(crate::agg::folder_total(root, a.drop_last(), f) == crate::agg::folder_total(
                root,
                b.drop_last(),
                f,
            ));
        }
        assert forall|f: Seq<char>|
            crate::agg::folder_appears(root, a, f) == crate::agg::folder_appears(root, b, f) by {
            assert(crate::agg::folder_appears(root, a.drop_last(), f)
                == crate::agg::folder_appears(root, b.drop_last(), f));
        }
    }
}

/// Packages a raw file list and its folder map as a serializable scan
/// outcome for `root`; every field of the outcome is pinned to its source.
pub fn to_scan_result(
    root: &str,
    files: &Vec<FileEntry>,
    folder_sizes: &Vec<(String, u64)>,
) -> (r: Option<ScanResult>)
    ensures
        r matches Some(sr) && sr.root@ == root@ && sr.files@.len() == files@.len() && (forall|
            i: int,
        |
            0 <= i < files@.len() ==> (#[trigger] sr.files@[i]).path@ == files@[i].0@
                && sr.files@[i].size == files@[i].1 && sr.files@[i].file_key == files@[i].2) && sr
            .folder_sizes@.len() == folder_sizes@.len() && (forall|i: int|
            0 <= i < folder_sizes@.len() ==> (#[trigger] sr.folder_sizes@[i]).0@
                == folder_sizes@[i].0@ && sr.folder_sizes@[i].1 == folder_sizes@[i].1),
{
    let n = files.len();
    let mut files_ser: Vec<FileEntrySer> = Vec::new();
    let mut i: usize = 0;
    while i < n
        invariant
            n == files@.len(),
            0 <= i <= n,
            files_ser@.len() == i,
            forall|t: int|
                0 <= t < i ==> (#[trigger] files_ser@[t]).path@ == files@[t].0@
                    && files_ser@[t].size == files@[t].1 && files_ser@[t].file_key == files@[t].2,
        decreases n - i,
    {
        files_ser.push(
            FileEntrySer {
                path: files[i].0.clone(),
                size: files[i].1,
                file_key: files[i].2,
            },
        );
        i = i + 1;
    }
    let m = folder_sizes.len();
    let mut sizes: Vec<(String, u64)> = Vec::new();
    let mut j: usize = 0;
    while j < m
        invariant
            m == folder_sizes@.len(),
            0 <= j <= m,
            sizes@.len() == j,
            forall|t: int|
                0 <= t < j ==> (#[trigger] sizes@[t]).0@ == folder_sizes@[t].0@ && sizes@[t].1
                    == folder_sizes@[t].1,
        decreases m - j,
    {
        sizes.push((folder_sizes[j].0.clone(), folder_sizes[j].1));
        j = j + 1;
    }
    Some(ScanResult { root: root.to_owned(), files: files_ser, folder_sizes: sizes })
}

/// Scans `root` with the sequential walker and packages the outcome.
pub fn index_directory_serializable(root: &str) -> (r: Option<ScanResult>)
    ensures
        r matches Some(sr) && sr.root@ == root@ && crate::walk::folder_sizes_match(
            root@,
            ser_view(sr.files@),
            sr.folder_sizes@,
        ),
{
    let (files, folder_sizes) = crate::walk::index_directory(root);
    let r = to_scan_result(root, &files, &folder_sizes);
    proof {
        let sr = r.unwrap();
        assert(ser_view(sr.files@).len() == files@.len());
        assert forall|i: int|
            0 <= i < files@.len() implies (#[trigger] ser_view(sr.files@)[i]).0@ == files@[i].0@
            && ser_view(sr.files@)[i].1 == files@[i].1 && ser_view(sr.files@)[i].2
            == files@[i].2 by {
            assert(ser_view(sr.files@)[i] == (sr.files@[i].path, sr.files@[i].size, sr.files@[i].file_key));
        }
        lemma_totals_depend_on_views(root@, ser_view(sr.files@), files@);
        crate::sizes::lemma_al_congruence(sr.folder_sizes@, folder_sizes@);
    }
    r
}

/// Why a scan request failed.
pub enum ScanError {
    /// The given path does not name a readable directory.
    NotADirectory(String),
    /// The persistent store failed to open or to accept the scan.
    Db(rusqlite::Error),
}

/// One full scan cycle: validates that `path` names a directory, walks it
/// with the parallel strategy while delivering progress notifications,
/// rolls the sizes up, announces the save, persists the outcome under
/// `root = path`, and returns it.
pub fn scan_directory<F: Fn(ScanProgress)>(
    conn: &rusqlite::Connection,
    path: &str,
    progress: F,
) -> (r: Result<ScanResult, ScanError>)
    requires
        forall|p: ScanProgress| progress.requires((p,)),
    ensures
        r matches Ok(sr) ==> sr.root@ == path@ && crate::walk::folder_sizes_match(
            path@,
            ser_view(sr.files@),
            sr.folder_sizes@,
        ),
        r matches Err(ScanError::NotADirectory(p)) ==> p@ == path@,
{
    if !crate::walk::is_directory(path) {
        return Err(ScanError::NotADirectory(path.to_owned()));
    }
    progress(
        ScanProgress {
            files_count: 0,
            current_path: None,
            status: Some(String::from_str("Scanning files…")),
        },
    );
    let mut meter = crate::walk::ProgressMeter { sink: progress, count: 0u64 };
    let files = match crate::walk::walk_files_parallel(path, &mut meter) {
        Some(f) => f,
        None => {
            meter.notify(0, None, Some(String::from_str("Scan failed (try_into_iter)")));
            Vec::new()
        },
    };
    let n = #[verifier::truncate] (files.len() as u64);
    meter.notify(n, None, None);
    meter.notify(n, None, Some(String::from_str("Computing folder sizes…")));
    let folder_sizes = crate::walk::compute_folder_sizes(path, &files);
    let packed = to_scan_result(path, &files, &folder_sizes);
    let sr = match packed {
        Some(sr) => sr,
        None => {
            return Err(ScanError::NotADirectory(path.to_owned()));
        },
    };
    proof {
        assert(ser_view(sr.files@).len() == files@.len());
        assert forall|i: int|
            0 <= i < files@.len() implies (#[trigger] ser_view(sr.files@)[i]).0@ == files@[i].0@
            && ser_view(sr.files@)[i].1 == files@[i].1 && ser_view(sr.files@)[i].2
            == files@[i].2 by {
            assert(ser_view(sr.files@)[i] == (sr.files@[i].path, sr.files@[i].size, sr.files@[i].file_key));
        }
        lemma_totals_depend_on_views(path@, ser_view(sr.files@), files@);
        crate::sizes::lemma_al_congruence(sr.folder_sizes@, folder_sizes@);
    }
    meter.notify(n, None, Some(String::from_str("Saving to database…")));
    match crate::db::write_scan(conn, path, &files, &folder_sizes) {
        Ok(_) => Ok(sr),
        Err(e) => Err(ScanError::Db(e)),
    }
}

/// Every root that has a persisted scan, in ascending order.
pub fn list_cached_roots(conn: &rusqlite::Connection) -> (r: Result<Vec<String>, rusqlite::Error>)
    ensures
        r matches Ok(roots) ==> (forall|i: int, j: int|
            0 <= i < j < roots@.len() ==> crate::paths::lex_le(roots@[i]@, roots@[j]@)
                && roots@[i]@ != roots@[j]@),
{
    crate::db::list_roots(conn)
}

/// Reloads the cached scan of `root` without rescanning the disk.
pub fn load_cached_scan(conn: &rusqlite::Connection, root: &str) -> (r: Result<
    Option<ScanResult>,
    rusqlite::Error,
>)
    ensures
        r matches Ok(Some(sr)) ==> sr.root@ == root@ && crate::db::ser_sorted_by_path(sr.files@)
            && crate::sizes::al_wf(sr.folder_sizes@),
{
    crate::db::get_scan_result(conn, root)
}

} // verus!
