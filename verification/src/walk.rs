//! The tree walkers: a sequential and a parallel strategy that enumerate
//! regular files under a root, and the progress notifications a scan emits.
//!
//! What a walk returns depends on the disk, so nothing is promised of the
//! raw file list; everything computed from it is verified downstream.

use vstd::prelude::*;
use crate::{FileEntry, FileKey, ScanProgress};
use crate::agg::{aggregate_folder_sizes, total_size};

verus! {

/// A progress sink together with the running count of discovered files.
/// The walkers hand every file they find to [`ProgressMeter::on_file`] as
/// it is discovered, so notifications reach the sink during the walk.
pub struct ProgressMeter<F> {
    pub sink: F,
    pub count: u64,
}

impl<F: Fn(ScanProgress)> ProgressMeter<F> {
    /// Counts one discovered file and, at every two-hundredth, hands the
    /// sink the running count and that file's path.
    pub fn on_file(&mut self, path: &str)
        requires
            forall|p: ScanProgress| old(self).sink.requires((p,)),
        ensures
            final(self).sink == old(self).sink,
            final(self).count == if old(self).count < u64::MAX {
                old(self).count + 1
            } else {
                old(self).count as int
            },
    {
        if self.count < u64::MAX {
            self.count = self.count + 1;
        }
        if self.count % 200 == 0 {
            (self.sink)(
                ScanProgress {
                    files_count: self.count,
                    current_path: Some(path.to_owned()),
                    status: None,
                },
            );
        }
    }

    /// Hands the sink one notification built from the given fields.
    pub fn notify(&self, files_count: u64, current_path: Option<String>, status: Option<String>)
        requires
            forall|p: ScanProgress| self.sink.requires((p,)),
    {
        (self.sink)(ScanProgress { files_count, current_path, status });
    }
}

/// Relies on walkdir's `WalkDir`: depth-first enumeration of regular files
/// under `root`, never following symbolic links, silently skipping entries
/// that error; and on rustix's `stat` for each file's device and inode.
/// Calls `meter.on_file` once per discovered file, in discovery order, and
/// is trusted to leave the meter's sink in place.
#[verifier::external_body]
fn walk_files_sequential<F: Fn(ScanProgress)>(root: &str, meter: &mut ProgressMeter<F>) -> (r:
    Vec<FileEntry>)
    requires
        forall|p: ScanProgress| old(meter).sink.requires((p,)),
    ensures
        final(meter).sink == old(meter).sink,
{
    walkdir::WalkDir::new(root)
        .follow_links(false)
        .into_iter()
        .filter_entry(|e| !e.path_is_symlink())
        .filter_map(|e| e.ok())
        .filter(|e| e.file_type().is_file())
        .filter_map(|e| {
            let path = e.path().to_string_lossy().to_string();
            let size = e.metadata().ok()?.len();
            let st = rustix::fs::stat(e.path()).ok()?;
            meter.on_file(&path);
            Some((path, size, FileKey { dev: st.st_dev as u64, ino: st.st_ino as u64 }))
        })
        .collect()
}

/// Relies on jwalk's `WalkDir`: the same enumeration contract as the
/// sequential walk, with directory listing spread over a worker pool; and
/// on rustix's `stat` for each file's device and inode. `None` when the
/// walk cannot be started. Calls `meter.on_file` once per discovered file
/// and is trusted to leave the meter's sink in place.
#[verifier::external_body]
pub(crate) fn walk_files_parallel<F: Fn(ScanProgress)>(root: &str, meter: &mut ProgressMeter<F>) -> (r:
    Option<Vec<FileEntry>>)
    requires
        forall|p: ScanProgress| old(meter).sink.requires((p,)),
    ensures
        final(meter).sink == old(meter).sink,
{
    let walk = match jwalk::WalkDir::new(root).follow_links(false).try_into_iter() {
        Ok(w) => w,
        Err(_) => return None,
    };
    let entries = walk.filter_map(|e| e.ok()).filter(|e| !e.path_is_symlink() && e.file_type().is_file());
    Some(entries.filter_map(|e| {
        let path = e.path().to_string_lossy().to_string();
        let size = e.metadata().ok()?.len();
        let st = rustix::fs::stat(&e.path()).ok()?;
        meter.on_file(&path);
        Some((path, size, FileKey { dev: st.st_dev as u64, ino: st.st_ino as u64 }))
    }).collect())
}

/// Relies on walkdir: whether `path` names a directory that can be opened.
#[verifier::external_body]
pub(crate) fn is_directory(path: &str) -> (r: bool) {
    match walkdir::WalkDir::new(path).max_depth(0).into_iter().next() {
        Some(Ok(e)) => e.file_type().is_dir(),
        _ => false,
    }
}

/// The view of an optional string.
pub open spec fn opt_view(o: Option<String>) -> Option<Seq<char>> {
    match o {
        Some(s) => Some(s@),
        None => None,
    }
}

/// The plain sum of all entry sizes, or `None` when it exceeds `u64::MAX`.
pub fn total_size_checked(files: &Vec<FileEntry>) -> (r: Option<u64>)
    ensures
        match r {
            Some(v) => total_size(files@) == v,
            None => total_size(files@) > u64::MAX,
        },
{
    let n = files.len();
    let mut sum: u64 = 0;
    let mut i: usize = 0;
    while i < n
        invariant
            n == files@.len(),
            0 <= i <= n,
            sum == total_size(files@.take(i as int)),
        decreases n - i,
    {
        proof {
            assert(files@.take(i + 1).drop_last() =~= files@.take(i as int));
            assert(files@.take(i + 1).last() == files@[i as int]);
        }
        match sum.checked_add(files[i].1) {
            Some(s) => {
                sum = s;
            },
            None => {
                proof {
                    lemma_total_size_prefix_le(files@, i + 1);
                }
                return None;
            },
        }
        i = i + 1;
    }
    proof {
        assert(files@.take(n as int) =~= files@);
    }
    Some(sum)
}

proof fn lemma_total_size_prefix_le(files: Seq<FileEntry>, i: int)
    requires
        0 <= i <= files.len(),
    ensures
        total_size(files.take(i)) <= total_size(files),
    decreases files.len() - i,
{
    if i < files.len() {
        lemma_total_size_prefix_le(files, i + 1);
        assert(files.take(i + 1).drop_last() =~= files.take(i));
        assert(files.take(i + 1).last() == files[i]);
    } else {
        assert(files.take(i) =~= files);
    }
}

/// The notification sequence a sequential scan of `files` delivers, in
/// delivery order: a start marker, one milestone per two hundred files
/// carrying the running count and the latest path, the final count, and
/// the aggregation banner. [`index_directory_with_progress`] hands the
/// sink exactly this sequence, the milestones live during the walk.
pub fn progress_events(files: &Vec<FileEntry>) -> (ev: Vec<ScanProgress>)
    ensures
        ev@.len() == files@.len() / 200 + 3,
        ev@[0].files_count == 0,
        forall|k: int|
            1 <= k <= files@.len() / 200 ==> (#[trigger] ev@[k]).files_count == 200 * k
                && opt_view(ev@[k].current_path) == Some(files@[200 * k - 1].0@),
        ev@[ev@.len() - 2].files_count == files@.len(),
        ev@[ev@.len() - 1].files_count == files@.len(),
        opt_view(ev@[ev@.len() - 1].status) == Some("Computing folder sizes…"@),
        forall|k1: int, k2: int|
            0 <= k1 <= k2 < ev@.len() ==> (#[trigger] ev@[k1]).files_count <= (
            #[trigger] ev@[k2]).files_count,
{
    let n = files.len();
    let milestones = n / 200;
    let mut ev: Vec<ScanProgress> = Vec::new();
    ev.push(ScanProgress { files_count: 0, current_path: None, status: None });
    let mut k: usize = 1;
    while k <= milestones
        invariant
            n == files@.len(),
            milestones == n / 200,
            1 <= k <= milestones + 1,
            ev@.len() == k,
            ev@[0].files_count == 0,
            forall|t: int|
                1 <= t < k ==> (#[trigger] ev@[t]).files_count == 200 * t && opt_view(
                    ev@[t].current_path,
                ) == Some(files@[200 * t - 1].0@),
            forall|t1: int, t2: int|
                0 <= t1 <= t2 < k ==> (#[trigger] ev@[t1]).files_count <= (
                #[trigger] ev@[t2]).files_count,
        decreases milestones + 1 - k,
    {
        proof {
            assert(200 * (n as int / 200) <= n);
            assert(200 * k <= 200 * (n as int / 200));
        }
        let idx = k * 200 - 1;
        let p = files[idx].0.clone();
        ev.push(
            ScanProgress {
                files_count: (k * 200) as u64,
                current_path: Some(p),
                status: None,
            },
        );
        k = k + 1;
    }
    proof {
        assert(200 * (n as int / 200) <= n);
    }
    ev.push(ScanProgress { files_count: n as u64, current_path: None, status: None });
    ev.push(
        ScanProgress {
            files_count: n as u64,
            current_path: None,
            status: Some(String::from_str("Computing folder sizes…")),
        },
    );
    ev
}

/// The folder map `sizes` is the correct rollup for `files`: when the
/// plain size total fits in a machine word it records exactly the
/// recursive totals, and otherwise it is left empty.
pub open spec fn folder_sizes_match(
    root: Seq<char>,
    files: Seq<FileEntry>,
    sizes: Seq<(String, u64)>,
) -> bool {
    &&& crate::sizes::al_wf(sizes)
    &&& if total_size(files) <= u64::MAX {
        &&& forall|f: Seq<char>|
            crate::sizes::al_has(sizes, f) <==> crate::agg::folder_appears(root, files, f)
        &&& forall|f: Seq<char>|
            crate::sizes::al_get(sizes, f) == crate::agg::folder_total(root, files, f)
    } else {
        sizes.len() == 0
    }
}

/// Rolls `files` up into folder sizes after checking that the plain size
/// total fits in a machine word; an overflowing tree yields an empty map.
pub fn compute_folder_sizes(root: &str, files: &Vec<FileEntry>) -> (r: Vec<(String, u64)>)
    ensures
        folder_sizes_match(root@, files@, r@),
{
    match total_size_checked(files) {
        Some(_) => aggregate_folder_sizes(root, files),
        None => Vec::new(),
    }
}

/// Scans `root` with the sequential walker and rolls the result up.
pub fn index_directory(root: &str) -> (out: (Vec<FileEntry>, Vec<(String, u64)>))
    ensures
        folder_sizes_match(root@, out.0@, out.1@),
{
    index_directory_with_progress(root, |_p: ScanProgress| {})
}

/// Scans `root` with the sequential walker. The sink is handed the start
/// marker, one milestone per two hundred files during the walk, the final
/// count, and the aggregation banner, in that order.
pub fn index_directory_with_progress<F: Fn(ScanProgress)>(root: &str, progress: F) -> (out: (
    Vec<FileEntry>,
    Vec<(String, u64)>,
))
    requires
        forall|p: ScanProgress| progress.requires((p,)),
    ensures
        folder_sizes_match(root@, out.0@, out.1@),
{
    progress(ScanProgress { files_count: 0, current_path: None, status: None });
    let mut meter = ProgressMeter { sink: progress, count: 0u64 };
    let files = walk_files_sequential(root, &mut meter);
    let n = #[verifier::truncate] (files.len() as u64);
    meter.notify(n, None, None);
    meter.notify(n, None, Some(String::from_str("Computing folder sizes…")));
    let folder_sizes = compute_folder_sizes(root, &files);
    (files, folder_sizes)
}

/// Scans `root` with the parallel walker, delivering the same notification
/// sequence as the sequential scan, opened by a scanning banner; a walk
/// that cannot start is reported through the sink and yields an empty
/// outcome.
pub fn index_directory_parallel_with_progress<F: Fn(ScanProgress)>(root: &str, progress: F) -> (out:
    (Vec<FileEntry>, Vec<(String, u64)>))
    requires
        forall|p: ScanProgress| progress.requires((p,)),
    ensures
        folder_sizes_match(root@, out.0@, out.1@),
{
    progress(
        ScanProgress {
            files_count: 0,
            current_path: None,
            status: Some(String::from_str("Scanning files…")),
        },
    );
    let mut meter = ProgressMeter { sink: progress, count: 0u64 };
    let files = match walk_files_parallel(root, &mut meter) {
        Some(f) => f,
        None => {
            meter.notify(0, None, Some(String::from_str("Scan failed (try_into_iter)")));
            let no_files: Vec<FileEntry> = Vec::new();
            let no_sizes: Vec<(String, u64)> = Vec::new();
            return (no_files, no_sizes);
        },
    };
    let n = #[verifier::truncate] (files.len() as u64);
    meter.notify(n, None, None);
    meter.notify(n, None, Some(String::from_str("Computing folder sizes…")));
    let folder_sizes = compute_folder_sizes(root, &files);
    (files, folder_sizes)
}

/// For a scan of more than two hundred files, the delivered notification
/// sequence holds at least one count that is a nonzero multiple of two
/// hundred, and closes with the full file count.
pub proof fn lemma_progress_milestones(ev: Seq<ScanProgress>, n: nat)
    requires
        n > 200,
        ev.len() == n / 200 + 3,
        forall|k: int| 1 <= k <= n / 200 ==> (#[trigger] ev[k]).files_count == 200 * k,
        ev[ev.len() - 1].files_count == n,
    ensures
        exists|i: int|
            0 <= i < ev.len() && (#[trigger] ev[i]).files_count > 0 && ev[i].files_count % 200
                == 0,
        ev[ev.len() - 1].files_count == n,
{
    assert(n / 200 >= 1);
    assert(ev[1].files_count == 200);
}

} // verus!
