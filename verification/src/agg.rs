//! The aggregator: folds a raw file list into recursive folder sizes,
//! counting each distinct file identity once.

use vstd::prelude::*;
use crate::{FileEntry, FileKey};
use crate::paths::{
    descends_from, is_ancestor_of, path_ancestors, spec_ancestors, str_descends, str_eq,
};
use crate::sizes::{al_get, al_has, al_map, al_wf, fs_add, lemma_al_dom};

verus! {

/// Some entry of `files` carries the identity key `k`.
pub open spec fn has_key(files: Seq<FileEntry>, k: FileKey) -> bool {
    exists|j: int| 0 <= j < files.len() && files[j].2 == k
}

/// A file at `path` counts toward `folder`: only a file inside the scan
/// root counts at all, toward the root itself and toward each of the
/// file's own ancestor directories that lies inside the root. Containment
/// is compared at path-segment boundaries, so a sibling root that merely
/// shares a character prefix (`/data` beside `/data2`) is never credited.
pub open spec fn credits(root: Seq<char>, folder: Seq<char>, path: Seq<char>) -> bool {
    descends_from(path, root) && (folder == root || (folder != root && is_ancestor_of(folder, path)
        && descends_from(folder, root)))
}

/// The recursive size of `folder`: the sum of sizes of entries whose key
/// appears for the first time at their position and whose path counts
/// toward `folder`.
pub open spec fn folder_total(root: Seq<char>, files: Seq<FileEntry>, folder: Seq<char>) -> int
    decreases files.len(),
{
    if files.len() == 0 {
        0
    } else {
        folder_total(root, files.drop_last(), folder) + if !has_key(
            files.drop_last(),
            files.last().2,
        ) && credits(root, folder, files.last().0@) {
            files.last().1 as int
        } else {
            0
        }
    }
}

/// Whether any first-seen entry of `files` counts toward `folder`.
pub open spec fn folder_appears(root: Seq<char>, files: Seq<FileEntry>, folder: Seq<char>) -> bool
    decreases files.len(),
{
    if files.len() == 0 {
        false
    } else {
        folder_appears(root, files.drop_last(), folder) || (!has_key(
            files.drop_last(),
            files.last().2,
        ) && credits(root, folder, files.last().0@))
    }
}

/// The plain sum of all entry sizes, duplicates included.
pub open spec fn total_size(files: Seq<FileEntry>) -> int
    decreases files.len(),
{
    if files.len() == 0 {
        0
    } else {
        total_size(files.drop_last()) + files.last().1 as int
    }
}

pub proof fn lemma_folder_total_bounds(root: Seq<char>, files: Seq<FileEntry>, folder: Seq<char>)
    ensures
        0 <= folder_total(root, files, folder) <= total_size(files),
    decreases files.len(),
{
    if files.len() > 0 {
        lemma_folder_total_bounds(root, files.drop_last(), folder);
    }
}

proof fn lemma_total_size_take_le(files: Seq<FileEntry>, i: int)
    requires
        0 <= i <= files.len(),
    ensures
        total_size(files.take(i)) <= total_size(files),
    decreases files.len() - i,
{
    if i < files.len() {
        lemma_total_size_take_le(files, i + 1);
        assert(files.take(i + 1).drop_last() =~= files.take(i));
        assert(files.take(i + 1).last() == files[i]);
    } else {
        assert(files.take(i) =~= files);
    }
}

proof fn lemma_ancestors_shorter(p: Seq<char>)
    ensures
        forall|t: int|
            0 <= t < spec_ancestors(p).len() ==> (#[trigger] spec_ancestors(p)[t]).len() < p.len(),
    decreases p.len(),
{
    match crate::paths::spec_parent(p) {
        None => {},
        Some(q) => {
            lemma_ancestors_shorter(q);
            assert forall|t: int|
                0 <= t < spec_ancestors(p).len() implies (#[trigger] spec_ancestors(p)[t]).len()
                < p.len() by {
                if t > 0 {
                    assert(spec_ancestors(p)[t] == spec_ancestors(q)[t - 1]);
                }
            }
        },
    }
}

proof fn lemma_ancestors_distinct(p: Seq<char>)
    ensures
        forall|t1: int, t2: int|
            0 <= t1 < t2 < spec_ancestors(p).len() ==> spec_ancestors(p)[t1] != spec_ancestors(
                p,
            )[t2],
    decreases p.len(),
{
    match crate::paths::spec_parent(p) {
        None => {},
        Some(q) => {
            lemma_ancestors_shorter(q);
            lemma_ancestors_distinct(q);
            assert forall|t1: int, t2: int|
                0 <= t1 < t2 < spec_ancestors(p).len() implies spec_ancestors(p)[t1]
                != spec_ancestors(p)[t2] by {
                if t1 == 0 {
                    assert(spec_ancestors(p)[t2] == spec_ancestors(q)[t2 - 1]);
                    assert(spec_ancestors(q)[t2 - 1].len() < q.len());
                } else {
                    assert(spec_ancestors(p)[t1] == spec_ancestors(q)[t1 - 1]);
                    assert(spec_ancestors(p)[t2] == spec_ancestors(q)[t2 - 1]);
                }
            }
        },
    }
}

fn key_seen(seen: &Vec<FileKey>, k: &FileKey) -> (r: bool)
    ensures
        r == seen@.contains(*k),
{
    let n = seen.len();
    let mut i: usize = 0;
    while i < n
        invariant
            n == seen@.len(),
            0 <= i <= n,
            forall|t: int| 0 <= t < i ==> seen@[t] != *k,
        decreases n - i,
    {
        if seen[i].dev == k.dev && seen[i].ino == k.ino {
            assert(seen@[i as int] == *k);
            return true;
        }
        i = i + 1;
    }
    false
}

/// The accumulator matches the folder totals of the first `i` entries.
pub open spec fn agg_inv(acc: Seq<(String, u64)>, root: Seq<char>, files: Seq<FileEntry>) -> bool {
    &&& al_wf(acc)
    &&& forall|f: Seq<char>| al_has(acc, f) <==> folder_appears(root, files, f)
    &&& forall|f: Seq<char>| al_get(acc, f) == folder_total(root, files, f)
}

/// `f` is among the first `j` ancestors of `path`, lies strictly inside
/// the root, and so has been credited by the ancestor walk.
pub open spec fn credited_by(path: Seq<char>, root: Seq<char>, f: Seq<char>, j: int) -> bool {
    exists|t: int|
        0 <= t < j && spec_ancestors(path)[t] == f && f != root && descends_from(f, root)
}

/// Mid-walk state: the first `j` qualifying ancestors and the root have
/// each been credited with `size` on top of the prior accumulator.
pub open spec fn walk_inv(
    acc: Seq<(String, u64)>,
    acc0: Seq<(String, u64)>,
    path: Seq<char>,
    root: Seq<char>,
    size: int,
    j: int,
) -> bool {
    &&& al_wf(acc)
    &&& forall|f: Seq<char>|
        al_has(acc, f) <==> (al_has(acc0, f) || f == root || credited_by(path, root, f, j))
    &&& forall|f: Seq<char>|
        al_get(acc, f) == al_get(acc0, f) + if (f == root || credited_by(path, root, f, j)) {
            size
        } else {
            0
        }
}

/// Rolls the raw file list up into the recursive size of the root and of
/// every ancestor directory below it, counting each identity key once.
#[verifier::rlimit(60)]
pub fn aggregate_folder_sizes(root: &str, files: &Vec<FileEntry>) -> (r: Vec<(String, u64)>)
    requires
        total_size(files@) <= u64::MAX,
    ensures
        al_wf(r@),
        forall|f: Seq<char>| al_has(r@, f) <==> folder_appears(root@, files@, f),
        forall|f: Seq<char>| al_get(r@, f) == folder_total(root@, files@, f),
{
    let n = files.len();
    let mut seen: Vec<FileKey> = Vec::new();
    let mut acc: Vec<(String, u64)> = Vec::new();
    proof {
        assert(files@.take(0) =~= Seq::<FileEntry>::empty());
    }
    let mut i: usize = 0;
    while i < n
        invariant
            n == files@.len(),
            0 <= i <= n,
            total_size(files@) <= u64::MAX,
            forall|k: FileKey| seen@.contains(k) <==> has_key(files@.take(i as int), k),
            agg_inv(acc@, root@, files@.take(i as int)),
        decreases n - i,
    {
        let ghost take_i = files@.take(i as int);
        let ghost take_i1 = files@.take(i + 1);
        proof {
            assert(take_i1.drop_last() =~= take_i);
            assert(take_i1.last() == files@[i as int]);
        }
        let entry = &files[i];
        let size = entry.1;
        if !key_seen(&seen, &entry.2) {
            let ghost seen0 = seen@;
            seen.push(entry.2);
            proof {
                assert forall|k: FileKey| seen@.contains(k) <==> has_key(take_i1, k) by {
                    if seen@.contains(k) {
                        let t = choose|t: int| 0 <= t < seen@.len() && seen@[t] == k;
                        if t < seen0.len() {
                            assert(seen0[t] == k);
                            assert(seen0.contains(k));
                            assert(has_key(take_i, k));
                            let u = choose|u: int| 0 <= u < take_i.len() && take_i[u].2 == k;
                            assert(take_i1[u].2 == k);
                        } else {
                            assert(take_i1[take_i1.len() - 1].2 == k);
                        }
                    }
                    if has_key(take_i1, k) {
                        let u = choose|u: int| 0 <= u < take_i1.len() && take_i1[u].2 == k;
                        if u < take_i1.len() - 1 {
                            assert(take_i[u].2 == k);
                            assert(seen0.contains(k));
                            let t = choose|t: int| 0 <= t < seen0.len() && seen0[t] == k;
                            assert(seen@[t] == k);
                        } else {
                            assert(seen@[seen@.len() - 1] == k);
                        }
                    }
                }
                lemma_total_size_take_le(files@, i + 1);
            }
            let ghost acc0 = acc@;
            if !str_descends(entry.0.as_str(), root) {
                proof {
                    assert(agg_inv(acc@, root@, take_i));
                    assert forall|f: Seq<char>|
                        al_get(acc@, f) == folder_total(root@, take_i1, f) by {
                        assert(!credits(root@, f, files@[i as int].0@));
                        assert(folder_total(root@, take_i1, f) == folder_total(root@, take_i, f));
                    }
                    assert forall|f: Seq<char>|
                        al_has(acc@, f) <==> folder_appears(root@, take_i1, f) by {
                        assert(!credits(root@, f, files@[i as int].0@));
                        assert(folder_appears(root@, take_i1, f) == folder_appears(
                            root@,
                            take_i,
                            f,
                        ));
                    }
                    assert(agg_inv(acc@, root@, take_i1));
                }
                i = i + 1;
                continue ;
            }
            proof {
                assert(descends_from(files@[i as int].0@, root@));
                assert(credits(root@, root@, files@[i as int].0@));
                lemma_folder_total_bounds(root@, take_i1, root@);
                assert(folder_total(root@, take_i1, root@) == folder_total(root@, take_i, root@)
                    + size);
            }
            fs_add(&mut acc, root, size);
            let ancs = path_ancestors(entry.0.as_str());
            let m = ancs.len();
            let ghost path = files@[i as int].0@;
            proof {
                lemma_ancestors_distinct(path);
                assert forall|f: Seq<char>|
                    al_has(acc@, f) <==> (al_has(acc0, f) || f == root@ || credited_by(
                        path,
                        root@,
                        f,
                        0,
                    )) by {}
                assert(walk_inv(acc@, acc0, path, root@, size as int, 0));
            }
            let mut j: usize = 0;
            while j < m
                invariant
                    n == files@.len(),
                    0 <= i < n,
                    total_size(files@) <= u64::MAX,
                    take_i == files@.take(i as int),
                    take_i1 == files@.take(i + 1),
                    take_i1.drop_last() == take_i,
                    take_i1.last() == files@[i as int],
                    path == files@[i as int].0@,
                    size == files@[i as int].1,
                    descends_from(path, root@),
                    !has_key(take_i, files@[i as int].2),
                    m == ancs@.len(),
                    0 <= j <= m,
                    m == spec_ancestors(path).len(),
                    forall|t: int| 0 <= t < m ==> ancs@[t]@ == spec_ancestors(path)[t],
                    forall|t1: int, t2: int|
                        0 <= t1 < t2 < m ==> spec_ancestors(path)[t1] != spec_ancestors(path)[t2],
                    agg_inv(acc0, root@, take_i),
                    walk_inv(acc@, acc0, path, root@, size as int, j as int),
                decreases m - j,
            {
                let a = &ancs[j];
                if !str_eq(a.as_str(), root) && str_descends(a.as_str(), root) {
                    proof {
                        assert(a@ == spec_ancestors(path)[j as int]);
                        if credited_by(path, root@, a@, j as int) {
                            let t = choose|t: int|
                                0 <= t < j && spec_ancestors(path)[t] == a@ && a@ != root@
                                    && descends_from(a@, root@);
                            assert(spec_ancestors(path)[t] != spec_ancestors(path)[j as int]);
                            assert(false);
                        }
                        assert(spec_ancestors(path).contains(a@)) by {
                            assert(spec_ancestors(path)[j as int] == a@);
                        }
                        assert(credits(root@, a@, path));
                        lemma_folder_total_bounds(root@, take_i1, a@);
                        assert(folder_total(root@, take_i1, a@) == folder_total(root@, take_i, a@)
                            + size);
                        lemma_total_size_take_le(files@, i + 1);
                        assert(al_get(acc@, a@) == al_get(acc0, a@) + 0);
                        assert(al_get(acc0, a@) == folder_total(root@, take_i, a@));
                    }
                    let ghost acc_before = acc@;
                    fs_add(&mut acc, a.as_str(), size);
                    proof {
                        assert forall|f: Seq<char>|
                            al_get(acc@, f) == al_get(acc0, f) + (if (f == root@ || credited_by(
                                path,
                                root@,
                                f,
                                j as int + 1,
                            )) {
                                size as int
                            } else {
                                0
                            }) by {
                            if f == a@ {
                                assert(credited_by(path, root@, f, j as int + 1));
                            } else {
                                assert(al_get(acc@, f) == al_get(acc_before, f));
                                if credited_by(path, root@, f, j as int + 1) {
                                    let t = choose|t: int|
                                        0 <= t < j + 1 && spec_ancestors(path)[t] == f && f
                                            != root@ && descends_from(f, root@);
                                    assert(t < j);
                                    assert(credited_by(path, root@, f, j as int));
                                } else if credited_by(path, root@, f, j as int) {
                                    let t = choose|t: int|
                                        0 <= t < j && spec_ancestors(path)[t] == f && f != root@
                                            && descends_from(f, root@);
                                    assert(credited_by(path, root@, f, j as int + 1));
                                    assert(false);
                                }
                            }
                        }
                        assert forall|f: Seq<char>|
                            al_has(acc@, f) <==> (al_has(acc0, f) || f == root@ || credited_by(
                                path,
                                root@,
                                f,
                                j as int + 1,
                            )) by {
                            if f == a@ {
                                assert(credited_by(path, root@, f, j as int + 1));
                                assert(al_has(acc@, f));
                            } else {
                                assert(al_has(acc@, f) == al_has(acc_before, f));
                                if credited_by(path, root@, f, j as int + 1) {
                                    let t = choose|t: int|
                                        0 <= t < j + 1 && spec_ancestors(path)[t] == f && f
                                            != root@ && descends_from(f, root@);
                                    assert(t < j);
                                    assert(credited_by(path, root@, f, j as int));
                                } else if credited_by(path, root@, f, j as int) {
                                    let t = choose|t: int|
                                        0 <= t < j && spec_ancestors(path)[t] == f && f != root@
                                            && descends_from(f, root@);
                                    assert(credited_by(path, root@, f, j as int + 1));
                                    assert(false);
                                }
                            }
                        }
                        assert(walk_inv(acc@, acc0, path, root@, size as int, j as int + 1));
                    }
                } else {
                    proof {
                        assert forall|f: Seq<char>|
                            credited_by(path, root@, f, j as int + 1) == credited_by(
                                path,
                                root@,
                                f,
                                j as int,
                            ) by {
                            if credited_by(path, root@, f, j as int + 1) && !credited_by(
                                path,
                                root@,
                                f,
                                j as int,
                            ) {
                                let t = choose|t: int|
                                    0 <= t < j + 1 && spec_ancestors(path)[t] == f && f != root@
                                        && descends_from(f, root@);
                                assert(t == j);
                                assert(f == spec_ancestors(path)[j as int]);
                                assert(f == ancs@[j as int]@);
                                assert(false);
                            }
                            if credited_by(path, root@, f, j as int) {
                                let t = choose|t: int|
                                    0 <= t < j && spec_ancestors(path)[t] == f && f != root@
                                        && descends_from(f, root@);
                                assert(credited_by(path, root@, f, j as int + 1));
                            }
                        }
                        assert(walk_inv(acc@, acc0, path, root@, size as int, j as int + 1));
                    }
                }
                j = j + 1;
            }
            proof {
                assert forall|f: Seq<char>|
                    (f == root@ || credited_by(path, root@, f, m as int)) == credits(
                        root@,
                        f,
                        path,
                    ) by {
                    if credited_by(path, root@, f, m as int) {
                        let t = choose|t: int|
                            0 <= t < m && spec_ancestors(path)[t] == f && f != root@ && descends_from(
                                f,
                                root@,
                            );
                        assert(spec_ancestors(path).contains(f));
                    }
                    if credits(root@, f, path) && f != root@ {
                        let t = choose|t: int|
                            0 <= t < spec_ancestors(path).len() && spec_ancestors(path)[t] == f;
                        assert(credited_by(path, root@, f, m as int));
                    }
                }
                assert forall|f: Seq<char>| al_get(acc@, f) == folder_total(root@, take_i1, f) by {
                    assert(al_get(acc@, f) == al_get(acc0, f) + if (f == root@ || credited_by(
                        path,
                        root@,
                        f,
                        m as int,
                    )) {
                        size as int
                    } else {
                        0
                    });
                    assert(al_get(acc0, f) == folder_total(root@, take_i, f));
                    assert(folder_total(root@, take_i1, f) == folder_total(root@, take_i, f) + if credits(
                        root@,
                        f,
                        path,
                    ) {
                        size as int
                    } else {
                        0
                    });
                }
                assert forall|f: Seq<char>|
                    al_has(acc@, f) <==> folder_appears(root@, take_i1, f) by {
                    assert(al_has(acc@, f) <==> (al_has(acc0, f) || f == root@ || credited_by(
                        path,
                        root@,
                        f,
                        m as int,
                    )));
                    assert(al_has(acc0, f) <==> folder_appears(root@, take_i, f));
                    assert(folder_appears(root@, take_i1, f) == (folder_appears(root@, take_i, f)
                        || credits(root@, f, path)));
                }
                assert(agg_inv(acc@, root@, take_i1));
            }
        } else {
            proof {
                assert(has_key(take_i, files@[i as int].2));
                assert forall|k: FileKey| seen@.contains(k) <==> has_key(take_i1, k) by {
                    if has_key(take_i1, k) {
                        let t = choose|t: int| 0 <= t < take_i1.len() && take_i1[t].2 == k;
                        if t < take_i1.len() - 1 {
                            assert(take_i[t].2 == k);
                        } else {
                            assert(take_i1[t] == files@[i as int]);
                        }
                    }
                }
                assert forall|f: Seq<char>| al_get(acc@, f) == folder_total(root@, take_i1, f) by {
                    assert(al_get(acc@, f) == folder_total(root@, take_i, f));
                    assert(folder_total(root@, take_i1, f) == folder_total(root@, take_i, f));
                }
                assert forall|f: Seq<char>|
                    al_has(acc@, f) <==> folder_appears(root@, take_i1, f) by {
                    assert(al_has(acc@, f) <==> folder_appears(root@, take_i, f));
                    assert(folder_appears(root@, take_i1, f) == folder_appears(root@, take_i, f));
                }
                assert(agg_inv(acc@, root@, take_i1));
            }
        }
        i = i + 1;
    }
    proof {
        assert(files@.take(n as int) =~= files@);
    }
    acc
}

/// With no hard links anywhere in the list, and every entry lying inside
/// the root, the root's recursive size is exactly the sum of all file
/// sizes discovered.
pub proof fn lemma_unique_keys_root_total(root: Seq<char>, files: Seq<FileEntry>)
    requires
        forall|i: int, j: int| 0 <= i < j < files.len() ==> files[i].2 != files[j].2,
        forall|i: int| 0 <= i < files.len() ==> descends_from((#[trigger] files[i]).0@, root),
    ensures
        folder_total(root, files, root) == total_size(files),
    decreases files.len(),
{
    if files.len() > 0 {
        assert forall|i: int, j: int|
            0 <= i < j < files.drop_last().len() implies files.drop_last()[i].2
            != files.drop_last()[j].2 by {
            assert(files.drop_last()[i] == files[i]);
            assert(files.drop_last()[j] == files[j]);
        }
        assert forall|i: int|
            0 <= i < files.drop_last().len() implies descends_from(
            (#[trigger] files.drop_last()[i]).0@,
            root,
        ) by {
            assert(files.drop_last()[i] == files[i]);
        }
        assert(descends_from(files[files.len() - 1].0@, root));
        assert(credits(root, root, files.last().0@));
        lemma_unique_keys_root_total(root, files.drop_last());
        assert(!has_key(files.drop_last(), files.last().2)) by {
            if has_key(files.drop_last(), files.last().2) {
                let t = choose|t: int|
                    0 <= t < files.drop_last().len() && files.drop_last()[t].2 == files.last().2;
                assert(files[t].2 == files[files.len() - 1].2);
            }
        }
    }
}

/// An entry whose identity key already occurs in the list adds nothing to
/// any folder's recursive size: hard links are counted once.
pub proof fn lemma_duplicate_key_adds_nothing(
    root: Seq<char>,
    files: Seq<FileEntry>,
    e: FileEntry,
    folder: Seq<char>,
)
    requires
        has_key(files, e.2),
    ensures
        folder_total(root, files.push(e), folder) == folder_total(root, files, folder),
{
    assert(files.push(e).drop_last() =~= files);
    assert(files.push(e).last() == e);
}

} // verus!
