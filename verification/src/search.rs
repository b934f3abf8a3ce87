//! The search index: substring pre-filtering and fuzzy ranking over a
//! root's cached paths, with an optional extension allowlist.

use vstd::prelude::*;
use crate::FileEntrySer;
use crate::db::ser_sorted_by_path;
use crate::paths::{
    ascii_lower, contains_sub, lex_le, spec_ascii_lower, spec_contains, spec_extension,
    spec_split, spec_trim, split_char, str_eq, strs_view, trim_str,
};

verus! {

broadcast use vstd::seq_lib::group_filter_ensures;

/// `s` with every leading `'.'` removed.
pub open spec fn strip_dots(s: Seq<char>) -> Seq<char>
    decreases s.len(),
{
    if s.len() > 0 && s[0] == '.' {
        strip_dots(s.drop_first())
    } else {
        s
    }
}

/// One allowlist token in canonical form: trimmed, leading dots removed,
/// ASCII-lowercased.
pub open spec fn clean_token(s: Seq<char>) -> Seq<char> {
    spec_ascii_lower(strip_dots(spec_trim(s)))
}

/// The canonical allowlist an extension filter string stands for: its
/// comma-separated pieces, each in canonical form, empties dropped.
pub open spec fn spec_clean_exts(s: Seq<char>) -> Seq<Seq<char>> {
    spec_split(s, ',').map_values(|p: Seq<char>| clean_token(p)).filter(
        |t: Seq<char>| t.len() > 0,
    )
}

fn strip_dots_exec(s: &str) -> (r: String)
    ensures
        r@ == strip_dots(s@),
{
    let n = s.unicode_len();
    let mut d: usize = 0;
    proof {
        assert(s@.skip(0) =~= s@);
    }
    while d < n && s.get_char(d) == '.'
        invariant
            n == s@.len(),
            0 <= d <= n,
            strip_dots(s@) == strip_dots(s@.skip(d as int)),
        decreases n - d,
    {
        proof {
            assert(s@.skip(d as int).drop_first() =~= s@.skip(d + 1));
        }
        d = d + 1;
    }
    proof {
        assert(strip_dots(s@.skip(d as int)) == s@.skip(d as int));
        assert(s@.subrange(d as int, n as int) =~= s@.skip(d as int));
    }
    s.substring_char(d, n).to_owned()
}

/// Parses a comma-separated extension filter into its canonical
/// allowlist: each piece trimmed, stripped of leading dots and lowercased,
/// with empty pieces dropped.
pub fn clean_extensions(exts: &str) -> (r: Vec<String>)
    ensures
        strs_view(r@) == spec_clean_exts(exts@),
{
    let pieces = split_char(exts, ',');
    let n = pieces.len();
    let mut r: Vec<String> = Vec::new();
    proof {
        reveal(Seq::filter);
        assert(spec_split(exts@, ',').take(0) =~= Seq::<Seq<char>>::empty());
        assert(strs_view(r@) =~= spec_split(exts@, ',').take(0).map_values(
            |p: Seq<char>| clean_token(p),
        ).filter(|t: Seq<char>| t.len() > 0));
    }
    let mut k: usize = 0;
    while k < n
        invariant
            n == pieces@.len(),
            n == spec_split(exts@, ',').len(),
            forall|t: int| 0 <= t < n ==> pieces@[t]@ == spec_split(exts@, ',')[t],
            0 <= k <= n,
            strs_view(r@) == spec_split(exts@, ',').take(k as int).map_values(
                |p: Seq<char>| clean_token(p),
            ).filter(|t: Seq<char>| t.len() > 0),
        decreases n - k,
    {
        let ghost r0 = r@;
        let trimmed = trim_str(pieces[k].as_str());
        let stripped = strip_dots_exec(trimmed.as_str());
        let lowered = ascii_lower(stripped.as_str());
        proof {
            assert(lowered@ == clean_token(pieces@[k as int]@));
        }
        if lowered.as_str().unicode_len() > 0 {
            r.push(lowered);
        }
        proof {
            reveal(Seq::filter);
            let split = spec_split(exts@, ',');
            let mapped = split.take(k as int).map_values(|p: Seq<char>| clean_token(p));
            let mapped1 = split.take(k + 1).map_values(|p: Seq<char>| clean_token(p));
            assert(split.take(k + 1).drop_last() =~= split.take(k as int));
            assert(mapped1.drop_last() =~= mapped);
            assert(mapped1.last() == clean_token(split[k as int]));
            assert(mapped1 =~= mapped.push(clean_token(split[k as int])));
            if clean_token(split[k as int]).len() > 0 {
                assert(strs_view(r@) =~= strs_view(r0).push(
                    clean_token(split[k as int]),
                ));
                assert(mapped1.filter(|t: Seq<char>| t.len() > 0) =~= mapped.filter(
                    |t: Seq<char>| t.len() > 0,
                ).push(clean_token(split[k as int])));
            } else {
                assert(mapped1.filter(|t: Seq<char>| t.len() > 0) =~= mapped.filter(
                    |t: Seq<char>| t.len() > 0,
                ));
            }
        }
        k = k + 1;
    }
    proof {
        assert(spec_split(exts@, ',').take(n as int) =~= spec_split(exts@, ','));
    }
    r
}

/// The extension of `p`, lowercased, is in the allowlist.
pub open spec fn ext_in_list(p: Seq<char>, list: Seq<Seq<char>>) -> bool {
    match spec_extension(p) {
        Some(e) => list.contains(spec_ascii_lower(e)),
        None => false,
    }
}

fn ext_matches(path: &str, cleaned: &Vec<String>) -> (r: bool)
    ensures
        r == ext_in_list(path@, strs_view(cleaned@)),
{
    let ghost list = strs_view(cleaned@);
    match crate::paths::extension_of(path) {
        None => false,
        Some(e) => {
            let le = ascii_lower(e.as_str());
            let n = cleaned.len();
            let mut k: usize = 0;
            while k < n
                invariant
                    n == cleaned@.len(),
                    0 <= k <= n,
                    spec_extension(path@) is Some,
                    le@ == spec_ascii_lower(spec_extension(path@).unwrap()),
                    list == strs_view(cleaned@),
                    forall|t: int| 0 <= t < k ==> cleaned@[t]@ != le@,
                decreases n - k,
            {
                if str_eq(cleaned[k].as_str(), le.as_str()) {
                    proof {
                        assert(list[k as int] == le@);
                        assert(list.contains(le@));
                    }
                    return true;
                }
                k = k + 1;
            }
            proof {
                if list.contains(le@) {
                    let t = choose|t: int| 0 <= t < list.len() && list[t] == le@;
                    assert(cleaned@[t]@ == le@);
                }
            }
            false
        },
    }
}

/// The record predicate an allowlist induces.
pub open spec fn ext_pred(list: Seq<Seq<char>>) -> spec_fn(FileEntrySer) -> bool {
    |e: FileEntrySer| ext_in_list(e.path@, list)
}

/// Keeps the records whose lowercased extension is in the allowlist.
fn filter_by_ext(rows: Vec<FileEntrySer>, cleaned: &Vec<String>) -> (r: Vec<FileEntrySer>)
    ensures
        r@ == rows@.filter(ext_pred(strs_view(cleaned@))),
{
    let ghost pred = ext_pred(strs_view(cleaned@));
    let n = rows.len();
    let mut r: Vec<FileEntrySer> = Vec::new();
    proof {
        reveal(Seq::filter);
        assert(rows@.take(0) =~= Seq::<FileEntrySer>::empty());
        assert(r@ =~= rows@.take(0).filter(pred));
    }
    let mut i: usize = 0;
    while i < n
        invariant
            n == rows@.len(),
            0 <= i <= n,
            pred == ext_pred(strs_view(cleaned@)),
            r@ == rows@.take(i as int).filter(pred),
        decreases n - i,
    {
        let ghost r0 = r@;
        proof {
            reveal(Seq::filter);
            assert(rows@.take(i + 1).drop_last() =~= rows@.take(i as int));
            assert(rows@.take(i + 1).last() == rows@[i as int]);
        }
        let keep = ext_matches(rows[i].path.as_str(), cleaned);
        proof {
            let e = rows@[i as int];
            assert(pred(e) == ext_in_list(e.path@, strs_view(cleaned@)));
        }
        if keep {
            r.push(rows[i].clone_record());
            proof {
                reveal(Seq::filter);
                assert(pred(rows@[i as int]));
                assert(r@ =~= rows@.take(i + 1).filter(pred));
            }
        } else {
            proof {
                reveal(Seq::filter);
                assert(!pred(rows@[i as int]));
                assert(r@ =~= rows@.take(i + 1).filter(pred));
            }
        }
        i = i + 1;
    }
    proof {
        assert(rows@.take(n as int) =~= rows@);
    }
    r
}

/// What Unicode lowercasing returns: a function of the characters alone.
pub uninterp spec fn lower_of(s: Seq<char>) -> Seq<char>;

/// Relies on `str::to_lowercase`: the Unicode-lowercased text, which
/// depends on the input characters alone.
#[verifier::external_body]
fn lowercase(s: &str) -> (r: String)
    ensures
        r@ == lower_of(s@),
{
    s.to_lowercase()
}

/// The record predicate a lowercased query induces: the query occurs in
/// the lowercased path.
pub open spec fn sub_pred(needle: Seq<char>) -> spec_fn(FileEntrySer) -> bool {
    |e: FileEntrySer| spec_contains(lower_of(e.path@), needle)
}

/// Keeps the records whose lowercased path holds `needle`.
fn filter_by_substring(rows: Vec<FileEntrySer>, needle: &str) -> (r: Vec<FileEntrySer>)
    ensures
        r@ == rows@.filter(sub_pred(needle@)),
{
    let ghost pred = sub_pred(needle@);
    let n = rows.len();
    let mut r: Vec<FileEntrySer> = Vec::new();
    proof {
        reveal(Seq::filter);
        assert(rows@.take(0) =~= Seq::<FileEntrySer>::empty());
        assert(r@ =~= rows@.take(0).filter(pred));
    }
    let mut i: usize = 0;
    while i < n
        invariant
            n == rows@.len(),
            0 <= i <= n,
            pred == sub_pred(needle@),
            r@ == rows@.take(i as int).filter(pred),
        decreases n - i,
    {
        proof {
            reveal(Seq::filter);
            assert(rows@.take(i + 1).drop_last() =~= rows@.take(i as int));
            assert(rows@.take(i + 1).last() == rows@[i as int]);
        }
        let lp = lowercase(rows[i].path.as_str());
        let keep = contains_sub(lp.as_str(), needle);
        proof {
            let e = rows@[i as int];
            assert(pred(e) == spec_contains(lower_of(e.path@), needle@));
        }
        if keep {
            r.push(rows[i].clone_record());
            proof {
                reveal(Seq::filter);
                assert(r@ =~= rows@.take(i + 1).filter(pred));
            }
        } else {
            proof {
                reveal(Seq::filter);
                assert(r@ =~= rows@.take(i + 1).filter(pred));
            }
        }
        i = i + 1;
    }
    proof {
        assert(rows@.take(n as int) =~= rows@);
    }
    r
}

/// The views of a scored label list.
pub open spec fn scored_view(l: Seq<(String, u32)>) -> Seq<(Seq<char>, u32)> {
    l.map_values(|p: (String, u32)| (p.0@, p.1))
}

/// What fuzzy ranking returns for a query over a label list: a function
/// of the two alone.
pub uninterp spec fn fuzzy_ranked(query: Seq<char>, labels: Seq<Seq<char>>) -> Seq<(Seq<char>, u32)>;

/// Relies on nucleo's `Pattern::parse` (smart case, smart normalization)
/// and `Pattern::match_list`: the labels that match `query`, each with its
/// score, ordered by score descending; only given labels appear, at most
/// once per occurrence, and the outcome depends on the query and the
/// labels alone.
#[verifier::external_body]
fn fuzzy_match_ranked(query: &str, labels: &Vec<String>) -> (r: Vec<(String, u32)>)
    ensures
        scored_view(r@) == fuzzy_ranked(query@, strs_view(labels@)),
        r@.len() <= labels@.len(),
        forall|k: int| #![trigger r@[k]]
            0 <= k < r@.len() ==> exists|t: int|
                0 <= t < labels@.len() && (#[trigger] labels@[t])@ == r@[k].0@,
        forall|i: int, j: int| 0 <= i < j < r@.len() ==> r@[i].1 >= r@[j].1,
{
    let mut matcher = nucleo::Matcher::new(nucleo::Config::DEFAULT);
    let pattern = nucleo::pattern::Pattern::parse(
        query,
        nucleo::pattern::CaseMatching::Smart,
        nucleo::pattern::Normalization::Smart,
    );
    pattern
        .match_list(labels.iter().map(|s| s.as_str()), &mut matcher)
        .into_iter()
        .map(|(s, score)| (s.to_string(), score))
        .collect()
}

fn find_row_by_path(rows: &Vec<FileEntrySer>, label: &str) -> (r: Option<usize>)
    ensures
        match r {
            Some(i) => i < rows@.len() && rows@[i as int].path@ == label@ && forall|j: int|
                0 <= j < i ==> rows@[j].path@ != label@,
            None => forall|j: int| 0 <= j < rows@.len() ==> rows@[j].path@ != label@,
        },
{
    let m = rows.len();
    let mut i: usize = 0;
    while i < m
        invariant
            m == rows@.len(),
            0 <= i <= m,
            forall|j: int| 0 <= j < i ==> rows@[j].path@ != label@,
        decreases m - i,
    {
        if str_eq(rows[i].path.as_str(), label) {
            return Some(i);
        }
        i = i + 1;
    }
    None
}

/// Every scored label names the path of some row.
pub open spec fn all_labels_resolvable(scored: Seq<(String, u32)>, rows: Seq<FileEntrySer>) -> bool {
    forall|k: int| #![trigger scored[k]]
        0 <= k < scored.len() ==> exists|i: int|
            0 <= i < rows.len() && (#[trigger] rows[i]).path@ == scored[k].0@
}

/// `e` is the record at the earliest position of `rows` whose path reads
/// `label`.
pub open spec fn is_first_match(rows: Seq<FileEntrySer>, label: Seq<char>, e: FileEntrySer) -> bool {
    exists|i: int|
        0 <= i < rows.len() && rows[i] == e && rows[i].path@ == label && (forall|j: int|
            0 <= j < i ==> rows[j].path@ != label)
}

/// Resolves the first `limit` scored labels back to their records: one
/// record per label, each the earliest row carrying that path, in the
/// scored order.
fn resolve_scored(scored: &Vec<(String, u32)>, rows: &Vec<FileEntrySer>, limit: usize) -> (r: Vec<
    FileEntrySer,
>)
    requires
        all_labels_resolvable(scored@, rows@),
    ensures
        r@.len() == if scored@.len() < limit {
            scored@.len() as int
        } else {
            limit as int
        },
        forall|t: int|
            0 <= t < r@.len() ==> is_first_match(rows@, scored@[t].0@, #[trigger] r@[t]),
        forall|t: int| 0 <= t < r@.len() ==> rows@.contains(#[trigger] r@[t]),
{
    let mut r: Vec<FileEntrySer> = Vec::new();
    let n = scored.len();
    let mut k: usize = 0;
    while k < n
        invariant
            n == scored@.len(),
            0 <= k <= n,
            all_labels_resolvable(scored@, rows@),
            r@.len() == if k < limit {
                k as int
            } else {
                limit as int
            },
            forall|t: int|
                0 <= t < r@.len() ==> is_first_match(rows@, scored@[t].0@, #[trigger] r@[t]),
            forall|t: int| 0 <= t < r@.len() ==> rows@.contains(#[trigger] r@[t]),
        decreases n - k,
    {
        if r.len() >= limit {
            return r;
        }
        match find_row_by_path(rows, scored[k].0.as_str()) {
            Some(i) => {
                let ghost r0 = r@;
                r.push(rows[i].clone_record());
                proof {
                    assert(is_first_match(rows@, scored@[k as int].0@, rows@[i as int]));
                    assert forall|t: int|
                        0 <= t < r@.len() implies is_first_match(
                        rows@,
                        scored@[t].0@,
                        #[trigger] r@[t],
                    ) && rows@.contains(r@[t]) by {
                        if t < r0.len() {
                            assert(r@[t] == r0[t]);
                        } else {
                            assert(r@[t] == rows@[i as int]);
                            assert(rows@.contains(rows@[i as int]));
                        }
                    }
                }
            },
            None => {
                proof {
                    let i = choose|i: int|
                        0 <= i < rows@.len() && rows@[i].path@ == scored@[k as int].0@;
                    assert(false);
                }
            },
        }
        k = k + 1;
    }
    r
}

proof fn lemma_filter_elem_from(s: Seq<FileEntrySer>, pred: spec_fn(FileEntrySer) -> bool, i: int)
    requires
        0 <= i < s.filter(pred).len(),
    ensures
        exists|t: int| 0 <= t < s.len() && s[t] == s.filter(pred)[i],
    decreases s.len(),
{
    reveal(Seq::filter);
    if s.len() > 0 {
        if pred(s.last()) && i == s.filter(pred).len() - 1 {
            assert(s[s.len() - 1] == s.filter(pred)[i]);
        } else {
            lemma_filter_elem_from(s.drop_last(), pred, i);
            let t = choose|t: int|
                0 <= t < s.drop_last().len() && s.drop_last()[t] == s.drop_last().filter(pred)[i];
            assert(s[t] == s.filter(pred)[i]);
        }
    }
}

proof fn lemma_filter_sorted(s: Seq<FileEntrySer>, pred: spec_fn(FileEntrySer) -> bool)
    requires
        ser_sorted_by_path(s),
    ensures
        ser_sorted_by_path(s.filter(pred)),
    decreases s.len(),
{
    reveal(Seq::filter);
    if s.len() > 0 {
        assert forall|i: int, j: int|
            0 <= i < j < s.drop_last().len() implies lex_le(
            s.drop_last()[i].path@,
            s.drop_last()[j].path@,
        ) by {
            assert(s.drop_last()[i] == s[i]);
            assert(s.drop_last()[j] == s[j]);
        }
        lemma_filter_sorted(s.drop_last(), pred);
        if pred(s.last()) {
            assert forall|i: int|
                0 <= i < s.drop_last().filter(pred).len() implies lex_le(
                s.drop_last().filter(pred)[i].path@,
                s.last().path@,
            ) by {
                lemma_filter_elem_from(s.drop_last(), pred, i);
                let t = choose|t: int|
                    0 <= t < s.drop_last().len() && s.drop_last()[t] == s.drop_last().filter(
                        pred,
                    )[i];
                assert(s[t] == s.drop_last()[t]);
                assert(lex_le(s[t].path@, s[s.len() - 1].path@));
            }
        }
    }
}

/// The paths of a record list, in order.
pub open spec fn spec_labels(s: Seq<FileEntrySer>) -> Seq<Seq<char>> {
    s.map_values(|e: FileEntrySer| e.path@)
}

/// The candidate set an extension filter leaves: all of `rows` when no
/// allowlist token survives cleaning, else the rows whose extension the
/// allowlist admits.
pub open spec fn spec_candidates(rows: Seq<FileEntrySer>, extensions: Option<&str>) -> Seq<
    FileEntrySer,
> {
    match extensions {
        Some(x) => if spec_clean_exts(x@).len() > 0 {
            rows.filter(ext_pred(spec_clean_exts(x@)))
        } else {
            rows
        },
        None => rows,
    }
}

/// The candidates whose lowercased path holds the lowercased query: the
/// list the fuzzy ranker is given.
pub open spec fn spec_matching(
    rows: Seq<FileEntrySer>,
    extensions: Option<&str>,
    query: Seq<char>,
) -> Seq<FileEntrySer> {
    spec_candidates(rows, extensions).filter(sub_pred(lower_of(spec_trim(query))))
}

/// Searches a path-ordered candidate list: an optional case-insensitive
/// extension allowlist narrows it; an empty or whitespace query returns
/// the narrowed list whole, still ordered by path; otherwise the
/// candidates whose lowercased path holds the lowercased query are
/// fuzzy-ranked, and the two hundred best resolve in rank order, each to
/// the first record carrying its path.
pub fn search_rows(rows: Vec<FileEntrySer>, query: &str, extensions: Option<&str>) -> (out: Vec<
    FileEntrySer,
>)
    requires
        ser_sorted_by_path(rows@),
    ensures
        spec_trim(query@).len() == 0 ==> out@ == spec_candidates(rows@, extensions)
            && ser_sorted_by_path(out@),
        spec_trim(query@).len() > 0 ==> out@.len() <= 200 && forall|t: int|
            0 <= t < out@.len() ==> spec_candidates(rows@, extensions).contains(
                #[trigger] out@[t],
            ) && spec_contains(lower_of(out@[t].path@), lower_of(spec_trim(query@))),
        spec_trim(query@).len() > 0 ==> {
            let ranked = fuzzy_ranked(query@, spec_labels(spec_matching(rows@, extensions, query@)));
            &&& out@.len() == if ranked.len() < 200 {
                ranked.len() as int
            } else {
                200
            }
            &&& forall|t: int|
                0 <= t < out@.len() ==> is_first_match(
                    spec_matching(rows@, extensions, query@),
                    ranked[t].0,
                    #[trigger] out@[t],
                )
        },
{
    let ghost all0 = rows@;
    let cleaned: Vec<String> = match extensions {
        Some(x) => clean_extensions(x),
        None => Vec::new(),
    };
    let apply_ext = cleaned.len() > 0;
    let candidates: Vec<FileEntrySer> = if apply_ext {
        proof {
            lemma_filter_sorted(rows@, ext_pred(strs_view(cleaned@)));
        }
        filter_by_ext(rows, &cleaned)
    } else {
        rows
    };
    let qt = trim_str(query);
    if qt.as_str().unicode_len() == 0 {
        proof {
            assert(candidates@ == spec_candidates(all0, extensions));
        }
        return candidates;
    }
    let lq = lowercase(qt.as_str());
    let matching = filter_by_substring(candidates, lq.as_str());
    let m = matching.len();
    let mut labels: Vec<String> = Vec::new();
    let mut i: usize = 0;
    while i < m
        invariant
            m == matching@.len(),
            0 <= i <= m,
            labels@.len() == i,
            forall|t: int| 0 <= t < i ==> (#[trigger] labels@[t])@ == matching@[t].path@,
        decreases m - i,
    {
        labels.push(matching[i].path.clone());
        i = i + 1;
    }
    let scored = fuzzy_match_ranked(query, &labels);
    proof {
        // one ground instance primes the solver for the quantified
        // membership fact used just below
        if 0 < scored@.len() {
            let probe = scored@[0];
            assert(exists|t: int|
                0 <= t < labels@.len() && (#[trigger] labels@[t])@ == probe.0@);
        }
        assert(all_labels_resolvable(scored@, matching@)) by {
            assert forall|k: int| #![trigger scored@[k]]
                0 <= k < scored@.len() implies exists|i: int|
                0 <= i < matching@.len() && (#[trigger] matching@[i]).path@ == scored@[k].0@ by {
                let t = choose|t: int|
                    0 <= t < labels@.len() && (#[trigger] labels@[t])@ == scored@[k].0@;
                assert(matching@[t].path@ == scored@[k].0@);
            }
        }
    }
    let out = resolve_scored(&scored, &matching, 200);
    proof {
        assert(candidates@ == spec_candidates(all0, extensions));
        assert(lq@ == lower_of(spec_trim(query@)));
        assert(sub_pred(lq@) == sub_pred(lower_of(spec_trim(query@))));
        assert(matching@ == spec_matching(all0, extensions, query@));
        assert(strs_view(labels@) =~= spec_labels(matching@));
        assert(scored_view(scored@) == fuzzy_ranked(query@, spec_labels(spec_matching(all0, extensions, query@))));
        let ghost ranked = fuzzy_ranked(query@, spec_labels(spec_matching(all0, extensions, query@)));
        assert(ranked.len() == scored@.len());
        assert forall|t: int|
            0 <= t < out@.len() implies is_first_match(
            spec_matching(all0, extensions, query@),
            ranked[t].0,
            #[trigger] out@[t],
        ) by {
            assert(is_first_match(matching@, scored@[t].0@, out@[t]));
            assert(ranked[t] == scored_view(scored@)[t]);
            assert(ranked[t].0 == scored@[t].0@);
        }
    }
    proof {
        assert forall|t: int|
            0 <= t < out@.len() implies spec_candidates(all0, extensions).contains(
            #[trigger] out@[t],
        ) && spec_contains(lower_of(out@[t].path@), lower_of(spec_trim(query@))) by {
            assert(matching@.contains(out@[t]));
            let i2 = choose|i2: int| 0 <= i2 < matching@.len() && matching@[i2] == out@[t];
            candidates@.lemma_filter_pred(sub_pred(lq@), i2);
            assert(sub_pred(lq@)(matching@[i2]) == spec_contains(lower_of(matching@[i2].path@), lq@));
            lemma_filter_elem_from(candidates@, sub_pred(lq@), i2);
            let j2 = choose|j2: int| 0 <= j2 < candidates@.len() && candidates@[j2] == matching@[i2];
            assert(candidates@.contains(candidates@[j2]));
            assert(spec_candidates(all0, extensions).contains(out@[t]));
        }
    }
    out
}

/// Searches the cached files of `root`, as [`search_rows`] does over the
/// candidate rows the store holds for it.
pub fn find_files(
    conn: &rusqlite::Connection,
    root: &str,
    query: &str,
    extensions: Option<&str>,
) -> (r: Result<Vec<FileEntrySer>, rusqlite::Error>)
    ensures
        r matches Ok(out) ==> {
            &&& match extensions {
                Some(x) => spec_clean_exts(x@).len() > 0 ==> forall|t: int|
                    0 <= t < out@.len() ==> ext_in_list(
                        (#[trigger] out@[t]).path@,
                        spec_clean_exts(x@),
                    ),
                None => true,
            }
            &&& spec_trim(query@).len() == 0 ==> ser_sorted_by_path(out@)
            &&& spec_trim(query@).len() > 0 ==> out@.len() <= 200 && forall|t: int|
                0 <= t < out@.len() ==> spec_contains(
                    lower_of((#[trigger] out@[t]).path@),
                    lower_of(spec_trim(query@)),
                )
        },
{
    let raw = match crate::db::db_query_file_rows(conn, root) {
        Ok(rows) => rows,
        Err(e) => {
            return Err(e);
        },
    };
    let entries = crate::db::file_rows_to_entries(&raw);
    proof {
        assert forall|i: int, j: int|
            0 <= i < j < entries@.len() implies lex_le(entries@[i].path@, entries@[j].path@) by {
            assert(lex_le(raw@[i].0@, raw@[j].0@));
        }
    }
    let ghost entries0 = entries@;
    let out = search_rows(entries, query, extensions);
    proof {
        if spec_trim(query@).len() > 0 {
            assert forall|t: int|
                0 <= t < out@.len() implies match extensions {
                Some(x) => spec_clean_exts(x@).len() > 0 ==> ext_in_list(
                    (#[trigger] out@[t]).path@,
                    spec_clean_exts(x@),
                ),
                None => true,
            } by {
                match extensions {
                    Some(x) => {
                        if spec_clean_exts(x@).len() > 0 {
                            let cands = spec_candidates(entries0, extensions);
                            assert(cands.contains(out@[t]));
                            let j2 = choose|j2: int| 0 <= j2 < cands.len() && cands[j2] == out@[t];
                            entries0.lemma_filter_pred(ext_pred(spec_clean_exts(x@)), j2);
                        }
                    },
                    None => {},
                }
            }
        } else {
            match extensions {
                Some(x) => {
                    if spec_clean_exts(x@).len() > 0 {
                        assert forall|t: int|
                            0 <= t < out@.len() implies ext_in_list(
                            (#[trigger] out@[t]).path@,
                            spec_clean_exts(x@),
                        ) by {
                            entries0.lemma_filter_pred(ext_pred(spec_clean_exts(x@)), t);
                        }
                    }
                },
                None => {},
            }
        }
    }
    Ok(out)
}

} // verus!
