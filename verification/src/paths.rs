//! A string model of filesystem paths: components separated by `'/'`.
//!
//! Every path the engine stores or aggregates over is handled through the
//! spec functions here, so the contracts of the walker, the aggregator and
//! the persistence layer all speak one language.

use vstd::prelude::*;

verus! {

/// Index of the last occurrence of `c` in `p`, or `-1` if `p` holds none.
pub open spec fn last_index_of(p: Seq<char>, c: char) -> int
    decreases p.len(),
{
    if p.len() == 0 {
        -1
    } else if p[p.len() - 1] == c {
        p.len() - 1
    } else {
        last_index_of(p.drop_last(), c)
    }
}

pub proof fn lemma_last_index_of_bounds(p: Seq<char>, c: char)
    ensures
        -1 <= last_index_of(p, c) < p.len(),
        last_index_of(p, c) >= 0 ==> p[last_index_of(p, c)] == c,
    decreases p.len(),
{
    if p.len() > 0 && p[p.len() - 1] != c {
        lemma_last_index_of_bounds(p.drop_last(), c);
    }
}

/// Index of the last `'/'` in `p`, or `-1` if `p` holds none.
pub open spec fn last_slash(p: Seq<char>) -> int {
    last_index_of(p, '/')
}

pub proof fn lemma_last_slash_bounds(p: Seq<char>)
    ensures
        -1 <= last_slash(p) < p.len(),
        last_slash(p) >= 0 ==> p[last_slash(p)] == '/',
{
    lemma_last_index_of_bounds(p, '/');
}

/// Index of the last occurrence of `c` in `s`, or `None` if there is none.
pub fn find_last(s: &str, c: char) -> (r: Option<usize>)
    ensures
        match r {
            Some(j) => last_index_of(s@, c) == j && j < s@.len(),
            None => last_index_of(s@, c) == -1,
        },
{
    let n = s.unicode_len();
    let mut last: Option<usize> = None;
    let mut i: usize = 0;
    while i < n
        invariant
            n == s@.len(),
            0 <= i <= n,
            match last {
                Some(j) => last_index_of(s@.take(i as int), c) == j && j < i,
                None => last_index_of(s@.take(i as int), c) == -1,
            },
        decreases n - i,
    {
        proof {
            assert(s@.take(i + 1).drop_last() =~= s@.take(i as int));
        }
        if s.get_char(i) == c {
            last = Some(i);
        }
        i = i + 1;
    }
    proof {
        assert(s@.take(n as int) =~= s@);
    }
    last
}

/// The parent directory of `p`: everything before the last `'/'`, with the
/// filesystem root `"/"` kept as its own path. `None` when `p` has no parent.
pub open spec fn spec_parent(p: Seq<char>) -> Option<Seq<char>> {
    let i = last_slash(p);
    if i < 0 {
        None
    } else if i == 0 {
        if p.len() == 1 {
            None
        } else {
            Some(seq!['/'])
        }
    } else if i < p.len() {
        Some(p.subrange(0, i))
    } else {
        None
    }
}

/// The chain of ancestor directories of `p`, nearest first.
pub open spec fn spec_ancestors(p: Seq<char>) -> Seq<Seq<char>>
    decreases p.len(),
{
    match spec_parent(p) {
        None => Seq::empty(),
        Some(q) => seq![q] + spec_ancestors(q),
    }
}

/// The views of a list of strings.
pub open spec fn strs_view(l: Seq<String>) -> Seq<Seq<char>> {
    l.map_values(|s: String| s@)
}

/// `p` begins with the characters of `pre`.
pub open spec fn starts_with(p: Seq<char>, pre: Seq<char>) -> bool {
    pre.len() <= p.len() && p.subrange(0, pre.len() as int) == pre
}

/// `folder` lies on the ancestor chain of `path`.
pub open spec fn is_ancestor_of(folder: Seq<char>, path: Seq<char>) -> bool {
    spec_ancestors(path).contains(folder)
}

/// `p` names `root` itself or a path inside it: the root's characters,
/// then a separator at the segment boundary (or the root already ends in
/// one). A plain character prefix such as `/data` of `/data2` does not
/// qualify.
pub open spec fn descends_from(p: Seq<char>, root: Seq<char>) -> bool {
    p == root || (starts_with(p, root) && p.len() > root.len() && (root.len() == 0 || root[root.len()
        - 1] == '/' || p[root.len() as int] == '/'))
}

/// Character-for-character equality of two strings.
pub fn str_eq(a: &str, b: &str) -> (r: bool)
    ensures
        r == (a@ == b@),
{
    let n = a.unicode_len();
    let m = b.unicode_len();
    if n != m {
        return false;
    }
    let mut i: usize = 0;
    while i < n
        invariant
            n == a@.len(),
            n == b@.len(),
            0 <= i <= n,
            forall|k: int| 0 <= k < i ==> a@[k] == b@[k],
        decreases n - i,
    {
        if a.get_char(i) != b.get_char(i) {
            return false;
        }
        i = i + 1;
    }
    proof {
        assert(a@ =~= b@);
    }
    true
}

/// Whether `s` begins with the characters of `pre`.
pub fn str_starts_with(s: &str, pre: &str) -> (r: bool)
    ensures
        r == starts_with(s@, pre@),
{
    let n = s.unicode_len();
    let m = pre.unicode_len();
    if m > n {
        return false;
    }
    let mut i: usize = 0;
    while i < m
        invariant
            n == s@.len(),
            m == pre@.len(),
            m <= n,
            0 <= i <= m,
            forall|k: int| 0 <= k < i ==> s@[k] == pre@[k],
        decreases m - i,
    {
        if s.get_char(i) != pre.get_char(i) {
            return false;
        }
        i = i + 1;
    }
    proof {
        assert(s@.subrange(0, pre@.len() as int) =~= pre@);
    }
    true
}

/// Whether `path` names `root` itself or a path inside it, compared at
/// segment boundaries.
pub fn str_descends(path: &str, root: &str) -> (r: bool)
    ensures
        r == descends_from(path@, root@),
{
    if str_eq(path, root) {
        return true;
    }
    if !str_starts_with(path, root) {
        return false;
    }
    let n = path.unicode_len();
    let m = root.unicode_len();
    if n <= m {
        proof {
            assert(path@ =~= root@);
        }
        return false;
    }
    if m == 0 {
        return true;
    }
    root.get_char(m - 1) == '/' || path.get_char(m) == '/'
}

/// The parent directory of `path`, or `None` when it has no parent.
pub fn parent_of(path: &str) -> (r: Option<String>)
    ensures
        match r {
            Some(q) => spec_parent(path@) == Some(q@),
            None => spec_parent(path@) is None,
        },
{
    let n = path.unicode_len();
    let last = find_last(path, '/');
    match last {
        None => None,
        Some(j) => {
            if j == 0 {
                if n == 1 {
                    None
                } else {
                    let root = String::from_str("/");
                    proof {
                        reveal_strlit("/");
                        assert(root@ =~= seq!['/']);
                    }
                    Some(root)
                }
            } else {
                let q = path.substring_char(0, j);
                Some(q.to_owned())
            }
        },
    }
}

/// All ancestor directories of `path`, nearest parent first.
pub fn path_ancestors(path: &str) -> (r: Vec<String>)
    ensures
        r@.len() == spec_ancestors(path@).len(),
        forall|k: int| 0 <= k < r@.len() ==> r@[k]@ == spec_ancestors(path@)[k],
{
    let mut r: Vec<String> = Vec::new();
    let mut cur: String = path.to_owned();
    loop
        invariant
            r@.len() + spec_ancestors(cur@).len() == spec_ancestors(path@).len(),
            forall|k: int| 0 <= k < r@.len() ==> r@[k]@ == spec_ancestors(path@)[k],
            forall|k: int| 0 <= k < spec_ancestors(cur@).len() ==> spec_ancestors(cur@)[k]
                == spec_ancestors(path@)[r@.len() + k],
        decreases cur@.len(),
    {
        proof {
            lemma_last_slash_bounds(cur@);
        }
        match parent_of(cur.as_str()) {
            None => {
                return r;
            },
            Some(q) => {
                let ghost r0 = r@;
                let ghost cur0 = cur@;
                proof {
                    assert(spec_ancestors(cur0) =~= seq![q@] + spec_ancestors(q@));
                }
                r.push(q.clone());
                cur = q;
                proof {
                    assert forall|k: int| 0 <= k < r@.len() implies r@[k]@ == spec_ancestors(
                        path@,
                    )[k] by {
                        if k < r0.len() {
                            assert(r@[k] == r0[k]);
                        } else {
                            assert(spec_ancestors(cur0)[0] == spec_ancestors(path@)[r0.len() as int]);
                            assert(r@[k]@ == q@);
                        }
                    }
                    assert forall|k: int| 0 <= k < spec_ancestors(cur@).len() implies spec_ancestors(
                        cur@,
                    )[k] == spec_ancestors(path@)[r@.len() + k] by {
                        assert(spec_ancestors(cur0)[k + 1] == spec_ancestors(path@)[r0.len() as int + k
                            + 1]);
                        assert(spec_ancestors(cur@)[k] == spec_ancestors(cur0)[k + 1]);
                    }
                }
            },
        }
    }
}

/// The final component of `p`: everything after the last `'/'`.
/// `None` when that would be empty.
pub open spec fn spec_basename(p: Seq<char>) -> Option<Seq<char>> {
    let i = last_slash(p);
    if i + 1 < p.len() {
        Some(p.subrange(i + 1, p.len() as int))
    } else {
        None
    }
}

/// The extension of the final component of `p`: everything after the last
/// `'.'` of the basename, unless the `'.'` opens the basename or is absent.
pub open spec fn spec_extension(p: Seq<char>) -> Option<Seq<char>> {
    match spec_basename(p) {
        None => None,
        Some(b) => {
            let j = last_index_of(b, '.');
            if j >= 1 && j < b.len() {
                Some(b.subrange(j + 1, b.len() as int))
            } else {
                None
            }
        },
    }
}

/// Relies on `String::push`: appends one character to the string.
#[verifier::external_body]
fn string_push(s: &mut String, c: char)
    ensures
        final(s)@ == old(s)@.push(c),
{
    s.push(c);
}

/// The final component of `path`, or `None` when the path ends in `'/'`
/// or is empty.
pub fn basename_of(path: &str) -> (r: Option<String>)
    ensures
        match r {
            Some(b) => spec_basename(path@) == Some(b@),
            None => spec_basename(path@) is None,
        },
{
    let n = path.unicode_len();
    proof {
        lemma_last_slash_bounds(path@);
    }
    match find_last(path, '/') {
        None => {
            if n == 0 {
                None
            } else {
                Some(path.to_owned())
            }
        },
        Some(j) => {
            if j + 1 < n {
                Some(path.substring_char(j + 1, n).to_owned())
            } else {
                None
            }
        },
    }
}

/// The extension of the final component of `path`, or `None`.
pub fn extension_of(path: &str) -> (r: Option<String>)
    ensures
        match r {
            Some(e) => spec_extension(path@) == Some(e@),
            None => spec_extension(path@) is None,
        },
{
    match basename_of(path) {
        None => None,
        Some(b) => {
            let m = b.as_str().unicode_len();
            proof {
                lemma_last_index_of_bounds(b@, '.');
            }
            match find_last(b.as_str(), '.') {
                None => None,
                Some(j) => {
                    if j >= 1 && j < m {
                        Some(b.as_str().substring_char(j + 1, m).to_owned())
                    } else {
                        None
                    }
                },
            }
        },
    }
}

/// `c` with an ASCII capital letter folded to its small form.
pub open spec fn lower_char(c: char) -> char {
    if 'A' <= c && c <= 'Z' {
        (((c as u8) + 32) as char)
    } else {
        c
    }
}

/// `s` with every ASCII capital letter folded to its small form.
pub open spec fn spec_ascii_lower(s: Seq<char>) -> Seq<char> {
    Seq::new(s.len(), |i: int| lower_char(s[i]))
}

/// Folds ASCII capital letters of `s` to their small forms.
pub fn ascii_lower(s: &str) -> (r: String)
    ensures
        r@ == spec_ascii_lower(s@),
{
    let n = s.unicode_len();
    let mut r = String::new();
    let mut i: usize = 0;
    while i < n
        invariant
            n == s@.len(),
            0 <= i <= n,
            r@ =~= spec_ascii_lower(s@).take(i as int),
        decreases n - i,
    {
        let c = s.get_char(i);
        let lc: char = if c >= 'A' && c <= 'Z' {
            (c as u8 + 32) as char
        } else {
            c
        };
        string_push(&mut r, lc);
        i = i + 1;
    }
    proof {
        assert(r@ =~= spec_ascii_lower(s@));
    }
    r
}

/// Lexicographic order on strings by character code point.
pub open spec fn lex_le(a: Seq<char>, b: Seq<char>) -> bool
    decreases a.len(),
{
    if a.len() == 0 {
        true
    } else if b.len() == 0 {
        false
    } else if a[0] == b[0] {
        lex_le(a.drop_first(), b.drop_first())
    } else {
        (a[0] as u32) < (b[0] as u32)
    }
}

/// Whether `a` is at or before `b` in lexicographic character order.
pub fn str_le(a: &str, b: &str) -> (r: bool)
    ensures
        r == lex_le(a@, b@),
{
    let n = a.unicode_len();
    let m = b.unicode_len();
    let mut i: usize = 0;
    proof {
        assert(a@.skip(0) =~= a@);
        assert(b@.skip(0) =~= b@);
        assert(a@.take(0) =~= b@.take(0));
    }
    loop
        invariant
            n == a@.len(),
            m == b@.len(),
            0 <= i <= n,
            0 <= i <= m,
            a@.take(i as int) == b@.take(i as int),
            lex_le(a@, b@) == lex_le(a@.skip(i as int), b@.skip(i as int)),
        decreases n - i,
    {
        if i >= n {
            return true;
        }
        if i >= m {
            return false;
        }
        let ca = a.get_char(i);
        let cb = b.get_char(i);
        if ca != cb {
            return (ca as u32) < (cb as u32);
        }
        proof {
            assert(a@.skip(i as int).drop_first() =~= a@.skip(i + 1));
            assert(b@.skip(i as int).drop_first() =~= b@.skip(i + 1));
            assert(a@.take(i + 1) =~= b@.take(i + 1));
        }
        i = i + 1;
    }
}

/// `needle` occurs in `hay` beginning at index `i`.
pub open spec fn is_sub_at(hay: Seq<char>, needle: Seq<char>, i: int) -> bool {
    0 <= i && i + needle.len() <= hay.len() && hay.subrange(i, i + needle.len() as int) == needle
}

/// `needle` occurs somewhere in `hay`.
pub open spec fn spec_contains(hay: Seq<char>, needle: Seq<char>) -> bool {
    exists|i: int| is_sub_at(hay, needle, i)
}

fn matches_at(hay: &str, needle: &str, i: usize) -> (r: bool)
    requires
        i + needle@.len() <= hay@.len(),
    ensures
        r == is_sub_at(hay@, needle@, i as int),
{
    let n = hay.unicode_len();
    let m = needle.unicode_len();
    let mut j: usize = 0;
    while j < m
        invariant
            n == hay@.len(),
            m == needle@.len(),
            i + m <= n,
            0 <= j <= m,
            forall|k: int| 0 <= k < j ==> hay@[i + k] == needle@[k],
        decreases m - j,
    {
        if hay.get_char(i + j) != needle.get_char(j) {
            proof {
                assert(hay@.subrange(i as int, i + m as int)[j as int] != needle@[j as int]);
            }
            return false;
        }
        j = j + 1;
    }
    proof {
        assert(hay@.subrange(i as int, i + m as int) =~= needle@);
    }
    true
}

/// Whether `needle` occurs in `hay` as a contiguous run of characters.
pub fn contains_sub(hay: &str, needle: &str) -> (r: bool)
    ensures
        r == spec_contains(hay@, needle@),
{
    let n = hay.unicode_len();
    let m = needle.unicode_len();
    if m > n {
        proof {
            assert(forall|i: int| !is_sub_at(hay@, needle@, i));
        }
        return false;
    }
    if m == 0 {
        proof {
            assert(hay@.subrange(0, 0) =~= needle@);
            assert(is_sub_at(hay@, needle@, 0));
        }
        return true;
    }
    let mut i: usize = 0;
    while i <= n - m
        invariant
            n == hay@.len(),
            m == needle@.len(),
            1 <= m <= n,
            0 <= i <= n - m + 1,
            forall|k: int| 0 <= k < i ==> !is_sub_at(hay@, needle@, k),
        decreases n - i,
    {
        if matches_at(hay, needle, i) {
            return true;
        }
        i = i + 1;
    }
    proof {
        assert(forall|k: int| is_sub_at(hay@, needle@, k) ==> 0 <= k <= n - m);
    }
    false
}

/// `c` is an ASCII whitespace character.
pub open spec fn is_space(c: char) -> bool {
    c == ' ' || c == '\t' || c == '\n' || c == '\r'
}

/// `s` with leading ASCII whitespace removed.
pub open spec fn spec_trim_start(s: Seq<char>) -> Seq<char>
    decreases s.len(),
{
    if s.len() > 0 && is_space(s[0]) {
        spec_trim_start(s.drop_first())
    } else {
        s
    }
}

/// `s` with trailing ASCII whitespace removed.
pub open spec fn spec_trim_end(s: Seq<char>) -> Seq<char>
    decreases s.len(),
{
    if s.len() > 0 && is_space(s[s.len() - 1]) {
        spec_trim_end(s.drop_last())
    } else {
        s
    }
}

/// `s` with leading and trailing ASCII whitespace removed.
pub open spec fn spec_trim(s: Seq<char>) -> Seq<char> {
    spec_trim_end(spec_trim_start(s))
}

fn is_space_exec(c: char) -> (r: bool)
    ensures
        r == is_space(c),
{
    c == ' ' || c == '\t' || c == '\n' || c == '\r'
}

/// Removes leading and trailing ASCII whitespace from `s`.
pub fn trim_str(s: &str) -> (r: String)
    ensures
        r@ == spec_trim(s@),
{
    let n = s.unicode_len();
    let mut a: usize = 0;
    proof {
        assert(s@.skip(0) =~= s@);
    }
    while a < n && is_space_exec(s.get_char(a))
        invariant
            n == s@.len(),
            0 <= a <= n,
            spec_trim_start(s@) == spec_trim_start(s@.skip(a as int)),
        decreases n - a,
    {
        proof {
            assert(s@.skip(a as int).drop_first() =~= s@.skip(a + 1));
        }
        a = a + 1;
    }
    proof {
        assert(spec_trim_start(s@.skip(a as int)) == s@.skip(a as int));
    }
    let mut b: usize = n;
    while b > a && is_space_exec(s.get_char(b - 1))
        invariant
            n == s@.len(),
            0 <= a <= b <= n,
            spec_trim_start(s@) == s@.skip(a as int),
            spec_trim_end(s@.skip(a as int)) == spec_trim_end(s@.subrange(a as int, b as int)),
        decreases b,
    {
        proof {
            assert(s@.subrange(a as int, b as int).drop_last() =~= s@.subrange(a as int, b - 1));
        }
        b = b - 1;
    }
    proof {
        if b > a {
            assert(spec_trim_end(s@.subrange(a as int, b as int)) == s@.subrange(a as int, b as int));
        } else {
            assert(s@.subrange(a as int, b as int) =~= Seq::<char>::empty());
        }
    }
    s.substring_char(a, b).to_owned()
}

/// Index of the first occurrence of `c` in `s`, or `-1`.
pub open spec fn first_index_of(s: Seq<char>, c: char) -> int
    decreases s.len(),
{
    if s.len() == 0 {
        -1
    } else if s[0] == c {
        0
    } else {
        let r = first_index_of(s.drop_first(), c);
        if r < 0 {
            -1
        } else {
            r + 1
        }
    }
}

proof fn lemma_first_index_at(s: Seq<char>, c: char, j: int)
    requires
        0 <= j < s.len(),
        s[j] == c,
        forall|k: int| 0 <= k < j ==> s[k] != c,
    ensures
        first_index_of(s, c) == j,
    decreases j,
{
    if j > 0 {
        lemma_first_index_at(s.drop_first(), c, j - 1);
    }
}

proof fn lemma_first_index_none(s: Seq<char>, c: char)
    requires
        forall|k: int| 0 <= k < s.len() ==> s[k] != c,
    ensures
        first_index_of(s, c) == -1,
    decreases s.len(),
{
    if s.len() > 0 {
        lemma_first_index_none(s.drop_first(), c);
    }
}

/// The pieces of `s` between occurrences of `c`, in order; empty pieces kept.
pub open spec fn spec_split(s: Seq<char>, c: char) -> Seq<Seq<char>>
    decreases s.len(),
{
    let i = first_index_of(s, c);
    if 0 <= i < s.len() {
        seq![s.subrange(0, i)] + spec_split(s.subrange(i + 1, s.len() as int), c)
    } else {
        seq![s]
    }
}

/// Splits `s` at every occurrence of `c`, keeping empty pieces.
pub fn split_char(s: &str, c: char) -> (r: Vec<String>)
    ensures
        r@.len() == spec_split(s@, c).len(),
        forall|k: int| 0 <= k < r@.len() ==> r@[k]@ == spec_split(s@, c)[k],
{
    let n = s.unicode_len();
    let mut r: Vec<String> = Vec::new();
    let mut start: usize = 0;
    let mut j: usize = 0;
    proof {
        assert(r@.map_values(|t: String| t@) =~= Seq::<Seq<char>>::empty());
        assert(s@.subrange(0, n as int) =~= s@);
    }
    while j < n
        invariant
            n == s@.len(),
            0 <= start <= j <= n,
            spec_split(s@, c) =~= r@.map_values(|t: String| t@) + spec_split(
                s@.subrange(start as int, n as int),
                c,
            ),
            forall|k: int| start <= k < j ==> s@[k] != c,
        decreases n - j,
    {
        if s.get_char(j) == c {
            let ghost rest = s@.subrange(start as int, n as int);
            proof {
                assert(rest[j - start] == c);
                assert(forall|k: int| 0 <= k < j - start ==> rest[k] != c);
                lemma_first_index_at(rest, c, j - start);
                assert(rest.subrange(0, j - start) =~= s@.subrange(start as int, j as int));
                assert(rest.subrange(j - start + 1, rest.len() as int) =~= s@.subrange(
                    j + 1,
                    n as int,
                ));
            }
            let piece = s.substring_char(start, j).to_owned();
            r.push(piece);
            proof {
                assert(spec_split(s@, c) =~= r@.map_values(|t: String| t@) + spec_split(
                    s@.subrange(j + 1, n as int),
                    c,
                ));
            }
            start = j + 1;
        }
        j = j + 1;
    }
    let ghost rest = s@.subrange(start as int, n as int);
    proof {
        lemma_first_index_none(rest, c);
    }
    let piece = s.substring_char(start, n).to_owned();
    r.push(piece);
    proof {
        assert(r@.map_values(|t: String| t@) =~= spec_split(s@, c));
    }
    r
}

} // verus!
