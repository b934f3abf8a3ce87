//! The folder-size accumulator: a vector of `(path, size)` pairs with
//! pairwise-distinct paths, viewed as a finite map from path to size.

use vstd::prelude::*;

verus! {

/// The mapping a pair vector stands for; later pairs would win, but a
/// well-formed vector never repeats a path.
pub open spec fn al_map(m: Seq<(String, u64)>) -> Map<Seq<char>, u64>
    decreases m.len(),
{
    if m.len() == 0 {
        Map::empty()
    } else {
        al_map(m.drop_last()).insert(m.last().0@, m.last().1)
    }
}

/// No path occurs twice.
pub open spec fn al_wf(m: Seq<(String, u64)>) -> bool {
    forall|i: int, j: int| 0 <= i < j < m.len() ==> m[i].0@ != m[j].0@
}

/// Some pair holds the path `f`.
pub open spec fn al_has(m: Seq<(String, u64)>, f: Seq<char>) -> bool {
    exists|i: int| 0 <= i < m.len() && m[i].0@ == f
}

/// The size recorded for `f`, or zero when `f` is absent.
pub open spec fn al_get(m: Seq<(String, u64)>, f: Seq<char>) -> int {
    if al_has(m, f) {
        al_map(m)[f] as int
    } else {
        0
    }
}

pub proof fn lemma_al_dom(m: Seq<(String, u64)>)
    ensures
        forall|f: Seq<char>| al_map(m).dom().contains(f) <==> al_has(m, f),
    decreases m.len(),
{
    if m.len() > 0 {
        lemma_al_dom(m.drop_last());
        assert(al_map(m) == al_map(m.drop_last()).insert(m.last().0@, m.last().1));
        assert forall|f: Seq<char>| al_map(m).dom().contains(f) implies al_has(m, f) by {
            if f == m.last().0@ {
                assert(m[m.len() - 1].0@ == f);
            } else {
                assert(al_map(m.drop_last()).dom().contains(f));
                assert(al_has(m.drop_last(), f));
                let i = choose|i: int| 0 <= i < m.drop_last().len() && m.drop_last()[i].0@ == f;
                assert(m[i].0@ == f);
            }
        }
        assert forall|f: Seq<char>| al_has(m, f) implies al_map(m).dom().contains(f) by {
            let i = choose|i: int| 0 <= i < m.len() && m[i].0@ == f;
            if i == m.len() - 1 {
                assert(f == m.last().0@);
            } else {
                assert(m.drop_last()[i].0@ == f);
                assert(al_has(m.drop_last(), f));
            }
        }
    }
}

pub proof fn lemma_al_index(m: Seq<(String, u64)>, i: int)
    requires
        al_wf(m),
        0 <= i < m.len(),
    ensures
        al_map(m).dom().contains(m[i].0@),
        al_map(m)[m[i].0@] == m[i].1,
    decreases m.len(),
{
    if i == m.len() - 1 {
    } else {
        assert(m.drop_last()[i] == m[i]);
        lemma_al_index(m.drop_last(), i);
        assert(m[i].0@ != m.last().0@);
    }
}

pub proof fn lemma_al_push(m: Seq<(String, u64)>, x: (String, u64))
    ensures
        al_map(m.push(x)) == al_map(m).insert(x.0@, x.1),
{
    assert(m.push(x).drop_last() =~= m);
    assert(m.push(x).last() == x);
}

pub proof fn lemma_al_update(m: Seq<(String, u64)>, i: int, x: (String, u64))
    requires
        al_wf(m),
        0 <= i < m.len(),
        x.0@ == m[i].0@,
    ensures
        al_map(m.update(i, x)) =~= al_map(m).insert(x.0@, x.1),
    decreases m.len(),
{
    let m2 = m.update(i, x);
    if i == m.len() - 1 {
        assert(m2.drop_last() =~= m.drop_last());
        assert(m2.last() == x);
    } else {
        assert(m2.drop_last() =~= m.drop_last().update(i, x));
        assert(m2.last() == m.last());
        assert(m.drop_last()[i] == m[i]);
        lemma_al_update(m.drop_last(), i, x);
        assert(m[i].0@ != m.last().0@);
        assert(al_map(m2) =~= al_map(m).insert(x.0@, x.1));
    }
}

/// Folder maps that agree pairwise on path characters and sizes stand
/// for the same mapping.
pub proof fn lemma_al_congruence(a: Seq<(String, u64)>, b: Seq<(String, u64)>)
    requires
        a.len() == b.len(),
        forall|i: int|
            0 <= i < a.len() ==> (#[trigger] a[i]).0@ == (#[trigger] b[i]).0@ && a[i].1 == b[i].1,
    ensures
        al_wf(a) == al_wf(b),
        forall|f: Seq<char>| al_has(a, f) == al_has(b, f),
        al_map(a) =~= al_map(b),
        forall|f: Seq<char>| al_get(a, f) == al_get(b, f),
    decreases a.len(),
{
    assert forall|f: Seq<char>| al_has(a, f) == al_has(b, f) by {
        if al_has(a, f) {
            let t = choose|t: int| 0 <= t < a.len() && a[t].0@ == f;
            assert(b[t].0@ == f);
        }
        if al_has(b, f) {
            let t = choose|t: int| 0 <= t < b.len() && b[t].0@ == f;
            assert(a[t].0@ == f);
        }
    }
    if al_wf(a) {
        assert forall|i: int, j: int| 0 <= i < j < b.len() implies b[i].0@ != b[j].0@ by {
            assert(a[i].0@ == b[i].0@);
            assert(a[j].0@ == b[j].0@);
        }
    }
    if al_wf(b) {
        assert forall|i: int, j: int| 0 <= i < j < a.len() implies a[i].0@ != a[j].0@ by {
            assert(a[i].0@ == b[i].0@);
            assert(a[j].0@ == b[j].0@);
        }
    }
    if a.len() > 0 {
        assert forall|i: int|
            0 <= i < a.drop_last().len() implies (#[trigger] a.drop_last()[i]).0@ == (
        #[trigger] b.drop_last()[i]).0@ && a.drop_last()[i].1 == b.drop_last()[i].1 by {
            assert(a.drop_last()[i] == a[i]);
            assert(b.drop_last()[i] == b[i]);
        }
        lemma_al_congruence(a.drop_last(), b.drop_last());
        assert(a.last().0@ == b.last().0@ && a.last().1 == b.last().1);
        assert(al_map(a) =~= al_map(b));
    }
    assert(al_map(a) == al_map(b)) by {
        if a.len() == 0 {
            assert(al_map(a) =~= al_map(b));
        }
    }
    assert forall|f: Seq<char>| al_get(a, f) == al_get(b, f) by {
        assert(al_has(a, f) == al_has(b, f));
    }
}

/// The size recorded for `key`, or `None` when `key` is absent.
pub fn fs_get(m: &Vec<(String, u64)>, key: &str) -> (r: Option<u64>)
    requires
        al_wf(m@),
    ensures
        match r {
            Some(v) => al_has(m@, key@) && al_map(m@)[key@] == v,
            None => !al_has(m@, key@),
        },
{
    let n = m.len();
    let mut i: usize = 0;
    while i < n
        invariant
            al_wf(m@),
            n == m@.len(),
            0 <= i <= n,
            forall|k: int| 0 <= k < i ==> m@[k].0@ != key@,
        decreases n - i,
    {
        if crate::paths::str_eq(m[i].0.as_str(), key) {
            proof {
                lemma_al_index(m@, i as int);
            }
            return Some(m[i].1);
        }
        i = i + 1;
    }
    None
}

/// Adds `add` to the size recorded for `key`, starting from zero when
/// `key` is absent.
pub fn fs_add(m: &mut Vec<(String, u64)>, key: &str, add: u64)
    requires
        al_wf(old(m)@),
        al_get(old(m)@, key@) + add <= u64::MAX,
    ensures
        al_wf(final(m)@),
        al_map(final(m)@) == al_map(old(m)@).insert(
            key@,
            (al_get(old(m)@, key@) + add) as u64,
        ),
        forall|f: Seq<char>| al_has(final(m)@, f) <==> (al_has(old(m)@, f) || f == key@),
{
    proof {
        lemma_al_dom(old(m)@);
    }
    let n = m.len();
    let mut i: usize = 0;
    while i < n
        invariant
            al_wf(m@),
            m@ == old(m)@,
            al_get(old(m)@, key@) + add <= u64::MAX,
            n == m@.len(),
            0 <= i <= n,
            forall|k: int| 0 <= k < i ==> m@[k].0@ != key@,
        decreases n - i,
    {
        if crate::paths::str_eq(m[i].0.as_str(), key) {
            proof {
                assert(m@[i as int].0@ == key@);
                assert(al_has(m@, key@));
                lemma_al_index(m@, i as int);
                assert(al_get(m@, key@) == m@[i as int].1 as int);
            }
            let k = m[i].0.clone();
            let v = m[i].1;
            let ghost m0 = m@;
            proof {
                assert(v + add <= u64::MAX);
            }
            m[i] = (k, v + add);
            proof {
                lemma_al_update(m0, i as int, m@[i as int]);
                assert forall|f: Seq<char>|
                    al_has(m@, f) <==> (al_has(m0, f) || f == key@) by {
                    if al_has(m@, f) {
                        let t = choose|t: int| 0 <= t < m@.len() && m@[t].0@ == f;
                        if t != i {
                            assert(m0[t].0@ == f);
                        }
                    }
                    if al_has(m0, f) {
                        let t = choose|t: int| 0 <= t < m0.len() && m0[t].0@ == f;
                        assert(m@[t].0@ == f);
                    }
                    if f == key@ {
                        assert(m@[i as int].0@ == f);
                    }
                }
            }
            return;
        }
        i = i + 1;
    }
    let ghost m0 = m@;
    m.push((key.to_owned(), add));
    proof {
        lemma_al_push(m0, m@.last());
        assert forall|f: Seq<char>| al_has(m@, f) <==> (al_has(m0, f) || f == key@) by {
            if al_has(m@, f) {
                let t = choose|t: int| 0 <= t < m@.len() && m@[t].0@ == f;
                if t < m0.len() {
                    assert(m0[t].0@ == f);
                }
            }
            if al_has(m0, f) {
                let t = choose|t: int| 0 <= t < m0.len() && m0[t].0@ == f;
                assert(m@[t].0@ == f);
            }
            if f == key@ {
                assert(m@[m@.len() - 1].0@ == f);
            }
        }
    }
}

} // verus!
