//! Strictly increasing lists of strings: the canonical form of a set of
//! strings, used for the files each plugin installed.

use vstd::prelude::*;
use crate::text::{lex_lt, lemma_lex_asym, lemma_lex_total, str_lt, str_eq};

verus! {

/// The character sequences of a list of strings.
pub open spec fn str_views(v: Seq<String>) -> Seq<Seq<char>> {
    v.map_values(|s: String| s@)
}

/// Each element comes strictly before the next one.
pub open spec fn strictly_sorted(s: Seq<Seq<char>>) -> bool {
    forall|i: int| 0 <= i < s.len() - 1 ==> #[trigger] lex_lt(s[i], s[i + 1])
}

/// `s` with `x` put in its place, when `s` is strictly sorted; unchanged when
/// `x` is already there.
pub open spec fn insert_sorted(s: Seq<Seq<char>>, x: Seq<char>) -> Seq<Seq<char>>
    decreases s.len(),
{
    if s.len() == 0 {
        seq![x]
    } else if lex_lt(s.last(), x) {
        s.push(x)
    } else if s.last() == x {
        s
    } else {
        insert_sorted(s.drop_last(), x).push(s.last())
    }
}

/// The elements of `s` in increasing order, each once.
pub open spec fn sort_dedup(s: Seq<Seq<char>>) -> Seq<Seq<char>>
    decreases s.len(),
{
    if s.len() == 0 {
        Seq::empty()
    } else {
        insert_sorted(sort_dedup(s.drop_last()), s.last())
    }
}

proof fn lemma_insert_split(s: Seq<Seq<char>>, i: int, x: Seq<char>)
    requires
        0 <= i <= s.len(),
        forall|k: int| i <= k < s.len() ==> lex_lt(x, #[trigger] s[k]),
    ensures
        insert_sorted(s, x) == insert_sorted(s.take(i), x) + s.skip(i),
    decreases s.len() - i,
{
    if i == s.len() {
        assert(s.take(i) =~= s);
        assert(s.skip(i) =~= Seq::<Seq<char>>::empty());
        assert(insert_sorted(s, x) + Seq::<Seq<char>>::empty() =~= insert_sorted(s, x));
    } else {
        let l = s.last();
        assert(lex_lt(x, l));
        lemma_lex_asym(x, l);
        let d = s.drop_last();
        lemma_insert_split(d, i, x);
        assert(d.take(i) =~= s.take(i));
        assert(d.skip(i).push(l) =~= s.skip(i));
        assert((insert_sorted(s.take(i), x) + d.skip(i)).push(l) =~= insert_sorted(s.take(i), x)
            + s.skip(i));
    }
}

/// Every element of `s`, with `x`, as a set.
pub proof fn lemma_insert_sorted_set(s: Seq<Seq<char>>, x: Seq<char>)
    ensures
        insert_sorted(s, x).to_set() == s.to_set().insert(x),
    decreases s.len(),
{
    if s.len() == 0 {
        assert(seq![x].to_set() =~= Set::<Seq<char>>::empty().insert(x)) by {
            assert(seq![x][0] == x);
        }
    } else if lex_lt(s.last(), x) {
        assert(s.push(x).to_set() =~= s.to_set().insert(x)) by {
            assert forall|y| s.push(x).to_set().contains(y) <==> s.to_set().insert(x).contains(y) by {
                if s.push(x).contains(y) {
                    let k = choose|k: int| 0 <= k < s.push(x).len() && s.push(x)[k] == y;
                    if k < s.len() {
                        assert(s[k] == y);
                    }
                }
                if s.contains(y) {
                    let k = choose|k: int| 0 <= k < s.len() && s[k] == y;
                    assert(s.push(x)[k] == y);
                }
                assert(s.push(x)[s.len() as int] == x);
            }
        }
    } else if s.last() == x {
        assert(s.to_set() =~= s.to_set().insert(x)) by {
            assert(s[s.len() - 1] == x);
        }
    } else {
        let d = s.drop_last();
        let l = s.last();
        lemma_insert_sorted_set(d, x);
        let r = insert_sorted(d, x);
        assert(r.push(l).to_set() =~= s.to_set().insert(x)) by {
            assert forall|y| r.push(l).to_set().contains(y) <==> s.to_set().insert(x).contains(y) by {
                if r.push(l).contains(y) {
                    let k = choose|k: int| 0 <= k < r.push(l).len() && r.push(l)[k] == y;
                    if k < r.len() {
                        assert(r[k] == y);
                        assert(r.to_set().contains(y));
                        if y != x {
                            assert(d.to_set().contains(y));
                            let j = choose|j: int| 0 <= j < d.len() && d[j] == y;
                            assert(s[j] == y);
                        }
                    } else {
                        assert(s[s.len() - 1] == y);
                    }
                }
                if s.contains(y) {
                    let j = choose|j: int| 0 <= j < s.len() && s[j] == y;
                    if j < s.len() - 1 {
                        assert(d[j] == y);
                        assert(d.to_set().contains(y));
                        assert(r.to_set().contains(y));
                        let k = choose|k: int| 0 <= k < r.len() && r[k] == y;
                        assert(r.push(l)[k] == y);
                    } else {
                        assert(r.push(l)[r.len() as int] == y);
                    }
                }
                if y == x {
                    assert(r.to_set().contains(x));
                    let k = choose|k: int| 0 <= k < r.len() && r[k] == x;
                    assert(r.push(l)[k] == x);
                }
            }
        }
    }
}

/// The canonical form of a list holds exactly the list's elements.
pub proof fn lemma_sort_dedup_set(s: Seq<Seq<char>>)
    ensures
        sort_dedup(s).to_set() == s.to_set(),
    decreases s.len(),
{
    if s.len() == 0 {
        assert(sort_dedup(s).to_set() =~= s.to_set());
    } else {
        let d = s.drop_last();
        lemma_sort_dedup_set(d);
        lemma_insert_sorted_set(sort_dedup(d), s.last());
        assert(s.to_set() =~= d.to_set().insert(s.last())) by {
            assert forall|y| s.to_set().contains(y) <==> d.to_set().insert(s.last()).contains(y) by {
                if s.contains(y) {
                    let j = choose|j: int| 0 <= j < s.len() && s[j] == y;
                    if j < d.len() {
                        assert(d[j] == y);
                    }
                }
                if d.contains(y) {
                    let j = choose|j: int| 0 <= j < d.len() && d[j] == y;
                    assert(s[j] == y);
                }
                assert(s[s.len() - 1] == s.last());
            }
        }
    }
}

proof fn lemma_insert_sorted_sorted(s: Seq<Seq<char>>, x: Seq<char>)
    requires
        strictly_sorted(s),
    ensures
        strictly_sorted(insert_sorted(s, x)),
        insert_sorted(s, x).last() == x || (s.len() > 0 && insert_sorted(s, x).last() == s.last()),
        insert_sorted(s, x).len() > 0,
    decreases s.len(),
{
    let r = insert_sorted(s, x);
    if s.len() == 0 {
    } else if lex_lt(s.last(), x) {
        assert forall|i: int| 0 <= i < r.len() - 1 implies #[trigger] lex_lt(r[i], r[i + 1]) by {
            if i < s.len() - 1 {
                assert(lex_lt(s[i], s[i + 1]));
            }
        }
    } else if s.last() == x {
    } else {
        let d = s.drop_last();
        let l = s.last();
        assert(strictly_sorted(d)) by {
            assert forall|i: int| 0 <= i < d.len() - 1 implies #[trigger] lex_lt(d[i], d[i + 1]) by {
                assert(lex_lt(s[i], s[i + 1]));
            }
        }
        lemma_insert_sorted_sorted(d, x);
        lemma_lex_total(l, x);
        let q = insert_sorted(d, x);
        if q.last() != x {
            let j = s.len() - 2;
            assert(lex_lt(s[j], s[j + 1]));
        }
        assert forall|i: int| 0 <= i < r.len() - 1 implies #[trigger] lex_lt(r[i], r[i + 1]) by {
            if i < q.len() - 1 {
                assert(lex_lt(q[i], q[i + 1]));
            } else {
                assert(r[i] == q.last());
            }
        }
    }
}

/// The canonical form of any list of strings is strictly sorted.
pub proof fn lemma_sort_dedup_is_sorted(s: Seq<Seq<char>>)
    ensures
        strictly_sorted(sort_dedup(s)),
    decreases s.len(),
{
    if s.len() > 0 {
        lemma_sort_dedup_is_sorted(s.drop_last());
        lemma_insert_sorted_sorted(sort_dedup(s.drop_last()), s.last());
    }
}

/// A strictly sorted list is its own canonical form.
pub proof fn lemma_sort_dedup_sorted(s: Seq<Seq<char>>)
    requires
        strictly_sorted(s),
    ensures
        sort_dedup(s) == s,
    decreases s.len(),
{
    if s.len() > 0 {
        let d = s.drop_last();
        assert(strictly_sorted(d)) by {
            assert forall|i: int| 0 <= i < d.len() - 1 implies #[trigger] lex_lt(d[i], d[i + 1]) by {
                assert(lex_lt(s[i], s[i + 1]));
            }
        }
        lemma_sort_dedup_sorted(d);
        if d.len() > 0 {
            let j = s.len() - 2;
            assert(lex_lt(s[j], s[j + 1]));
        }
        assert(d.push(s.last()) =~= s);
    }
}

/// Puts `x` in its place in the strictly sorted list `v`; leaves `v` as it
/// is when it holds `x` already.
pub fn insert_str_sorted(v: &mut Vec<String>, x: String)
    ensures
        str_views(final(v)@) == insert_sorted(str_views(old(v)@), x@),
        strictly_sorted(str_views(old(v)@)) ==> strictly_sorted(str_views(final(v)@)),
{
    let ghost s = str_views(v@);
    let mut i: usize = v.len();
    while i > 0 && str_lt(x.as_str(), v[i - 1].as_str())
        invariant
            i <= v@.len(),
            s == str_views(v@),
            forall|k: int| i <= k < s.len() ==> lex_lt(x@, #[trigger] s[k]),
        decreases i,
    {
        i = i - 1;
    }
    proof {
        lemma_insert_split(s, i as int, x@);
    }
    if i > 0 && str_eq(v[i - 1].as_str(), x.as_str()) {
        assert(s.take(i as int).last() == x@);
        assert(s.take(i as int) + s.skip(i as int) =~= s);
        return;
    }
    proof {
        if i > 0 {
            lemma_lex_total(s[i - 1], x@);
            assert(s.take(i as int).last() == s[i - 1]);
        }
    }
    v.insert(i, x);
    assert(str_views(v@) =~= s.take(i as int).push(x@) + s.skip(i as int));
    proof {
        if strictly_sorted(s) {
            let t = str_views(v@);
            assert forall|k: int| 0 <= k < t.len() - 1 implies #[trigger] lex_lt(t[k], t[k + 1]) by {
                if k < i - 1 {
                    assert(lex_lt(s[k], s[k + 1]));
                } else if k == i - 1 {
                } else if k == i {
                } else {
                    let j = k - 1;
                    assert(lex_lt(s[j], s[j + 1]));
                }
            }
        }
    }
}

/// The strings of `v` in increasing order, each once.
pub fn sort_dedup_strs(v: Vec<String>) -> (r: Vec<String>)
    ensures
        str_views(r@) == sort_dedup(str_views(v@)),
        strictly_sorted(str_views(r@)),
{
    let ghost s = str_views(v@);
    let mut r: Vec<String> = Vec::new();
    let mut rest = v;
    let n = rest.len();
    let mut i: usize = 0;
    while i < n
        invariant
            n == s.len(),
            i <= n,
            s == str_views(v@),
            rest@ == v@,
            str_views(r@) == sort_dedup(s.take(i as int)),
            strictly_sorted(str_views(r@)),
        decreases n - i,
    {
        let x = copy_string(&rest[i]);
        assert(s.take(i + 1).drop_last() =~= s.take(i as int));
        insert_str_sorted(&mut r, x);
        i = i + 1;
    }
    assert(s.take(n as int) =~= s);
    r
}

fn copy_string(s: &String) -> (r: String)
    ensures
        r@ == s@,
{
    s.as_str().to_owned()
}

} // verus!
