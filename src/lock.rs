//! The lock state: the persisted record of which plugins are installed and
//! which files each one wrote, kept in a canonical form.

use vstd::prelude::*;
use crate::plugin::{copy_strs, Plugin, PluginView, pviews};
use crate::error::FinError;
use crate::sorted::{str_views, lemma_sort_dedup_is_sorted, lemma_sort_dedup_sorted, sort_dedup, strictly_sorted};
use crate::text::{copy_str, lex_lt, lemma_lex_asym, lemma_lex_total, lemma_lex_trans, str_eq, str_lt};

verus! {

/// Plugin names strictly increase along the list, so no name occurs twice.
pub open spec fn names_sorted(s: Seq<PluginView>) -> bool {
    forall|i: int, j: int| 0 <= i < j < s.len() ==> #[trigger] lex_lt(s[i].name, s[j].name)
}

/// Each record's file list is in canonical form.
pub open spec fn files_sorted(s: Seq<PluginView>) -> bool {
    forall|i: int| 0 <= i < s.len() ==> strictly_sorted(#[trigger] s[i].installed_files)
}

/// The canonical form of a list of plugin records.
pub open spec fn plugins_wf(s: Seq<PluginView>) -> bool {
    names_sorted(s) && files_sorted(s)
}

/// The records of `s` by name; a later record wins over an earlier one.
pub open spec fn map_of(s: Seq<PluginView>) -> Map<Seq<char>, PluginView>
    decreases s.len(),
{
    if s.len() == 0 {
        Map::empty()
    } else {
        map_of(s.drop_last()).insert(s.last().name, s.last())
    }
}

/// Each record of `map_of(s)` is filed under its own name.
pub proof fn lemma_map_of_names(s: Seq<PluginView>, k: Seq<char>)
    requires
        map_of(s).contains_key(k),
    ensures
        map_of(s)[k].name == k,
    decreases s.len(),
{
    if s.last().name != k {
        lemma_map_of_names(s.drop_last(), k);
    }
}

/// `s` with `p` put in its place by name, replacing a record of that name.
pub open spec fn upsert(s: Seq<PluginView>, p: PluginView) -> Seq<PluginView>
    decreases s.len(),
{
    if s.len() == 0 {
        seq![p]
    } else if lex_lt(s.last().name, p.name) {
        s.push(p)
    } else if s.last().name == p.name {
        s.drop_last().push(p)
    } else {
        upsert(s.drop_last(), p).push(s.last())
    }
}

/// `s` with each record of `ps` put in its place, in turn.
pub open spec fn upsert_all(s: Seq<PluginView>, ps: Seq<PluginView>) -> Seq<PluginView>
    decreases ps.len(),
{
    if ps.len() == 0 {
        s
    } else {
        upsert(upsert_all(s, ps.drop_last()), ps.last())
    }
}

/// `m` with each record of `ps` entered under its name, in turn.
pub open spec fn insert_all(m: Map<Seq<char>, PluginView>, ps: Seq<PluginView>) -> Map<
    Seq<char>,
    PluginView,
>
    decreases ps.len(),
{
    if ps.len() == 0 {
        m
    } else {
        insert_all(m, ps.drop_last()).insert(ps.last().name, ps.last())
    }
}

/// A record with its file list in canonical form.
pub open spec fn canon_files(p: PluginView) -> PluginView {
    PluginView { installed_files: sort_dedup(p.installed_files), ..p }
}

/// The canonical form of a list of records: files sorted, records sorted by
/// name, a later record winning over an earlier one of the same name.
pub open spec fn canon_plugins(s: Seq<PluginView>) -> Seq<PluginView>
    decreases s.len(),
{
    if s.len() == 0 {
        Seq::empty()
    } else {
        upsert(canon_plugins(s.drop_last()), canon_files(s.last()))
    }
}

proof fn lemma_upsert_split(s: Seq<PluginView>, i: int, p: PluginView)
    requires
        0 <= i <= s.len(),
        forall|k: int| i <= k < s.len() ==> lex_lt(p.name, #[trigger] s[k].name),
    ensures
        upsert(s, p) == upsert(s.take(i), p) + s.skip(i),
    decreases s.len() - i,
{
    if i == s.len() {
        assert(s.take(i) =~= s);
        assert(upsert(s, p) + s.skip(i) =~= upsert(s, p));
    } else {
        let l = s.last();
        assert(lex_lt(p.name, l.name));
        lemma_lex_asym(p.name, l.name);
        let d = s.drop_last();
        lemma_upsert_split(d, i, p);
        assert(d.take(i) =~= s.take(i));
        assert((upsert(s.take(i), p) + d.skip(i)).push(l) =~= upsert(s.take(i), p) + s.skip(i));
    }
}

/// Putting a record in place enters it under its name and leaves the other
/// names as they were.
pub proof fn lemma_upsert_map(s: Seq<PluginView>, p: PluginView)
    ensures
        map_of(upsert(s, p)) == map_of(s).insert(p.name, p),
    decreases s.len(),
{
    if s.len() == 0 {
        assert(seq![p].drop_last() =~= Seq::<PluginView>::empty());
        assert(seq![p].last() == p);
        assert(map_of(Seq::<PluginView>::empty()) == Map::<Seq<char>, PluginView>::empty());
        assert(map_of(seq![p]) == map_of(Seq::<PluginView>::empty()).insert(p.name, p));
    } else if lex_lt(s.last().name, p.name) {
        assert(s.push(p).drop_last() =~= s);
        assert(s.push(p).last() == p);
    } else if s.last().name == p.name {
        let d = s.drop_last();
        assert(d.push(p).drop_last() =~= d);
        assert(d.push(p).last() == p);
        assert(map_of(d).insert(p.name, p) =~= map_of(d).insert(s.last().name, s.last()).insert(
            p.name,
            p,
        ));
    } else {
        let d = s.drop_last();
        let l = s.last();
        lemma_upsert_map(d, p);
        assert(upsert(d, p).push(l).drop_last() =~= upsert(d, p));
        assert(upsert(d, p).push(l).last() == l);
        assert(map_of(d).insert(p.name, p).insert(l.name, l) =~= map_of(d).insert(l.name, l).insert(
            p.name,
            p,
        ));
    }
}

proof fn lemma_upsert_elems(s: Seq<PluginView>, p: PluginView)
    ensures
        forall|a: int|
            0 <= a < upsert(s, p).len() ==> #[trigger] upsert(s, p)[a] == p || s.contains(
                upsert(s, p)[a],
            ),
    decreases s.len(),
{
    let r = upsert(s, p);
    if s.len() == 0 {
    } else if lex_lt(s.last().name, p.name) {
        assert forall|a: int| 0 <= a < r.len() implies #[trigger] r[a] == p || s.contains(r[a]) by {
            if a < s.len() {
                assert(s[a] == r[a]);
            }
        }
    } else if s.last().name == p.name {
        assert forall|a: int| 0 <= a < r.len() implies #[trigger] r[a] == p || s.contains(r[a]) by {
            if a < s.len() - 1 {
                assert(s[a] == r[a]);
            }
        }
    } else {
        let d = s.drop_last();
        lemma_upsert_elems(d, p);
        let q = upsert(d, p);
        assert forall|a: int| 0 <= a < r.len() implies #[trigger] r[a] == p || s.contains(r[a]) by {
            if a < q.len() {
                assert(r[a] == q[a]);
                if q[a] != p {
                    assert(d.contains(q[a]));
                    let j = choose|j: int| 0 <= j < d.len() && d[j] == q[a];
                    assert(s[j] == q[a]);
                }
            } else {
                assert(s[s.len() - 1] == r[a]);
            }
        }
    }
}

/// Putting a record whose files are canonical in its place keeps a
/// canonical list canonical.
pub proof fn lemma_upsert_wf(s: Seq<PluginView>, p: PluginView)
    requires
        plugins_wf(s),
        strictly_sorted(p.installed_files),
    ensures
        plugins_wf(upsert(s, p)),
    decreases s.len(),
{
    let r = upsert(s, p);
    if s.len() == 0 {
    } else if lex_lt(s.last().name, p.name) {
        assert forall|i: int, j: int| 0 <= i < j < r.len() implies #[trigger] lex_lt(
            r[i].name,
            r[j].name,
        ) by {
            if j == s.len() {
                if i < s.len() - 1 {
                    lemma_lex_trans(s[i].name, s.last().name, p.name);
                }
            } else {
                assert(lex_lt(s[i].name, s[j].name));
            }
        }
    } else if s.last().name == p.name {
        assert forall|i: int, j: int| 0 <= i < j < r.len() implies #[trigger] lex_lt(
            r[i].name,
            r[j].name,
        ) by {
            assert(lex_lt(s[i].name, s[j].name));
        }
    } else {
        let d = s.drop_last();
        let l = s.last();
        assert(plugins_wf(d)) by {
            assert forall|i: int, j: int| 0 <= i < j < d.len() implies #[trigger] lex_lt(
                d[i].name,
                d[j].name,
            ) by {
                assert(lex_lt(s[i].name, s[j].name));
            }
            assert forall|i: int| 0 <= i < d.len() implies strictly_sorted(
                #[trigger] d[i].installed_files,
            ) by {
                assert(strictly_sorted(s[i].installed_files));
            }
        }
        lemma_upsert_wf(d, p);
        lemma_upsert_elems(d, p);
        lemma_lex_total(l.name, p.name);
        let q = upsert(d, p);
        assert forall|a: int| 0 <= a < q.len() implies #[trigger] lex_lt(q[a].name, l.name) by {
            if q[a] != p {
                assert(d.contains(q[a]));
                let j = choose|j: int| 0 <= j < d.len() && d[j] == q[a];
                assert(lex_lt(s[j].name, s[s.len() - 1].name));
            }
        }
        assert forall|i: int, j: int| 0 <= i < j < r.len() implies #[trigger] lex_lt(
            r[i].name,
            r[j].name,
        ) by {
            if j < q.len() {
                assert(lex_lt(q[i].name, q[j].name));
            } else {
                assert(lex_lt(q[i].name, l.name));
            }
        }
        assert forall|i: int| 0 <= i < r.len() implies strictly_sorted(
            #[trigger] r[i].installed_files,
        ) by {
            if i < q.len() {
                assert(strictly_sorted(q[i].installed_files));
            } else {
                assert(strictly_sorted(s[s.len() - 1].installed_files));
            }
        }
    }
}

/// Puts `p` in its place by name in `v`, replacing a record of that name.
pub fn upsert_plugin(v: &mut Vec<Plugin>, p: Plugin)
    ensures
        pviews(final(v)@) == upsert(pviews(old(v)@), p@),
{
    let ghost s = pviews(v@);
    let mut i: usize = v.len();
    while i > 0 && str_lt(p.name.as_str(), v[i - 1].name.as_str())
        invariant
            i <= v@.len(),
            s == pviews(v@),
            forall|k: int| i <= k < s.len() ==> lex_lt(p@.name, #[trigger] s[k].name),
        decreases i,
    {
        i = i - 1;
    }
    proof {
        lemma_upsert_split(s, i as int, p@);
    }
    if i > 0 && str_eq(v[i - 1].name.as_str(), p.name.as_str()) {
        assert(s.take(i as int).last().name == p@.name);
        assert(s.take(i as int).drop_last() =~= s.take(i - 1));
        v.remove(i - 1);
        v.insert(i - 1, p);
        assert(pviews(v@) =~= s.take(i - 1).push(p@) + s.skip(i as int));
        return;
    }
    proof {
        if i > 0 {
            lemma_lex_total(s[i - 1].name, p@.name);
            assert(s.take(i as int).last() == s[i - 1]);
        }
    }
    v.insert(i, p);
    assert(pviews(v@) =~= s.take(i as int).push(p@) + s.skip(i as int));
}

/// The canonical form of any list of records is canonical.
pub proof fn lemma_canon_wf(s: Seq<PluginView>)
    ensures
        plugins_wf(canon_plugins(s)),
    decreases s.len(),
{
    if s.len() > 0 {
        lemma_canon_wf(s.drop_last());
        lemma_sort_dedup_is_sorted(s.last().installed_files);
        lemma_upsert_wf(canon_plugins(s.drop_last()), canon_files(s.last()));
    }
}

/// A canonical list of records is its own canonical form.
pub proof fn lemma_canon_identity(s: Seq<PluginView>)
    requires
        plugins_wf(s),
    ensures
        canon_plugins(s) == s,
    decreases s.len(),
{
    if s.len() > 0 {
        let d = s.drop_last();
        let l = s.last();
        assert(plugins_wf(d)) by {
            assert forall|i: int, j: int| 0 <= i < j < d.len() implies #[trigger] lex_lt(
                d[i].name,
                d[j].name,
            ) by {
                assert(lex_lt(s[i].name, s[j].name));
            }
            assert forall|i: int| 0 <= i < d.len() implies strictly_sorted(
                #[trigger] d[i].installed_files,
            ) by {
                assert(strictly_sorted(s[i].installed_files));
            }
        }
        lemma_canon_identity(d);
        assert(strictly_sorted(s[s.len() - 1].installed_files));
        lemma_sort_dedup_sorted(l.installed_files);
        assert(canon_files(l) == l);
        if d.len() > 0 {
            assert(lex_lt(s[s.len() - 2].name, s[s.len() - 1].name));
        }
        assert(d.push(l) =~= s);
    }
}

/// Persisting is stable: the canonical form, taken again, changes nothing.
/// Loading a saved state and saving it once more writes what was written
/// the first time, for any list of records.
pub proof fn lemma_canon_idempotent(s: Seq<PluginView>)
    ensures
        canon_plugins(canon_plugins(s)) == canon_plugins(s),
{
    lemma_canon_wf(s);
    lemma_canon_identity(canon_plugins(s));
}

/// The canonical form of the records `v`.
pub fn canonical_plugins(v: &Vec<Plugin>) -> (r: Vec<Plugin>)
    ensures
        pviews(r@) == canon_plugins(pviews(v@)),
        plugins_wf(pviews(r@)),
{
    let ghost s = pviews(v@);
    let mut r: Vec<Plugin> = Vec::new();
    let mut i: usize = 0;
    while i < v.len()
        invariant
            i <= v@.len(),
            s == pviews(v@),
            pviews(r@) == canon_plugins(s.take(i as int)),
        decreases v.len() - i,
    {
        let q = v[i].duplicate();
        let files = copy_strs(&q.installed_files);
        let q = q.with_installed_files(files);
        assert(s.take(i + 1).drop_last() =~= s.take(i as int));
        assert(s.take(i + 1).last() == v@[i as int]@);
        upsert_plugin(&mut r, q);
        i = i + 1;
    }
    assert(s.take(i as int) =~= s);
    proof {
        lemma_canon_wf(s);
    }
    r
}

/// The position of the record named `name` in `v`, if any.
pub fn find_plugin(v: &Vec<Plugin>, name: &str) -> (r: Option<usize>)
    ensures
        match r {
            Some(k) => k < v@.len() && map_of(pviews(v@)).contains_key(name@) && map_of(
                pviews(v@),
            )[name@] == v@[k as int]@,
            None => !map_of(pviews(v@)).contains_key(name@),
        },
{
    let ghost s = pviews(v@);
    let mut i: usize = v.len();
    assert(s.take(i as int) =~= s);
    while i > 0
        invariant
            i <= v@.len(),
            s == pviews(v@),
            map_of(s).contains_key(name@) == map_of(s.take(i as int)).contains_key(name@),
            map_of(s).contains_key(name@) ==> map_of(s)[name@] == map_of(s.take(i as int))[name@],
        decreases i,
    {
        assert(s.take(i as int).drop_last() =~= s.take(i - 1));
        assert(s.take(i as int).last() == v@[i - 1]@);
        if str_eq(v[i - 1].name.as_str(), name) {
            return Some(i - 1);
        }
        i = i - 1;
    }
    None
}

/// The records of `s` whose names are in `ks` (when `keep`) or are not in
/// `ks` (otherwise), in order.
pub open spec fn filter_names(s: Seq<PluginView>, ks: Set<Seq<char>>, keep: bool) -> Seq<
    PluginView,
>
    decreases s.len(),
{
    if s.len() == 0 {
        s
    } else {
        let r = filter_names(s.drop_last(), ks, keep);
        if ks.contains(s.last().name) == keep {
            r.push(s.last())
        } else {
            r
        }
    }
}

/// Filtering by name filters the records by name.
pub proof fn lemma_filter_map(s: Seq<PluginView>, ks: Set<Seq<char>>, keep: bool)
    ensures
        keep ==> map_of(filter_names(s, ks, keep)) == map_of(s).restrict(ks),
        !keep ==> map_of(filter_names(s, ks, keep)) == map_of(s).remove_keys(ks),
    decreases s.len(),
{
    if s.len() == 0 {
        assert(map_of(s).restrict(ks) =~= map_of(s));
        assert(map_of(s).remove_keys(ks) =~= map_of(s));
    } else {
        let d = s.drop_last();
        let l = s.last();
        let r = filter_names(d, ks, keep);
        lemma_filter_map(d, ks, keep);
        assert(r.push(l).drop_last() =~= r);
        assert(r.push(l).last() == l);
        if keep {
            assert(map_of(s).restrict(ks) =~= if ks.contains(l.name) {
                map_of(d).restrict(ks).insert(l.name, l)
            } else {
                map_of(d).restrict(ks)
            });
        } else {
            assert(map_of(s).remove_keys(ks) =~= if ks.contains(l.name) {
                map_of(d).remove_keys(ks)
            } else {
                map_of(d).remove_keys(ks).insert(l.name, l)
            });
        }
    }
}

proof fn lemma_filter_elems(s: Seq<PluginView>, ks: Set<Seq<char>>, keep: bool)
    ensures
        forall|a: int|
            0 <= a < filter_names(s, ks, keep).len() ==> s.contains(
                #[trigger] filter_names(s, ks, keep)[a],
            ),
    decreases s.len(),
{
    if s.len() > 0 {
        let d = s.drop_last();
        let r = filter_names(d, ks, keep);
        lemma_filter_elems(d, ks, keep);
        let t = filter_names(s, ks, keep);
        assert forall|a: int| 0 <= a < t.len() implies s.contains(#[trigger] t[a]) by {
            if a < r.len() {
                assert(t[a] == r[a]);
                assert(d.contains(r[a]));
                let j = choose|j: int| 0 <= j < d.len() && d[j] == r[a];
                assert(s[j] == r[a]);
            } else {
                assert(s[s.len() - 1] == t[a]);
            }
        }
    }
}

/// Filtering a canonical list of records keeps it canonical.
pub proof fn lemma_filter_wf(s: Seq<PluginView>, ks: Set<Seq<char>>, keep: bool)
    requires
        plugins_wf(s),
    ensures
        plugins_wf(filter_names(s, ks, keep)),
    decreases s.len(),
{
    if s.len() > 0 {
        let d = s.drop_last();
        let l = s.last();
        assert(plugins_wf(d)) by {
            assert forall|i: int, j: int| 0 <= i < j < d.len() implies #[trigger] lex_lt(
                d[i].name,
                d[j].name,
            ) by {
                assert(lex_lt(s[i].name, s[j].name));
            }
            assert forall|i: int| 0 <= i < d.len() implies strictly_sorted(
                #[trigger] d[i].installed_files,
            ) by {
                assert(strictly_sorted(s[i].installed_files));
            }
        }
        lemma_filter_wf(d, ks, keep);
        lemma_filter_elems(d, ks, keep);
        let r = filter_names(d, ks, keep);
        let t = filter_names(s, ks, keep);
        if ks.contains(l.name) == keep {
            assert forall|i: int, j: int| 0 <= i < j < t.len() implies #[trigger] lex_lt(
                t[i].name,
                t[j].name,
            ) by {
                if j < r.len() {
                    assert(lex_lt(r[i].name, r[j].name));
                } else {
                    assert(d.contains(r[i]));
                    let k = choose|k: int| 0 <= k < d.len() && d[k] == r[i];
                    assert(lex_lt(s[k].name, s[s.len() - 1].name));
                }
            }
            assert forall|i: int| 0 <= i < t.len() implies strictly_sorted(
                #[trigger] t[i].installed_files,
            ) by {
                if i < r.len() {
                    assert(strictly_sorted(r[i].installed_files));
                } else {
                    assert(strictly_sorted(s[s.len() - 1].installed_files));
                }
            }
        }
    }
}

/// Whether `names` holds `n`.
pub fn contains_str(names: &Vec<String>, n: &str) -> (r: bool)
    ensures
        r == str_views(names@).contains(n@),
{
    let mut i: usize = 0;
    while i < names.len()
        invariant
            i <= names@.len(),
            forall|k: int| 0 <= k < i ==> names@[k]@ != n@,
        decreases names.len() - i,
    {
        if str_eq(names[i].as_str(), n) {
            assert(str_views(names@)[i as int] == n@);
            return true;
        }
        i = i + 1;
    }
    assert forall|k: int| 0 <= k < str_views(names@).len() implies str_views(names@)[k] != n@ by {
        assert(names@[k]@ != n@);
    }
    false
}

/// The records of `v` whose names are in `names`, and those whose names are
/// not, each in order: `(taken, kept)`.
pub fn split_by_names(v: &Vec<Plugin>, names: &Vec<String>) -> (r: (Vec<Plugin>, Vec<Plugin>))
    ensures
        pviews(r.0@) == filter_names(pviews(v@), str_views(names@).to_set(), true),
        pviews(r.1@) == filter_names(pviews(v@), str_views(names@).to_set(), false),
{
    let ghost s = pviews(v@);
    let ghost ks = str_views(names@).to_set();
    let mut taken: Vec<Plugin> = Vec::new();
    let mut kept: Vec<Plugin> = Vec::new();
    let mut i: usize = 0;
    while i < v.len()
        invariant
            i <= v@.len(),
            s == pviews(v@),
            ks == str_views(names@).to_set(),
            pviews(taken@) == filter_names(s.take(i as int), ks, true),
            pviews(kept@) == filter_names(s.take(i as int), ks, false),
        decreases v.len() - i,
    {
        assert(s.take(i + 1).drop_last() =~= s.take(i as int));
        assert(s.take(i + 1).last() == v@[i as int]@);
        let q = v[i].duplicate();
        if contains_str(names, v[i].name.as_str()) {
            taken.push(q);
        } else {
            kept.push(q);
        }
        assert(pviews(taken@) =~= filter_names(s.take(i + 1), ks, true));
        assert(pviews(kept@) =~= filter_names(s.take(i + 1), ks, false));
        i = i + 1;
    }
    assert(s.take(i as int) =~= s);
    (taken, kept)
}

/// A point in time: whole seconds since the Unix epoch and nanoseconds past
/// them.
#[derive(Debug, Clone, Copy, PartialEq, Eq, Structural)]
pub struct Timestamp {
    pub secs: i64,
    pub nanos: u32,
}

/// The persisted record of which plugins are installed.
pub struct LockFile {
    /// The schema tag.
    pub version: String,
    /// When this lock state was first created. Saving keeps it, so that a
    /// saved state, loaded and saved again, is written unchanged.
    pub generated_at: Timestamp,
    /// The installed plugins, in increasing order of name.
    pub plugins: Vec<Plugin>,
}

/// What a `LockFile` holds, as mathematical values.
pub struct LockView {
    pub version: Seq<char>,
    pub generated_at: Timestamp,
    pub plugins: Seq<PluginView>,
}

impl View for LockFile {
    type V = LockView;

    open spec fn view(&self) -> LockView {
        LockView {
            version: self.version@,
            generated_at: self.generated_at,
            plugins: pviews(self.plugins@),
        }
    }
}

/// The canonical form of a lock state: the form in which it is written out.
pub open spec fn canonical(s: LockView) -> LockView {
    LockView { plugins: canon_plugins(s.plugins), ..s }
}

/// What was found where the lock state is kept.
pub enum StoredLock {
    /// Nothing is there yet: the first run.
    Missing,
    /// Something is there, but it cannot be read or parsed.
    Corrupt,
    /// A lock state was read back.
    Found(LockFile),
}

/// The schema tag of a fresh lock state.
pub open spec fn fresh_version() -> Seq<char> {
    "1.0"@
}

impl LockFile {
    /// The records are in canonical form.
    pub open spec fn wf(&self) -> bool {
        plugins_wf(self@.plugins)
    }

    /// The installed plugins by name.
    pub open spec fn installed(&self) -> Map<Seq<char>, PluginView> {
        map_of(self@.plugins)
    }

    /// An empty lock state, stamped with `generated_at`.
    pub fn fresh(generated_at: Timestamp) -> (r: LockFile)
        ensures
            r@ == (LockView { version: fresh_version(), generated_at, plugins: Seq::empty() }),
            r.wf(),
    {
        let r = LockFile { version: "1.0".to_owned(), generated_at, plugins: Vec::new() };
        assert(r@.plugins =~= Seq::<PluginView>::empty());
        r
    }

    /// The lock state to work on, from what was found where it is kept: an
    /// empty state stamped `now` when nothing is there, the canonical form of
    /// what was read back, and `CorruptState` when it could not be read.
    pub fn load(stored: StoredLock, now: Timestamp) -> (r: Result<LockFile, FinError>)
        ensures
            match stored {
                StoredLock::Missing => r is Ok && r->Ok_0@ == (LockView {
                    version: fresh_version(),
                    generated_at: now,
                    plugins: Seq::empty(),
                }),
                StoredLock::Corrupt => r matches Err(FinError::CorruptState),
                StoredLock::Found(raw) => r is Ok && r->Ok_0@ == canonical(raw@),
            },
            r is Ok ==> r->Ok_0.wf(),
    {
        match stored {
            StoredLock::Missing => Ok(LockFile::fresh(now)),
            StoredLock::Corrupt => Err(FinError::CorruptState),
            StoredLock::Found(raw) => {
                let plugins = canonical_plugins(&raw.plugins);
                Ok(LockFile { version: raw.version, generated_at: raw.generated_at, plugins })
            },
        }
    }

    /// The lock state as it is written out: its canonical form.
    pub fn save(&self) -> (r: LockFile)
        ensures
            r@ == canonical(self@),
            r.wf(),
    {
        LockFile {
            version: copy_str(self.version.as_str()),
            generated_at: self.generated_at,
            plugins: canonical_plugins(&self.plugins),
        }
    }
}

/// Saving is stable: what `load` makes of a saved state saves to the very
/// same state, for any lock state.
pub proof fn lemma_save_load_save(s: LockView)
    ensures
        canonical(canonical(canonical(s))) == canonical(s),
{
    lemma_canon_idempotent(s.plugins);
    lemma_canon_idempotent(canon_plugins(s.plugins));
}

} // verus!
