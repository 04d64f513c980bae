//! Plugin records: identity, the parser for plugin references, and the
//! record of the files an install wrote.

use vstd::prelude::*;
use crate::error::FinError;
use crate::lock::{filter_names, find_plugin, map_of};
use crate::sorted::{lemma_sort_dedup_set, sort_dedup, sort_dedup_strs, str_views, strictly_sorted};
use crate::text::{
    after_last, chars_of, copy_str, find_first, lemma_find_first, index_after_last, index_of_first, str_eq,
    is_dot_name, is_dot_segment, trim_path, trimmed_path_len,
};

verus! {

/// A unit of installable content.
///
/// Two records stand for the same plugin when their names match: a name is
/// the identity, whatever pin or source the records carry.
#[derive(Debug, Clone, Default)]
pub struct Plugin {
    pub name: String,
    pub source: String,
    pub commit_hash: Option<String>,
    pub branch: Option<String>,
    /// The files the last install wrote, relative to the configuration
    /// directory, in increasing order and each once.
    pub installed_files: Vec<String>,
    pub checksum: Option<String>,
}

/// What a `Plugin` holds, as mathematical values.
pub struct PluginView {
    pub name: Seq<char>,
    pub source: Seq<char>,
    pub commit_hash: Option<Seq<char>>,
    pub branch: Option<Seq<char>>,
    pub installed_files: Seq<Seq<char>>,
    pub checksum: Option<Seq<char>>,
}

pub open spec fn opt_view(o: Option<String>) -> Option<Seq<char>> {
    match o {
        Some(s) => Some(s@),
        None => None,
    }
}

impl View for Plugin {
    type V = PluginView;

    open spec fn view(&self) -> PluginView {
        PluginView {
            name: self.name@,
            source: self.source@,
            commit_hash: opt_view(self.commit_hash),
            branch: opt_view(self.branch),
            installed_files: str_views(self.installed_files@),
            checksum: opt_view(self.checksum),
        }
    }
}

/// The views of a list of plugins.
pub open spec fn pviews(s: Seq<Plugin>) -> Seq<PluginView> {
    s.map_values(|p: Plugin| p@)
}

/// The names of a list of plugin views.
pub open spec fn pnames(s: Seq<PluginView>) -> Seq<Seq<char>> {
    s.map_values(|p: PluginView| p.name)
}

/// The address of the archive of `repo` at `git_ref`.
pub open spec fn archive_url(repo: Seq<char>, git_ref: Seq<char>) -> Seq<char> {
    "https://github.com/"@ + repo + "/archive/"@ + git_ref + ".tar.gz"@
}

/// The last `/`-separated segment of `p`.
pub open spec fn last_segment(p: Seq<char>) -> Seq<char> {
    p.skip(after_last(p, '/'))
}

/// A fresh record: nothing installed, no pin.
pub open spec fn fresh_plugin(name: Seq<char>, source: Seq<char>) -> PluginView {
    PluginView {
        name,
        source,
        commit_hash: None,
        branch: None,
        installed_files: Seq::empty(),
        checksum: None,
    }
}

/// The repository part of a remote reference: what precedes the first `@`.
pub open spec fn spec_repo(s: Seq<char>) -> Seq<char> {
    s.take(find_first(s, '@'))
}

/// The version part of a remote reference: all that follows the first `@`,
/// or `HEAD` when there is no `@`.
pub open spec fn spec_ref(s: Seq<char>) -> Seq<char> {
    let at = find_first(s, '@');
    if at < s.len() {
        s.skip(at + 1)
    } else {
        "HEAD"@
    }
}

/// The record a plugin reference stands for, or `None` when it names no
/// plugin. A local path is named by its last component (trailing
/// separators and `.` components aside; `..` names none) and fetched from
/// itself; a remote reference `owner/repo[@ref]` is named by its last
/// segment and fetched from the archive of `owner/repo` at the ref.
pub open spec fn spec_parse(s: Seq<char>, is_local_path: bool) -> Option<PluginView> {
    if is_local_path {
        let name = last_segment(trim_path(s));
        if name.len() == 0 || is_dot_name(name) {
            None
        } else {
            Some(fresh_plugin(name, s))
        }
    } else {
        let name = last_segment(spec_repo(s));
        if name.len() == 0 {
            None
        } else {
            Some(fresh_plugin(name, archive_url(spec_repo(s), spec_ref(s))))
        }
    }
}

fn copy_opt(o: &Option<String>) -> (r: Option<String>)
    ensures
        opt_view(r) == opt_view(*o),
{
    match o {
        Some(s) => Some(copy_str(s.as_str())),
        None => None,
    }
}

/// A copy of a list of strings.
pub fn copy_strs(v: &Vec<String>) -> (r: Vec<String>)
    ensures
        str_views(r@) == str_views(v@),
{
    let mut r: Vec<String> = Vec::new();
    let mut i: usize = 0;
    while i < v.len()
        invariant
            i <= v@.len(),
            r@.len() == i,
            forall|k: int| 0 <= k < i ==> (#[trigger] r@[k])@ == v@[k]@,
        decreases v.len() - i,
    {
        r.push(copy_str(v[i].as_str()));
        i = i + 1;
    }
    assert(str_views(r@) =~= str_views(v@));
    r
}

impl Plugin {
    /// The installed-file list is in increasing order, each file once.
    pub open spec fn wf(&self) -> bool {
        strictly_sorted(self@.installed_files)
    }

    /// Parses a plugin reference: `owner/repo[@ref]`, or a path that the
    /// caller found to name an existing local directory.
    pub fn parse(spec: &str, is_local_path: bool) -> (r: Result<Plugin, FinError>)
        ensures
            match r {
                Ok(p) => spec_parse(spec@, is_local_path) == Some(p@) && p.wf(),
                Err(e) => spec_parse(spec@, is_local_path) is None && e == FinError::InvalidSpec,
            },
    {
        let cs = chars_of(spec);
        if is_local_path {
            let end = trimmed_path_len(&cs);
            let start = index_after_last(&cs, end, '/');
            assert(cs@.take(end as int).skip(start as int) =~= cs@.subrange(
                start as int,
                end as int,
            ));
            if start == end || is_dot_segment(&cs, start, end) {
                return Err(FinError::InvalidSpec);
            }
            let name = spec.substring_char(start, end).to_owned();
            let source = copy_str(spec);
            assert(name@ =~= last_segment(trim_path(spec@)));
            let p = Plugin {
                name,
                source,
                commit_hash: None,
                branch: None,
                installed_files: Vec::new(),
                checksum: None,
            };
            assert(p@.installed_files =~= Seq::<Seq<char>>::empty());
            Ok(p)
        } else {
            let at = index_of_first(&cs, '@');
            let start = index_after_last(&cs, at, '/');
            assert(cs@.take(at as int) == spec_repo(spec@));
            if start == at {
                return Err(FinError::InvalidSpec);
            }
            let name = spec.substring_char(start, at).to_owned();
            assert(name@ =~= last_segment(spec_repo(spec@)));
            let repo = spec.substring_char(0, at);
            let mut source = "https://github.com/".to_owned();
            source.append(repo);
            source.append("/archive/");
            if at < cs.len() {
                source.append(spec.substring_char(at + 1, cs.len()));
            } else {
                source.append("HEAD");
            }
            source.append(".tar.gz");
            assert(source@ =~= archive_url(spec_repo(spec@), spec_ref(spec@)));
            let p = Plugin {
                name,
                source,
                commit_hash: None,
                branch: None,
                installed_files: Vec::new(),
                checksum: None,
            };
            assert(p@.installed_files =~= Seq::<Seq<char>>::empty());
            Ok(p)
        }
    }

    /// A copy of this record.
    pub fn duplicate(&self) -> (r: Plugin)
        ensures
            r@ == self@,
    {
        Plugin {
            name: copy_str(self.name.as_str()),
            source: copy_str(self.source.as_str()),
            commit_hash: copy_opt(&self.commit_hash),
            branch: copy_opt(&self.branch),
            installed_files: copy_strs(&self.installed_files),
            checksum: copy_opt(&self.checksum),
        }
    }

    /// This record after an install that wrote `files`: the file list is
    /// replaced by those files, in increasing order and each once.
    pub fn with_installed_files(self, files: Vec<String>) -> (r: Plugin)
        ensures
            r@ == (PluginView { installed_files: sort_dedup(str_views(files@)), ..self@ }),
            r@.installed_files.to_set() == str_views(files@).to_set(),
            r.wf(),
    {
        proof {
            lemma_sort_dedup_set(str_views(files@));
        }
        let sorted = sort_dedup_strs(files);
        Plugin { installed_files: sorted, ..self }
    }
}

impl PartialEq for Plugin {
    fn eq(&self, other: &Plugin) -> (r: bool) {
        str_eq(self.name.as_str(), other.name.as_str())
    }
}

impl vstd::std_specs::cmp::PartialEqSpecImpl for Plugin {
    open spec fn obeys_eq_spec() -> bool {
        true
    }

    open spec fn eq_spec(&self, other: &Plugin) -> bool {
        self.name@ == other.name@
    }
}

impl Eq for Plugin {
}

/// A remote reference without a version names the same plugin, fetched
/// from the same archive, as that reference with `@HEAD` appended.
pub proof fn lemma_default_ref(s: Seq<char>)
    requires
        !s.contains('@'),
    ensures
        spec_parse(s, false) == spec_parse(s + "@HEAD"@, false),
{
    reveal_strlit("@HEAD");
    reveal_strlit("HEAD");
    let t = s + "@HEAD"@;
    assert forall|k: int| 0 <= k < s.len() implies s[k] != '@' by {
        if s[k] == '@' {
            assert(s.contains('@'));
        }
    }
    lemma_find_first(s, '@', s.len() as int);
    assert(t[s.len() as int] == '@');
    lemma_find_first(t, '@', s.len() as int);
    assert(t.take(s.len() as int) =~= s);
    assert(s.take(s.len() as int) =~= s);
    assert(t.skip(s.len() as int + 1) =~= "HEAD"@);
}

/// A reference that names an existing local directory, and whose last
/// component names an entry, is recorded with the path itself as its source
/// and that component as its name.
pub proof fn lemma_local_source(s: Seq<char>)
    requires
        last_segment(trim_path(s)).len() > 0,
        !is_dot_name(last_segment(trim_path(s))),
    ensures
        spec_parse(s, true) is Some,
        spec_parse(s, true)->Some_0.source == s,
        spec_parse(s, true)->Some_0.name == last_segment(trim_path(s)),
{
}

/// Parses each reference, with whether it names an existing local
/// directory; fails on a reference that names no plugin, before any fetch.
pub fn parse_specs(specs: &Vec<(String, bool)>) -> (r: Result<Vec<Plugin>, FinError>)
    ensures
        match r {
            Ok(v) => v@.len() == specs@.len() && forall|i: int|
                0 <= i < specs@.len() ==> spec_parse(specs@[i].0@, specs@[i].1) == Some(
                    #[trigger] v@[i]@,
                ) && v@[i].wf(),
            Err(e) => e == FinError::InvalidSpec && exists|i: int|
                0 <= i < specs@.len() && (#[trigger] spec_parse(specs@[i].0@, specs@[i].1)) is None,
        },
{
    let mut v: Vec<Plugin> = Vec::new();
    let mut i: usize = 0;
    while i < specs.len()
        invariant
            i <= specs@.len(),
            v@.len() == i,
            forall|k: int|
                0 <= k < i ==> spec_parse(specs@[k].0@, specs@[k].1) == Some(#[trigger] v@[k]@)
                    && v@[k].wf(),
        decreases specs.len() - i,
    {
        match Plugin::parse(specs[i].0.as_str(), specs[i].1) {
            Ok(p) => v.push(p),
            Err(e) => return Err(e),
        }
        i = i + 1;
    }
    Ok(v)
}

/// How a plugin's tree is brought into a scratch directory.
pub enum FetchPlan {
    /// Copy the tree of this local directory.
    CopyTree(String),
    /// Download and unpack the archive at this address.
    Download(String),
}

impl Plugin {
    /// How to fetch this plugin: a source that names an existing local
    /// directory is copied, with no download; any other is downloaded.
    pub fn fetch_plan(&self, source_is_local_dir: bool) -> (r: FetchPlan)
        ensures
            match r {
                FetchPlan::CopyTree(p) => source_is_local_dir && p@ == self.source@,
                FetchPlan::Download(u) => !source_is_local_dir && u@ == self.source@,
            },
    {
        let source = copy_str(self.source.as_str());
        if source_is_local_dir {
            FetchPlan::CopyTree(source)
        } else {
            FetchPlan::Download(source)
        }
    }
}

/// Removal of already installed plugins from a list of plugins to install.
pub trait PluginVecExt: Sized {
    /// Whether `after` is `before` without the plugins whose names have a
    /// record in `installed`.
    spec fn is_diff(before: Self, installed: Seq<PluginView>, after: Self) -> bool;

    /// Drops the plugins that `installed` holds a record of, by name.
    fn diff_mut(&mut self, installed: &Vec<Plugin>)
        ensures
            Self::is_diff(*old(self), pviews(installed@), *final(self)),
    ;
}

impl PluginVecExt for Vec<Plugin> {
    open spec fn is_diff(before: Vec<Plugin>, installed: Seq<PluginView>, after: Vec<Plugin>) -> bool {
        pviews(after@) == filter_names(pviews(before@), map_of(installed).dom(), false)
    }

    fn diff_mut(&mut self, installed: &Vec<Plugin>) {
        let ghost s = pviews(self@);
        let ghost ks = map_of(pviews(installed@)).dom();
        let mut r: Vec<Plugin> = Vec::new();
        let mut i: usize = 0;
        while i < self.len()
            invariant
                i <= self@.len(),
                s == pviews(self@),
                ks == map_of(pviews(installed@)).dom(),
                pviews(r@) == filter_names(s.take(i as int), ks, false),
            decreases self.len() - i,
        {
            assert(s.take(i + 1).drop_last() =~= s.take(i as int));
            assert(s.take(i + 1).last() == self@[i as int]@);
            if find_plugin(installed, self[i].name.as_str()).is_none() {
                r.push(self[i].duplicate());
            }
            assert(pviews(r@) =~= filter_names(s.take(i + 1), ks, false));
            i = i + 1;
        }
        assert(s.take(i as int) =~= s);
        *self = r;
    }
}

} // verus!
