//! The engine: reconciles the desired plugins against the lock state and
//! keeps the lock state up to date as plugins are installed, updated and
//! removed. Fetching and copying files happen outside; the engine decides
//! what to fetch and records what came of it.

use vstd::prelude::*;
use crate::error::FinError;
use crate::lock::{
    canon_files, filter_names, insert_all, lemma_filter_map, lemma_filter_wf,
    lemma_map_of_names, lemma_upsert_map, lemma_upsert_wf, map_of, plugins_wf, split_by_names, upsert_all,
    upsert_plugin, find_plugin, LockFile, LockView, StoredLock, Timestamp,
};
use crate::plugin::{copy_strs, pnames, pviews, Plugin, PluginVecExt, PluginView};
use crate::sorted::str_views;
use crate::text::{copy_str, lemma_lex_asym, lex_lt, str_eq};

verus! {

/// What came of fetching and installing one plugin.
pub enum InstallOutcome {
    /// The plugin's files were copied; the record lists them.
    Installed(Plugin),
    /// The plugin named here could not be fetched or installed.
    Failed(String, FinError),
}

/// The records that were installed, with their file lists in canonical form.
pub open spec fn successes(o: Seq<InstallOutcome>) -> Seq<PluginView>
    decreases o.len(),
{
    if o.len() == 0 {
        Seq::empty()
    } else {
        let r = successes(o.drop_last());
        match o.last() {
            InstallOutcome::Installed(p) => r.push(canon_files(p@)),
            InstallOutcome::Failed(_, _) => r,
        }
    }
}

/// The names of the plugins that failed.
pub open spec fn failures(o: Seq<InstallOutcome>) -> Seq<Seq<char>>
    decreases o.len(),
{
    if o.len() == 0 {
        Seq::empty()
    } else {
        let r = failures(o.drop_last());
        match o.last() {
            InstallOutcome::Installed(_) => r,
            InstallOutcome::Failed(n, _) => r.push(n@),
        }
    }
}

/// The records of `s`, each name once: a record whose name an earlier one
/// already took is dropped.
pub open spec fn first_of_names(s: Seq<PluginView>) -> Seq<PluginView>
    decreases s.len(),
{
    if s.len() == 0 {
        s
    } else {
        let r = first_of_names(s.drop_last());
        if pnames(r).contains(s.last().name) {
            r
        } else {
            r.push(s.last())
        }
    }
}

/// No two records share a name.
pub open spec fn distinct_names(s: Seq<PluginView>) -> bool {
    forall|i: int, j: int| 0 <= i < j < s.len() ==> s[i].name != s[j].name
}

/// The plugins to fetch: the desired ones (all locked ones when none are
/// given), less those already installed unless `force` asks to reinstall,
/// each name once.
pub open spec fn to_install(
    lock: Seq<PluginView>,
    desired: Option<Seq<PluginView>>,
    force: bool,
) -> Seq<PluginView> {
    let base = match desired {
        Some(d) => d,
        None => lock,
    };
    if force {
        first_of_names(base)
    } else {
        first_of_names(filter_names(base, map_of(lock).dom(), false))
    }
}

/// The names among `ns` that have no record in `m`, in order.
pub open spec fn missing_names(m: Map<Seq<char>, PluginView>, ns: Seq<Seq<char>>) -> Seq<Seq<char>>
    decreases ns.len(),
{
    if ns.len() == 0 {
        ns
    } else {
        let r = missing_names(m, ns.drop_last());
        if m.contains_key(ns.last()) {
            r
        } else {
            r.push(ns.last())
        }
    }
}

/// The records of `m` named by `ns`, in the order of `ns`; names without a
/// record, and names given before, are passed over.
pub open spec fn named_records(m: Map<Seq<char>, PluginView>, ns: Seq<Seq<char>>) -> Seq<
    PluginView,
>
    decreases ns.len(),
{
    if ns.len() == 0 {
        Seq::empty()
    } else {
        let r = named_records(m, ns.drop_last());
        if m.contains_key(ns.last()) && !ns.drop_last().contains(ns.last()) {
            r.push(m[ns.last()])
        } else {
            r
        }
    }
}

/// What installing a batch came to.
pub struct InstallSummary {
    /// The plugins recorded as installed, in the order of the outcomes.
    pub installed: Vec<String>,
    /// The plugins that failed, in the order of the outcomes.
    pub failed: Vec<String>,
}

/// What removing a batch came to.
pub struct Removal {
    /// The records dropped from the lock state: their files are to be deleted.
    pub removed: Vec<Plugin>,
    /// The requested names that were not installed.
    pub not_installed: Vec<String>,
}

/// The engine's state: where plugins go, and the lock state.
pub struct Fin {
    /// The installation root, under which plugin files are copied.
    pub fin_path: String,
    /// The configuration directory, which recorded file paths are relative to.
    pub fish_config_dir: String,
    pub lock_file: LockFile,
}

impl Fin {
    pub open spec fn wf(&self) -> bool {
        self.lock_file.wf()
    }

    /// An engine over the lock state found where it is kept; a fresh lock
    /// state is stamped `now`. Plugins go to `fin_path`, or to the
    /// configuration directory when it is `None`.
    pub fn new(
        fin_path: Option<String>,
        fish_config_dir: String,
        stored: StoredLock,
        now: Timestamp,
    ) -> (r: Result<
        Fin,
        FinError,
    >)
        ensures
            match r {
                Ok(f) => f.wf() && !(stored is Corrupt) && f.fish_config_dir@ == fish_config_dir@
                    && f.fin_path@ == (match fin_path {
                    Some(p) => p@,
                    None => fish_config_dir@,
                }) && match stored {
                    StoredLock::Found(raw) => f.lock_file@ == crate::lock::canonical(raw@),
                    StoredLock::Missing => f.lock_file@ == (LockView {
                        version: crate::lock::fresh_version(),
                        generated_at: now,
                        plugins: Seq::empty(),
                    }),
                    StoredLock::Corrupt => false,
                },
                Err(e) => stored is Corrupt && e == FinError::CorruptState,
            },
    {
        let lock_file = match LockFile::load(stored, now) {
            Ok(l) => l,
            Err(e) => return Err(e),
        };
        let fin_path = match fin_path {
            Some(p) => p,
            None => copy_str(fish_config_dir.as_str()),
        };
        Ok(Fin { fin_path, fish_config_dir, lock_file })
    }

    /// The plugins to fetch and install: `desired` (every locked plugin when
    /// it is `None`), less those already installed unless `force` is set.
    pub fn get_plugins_to_install(&self, desired: Option<Vec<Plugin>>, force: bool) -> (r: Vec<
        Plugin,
    >)
        ensures
            pviews(r@) == to_install(
                self.lock_file@.plugins,
                match desired {
                    Some(d) => Some(pviews(d@)),
                    None => None,
                },
                force,
            ),
            distinct_names(pviews(r@)),
    {
        let mut base = match desired {
            Some(d) => d,
            None => copy_plugins(&self.lock_file.plugins),
        };
        if !force {
            base.diff_mut(&self.lock_file.plugins);
        }
        dedup_by_name(&base)
    }

    /// Records what came of a batch of installs: each installed plugin
    /// enters the lock state, replacing a record of the same name; failed
    /// ones leave it as it was.
    pub fn install(&mut self, outcomes: &Vec<InstallOutcome>) -> (r: InstallSummary)
        requires
            old(self).wf(),
        ensures
            final(self).wf(),
            final(self).fin_path == old(self).fin_path,
            final(self).fish_config_dir == old(self).fish_config_dir,
            final(self).lock_file@ == (LockView {
                plugins: upsert_all(old(self).lock_file@.plugins, successes(outcomes@)),
                ..old(self).lock_file@
            }),
            final(self).lock_file.installed() == insert_all(
                old(self).lock_file.installed(),
                successes(outcomes@),
            ),
            str_views(r.installed@) == pnames(successes(outcomes@)),
            str_views(r.failed@) == failures(outcomes@),
    {
        let ghost s0 = self.lock_file@.plugins;
        let mut installed: Vec<String> = Vec::new();
        let mut failed: Vec<String> = Vec::new();
        let mut i: usize = 0;
        while i < outcomes.len()
            invariant
                i <= outcomes@.len(),
                self.fin_path == old(self).fin_path,
                self.fish_config_dir == old(self).fish_config_dir,
                self.lock_file.version == old(self).lock_file.version,
                self.lock_file.generated_at == old(self).lock_file.generated_at,
                s0 == old(self).lock_file@.plugins,
                self.lock_file@.plugins == upsert_all(s0, successes(outcomes@.take(i as int))),
                map_of(self.lock_file@.plugins) == insert_all(
                    map_of(s0),
                    successes(outcomes@.take(i as int)),
                ),
                plugins_wf(self.lock_file@.plugins),
                str_views(installed@) == pnames(successes(outcomes@.take(i as int))),
                str_views(failed@) == failures(outcomes@.take(i as int)),
            decreases outcomes.len() - i,
        {
            let ghost t = outcomes@.take(i + 1);
            assert(t.drop_last() =~= outcomes@.take(i as int));
            assert(t.last() == outcomes@[i as int]);
            match &outcomes[i] {
                InstallOutcome::Installed(p) => {
                    let q = p.duplicate();
                    let files = copy_strs(&q.installed_files);
                    let q = q.with_installed_files(files);
                    let name = copy_str(q.name.as_str());
                    assert(q@ == canon_files(p@));
                    assert(successes(t) == successes(outcomes@.take(i as int)).push(q@));
                    assert(successes(t).drop_last() =~= successes(outcomes@.take(i as int)));
                    proof {
                        lemma_upsert_map(self.lock_file@.plugins, q@);
                        lemma_upsert_wf(self.lock_file@.plugins, q@);
                    }
                    upsert_plugin(&mut self.lock_file.plugins, q);
                    let ghost before = installed@;
                    installed.push(name);
                    assert(pnames(successes(t)) =~= pnames(successes(outcomes@.take(i as int))).push(
                        q@.name,
                    ));
                    assert(str_views(installed@) =~= str_views(before).push(q@.name));
                    assert(str_views(installed@) =~= pnames(successes(t)));
                },
                InstallOutcome::Failed(n, _) => {
                    assert(successes(t) == successes(outcomes@.take(i as int)));
                    failed.push(copy_str(n.as_str()));
                    assert(str_views(failed@) =~= failures(t));
                },
            }
            i = i + 1;
        }
        assert(outcomes@.take(i as int) =~= outcomes@);
        InstallSummary { installed, failed }
    }

    /// Drops the named plugins from the lock state and hands back their
    /// records, whose files are to be deleted; names that are not installed
    /// are reported and otherwise left alone.
    pub fn remove(&mut self, names: &Vec<String>) -> (r: Removal)
        requires
            old(self).wf(),
        ensures
            final(self).wf(),
            final(self).fin_path == old(self).fin_path,
            final(self).fish_config_dir == old(self).fish_config_dir,
            final(self).lock_file@ == (LockView {
                plugins: filter_names(
                    old(self).lock_file@.plugins,
                    str_views(names@).to_set(),
                    false,
                ),
                ..old(self).lock_file@
            }),
            final(self).lock_file.installed() == old(self).lock_file.installed().remove_keys(
                str_views(names@).to_set(),
            ),
            pviews(r.removed@) == filter_names(
                old(self).lock_file@.plugins,
                str_views(names@).to_set(),
                true,
            ),
            map_of(pviews(r.removed@)) == old(self).lock_file.installed().restrict(
                str_views(names@).to_set(),
            ),
            str_views(r.not_installed@) == missing_names(
                old(self).lock_file.installed(),
                str_views(names@),
            ),
    {
        let ghost s0 = self.lock_file@.plugins;
        let ghost ks = str_views(names@).to_set();
        let mut not_installed: Vec<String> = Vec::new();
        let mut i: usize = 0;
        while i < names.len()
            invariant
                i <= names@.len(),
                s0 == self.lock_file@.plugins,
                str_views(not_installed@) == missing_names(
                    map_of(s0),
                    str_views(names@).take(i as int),
                ),
            decreases names.len() - i,
        {
            let ghost t = str_views(names@).take(i + 1);
            assert(t.drop_last() =~= str_views(names@).take(i as int));
            assert(t.last() == names@[i as int]@);
            if find_plugin(&self.lock_file.plugins, names[i].as_str()).is_none() {
                not_installed.push(copy_str(names[i].as_str()));
                assert(str_views(not_installed@) =~= missing_names(map_of(s0), t));
            }
            i = i + 1;
        }
        assert(str_views(names@).take(i as int) =~= str_views(names@));
        let (removed, kept) = split_by_names(&self.lock_file.plugins, names);
        proof {
            lemma_filter_map(s0, ks, true);
            lemma_filter_map(s0, ks, false);
            lemma_filter_wf(s0, ks, false);
        }
        self.lock_file.plugins = kept;
        Removal { removed, not_installed }
    }

    /// The plugins to reinstall in place: every locked plugin when `names`
    /// is empty, else the locked records of the given names, in their order
    /// and each once; names that are not installed are passed over.
    pub fn update(&self, names: &Vec<String>) -> (r: Vec<Plugin>)
        ensures
            names@.len() == 0 ==> pviews(r@) == self.lock_file@.plugins,
            names@.len() > 0 ==> pviews(r@) == named_records(
                self.lock_file.installed(),
                str_views(names@),
            ),
            self.wf() ==> distinct_names(pviews(r@)),
    {
        if names.len() == 0 {
            proof {
                if self.wf() {
                    assert forall|i: int, j: int| 0 <= i < j < self.lock_file@.plugins.len() implies
                        self.lock_file@.plugins[i].name != self.lock_file@.plugins[j].name by {
                        assert(lex_lt(self.lock_file@.plugins[i].name, self.lock_file@.plugins[j].name));
                        lemma_lex_asym(self.lock_file@.plugins[i].name, self.lock_file@.plugins[j].name);
                    }
                }
            }
            return copy_plugins(&self.lock_file.plugins);
        }
        let ghost m = self.lock_file.installed();
        let mut r: Vec<Plugin> = Vec::new();
        let mut i: usize = 0;
        while i < names.len()
            invariant
                i <= names@.len(),
                m == map_of(self.lock_file@.plugins),
                pviews(r@) == named_records(m, str_views(names@).take(i as int)),
                distinct_names(pviews(r@)),
                forall|k: int|
                    0 <= k < r@.len() ==> str_views(names@).take(i as int).contains(
                        #[trigger] pviews(r@)[k].name,
                    ),
            decreases names.len() - i,
        {
            let ghost t = str_views(names@).take(i + 1);
            let ghost n = names@[i as int]@;
            assert(t.drop_last() =~= str_views(names@).take(i as int));
            assert(t.last() == n);
            let seen = contains_str_before(names, i, names[i].as_str());
            match find_plugin(&self.lock_file.plugins, names[i].as_str()) {
                Some(k) => {
                    if !seen {
                        proof {
                            lemma_map_of_names(self.lock_file@.plugins, n);
                        }
                        let ghost before = pviews(r@);
                        r.push(self.lock_file.plugins[k].duplicate());
                        assert(pviews(r@) =~= before.push(m[n]));
                        assert(pviews(r@) =~= named_records(m, t));
                        assert forall|a: int, b: int| 0 <= a < b < pviews(r@).len() implies pviews(
                            r@,
                        )[a].name != pviews(r@)[b].name by {
                            if b == before.len() {
                                assert(str_views(names@).take(i as int).contains(before[a].name));
                            }
                        }
                    }
                },
                None => {},
            }
            assert forall|k: int| 0 <= k < r@.len() implies t.contains(
                #[trigger] pviews(r@)[k].name,
            ) by {
                if k < r@.len() && str_views(names@).take(i as int).contains(pviews(r@)[k].name) {
                    let j = choose|j: int|
                        0 <= j < i && str_views(names@).take(i as int)[j] == pviews(r@)[k].name;
                    assert(t[j] == pviews(r@)[k].name);
                } else {
                    assert(t[i as int] == pviews(r@)[k].name);
                }
            }
            i = i + 1;
        }
        assert(str_views(names@).take(i as int) =~= str_views(names@));
        r
    }

    /// The names of the installed plugins, in increasing order.
    pub fn list(&self) -> (r: Vec<String>)
        ensures
            str_views(r@) == pnames(self.lock_file@.plugins),
            self.wf() ==> forall|i: int, j: int|
                0 <= i < j < r@.len() ==> #[trigger] lex_lt(r@[i]@, r@[j]@),
    {
        let mut r: Vec<String> = Vec::new();
        let mut i: usize = 0;
        while i < self.lock_file.plugins.len()
            invariant
                i <= self.lock_file@.plugins.len(),
                r@.len() == i,
                forall|k: int| 0 <= k < i ==> (#[trigger] r@[k])@ == self.lock_file.plugins@[k].name@,
            decreases self.lock_file.plugins.len() - i,
        {
            r.push(copy_str(self.lock_file.plugins[i].name.as_str()));
            i = i + 1;
        }
        assert(str_views(r@) =~= pnames(self.lock_file@.plugins));
        assert(self.wf() ==> forall|i: int, j: int|
            0 <= i < j < r@.len() ==> #[trigger] lex_lt(r@[i]@, r@[j]@)) by {
            if self.wf() {
                assert forall|i: int, j: int| 0 <= i < j < r@.len() implies #[trigger] lex_lt(
                    r@[i]@,
                    r@[j]@,
                ) by {
                    assert(lex_lt(self.lock_file@.plugins[i].name, self.lock_file@.plugins[j].name));
                }
            }
        }
        r
    }
}

/// Whether `names[..end]` holds `n`.
pub fn contains_str_before(names: &Vec<String>, end: usize, n: &str) -> (r: bool)
    requires
        end <= names@.len(),
    ensures
        r == str_views(names@).take(end as int).contains(n@),
{
    let ghost t = str_views(names@).take(end as int);
    let mut i: usize = 0;
    while i < end
        invariant
            i <= end,
            end <= names@.len(),
            t == str_views(names@).take(end as int),
            forall|k: int| 0 <= k < i ==> names@[k]@ != n@,
        decreases end - i,
    {
        if str_eq(names[i].as_str(), n) {
            assert(t[i as int] == n@);
            return true;
        }
        i = i + 1;
    }
    assert forall|k: int| 0 <= k < t.len() implies t[k] != n@ by {
        assert(names@[k]@ != n@);
    }
    false
}

/// Whether a record of `v` is named `n`.
pub fn has_name(v: &Vec<Plugin>, n: &str) -> (r: bool)
    ensures
        r == pnames(pviews(v@)).contains(n@),
{
    let mut i: usize = 0;
    while i < v.len()
        invariant
            i <= v@.len(),
            forall|k: int| 0 <= k < i ==> v@[k].name@ != n@,
        decreases v.len() - i,
    {
        if str_eq(v[i].name.as_str(), n) {
            assert(pnames(pviews(v@))[i as int] == n@);
            return true;
        }
        i = i + 1;
    }
    assert forall|k: int| 0 <= k < pnames(pviews(v@)).len() implies pnames(pviews(v@))[k] != n@ by {
        assert(v@[k].name@ != n@);
    }
    false
}

/// The records of `v`, each name once, the first of each name kept.
pub fn dedup_by_name(v: &Vec<Plugin>) -> (r: Vec<Plugin>)
    ensures
        pviews(r@) == first_of_names(pviews(v@)),
        distinct_names(pviews(r@)),
{
    let ghost s = pviews(v@);
    let mut r: Vec<Plugin> = Vec::new();
    let mut i: usize = 0;
    while i < v.len()
        invariant
            i <= v@.len(),
            s == pviews(v@),
            pviews(r@) == first_of_names(s.take(i as int)),
            distinct_names(pviews(r@)),
        decreases v.len() - i,
    {
        assert(s.take(i + 1).drop_last() =~= s.take(i as int));
        assert(s.take(i + 1).last() == v@[i as int]@);
        if !has_name(&r, v[i].name.as_str()) {
            let ghost before = pviews(r@);
            r.push(v[i].duplicate());
            assert(pviews(r@) =~= before.push(v@[i as int]@));
            assert forall|a: int, b: int| 0 <= a < b < pviews(r@).len() implies pviews(r@)[a].name
                != pviews(r@)[b].name by {
                if b == before.len() {
                    assert(pnames(before)[a] == before[a].name);
                }
            }
        }
        i = i + 1;
    }
    assert(s.take(i as int) =~= s);
    r
}

/// A copy of a list of records.
pub fn copy_plugins(v: &Vec<Plugin>) -> (r: Vec<Plugin>)
    ensures
        pviews(r@) == pviews(v@),
{
    let mut r: Vec<Plugin> = Vec::new();
    let mut i: usize = 0;
    while i < v.len()
        invariant
            i <= v@.len(),
            r@.len() == i,
            forall|k: int| 0 <= k < i ==> (#[trigger] r@[k])@ == v@[k]@,
        decreases v.len() - i,
    {
        r.push(v[i].duplicate());
        i = i + 1;
    }
    assert(pviews(r@) =~= pviews(v@));
    r
}

} // verus!
