use fin::error::FinError;
use fin::fin::{Fin, InstallOutcome};
use fin::lock::{LockFile, StoredLock, Timestamp};
use fin::plugin::{parse_specs, FetchPlan, Plugin, PluginVecExt};

const T0: Timestamp = Timestamp { secs: 1_700_000_000, nanos: 42 };

fn remote(s: &str) -> Plugin {
    Plugin::parse(s, false).unwrap()
}

fn strs(v: &[&str]) -> Vec<String> {
    v.iter().map(|s| s.to_string()).collect()
}

fn installed(spec: &str, files: &[&str]) -> InstallOutcome {
    InstallOutcome::Installed(remote(spec).with_installed_files(strs(files)))
}

fn empty_fin() -> Fin {
    Fin::new(None, "/home/u/.config/fish".to_string(), StoredLock::Missing, T0).unwrap()
}

#[test]
fn parse_remote_takes_last_segment_and_head() {
    let p = remote("owner/repo");
    assert_eq!(p.name, "repo");
    assert_eq!(p.source, "https://github.com/owner/repo/archive/HEAD.tar.gz");
    assert!(p.installed_files.is_empty());
    assert_eq!(p.commit_hash, None);
}

#[test]
fn parse_remote_with_ref() {
    let p = remote("owner/repo@v1.2");
    assert_eq!(p.name, "repo");
    assert_eq!(p.source, "https://github.com/owner/repo/archive/v1.2.tar.gz");
}

#[test]
fn parse_ref_is_everything_after_first_at() {
    let p = remote("o/r@a@b");
    assert_eq!(p.source, "https://github.com/o/r/archive/a@b.tar.gz");
    let q = remote("o/r@");
    assert_eq!(q.name, "r");
    assert_eq!(q.source, "https://github.com/o/r/archive/.tar.gz");
}

#[test]
fn identity_is_stable_under_default_ref() {
    let a = remote("owner/repo");
    let b = remote("owner/repo@HEAD");
    assert_eq!(a.name, "repo");
    assert_eq!(a.name, b.name);
    assert_eq!(a.source, b.source);
    assert!(a == b);
}

#[test]
fn invalid_specs_are_rejected() {
    for s in ["", "owner/repo/", "@v1", "owner/"] {
        assert_eq!(Plugin::parse(s, false).unwrap_err(), FinError::InvalidSpec);
    }
    assert_eq!(Plugin::parse("/", true).unwrap_err(), FinError::InvalidSpec);
}

#[test]
fn local_path_is_named_by_last_component_and_copied() {
    let p = Plugin::parse("/tmp/plugins/my-plugin/", true).unwrap();
    assert_eq!(p.name, "my-plugin");
    assert_eq!(p.source, "/tmp/plugins/my-plugin/");
    match p.fetch_plan(true) {
        FetchPlan::CopyTree(path) => assert_eq!(path, "/tmp/plugins/my-plugin/"),
        FetchPlan::Download(_) => panic!("a local directory is not downloaded"),
    }
    match remote("o/r").fetch_plan(false) {
        FetchPlan::Download(url) => assert_eq!(url, "https://github.com/o/r/archive/HEAD.tar.gz"),
        FetchPlan::CopyTree(_) => panic!("a remote plugin is downloaded"),
    }
}

#[test]
fn parse_specs_stops_at_an_invalid_spec() {
    let ok = parse_specs(&vec![("o/a".to_string(), false), ("./b".to_string(), true)]).unwrap();
    assert_eq!(ok.len(), 2);
    assert_eq!(ok[1].name, "b");
    let bad = parse_specs(&vec![("o/a".to_string(), false), ("o/".to_string(), false)]);
    assert_eq!(bad.unwrap_err(), FinError::InvalidSpec);
}

#[test]
fn installed_files_are_sorted_and_unique() {
    let p = remote("o/a").with_installed_files(strs(&["functions/b.fish", "conf.d/a.fish", "functions/b.fish"]));
    assert_eq!(p.installed_files, strs(&["conf.d/a.fish", "functions/b.fish"]));
}

#[test]
fn installing_twice_fetches_nothing_the_second_time() {
    let mut fin = empty_fin();
    let desired = vec![remote("owner/repo")];
    let plan = fin.get_plugins_to_install(Some(desired.clone()), false);
    assert_eq!(plan.len(), 1);
    fin.install(&vec![installed("owner/repo", &["functions/repo.fish"])]);
    let again = fin.get_plugins_to_install(Some(vec![remote("owner/repo")]), false);
    assert!(again.is_empty());
    let forced = fin.get_plugins_to_install(Some(vec![remote("owner/repo")]), true);
    assert_eq!(forced.len(), 1);
    assert!(fin.get_plugins_to_install(None, false).is_empty());
    assert_eq!(fin.get_plugins_to_install(None, true).len(), 1);
}

#[test]
fn a_failed_fetch_leaves_its_siblings_installed() {
    let mut fin = empty_fin();
    let outcomes = vec![
        installed("o/first", &["functions/first.fish"]),
        InstallOutcome::Failed("second".to_string(), FinError::FetchFailure),
        installed("o/third", &["completions/third.fish"]),
    ];
    let summary = fin.install(&outcomes);
    assert_eq!(summary.installed, strs(&["first", "third"]));
    assert_eq!(summary.failed, strs(&["second"]));
    assert_eq!(fin.list(), strs(&["first", "third"]));
    let saved = fin.lock_file.save();
    assert_eq!(saved.plugins.len(), 2);
    assert!(saved.plugins.iter().all(|p| p.name != "second"));
}

#[test]
fn removing_deletes_exactly_the_recorded_files() {
    let mut fin = empty_fin();
    fin.install(&vec![installed("o/a", &["functions/B.fish", "functions/A.fish"]), installed("o/keep", &["conf.d/k.fish"])]);
    let removal = fin.remove(&strs(&["a", "missing"]));
    assert_eq!(removal.removed.len(), 1);
    assert_eq!(removal.removed[0].name, "a");
    assert_eq!(removal.removed[0].installed_files, strs(&["functions/A.fish", "functions/B.fish"]));
    assert_eq!(removal.not_installed, strs(&["missing"]));
    assert_eq!(fin.list(), strs(&["keep"]));
}

#[test]
fn removing_an_unknown_name_changes_nothing() {
    let mut fin = empty_fin();
    fin.install(&vec![installed("o/a", &["functions/a.fish"])]);
    let removal = fin.remove(&strs(&["zzz"]));
    assert!(removal.removed.is_empty());
    assert_eq!(removal.not_installed, strs(&["zzz"]));
    assert_eq!(fin.list(), strs(&["a"]));
}

#[test]
fn save_load_save_is_stable() {
    let raw = LockFile {
        version: "1.0".to_string(),
        generated_at: Timestamp { secs: 1_700_000_000, nanos: 5 },
        plugins: vec![
            Plugin { installed_files: strs(&["z", "a", "z"]), ..remote("o/zeta") },
            remote("o/alpha").with_installed_files(strs(&["m"])),
            Plugin { installed_files: strs(&["q"]), ..remote("o/zeta") },
        ],
    };
    let first = raw.save();
    let loaded = LockFile::load(StoredLock::Found(first.save()), T0).unwrap();
    let second = loaded.save();
    assert_eq!(first.version, second.version);
    assert_eq!(first.generated_at, second.generated_at);
    let names: Vec<&str> = second.plugins.iter().map(|p| p.name.as_str()).collect();
    assert_eq!(names, vec!["alpha", "zeta"]);
    assert_eq!(first.plugins.len(), second.plugins.len());
    for (a, b) in first.plugins.iter().zip(second.plugins.iter()) {
        assert_eq!(a.name, b.name);
        assert_eq!(a.source, b.source);
        assert_eq!(a.installed_files, b.installed_files);
    }
    assert_eq!(second.plugins[1].installed_files, strs(&["q"]));
}

#[test]
fn update_with_no_names_reinstalls_everything() {
    let mut fin = empty_fin();
    fin.install(&vec![installed("o/alpha", &["functions/old_alpha.fish"]), installed("o/beta", &["functions/old_beta.fish"])]);
    let targets = fin.update(&vec![]);
    let names: Vec<&str> = targets.iter().map(|p| p.name.as_str()).collect();
    assert_eq!(names, vec!["alpha", "beta"]);
    let outcomes: Vec<InstallOutcome> = targets
        .into_iter()
        .map(|p| {
            let files = vec![format!("functions/{}.fish", p.name)];
            InstallOutcome::Installed(p.with_installed_files(files))
        })
        .collect();
    fin.install(&outcomes);
    assert_eq!(fin.list(), strs(&["alpha", "beta"]));
    assert_eq!(fin.lock_file.plugins[0].installed_files, strs(&["functions/alpha.fish"]));
    assert_eq!(fin.lock_file.plugins[1].installed_files, strs(&["functions/beta.fish"]));
}

#[test]
fn update_with_names_keeps_installed_ones_only() {
    let mut fin = empty_fin();
    fin.install(&vec![installed("o/alpha", &[]), installed("o/beta", &[])]);
    let targets = fin.update(&strs(&["beta", "nope"]));
    assert_eq!(targets.len(), 1);
    assert_eq!(targets[0].name, "beta");
    assert_eq!(targets[0].source, "https://github.com/o/beta/archive/HEAD.tar.gz");
}

#[test]
fn a_failed_update_keeps_the_previous_files() {
    let mut fin = empty_fin();
    fin.install(&vec![installed("o/alpha", &["functions/alpha.fish"])]);
    fin.install(&vec![InstallOutcome::Failed("alpha".to_string(), FinError::FetchFailure)]);
    assert_eq!(fin.lock_file.plugins[0].installed_files, strs(&["functions/alpha.fish"]));
}

#[test]
fn list_is_sorted_by_name() {
    let mut fin = empty_fin();
    fin.install(&vec![installed("o/c", &[]), installed("o/a", &[]), installed("o/b", &[])]);
    assert_eq!(fin.list(), strs(&["a", "b", "c"]));
}

#[test]
fn fresh_and_corrupt_lock_states() {
    let fresh = LockFile::load(StoredLock::Missing, T0).unwrap();
    assert_eq!(fresh.version, "1.0");
    assert_eq!(fresh.generated_at, T0);
    assert!(fresh.plugins.is_empty());
    assert_eq!(LockFile::load(StoredLock::Corrupt, T0).err(), Some(FinError::CorruptState));
    assert!(matches!(
        Fin::new(None, "/cfg".to_string(), StoredLock::Corrupt, T0),
        Err(FinError::CorruptState)
    ));
}

#[test]
fn install_path_defaults_to_config_dir() {
    let fin = Fin::new(None, "/cfg".to_string(), StoredLock::Missing, T0).unwrap();
    assert_eq!(fin.fin_path, "/cfg");
    let other = Fin::new(Some("/elsewhere".to_string()), "/cfg".to_string(), StoredLock::Missing, T0).unwrap();
    assert_eq!(other.fin_path, "/elsewhere");
    assert_eq!(other.fish_config_dir, "/cfg");
}

#[test]
fn diff_mut_drops_installed_names() {
    let mut desired = vec![remote("o/a"), remote("x/b"), remote("o/c")];
    let lock = vec![remote("y/b")];
    desired.diff_mut(&lock);
    let names: Vec<&str> = desired.iter().map(|p| p.name.as_str()).collect();
    assert_eq!(names, vec!["a", "c"]);
}

#[test]
fn plugins_are_equal_by_name() {
    assert!(remote("o/a") == remote("other/a@v2"));
    assert!(remote("o/a") != remote("o/b"));
}

#[test]
fn local_path_skips_trailing_dot_components() {
    let p = Plugin::parse("a/b/.", true).unwrap();
    assert_eq!(p.name, "b");
    assert_eq!(p.source, "a/b/.");
    assert_eq!(Plugin::parse("plugins/./mine/./", true).unwrap().name, "mine");
    assert_eq!(Plugin::parse("a/..", true).unwrap_err(), FinError::InvalidSpec);
    assert_eq!(Plugin::parse(".", true).unwrap_err(), FinError::InvalidSpec);
    assert_eq!(Plugin::parse("/.", true).unwrap_err(), FinError::InvalidSpec);
}

#[test]
fn plan_holds_each_name_once() {
    let fin = empty_fin();
    let desired = vec![remote("o/a"), remote("o/a"), remote("x/a@v2"), remote("o/b")];
    let plan = fin.get_plugins_to_install(Some(desired.clone()), false);
    let names: Vec<&str> = plan.iter().map(|p| p.name.as_str()).collect();
    assert_eq!(names, vec!["a", "b"]);
    assert_eq!(plan[0].source, "https://github.com/o/a/archive/HEAD.tar.gz");
    let forced = fin.get_plugins_to_install(Some(desired), true);
    assert_eq!(forced.len(), 2);
}

#[test]
fn update_lists_each_name_once() {
    let mut fin = empty_fin();
    fin.install(&vec![installed("o/alpha", &[]), installed("o/beta", &[])]);
    let targets = fin.update(&strs(&["beta", "alpha", "beta"]));
    let names: Vec<&str> = targets.iter().map(|p| p.name.as_str()).collect();
    assert_eq!(names, vec!["beta", "alpha"]);
}

#[test]
fn recorded_files_are_exactly_the_written_ones() {
    let p = remote("o/a").with_installed_files(strs(&["completions/a.fish", "functions/a.fish"]));
    assert_eq!(p.installed_files, strs(&["completions/a.fish", "functions/a.fish"]));
    let none = remote("o/a").with_installed_files(vec![]);
    assert!(none.installed_files.is_empty());
}
