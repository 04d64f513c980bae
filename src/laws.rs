//! Properties that relate several operations of the engine.

use vstd::prelude::*;
use crate::fin::to_install;
use crate::lock::{filter_names, insert_all, lemma_upsert_map, map_of, upsert_all};
use crate::plugin::{pnames, PluginView};

verus! {

/// Installing records in turn enters them by name, in turn.
pub proof fn lemma_upsert_all_map(s: Seq<PluginView>, ps: Seq<PluginView>)
    ensures
        map_of(upsert_all(s, ps)) == insert_all(map_of(s), ps),
    decreases ps.len(),
{
    if ps.len() > 0 {
        lemma_upsert_all_map(s, ps.drop_last());
        lemma_upsert_map(upsert_all(s, ps.drop_last()), ps.last());
    }
}

/// Entering records in turn overrides the earlier map on their names only.
pub proof fn lemma_insert_all_union(m: Map<Seq<char>, PluginView>, ps: Seq<PluginView>)
    ensures
        insert_all(m, ps) == m.union_prefer_right(insert_all(Map::empty(), ps)),
    decreases ps.len(),
{
    if ps.len() == 0 {
        assert(m.union_prefer_right(Map::empty()) =~= m);
    } else {
        lemma_insert_all_union(m, ps.drop_last());
        let l = ps.last();
        assert(m.union_prefer_right(insert_all(Map::empty(), ps.drop_last())).insert(l.name, l)
            =~= m.union_prefer_right(insert_all(Map::empty(), ps.drop_last()).insert(l.name, l)));
    }
}

/// A name is entered by `insert_all` exactly when some record carries it.
pub proof fn lemma_insert_all_keys(ps: Seq<PluginView>, k: Seq<char>)
    ensures
        insert_all(Map::empty(), ps).contains_key(k) <==> pnames(ps).contains(k),
    decreases ps.len(),
{
    if ps.len() > 0 {
        let d = ps.drop_last();
        lemma_insert_all_keys(d, k);
        if pnames(d).contains(k) {
            let j = choose|j: int| 0 <= j < pnames(d).len() && pnames(d)[j] == k;
            assert(pnames(ps)[j] == k);
        }
        if pnames(ps).contains(k) {
            let j = choose|j: int| 0 <= j < pnames(ps).len() && pnames(ps)[j] == k;
            if j < d.len() {
                assert(pnames(d)[j] == k);
            }
        }
        assert(pnames(ps)[ps.len() - 1] == ps.last().name);
    }
}

/// The names a list of records holds are the names of its map.
pub proof fn lemma_map_of_keys(s: Seq<PluginView>, k: Seq<char>)
    ensures
        map_of(s).contains_key(k) <==> pnames(s).contains(k),
    decreases s.len(),
{
    if s.len() > 0 {
        let d = s.drop_last();
        lemma_map_of_keys(d, k);
        if pnames(d).contains(k) {
            let j = choose|j: int| 0 <= j < pnames(d).len() && pnames(d)[j] == k;
            assert(pnames(s)[j] == k);
        }
        if pnames(s).contains(k) {
            let j = choose|j: int| 0 <= j < pnames(s).len() && pnames(s)[j] == k;
            if j < d.len() {
                assert(pnames(d)[j] == k);
            }
        }
        assert(pnames(s)[s.len() - 1] == s.last().name);
    }
}

proof fn lemma_filter_all_known(d: Seq<PluginView>, ks: Set<Seq<char>>)
    requires
        forall|i: int| 0 <= i < d.len() ==> ks.contains(#[trigger] d[i].name),
    ensures
        filter_names(d, ks, false).len() == 0,
    decreases d.len(),
{
    if d.len() > 0 {
        assert(ks.contains(d[d.len() - 1].name));
        lemma_filter_all_known(d.drop_last(), ks);
    }
}

/// Installing is idempotent: once every desired plugin has been recorded
/// as installed, planning the same install again without `force` finds
/// nothing to fetch.
pub proof fn lemma_install_idempotent(
    lock: Seq<PluginView>,
    desired: Seq<PluginView>,
    installed: Seq<PluginView>,
)
    requires
        forall|i: int| 0 <= i < desired.len() ==> pnames(installed).contains(#[trigger] desired[i].name),
    ensures
        to_install(upsert_all(lock, installed), Some(desired), false).len() == 0,
{
    let after = upsert_all(lock, installed);
    lemma_upsert_all_map(lock, installed);
    lemma_insert_all_union(map_of(lock), installed);
    assert forall|i: int| 0 <= i < desired.len() implies map_of(after).dom().contains(
        #[trigger] desired[i].name,
    ) by {
        lemma_insert_all_keys(installed, desired[i].name);
    }
    lemma_filter_all_known(desired, map_of(after).dom());
}

/// Updating everything is a fresh install of everything: when every locked
/// plugin is reinstalled, the lock state by name is what installing those
/// records into an empty lock state gives. No file list of an earlier
/// install survives.
pub proof fn lemma_update_all(lock: Seq<PluginView>, reinstalled: Seq<PluginView>)
    requires
        pnames(reinstalled) == pnames(lock),
    ensures
        map_of(upsert_all(lock, reinstalled)) == map_of(upsert_all(Seq::empty(), reinstalled)),
{
    lemma_upsert_all_map(lock, reinstalled);
    lemma_upsert_all_map(Seq::empty(), reinstalled);
    lemma_insert_all_union(map_of(lock), reinstalled);
    assert(map_of(Seq::<PluginView>::empty()) =~= Map::<Seq<char>, PluginView>::empty());
    let fresh = insert_all(Map::empty(), reinstalled);
    assert forall|k: Seq<char>| map_of(lock).contains_key(k) implies fresh.contains_key(k) by {
        lemma_map_of_keys(lock, k);
        lemma_insert_all_keys(reinstalled, k);
    }
    assert(map_of(lock).union_prefer_right(fresh) =~= fresh);
}

} // verus!
