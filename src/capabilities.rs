use crate::name_index::{
    entry_keys_unique, entry_view, insert_entry, lemma_insert_entry_shape, lemma_insert_entry_unique, name_index_entries,
    name_index_insert, name_index_new,
};
use crate::order::{extension_compare, extension_lt, lemma_extension_order_strict_total};
use crate::provenance::{valid_alias_entries, values_below};
use crate::registry::{Extension, Feature, Registry, TypeDecl};
use crate::text::{str_eq, TextOrder};
use indexmap::IndexMap;
use vstd::prelude::*;

verus! {

/// The entries of the feature collection: each feature name mapped to its
/// position in `fs`, in document order (a repeated name keeps its first
/// place and takes the last position).
pub open spec fn feature_entries(fs: Seq<Feature>) -> Seq<(Seq<char>, usize)>
    decreases fs.len(),
{
    if fs.len() == 0 {
        Seq::empty()
    } else {
        insert_entry(feature_entries(fs.drop_last()), fs.last().name@, (fs.len() - 1) as usize)
    }
}

/// The entries of the alias map: each alias name mapped to the position of
/// its declaration in `ts`.
pub open spec fn alias_entries(ts: Seq<TypeDecl>) -> Seq<(Seq<char>, usize)>
    decreases ts.len(),
{
    if ts.len() == 0 {
        Seq::empty()
    } else {
        let prev = alias_entries(ts.drop_last());
        match ts.last() {
            TypeDecl::Alias { name, .. } => insert_entry(prev, name@, (ts.len() - 1) as usize),
            _ => prev,
        }
    }
}

/// Whether an extension takes part in generation for `platform`.
pub open spec fn is_retained(e: Extension, platform: Seq<char>) -> bool {
    &&& e.supported matches Some(s) && s@ == platform
    &&& e.obsoleted_by is None
}

/// Names in `e` are strictly ordered by the extension order.
pub open spec fn strictly_ordered(e: Seq<(Seq<char>, usize)>) -> bool {
    forall|i: int, j: int| 0 <= i < j < e.len() ==> extension_lt(e[i].0, e[j].0)
}

/// Entry `p` names the last retained extension of `exts` before `bound`
/// that carries its name.
pub open spec fn names_last_retained(exts: Seq<Extension>, platform: Seq<char>, bound: int, p: (Seq<char>, usize)) -> bool {
    &&& p.1 < bound <= exts.len()
    &&& is_retained(exts[p.1 as int], platform)
    &&& exts[p.1 as int].name@ == p.0
    &&& forall|j: int| p.1 < j < bound && is_retained(#[trigger] exts[j], platform) ==> exts[j].name@ != p.0
}

/// `e` is the extension collection of the first `bound` extensions: one entry
/// per name of a retained extension, mapped to the last retained extension
/// of that name, in the extension order.
pub open spec fn is_extension_collection(exts: Seq<Extension>, platform: Seq<char>, bound: int, e: Seq<(Seq<char>, usize)>) -> bool {
    &&& strictly_ordered(e)
    &&& forall|i: int| 0 <= i < e.len() ==> names_last_retained(exts, platform, bound, #[trigger] e[i])
    &&& forall|j: int| 0 <= j < bound && is_retained(#[trigger] exts[j], platform)
        ==> exists|i: int| 0 <= i < e.len() && e[i].0 == exts[j].name@
}

/// The alias map names alias declarations only, each name once.
pub proof fn lemma_alias_entries_valid(ts: Seq<TypeDecl>)
    requires
        ts.len() <= usize::MAX,
    ensures
        valid_alias_entries(ts, alias_entries(ts)),
    decreases ts.len(),
{
    if ts.len() > 0 {
        let prev = alias_entries(ts.drop_last());
        lemma_alias_entries_valid(ts.drop_last());
        match ts.last() {
            TypeDecl::Alias { name, .. } => {
                lemma_insert_entry_unique(prev, name@, (ts.len() - 1) as usize);
                lemma_insert_entry_shape(prev, name@, (ts.len() - 1) as usize);
                let r = insert_entry(prev, name@, (ts.len() - 1) as usize);
                assert forall|i: int| 0 <= i < r.len() implies (#[trigger] r[i]).1 < ts.len() && ts[r[i].1 as int] is Alias by {
                    if i < prev.len() && r[i] == prev[i] {
                        assert(ts.drop_last()[prev[i].1 as int] is Alias);
                    }
                }
            },
            _ => {
                assert forall|i: int| 0 <= i < prev.len() implies (#[trigger] prev[i]).1 < ts.len() && ts[prev[i].1 as int] is Alias by {
                    assert(ts.drop_last()[prev[i].1 as int] is Alias);
                }
            },
        }
    }
}

/// Every value of the feature map is a position among the features.
pub proof fn lemma_feature_entries_below(fs: Seq<Feature>)
    requires
        fs.len() <= usize::MAX,
    ensures
        values_below(feature_entries(fs), fs.len() as int),
    decreases fs.len(),
{
    if fs.len() > 0 {
        let prev = feature_entries(fs.drop_last());
        lemma_feature_entries_below(fs.drop_last());
        lemma_insert_entry_shape(prev, fs.last().name@, (fs.len() - 1) as usize);
        let r = feature_entries(fs);
        assert forall|i: int| 0 <= i < r.len() implies (#[trigger] r[i]).1 < fs.len() by {
            if i < prev.len() && r[i] == prev[i] {
                assert(prev[i].1 < fs.len() - 1);
            }
        }
    }
}

/// Collects the features into a map from name to position, in document order.
pub fn get_features(registry: &Registry) -> (r: IndexMap<String, usize>)
    ensures
        name_index_entries(r) == feature_entries(registry.features@),
        entry_keys_unique(name_index_entries(r)),
        values_below(name_index_entries(r), registry.features@.len() as int),
{
    let mut m = name_index_new();
    let mut i: usize = 0;
    while i < registry.features.len()
        invariant
            i <= registry.features@.len(),
            name_index_entries(m) == feature_entries(registry.features@.subrange(0, i as int)),
            entry_keys_unique(name_index_entries(m)),
        decreases registry.features@.len() - i,
    {
        let f = &registry.features[i];
        proof {
            let s = registry.features@.subrange(0, i as int + 1);
            assert(s.drop_last() =~= registry.features@.subrange(0, i as int));
            lemma_insert_entry_unique(name_index_entries(m), f.name@, i);
        }
        name_index_insert(&mut m, f.name.clone(), i);
        i = i + 1;
    }
    assert(registry.features@.subrange(0, i as int) =~= registry.features@);
    proof {
        lemma_feature_entries_below(registry.features@);
    }
    m
}

/// Collects the alias declarations into a map from alias name to the
/// position of its declaration.
pub fn get_aliases(registry: &Registry) -> (r: IndexMap<String, usize>)
    ensures
        name_index_entries(r) == alias_entries(registry.types@),
        valid_alias_entries(registry.types@, name_index_entries(r)),
{
    let mut m = name_index_new();
    let mut i: usize = 0;
    while i < registry.types.len()
        invariant
            i <= registry.types@.len(),
            name_index_entries(m) == alias_entries(registry.types@.subrange(0, i as int)),
            entry_keys_unique(name_index_entries(m)),
        decreases registry.types@.len() - i,
    {
        proof {
            let s = registry.types@.subrange(0, i as int + 1);
            assert(s.drop_last() =~= registry.types@.subrange(0, i as int));
        }
        match &registry.types[i] {
            TypeDecl::Alias { name, .. } => {
                proof {
                    lemma_insert_entry_unique(name_index_entries(m), name@, i);
                }
                name_index_insert(&mut m, name.clone(), i);
            },
            TypeDecl::Definition { .. } => {},
        }
        i = i + 1;
    }
    assert(registry.types@.subrange(0, i as int) =~= registry.types@);
    proof {
        lemma_alias_entries_valid(registry.types@);
    }
    m
}

/// The owned pairs of `s` as plain values.
pub open spec fn pairs_view(s: Seq<(String, usize)>) -> Seq<(Seq<char>, usize)> {
    s.map_values(|p: (String, usize)| entry_view(p))
}

/// Puts `name -> v` into the strictly ordered `out`: an entry with that name
/// takes the new value, otherwise the pair goes where the order puts it.
fn insert_ordered(out: &mut Vec<(String, usize)>, name: String, v: usize)
    requires
        strictly_ordered(pairs_view(old(out)@)),
    ensures
        strictly_ordered(pairs_view(final(out)@)),
        forall|p: (Seq<char>, usize)| #[trigger] pairs_view(final(out)@).contains(p) <==> (
            (pairs_view(old(out)@).contains(p) && p.0 != name@) || p == (name@, v)),
{
    let ghost before = pairs_view(out@);
    let mut i: usize = 0;
    while i < out.len()
        invariant
            out@ == old(out)@,
            before == pairs_view(out@),
            strictly_ordered(before),
            i <= out@.len(),
            forall|a: int| 0 <= a < i ==> extension_lt(#[trigger] before[a].0, name@),
        decreases out@.len() - i,
    {
        match extension_compare(out[i].0.as_str(), name.as_str()) {
            TextOrder::Less => {
                i = i + 1;
            },
            TextOrder::Equal => {
                let ghost n = name@;
                out.set(i, (name, v));
                proof {
                    let after = pairs_view(out@);
                    assert(after =~= before.update(i as int, (n, v)));
                    assert(before[i as int].0 == n);
                    assert forall|a: int| 0 <= a < before.len() && a != i implies before[a].0 != n by {
                        lemma_extension_order_strict_total(before[a].0, n, n);
                        if a < i {
                            assert(extension_lt(before[a].0, before[i as int].0));
                        } else {
                            assert(extension_lt(before[i as int].0, before[a].0));
                        }
                    }
                    assert forall|a: int| 0 <= a < after.len() implies #[trigger] after[a].0 == before[a].0 by {}
                    assert forall|p: (Seq<char>, usize)| #[trigger] after.contains(p) <==> (
                        (before.contains(p) && p.0 != n) || p == (n, v)) by {
                        if after.contains(p) {
                            let a = choose|a: int| 0 <= a < after.len() && after[a] == p;
                            if a != i {
                                assert(before[a] == p);
                            }
                        }
                        if before.contains(p) && p.0 != n {
                            let a = choose|a: int| 0 <= a < before.len() && before[a] == p;
                            assert(after[a] == p);
                        }
                        if p == (n, v) {
                            assert(after[i as int] == p);
                        }
                    }
                }
                return;
            },
            TextOrder::Greater => {
                let ghost n = name@;
                out.insert(i, (name, v));
                proof {
                    let after = pairs_view(out@);
                    assert(after =~= before.insert(i as int, (n, v)));
                    assert forall|a: int| 0 <= a < before.len() implies before[a].0 != n by {
                        lemma_extension_order_strict_total(before[a].0, n, n);
                        if a > i {
                            lemma_extension_order_strict_total(n, before[i as int].0, before[a].0);
                        }
                    }
                    assert forall|a: int, b: int| 0 <= a < b < after.len() implies extension_lt(after[a].0, after[b].0) by {
                        if b == i {
                        } else if a == i {
                            if b > i + 1 {
                                lemma_extension_order_strict_total(n, before[i as int].0, before[b - 1].0);
                            }
                        } else if a < i && b > i {
                            lemma_extension_order_strict_total(before[a].0, n, before[b - 1].0);
                        } else if a > i {
                            assert(after[a] == before[a - 1]);
                            assert(after[b] == before[b - 1]);
                        }
                    }
                    assert forall|p: (Seq<char>, usize)| #[trigger] after.contains(p) <==> (
                        (before.contains(p) && p.0 != n) || p == (n, v)) by {
                        if after.contains(p) {
                            let a = choose|a: int| 0 <= a < after.len() && after[a] == p;
                            if a < i {
                                assert(before[a] == p);
                            } else if a > i {
                                assert(before[a - 1] == p);
                            }
                        }
                        if before.contains(p) && p.0 != n {
                            let a = choose|a: int| 0 <= a < before.len() && before[a] == p;
                            if a < i {
                                assert(after[a] == p);
                            } else {
                                assert(after[a + 1] == p);
                            }
                        }
                        if p == (n, v) {
                            assert(after[i as int] == p);
                        }
                    }
                }
                return;
            },
        }
    }
    let ghost n = name@;
    out.push((name, v));
    proof {
        let after = pairs_view(out@);
        assert(after =~= before.push((n, v)));
        assert forall|a: int| 0 <= a < before.len() implies before[a].0 != n by {
            lemma_extension_order_strict_total(before[a].0, n, n);
        }
        assert forall|p: (Seq<char>, usize)| #[trigger] after.contains(p) <==> (
            (before.contains(p) && p.0 != n) || p == (n, v)) by {
            if after.contains(p) {
                let a = choose|a: int| 0 <= a < after.len() && after[a] == p;
                if a < before.len() {
                    assert(before[a] == p);
                }
            }
            if before.contains(p) && p.0 != n {
                let a = choose|a: int| 0 <= a < before.len() && before[a] == p;
                assert(after[a] == p);
            }
            if p == (n, v) {
                assert(after[before.len() as int] == p);
            }
        }
    }
}

/// Whether an extension takes part in generation for `platform`, computed.
fn retained(e: &Extension, platform: &str) -> (r: bool)
    ensures
        r == is_retained(*e, platform@),
{
    match &e.supported {
        Some(s) => str_eq(s.as_str(), platform) && e.obsoleted_by.is_none(),
        None => false,
    }
}

/// Collects the extensions supported on `platform` and not obsoleted into a
/// map from name to position, ordered Khronos first, then multi-vendor, then
/// the rest, each group by name.
pub fn get_extensions(registry: &Registry, platform: &str) -> (r: IndexMap<String, usize>)
    ensures
        is_extension_collection(registry.extensions@, platform@, registry.extensions@.len() as int, name_index_entries(r)),
        entry_keys_unique(name_index_entries(r)),
{
    let exts = &registry.extensions;
    let mut out: Vec<(String, usize)> = Vec::new();
    let mut i: usize = 0;
    proof {
        assert(pairs_view(out@) =~= Seq::<(Seq<char>, usize)>::empty());
    }
    while i < exts.len()
        invariant
            i <= exts@.len(),
            is_extension_collection(exts@, platform@, i as int, pairs_view(out@)),
        decreases exts@.len() - i,
    {
        let ghost old_view = pairs_view(out@);
        if retained(&exts[i], platform) {
            let ghost n = exts@[i as int].name@;
            insert_ordered(&mut out, exts[i].name.clone(), i);
            proof {
                let new_view = pairs_view(out@);
                assert forall|a: int| 0 <= a < new_view.len() implies names_last_retained(exts@, platform@, i + 1, #[trigger] new_view[a]) by {
                    assert(new_view.contains(new_view[a]));
                    if new_view[a] != (n, i) {
                        let b = choose|b: int| 0 <= b < old_view.len() && old_view[b] == new_view[a];
                        assert(names_last_retained(exts@, platform@, i as int, old_view[b]));
                    }
                }
                assert forall|j: int| 0 <= j < i + 1 && is_retained(#[trigger] exts@[j], platform@)
                    implies exists|a: int| 0 <= a < new_view.len() && new_view[a].0 == exts@[j].name@ by {
                    if exts@[j].name@ == n {
                        assert(new_view.contains((n, i)));
                    } else {
                        let b = choose|b: int| 0 <= b < old_view.len() && old_view[b].0 == exts@[j].name@;
                        assert(old_view.contains(old_view[b]));
                        assert(new_view.contains(old_view[b]));
                    }
                }
            }
        } else {
            proof {
                assert forall|a: int| 0 <= a < old_view.len() implies names_last_retained(exts@, platform@, i + 1, #[trigger] old_view[a]) by {
                    assert(names_last_retained(exts@, platform@, i as int, old_view[a]));
                }
            }
        }
        i = i + 1;
    }
    let mut m = name_index_new();
    let mut k: usize = 0;
    let ghost all = pairs_view(out@);
    while k < out.len()
        invariant
            all == pairs_view(out@),
            strictly_ordered(all),
            k <= all.len(),
            name_index_entries(m) == all.subrange(0, k as int),
            entry_keys_unique(name_index_entries(m)),
        decreases all.len() - k,
    {
        proof {
            let e = name_index_entries(m);
            assert forall|a: int| 0 <= a < e.len() implies e[a].0 != all[k as int].0 by {
                assert(extension_lt(all[a].0, all[k as int].0));
                lemma_extension_order_strict_total(all[a].0, all[a].0, all[a].0);
            }
            assert(insert_entry(e, all[k as int].0, all[k as int].1) =~= all.subrange(0, k as int + 1));
        }
        name_index_insert(&mut m, out[k].0.clone(), out[k].1);
        k = k + 1;
    }
    proof {
        assert(all.subrange(0, k as int) =~= all);
    }
    m
}

} // verus!
