use crate::name_index::{
    entry_keys_unique, insert_entry, lemma_insert_entry_unique, name_index_entries, name_index_get,
    name_index_get_index, name_index_insert, name_index_len, name_index_new, name_index_position,
};
use crate::registry::{Registry, TypeDecl};
use crate::text::str_eq;
use indexmap::IndexMap;
use vstd::prelude::*;

verus! {

/// A type reachable from some capability, with the capabilities that
/// require it in pass order.
pub struct ProvenanceEntry {
    pub name: String,
    /// The position of the type's definition among the registry's types.
    pub type_index: usize,
    pub providers: Vec<String>,
}

/// The character sequences of a list of strings.
pub open spec fn names_view(v: Seq<String>) -> Seq<Seq<char>> {
    v.map_values(|s: String| s@)
}

/// A provenance entry as plain values.
pub open spec fn provenance_view(e: ProvenanceEntry) -> (Seq<char>, usize, Seq<Seq<char>>) {
    (e.name@, e.type_index, names_view(e.providers@))
}

/// The entries of the map of canonical types: each named definition mapped
/// to the position of its declaration in `ts`.
pub open spec fn definition_entries(ts: Seq<TypeDecl>) -> Seq<(Seq<char>, usize)>
    decreases ts.len(),
{
    if ts.len() == 0 {
        Seq::empty()
    } else {
        let prev = definition_entries(ts.drop_last());
        match ts.last() {
            TypeDecl::Definition { name: Some(n), .. } => insert_entry(prev, n@, (ts.len() - 1) as usize),
            _ => prev,
        }
    }
}

/// The name that an alias declaration stands for.
pub open spec fn alias_target(t: TypeDecl) -> Seq<char> {
    match t {
        TypeDecl::Alias { target, .. } => target@,
        TypeDecl::Definition { .. } => Seq::empty(),
    }
}

/// `aliases` maps names to alias declarations of `ts`, each name once.
pub open spec fn valid_alias_entries(ts: Seq<TypeDecl>, aliases: Seq<(Seq<char>, usize)>) -> bool {
    &&& entry_keys_unique(aliases)
    &&& forall|i: int| 0 <= i < aliases.len() ==> (#[trigger] aliases[i]).1 < ts.len() && ts[aliases[i].1 as int] is Alias
}

/// Every value of `e` is below `n`.
pub open spec fn values_below(e: Seq<(Seq<char>, usize)>, n: int) -> bool {
    forall|i: int| 0 <= i < e.len() ==> (#[trigger] e[i]).1 < n
}

/// One hop through the alias map: an alias name becomes the name it stands
/// for; any other name is taken as canonical.
pub open spec fn resolve(ts: Seq<TypeDecl>, aliases: Seq<(Seq<char>, usize)>, n: Seq<char>) -> Seq<char> {
    if exists|i: int| 0 <= i < aliases.len() && aliases[i].0 == n {
        let i = choose|i: int| 0 <= i < aliases.len() && aliases[i].0 == n;
        alias_target(ts[aliases[i].1 as int])
    } else {
        n
    }
}

/// The capabilities in pass order, as (name, required type names): the
/// features in the order of `features`, then the extensions in the order of
/// `extensions`.
pub open spec fn capability_pass(
    registry: Registry,
    features: Seq<(Seq<char>, usize)>,
    extensions: Seq<(Seq<char>, usize)>,
) -> Seq<(Seq<char>, Seq<Seq<char>>)> {
    Seq::new(features.len(), |i: int| (features[i].0, names_view(registry.features@[features[i].1 as int].required_types@)))
        + Seq::new(extensions.len(), |i: int| (extensions[i].0, names_view(registry.extensions@[extensions[i].1 as int].required_types@)))
}

/// Capability `cap` requires canonical type `t`, directly or through an alias.
pub open spec fn requires_type(
    ts: Seq<TypeDecl>,
    aliases: Seq<(Seq<char>, usize)>,
    cap: (Seq<char>, Seq<Seq<char>>),
    t: Seq<char>,
) -> bool {
    exists|j: int| 0 <= j < cap.1.len() && resolve(ts, aliases, #[trigger] cap.1[j]) == t
}

/// `prev` with `c` appended when `add` holds and `c` is not there yet.
pub open spec fn add_provider(prev: Seq<Seq<char>>, c: Seq<char>, add: bool) -> Seq<Seq<char>> {
    if add && !prev.contains(c) {
        prev.push(c)
    } else {
        prev
    }
}

/// The names of the capabilities of `pass` that require `t`, in pass order,
/// each once.
pub open spec fn providers(
    ts: Seq<TypeDecl>,
    aliases: Seq<(Seq<char>, usize)>,
    pass: Seq<(Seq<char>, Seq<Seq<char>>)>,
    t: Seq<char>,
) -> Seq<Seq<char>>
    decreases pass.len(),
{
    if pass.len() == 0 {
        Seq::empty()
    } else {
        add_provider(providers(ts, aliases, pass.drop_last(), t), pass.last().0, requires_type(ts, aliases, pass.last(), t))
    }
}

/// The provenance model: the canonical types of `defs` in order, each with
/// its providers, leaving out those that no capability requires.
pub open spec fn provenance(
    ts: Seq<TypeDecl>,
    aliases: Seq<(Seq<char>, usize)>,
    pass: Seq<(Seq<char>, Seq<Seq<char>>)>,
    defs: Seq<(Seq<char>, usize)>,
) -> Seq<(Seq<char>, usize, Seq<Seq<char>>)>
    decreases defs.len(),
{
    if defs.len() == 0 {
        Seq::empty()
    } else {
        let prev = provenance(ts, aliases, pass, defs.drop_last());
        let p = providers(ts, aliases, pass, defs.last().0);
        if p.len() > 0 {
            prev.push((defs.last().0, defs.last().1, p))
        } else {
            prev
        }
    }
}

/// Collects the named definitions into a map from name to position.
fn get_definitions(registry: &Registry) -> (r: IndexMap<String, usize>)
    ensures
        name_index_entries(r) == definition_entries(registry.types@),
        entry_keys_unique(name_index_entries(r)),
{
    let mut m = name_index_new();
    let mut i: usize = 0;
    while i < registry.types.len()
        invariant
            i <= registry.types@.len(),
            name_index_entries(m) == definition_entries(registry.types@.subrange(0, i as int)),
            entry_keys_unique(name_index_entries(m)),
        decreases registry.types@.len() - i,
    {
        proof {
            let s = registry.types@.subrange(0, i as int + 1);
            assert(s.drop_last() =~= registry.types@.subrange(0, i as int));
        }
        match &registry.types[i] {
            TypeDecl::Definition { name: Some(n), .. } => {
                proof {
                    lemma_insert_entry_unique(name_index_entries(m), n@, i);
                }
                name_index_insert(&mut m, n.clone(), i);
            },
            _ => {},
        }
        i = i + 1;
    }
    assert(registry.types@.subrange(0, i as int) =~= registry.types@);
    m
}

/// Resolves `n` through the alias map by one hop.
fn resolve_name<'a>(types: &'a Vec<TypeDecl>, aliases: &IndexMap<String, usize>, n: &'a str) -> (r: &'a str)
    requires
        valid_alias_entries(types@, name_index_entries(*aliases)),
    ensures
        r@ == resolve(types@, name_index_entries(*aliases), n@),
{
    match name_index_get(aliases, n) {
        Some(v) => {
            let ghost e = name_index_entries(*aliases);
            proof {
                let i = choose|i: int| 0 <= i < e.len() && e[i] == (n@, v);
                let c = choose|c: int| 0 <= c < e.len() && e[c].0 == n@;
                assert(i == c);
            }
            match &types[v] {
                TypeDecl::Alias { target, .. } => target.as_str(),
                TypeDecl::Definition { .. } => n,
            }
        },
        None => n,
    }
}

/// Whether `c` is among `v`.
fn contains_name(v: &Vec<String>, c: &str) -> (r: bool)
    ensures
        r == names_view(v@).contains(c@),
{
    let mut i: usize = 0;
    while i < v.len()
        invariant
            i <= v@.len(),
            forall|j: int| 0 <= j < i ==> v@[j]@ != c@,
        decreases v@.len() - i,
    {
        if str_eq(v[i].as_str(), c) {
            assert(names_view(v@)[i as int] == c@);
            return true;
        }
        i = i + 1;
    }
    proof {
        if names_view(v@).contains(c@) {
            let j = choose|j: int| 0 <= j < names_view(v@).len() && names_view(v@)[j] == c@;
            assert(v@[j]@ == c@);
        }
    }
    false
}

/// Adds capability `name` to the provider list of every canonical type that
/// the names `reqs` require.
fn add_capability(
    lists: &mut Vec<Vec<String>>,
    defs: &IndexMap<String, usize>,
    types: &Vec<TypeDecl>,
    aliases: &IndexMap<String, usize>,
    name: &String,
    reqs: &Vec<String>,
)
    requires
        valid_alias_entries(types@, name_index_entries(*aliases)),
        entry_keys_unique(name_index_entries(*defs)),
        old(lists)@.len() == name_index_entries(*defs).len(),
    ensures
        final(lists)@.len() == old(lists)@.len(),
        forall|t: int| 0 <= t < old(lists)@.len() ==> names_view(#[trigger] final(lists)@[t]@) == add_provider(
            names_view(old(lists)@[t]@),
            name@,
            requires_type(types@, name_index_entries(*aliases), (name@, names_view(reqs@)), name_index_entries(*defs)[t].0),
        ),
{
    let ghost ae = name_index_entries(*aliases);
    let ghost de = name_index_entries(*defs);
    let ghost cap = (name@, names_view(reqs@));
    let mut j: usize = 0;
    while j < reqs.len()
        invariant
            j <= reqs@.len(),
            lists@.len() == old(lists)@.len() == de.len(),
            valid_alias_entries(types@, ae),
            entry_keys_unique(de),
            ae == name_index_entries(*aliases),
            de == name_index_entries(*defs),
            cap == (name@, names_view(reqs@)),
            forall|t: int| 0 <= t < lists@.len() ==> names_view(#[trigger] lists@[t]@) == add_provider(
                names_view(old(lists)@[t]@),
                name@,
                exists|k: int| 0 <= k < j && resolve(types@, ae, #[trigger] cap.1[k]) == de[t].0,
            ),
        decreases reqs@.len() - j,
    {
        let target = resolve_name(types, aliases, reqs[j].as_str());
        assert(cap.1[j as int] == reqs@[j as int]@);
        let ghost before = lists@;
        match name_index_position(defs, target) {
            Some(p) => {
                if !contains_name(&lists[p], name.as_str()) {
                    lists[p].push(name.clone());
                    assert(names_view(lists@[p as int]@) =~= names_view(before[p as int]@).push(name@));
                }
                assert forall|t: int| 0 <= t < lists@.len() implies names_view(#[trigger] lists@[t]@) == add_provider(
                    names_view(old(lists)@[t]@),
                    name@,
                    exists|k: int| 0 <= k < j + 1 && resolve(types@, ae, #[trigger] cap.1[k]) == de[t].0,
                ) by {
                    let bt = exists|k: int| 0 <= k < j && resolve(types@, ae, #[trigger] cap.1[k]) == de[t].0;
                    assert(names_view(before[t]@) == add_provider(names_view(old(lists)@[t]@), name@, bt));
                    if t != p {
                        assert(lists@[t] == before[t]);
                        assert(de[t].0 != de[p as int].0);
                        if exists|k: int| 0 <= k < j + 1 && resolve(types@, ae, #[trigger] cap.1[k]) == de[t].0 {
                            let k = choose|k: int| 0 <= k < j + 1 && resolve(types@, ae, #[trigger] cap.1[k]) == de[t].0;
                            assert(k < j);
                        }
                    } else {
                        assert(resolve(types@, ae, cap.1[j as int]) == de[t].0);
                        let bn = exists|k: int| 0 <= k < j + 1 && resolve(types@, ae, #[trigger] cap.1[k]) == de[t].0;
                        assert(bn);
                        let o = names_view(old(lists)@[t]@);
                        if bt && !o.contains(name@) {
                            assert(o.push(name@)[o.len() as int] == name@);
                        }
                        if names_view(before[t]@).contains(name@) {
                            assert(lists@[t] == before[t]);
                            if !bt {
                                assert(o.contains(name@));
                            }
                        } else {
                            assert(names_view(before[t]@) == o);
                            assert(!o.contains(name@));
                        }
                    }
                }
            },
            None => {
                assert forall|t: int| 0 <= t < lists@.len() implies names_view(#[trigger] lists@[t]@) == add_provider(
                    names_view(old(lists)@[t]@),
                    name@,
                    exists|k: int| 0 <= k < j + 1 && resolve(types@, ae, #[trigger] cap.1[k]) == de[t].0,
                ) by {
                    if exists|k: int| 0 <= k < j + 1 && resolve(types@, ae, #[trigger] cap.1[k]) == de[t].0 {
                        let k = choose|k: int| 0 <= k < j + 1 && resolve(types@, ae, #[trigger] cap.1[k]) == de[t].0;
                        assert(k < j);
                    }
                }
            },
        }
        j = j + 1;
    }
}

/// Maps each canonical type that some capability requires to the names of
/// the capabilities that require it: the features in the order of
/// `features`, then the extensions in the order of `extensions`, each name
/// once. Types come in the order of their definitions; a type that nothing
/// requires is left out.
pub fn get_types(
    registry: &Registry,
    aliases: &IndexMap<String, usize>,
    features: &IndexMap<String, usize>,
    extensions: &IndexMap<String, usize>,
) -> (r: Vec<ProvenanceEntry>)
    requires
        valid_alias_entries(registry.types@, name_index_entries(*aliases)),
        values_below(name_index_entries(*features), registry.features@.len() as int),
        values_below(name_index_entries(*extensions), registry.extensions@.len() as int),
    ensures
        r@.map_values(|e: ProvenanceEntry| provenance_view(e)) == provenance(
            registry.types@,
            name_index_entries(*aliases),
            capability_pass(*registry, name_index_entries(*features), name_index_entries(*extensions)),
            definition_entries(registry.types@),
        ),
{
    let ghost ts = registry.types@;
    let ghost ae = name_index_entries(*aliases);
    let ghost fe = name_index_entries(*features);
    let ghost ee = name_index_entries(*extensions);
    let ghost pass = capability_pass(*registry, fe, ee);
    let defs = get_definitions(registry);
    let ghost de = name_index_entries(defs);
    let n_defs = name_index_len(&defs);
    let mut lists: Vec<Vec<String>> = Vec::new();
    while lists.len() < n_defs
        invariant
            n_defs == de.len(),
            lists@.len() <= n_defs,
            forall|t: int| 0 <= t < lists@.len() ==> (#[trigger] lists@[t])@.len() == 0,
        decreases n_defs - lists@.len(),
    {
        lists.push(Vec::new());
    }
    assert forall|t: int| 0 <= t < lists@.len() implies names_view(#[trigger] lists@[t]@) == providers(ts, ae, pass.subrange(0, 0), de[t].0) by {
        assert(names_view(lists@[t]@) =~= Seq::<Seq<char>>::empty());
    }
    let n_features = name_index_len(features);
    let mut k: usize = 0;
    while k < n_features
        invariant
            n_features == fe.len(),
            ts == registry.types@,
            ae == name_index_entries(*aliases),
            fe == name_index_entries(*features),
            ee == name_index_entries(*extensions),
            de == name_index_entries(defs),
            pass == capability_pass(*registry, fe, ee),
            k <= fe.len(),
            lists@.len() == de.len(),
            entry_keys_unique(de),
            valid_alias_entries(ts, ae),
            values_below(fe, registry.features@.len() as int),
            forall|t: int| 0 <= t < lists@.len() ==> names_view(#[trigger] lists@[t]@) == providers(ts, ae, pass.subrange(0, k as int), de[t].0),
        decreases fe.len() - k,
    {
        let (name, index) = name_index_get_index(features, k).unwrap();
        assert(fe[k as int].1 < registry.features@.len());
        let ghost prev = lists@;
        add_capability(&mut lists, &defs, &registry.types, aliases, &name, &registry.features[index].required_types);
        proof {
            assert(pass[k as int] == (name@, names_view(registry.features@[index as int].required_types@)));
            assert(pass.subrange(0, k as int + 1).drop_last() =~= pass.subrange(0, k as int));
            assert forall|t: int| 0 <= t < lists@.len() implies names_view(#[trigger] lists@[t]@) == providers(ts, ae, pass.subrange(0, k as int + 1), de[t].0) by {
                assert(names_view(prev[t]@) == providers(ts, ae, pass.subrange(0, k as int), de[t].0));
            }
        }
        k = k + 1;
    }
    let n_extensions = name_index_len(extensions);
    let mut k: usize = 0;
    while k < n_extensions
        invariant
            n_extensions == ee.len(),
            ts == registry.types@,
            ae == name_index_entries(*aliases),
            fe == name_index_entries(*features),
            ee == name_index_entries(*extensions),
            de == name_index_entries(defs),
            pass == capability_pass(*registry, fe, ee),
            k <= ee.len(),
            lists@.len() == de.len(),
            entry_keys_unique(de),
            valid_alias_entries(ts, ae),
            values_below(ee, registry.extensions@.len() as int),
            pass.len() == fe.len() + ee.len(),
            forall|t: int| 0 <= t < lists@.len() ==> names_view(#[trigger] lists@[t]@) == providers(ts, ae, pass.subrange(0, fe.len() + k as int), de[t].0),
        decreases ee.len() - k,
    {
        let (name, index) = name_index_get_index(extensions, k).unwrap();
        assert(ee[k as int].1 < registry.extensions@.len());
        let ghost prev = lists@;
        add_capability(&mut lists, &defs, &registry.types, aliases, &name, &registry.extensions[index].required_types);
        proof {
            let c = fe.len() + k as int;
            assert(pass[c] == (name@, names_view(registry.extensions@[index as int].required_types@)));
            assert(pass.subrange(0, c + 1).drop_last() =~= pass.subrange(0, c));
            assert forall|t: int| 0 <= t < lists@.len() implies names_view(#[trigger] lists@[t]@) == providers(ts, ae, pass.subrange(0, c + 1), de[t].0) by {
                assert(names_view(prev[t]@) == providers(ts, ae, pass.subrange(0, c), de[t].0));
            }
        }
        k = k + 1;
    }
    assert(pass.subrange(0, (fe.len() + ee.len()) as int) =~= pass);
    let mut out: Vec<ProvenanceEntry> = Vec::new();
    let ghost full = lists@;
    let mut t: usize = 0;
    while t < n_defs
        invariant
            n_defs == de.len() == lists@.len() == full.len(),
            ts == registry.types@,
            ae == name_index_entries(*aliases),
            fe == name_index_entries(*features),
            ee == name_index_entries(*extensions),
            de == name_index_entries(defs),
            pass == capability_pass(*registry, fe, ee),
            t <= n_defs,
            forall|u: int| t <= u < full.len() ==> #[trigger] lists@[u] == full[u],
            forall|u: int| 0 <= u < full.len() ==> names_view(#[trigger] full[u]@) == providers(ts, ae, pass, de[u].0),
            out@.map_values(|e: ProvenanceEntry| provenance_view(e)) == provenance(ts, ae, pass, de.subrange(0, t as int)),
        decreases n_defs - t,
    {
        proof {
            assert(de.subrange(0, t as int + 1).drop_last() =~= de.subrange(0, t as int));
        }
        if lists[t].len() > 0 {
            let (name, index) = name_index_get_index(&defs, t).unwrap();
            let mut taken: Vec<String> = Vec::new();
            lists.set_and_swap(t, &mut taken);
            let ghost before = out@;
            out.push(ProvenanceEntry { name, type_index: index, providers: taken });
            proof {
                assert(out@.map_values(|e: ProvenanceEntry| provenance_view(e)) =~= before.map_values(
                    |e: ProvenanceEntry| provenance_view(e),
                ).push((de[t as int].0, de[t as int].1, providers(ts, ae, pass, de[t as int].0))));
            }
        }
        t = t + 1;
    }
    assert(de.subrange(0, t as int) =~= de);
    assert(de == definition_entries(registry.types@));
    out
}

} // verus!
