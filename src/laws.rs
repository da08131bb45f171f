use crate::capabilities::{is_extension_collection, is_retained, names_last_retained, strictly_ordered};
use crate::models::{is_extraction_of, Models};
use crate::name_index::name_index_entries;
use crate::order::{extension_lt, extension_tier};
use crate::provenance::{
    provenance_view, ProvenanceEntry, add_provider, alias_target, provenance, providers, requires_type, resolve, valid_alias_entries,
};
use crate::header_version::{
    digits_value, is_digit, last_space, parse_u16, trailing_token, unsigned_digits, version_from_text, ConfigurationError,
};
use crate::registry::{Extension, TypeDecl};
use crate::text::{char_seq_lt, has_prefix};
use vstd::prelude::*;

verus! {

/// A name is in the extension collection exactly when some extension of that
/// name is supported on the platform and not obsoleted.
pub proof fn lemma_extension_presence(exts: Seq<Extension>, platform: Seq<char>, e: Seq<(Seq<char>, usize)>, n: Seq<char>)
    requires
        is_extension_collection(exts, platform, exts.len() as int, e),
    ensures
        (exists|i: int| 0 <= i < e.len() && e[i].0 == n) <==> (exists|j: int|
            0 <= j < exts.len() && is_retained(exts[j], platform) && exts[j].name@ == n),
{
    if exists|i: int| 0 <= i < e.len() && e[i].0 == n {
        let i = choose|i: int| 0 <= i < e.len() && e[i].0 == n;
        assert(names_last_retained(exts, platform, exts.len() as int, e[i]));
        let j = e[i].1 as int;
        assert(is_retained(exts[j], platform) && exts[j].name@ == n);
    }
    if exists|j: int| 0 <= j < exts.len() && is_retained(exts[j], platform) && exts[j].name@ == n {
        let j = choose|j: int| 0 <= j < exts.len() && is_retained(exts[j], platform) && exts[j].name@ == n;
        assert(is_retained(exts[j], platform));
    }
}

/// In the extension collection a Khronos extension precedes every other
/// extension, and within one tier names come in ascending order.
pub proof fn lemma_extension_collection_order(exts: Seq<Extension>, platform: Seq<char>, e: Seq<(Seq<char>, usize)>, i: int, j: int)
    requires
        is_extension_collection(exts, platform, exts.len() as int, e),
        0 <= i < e.len(),
        0 <= j < e.len(),
    ensures
        has_prefix("VK_KHR_"@, e[i].0) && !has_prefix("VK_KHR_"@, e[j].0) ==> i < j,
        extension_tier(e[i].0) < extension_tier(e[j].0) ==> i < j,
        extension_tier(e[i].0) == extension_tier(e[j].0) ==> (i < j <==> char_seq_lt(e[i].0, e[j].0)),
{
    crate::order::lemma_extension_order_strict_total(e[i].0, e[j].0, e[i].0);
    if j < i {
        assert(extension_lt(e[j].0, e[i].0));
    } else if i < j {
        assert(extension_lt(e[i].0, e[j].0));
    }
}

proof fn lemma_add_provider_contains(prev: Seq<Seq<char>>, c: Seq<char>, add: bool, n: Seq<char>)
    ensures
        add_provider(prev, c, add).contains(n) <==> (prev.contains(n) || (add && n == c)),
{
    if add && !prev.contains(c) {
        let r = prev.push(c);
        if r.contains(n) {
            let i = choose|i: int| 0 <= i < r.len() && r[i] == n;
            if i < prev.len() {
                assert(prev[i] == n);
            }
        }
        if prev.contains(n) {
            let i = choose|i: int| 0 <= i < prev.len() && prev[i] == n;
            assert(r[i] == n);
        }
        if n == c {
            assert(r[prev.len() as int] == n);
        }
    }
}

/// A capability name is among the providers of `t` exactly when some
/// capability of that name in the pass requires `t`.
pub proof fn lemma_providers_contains(
    ts: Seq<TypeDecl>,
    aliases: Seq<(Seq<char>, usize)>,
    pass: Seq<(Seq<char>, Seq<Seq<char>>)>,
    t: Seq<char>,
    n: Seq<char>,
)
    ensures
        providers(ts, aliases, pass, t).contains(n) <==> (exists|c: int|
            0 <= c < pass.len() && pass[c].0 == n && requires_type(ts, aliases, pass[c], t)),
    decreases pass.len(),
{
    if pass.len() > 0 {
        let init = pass.drop_last();
        lemma_providers_contains(ts, aliases, init, t, n);
        lemma_add_provider_contains(providers(ts, aliases, init, t), pass.last().0, requires_type(ts, aliases, pass.last(), t), n);
        if exists|c: int| 0 <= c < pass.len() && pass[c].0 == n && requires_type(ts, aliases, pass[c], t) {
            let c = choose|c: int| 0 <= c < pass.len() && pass[c].0 == n && requires_type(ts, aliases, pass[c], t);
            if c < init.len() {
                assert(init[c] == pass[c]);
            }
        }
        if exists|c: int| 0 <= c < init.len() && init[c].0 == n && requires_type(ts, aliases, init[c], t) {
            let c = choose|c: int| 0 <= c < init.len() && init[c].0 == n && requires_type(ts, aliases, init[c], t);
            assert(pass[c] == init[c]);
        }
    } else {
        assert(providers(ts, aliases, pass, t) =~= Seq::<Seq<char>>::empty());
    }
}

/// Each entry of the provenance model is a canonical type with its
/// providers, none of them empty, and every canonical type with a provider
/// has an entry.
pub proof fn lemma_provenance_entries(
    ts: Seq<TypeDecl>,
    aliases: Seq<(Seq<char>, usize)>,
    pass: Seq<(Seq<char>, Seq<Seq<char>>)>,
    defs: Seq<(Seq<char>, usize)>,
)
    ensures
        forall|i: int| 0 <= i < provenance(ts, aliases, pass, defs).len() ==> {
            let p = #[trigger] provenance(ts, aliases, pass, defs)[i];
            &&& p.2 == providers(ts, aliases, pass, p.0)
            &&& p.2.len() > 0
            &&& exists|d: int| 0 <= d < defs.len() && defs[d].0 == p.0
        },
        forall|d: int| 0 <= d < defs.len() && providers(ts, aliases, pass, (#[trigger] defs[d]).0).len() > 0 ==> exists|i: int|
            0 <= i < provenance(ts, aliases, pass, defs).len() && provenance(ts, aliases, pass, defs)[i].0 == defs[d].0,
    decreases defs.len(),
{
    if defs.len() > 0 {
        let init = defs.drop_last();
        lemma_provenance_entries(ts, aliases, pass, init);
        let prev = provenance(ts, aliases, pass, init);
        let r = provenance(ts, aliases, pass, defs);
        assert forall|i: int| 0 <= i < r.len() implies {
            let p = #[trigger] r[i];
            &&& p.2 == providers(ts, aliases, pass, p.0)
            &&& p.2.len() > 0
            &&& exists|d: int| 0 <= d < defs.len() && defs[d].0 == p.0
        } by {
            if i < prev.len() {
                assert(r[i] == prev[i]);
                let d = choose|d: int| 0 <= d < init.len() && init[d].0 == prev[i].0;
                assert(defs[d] == init[d]);
            } else {
                assert(defs[defs.len() - 1].0 == r[i].0);
            }
        }
        assert forall|d: int| 0 <= d < defs.len() && providers(ts, aliases, pass, (#[trigger] defs[d]).0).len() > 0 implies exists|i: int|
            0 <= i < r.len() && r[i].0 == defs[d].0 by {
            if d < init.len() {
                assert(init[d] == defs[d]);
                let i = choose|i: int| 0 <= i < prev.len() && prev[i].0 == init[d].0;
                assert(r[i] == prev[i]);
            } else {
                assert(r[prev.len() as int].0 == defs[d].0);
            }
        }
    }
}

/// A canonical type has an entry in the provenance model exactly when it is
/// a named definition that some capability of the pass requires, directly or
/// through an alias.
pub proof fn lemma_type_reachability(
    ts: Seq<TypeDecl>,
    aliases: Seq<(Seq<char>, usize)>,
    pass: Seq<(Seq<char>, Seq<Seq<char>>)>,
    defs: Seq<(Seq<char>, usize)>,
    t: Seq<char>,
)
    ensures
        (exists|i: int| 0 <= i < provenance(ts, aliases, pass, defs).len() && provenance(ts, aliases, pass, defs)[i].0 == t) <==> (
            (exists|d: int| 0 <= d < defs.len() && defs[d].0 == t) && (exists|c: int|
            0 <= c < pass.len() && requires_type(ts, aliases, pass[c], t))),
{
    lemma_provenance_entries(ts, aliases, pass, defs);
    let p = providers(ts, aliases, pass, t);
    if p.len() > 0 {
        lemma_providers_contains(ts, aliases, pass, t, p[0]);
        assert(p.contains(p[0]));
    }
    if exists|c: int| 0 <= c < pass.len() && requires_type(ts, aliases, pass[c], t) {
        let c = choose|c: int| 0 <= c < pass.len() && requires_type(ts, aliases, pass[c], t);
        lemma_providers_contains(ts, aliases, pass, t, pass[c].0);
        if p.len() == 0 {
            assert(!p.contains(pass[c].0));
        }
    }
    let r = provenance(ts, aliases, pass, defs);
    if exists|i: int| 0 <= i < r.len() && r[i].0 == t {
        let i = choose|i: int| 0 <= i < r.len() && r[i].0 == t;
        assert(r[i].2 == p);
    }
    if (exists|d: int| 0 <= d < defs.len() && defs[d].0 == t) && p.len() > 0 {
        let d = choose|d: int| 0 <= d < defs.len() && defs[d].0 == t;
        assert(providers(ts, aliases, pass, defs[d].0).len() > 0);
    }
}

/// Alias transparency: when capability `pass[c]` requires the alias name
/// `aliases[k].0`, the canonical name it stands for has that capability
/// among its providers, and the alias name, which names no definition, is
/// never a key of the provenance model.
pub proof fn lemma_alias_transparency(
    ts: Seq<TypeDecl>,
    aliases: Seq<(Seq<char>, usize)>,
    pass: Seq<(Seq<char>, Seq<Seq<char>>)>,
    defs: Seq<(Seq<char>, usize)>,
    c: int,
    j: int,
    k: int,
)
    requires
        valid_alias_entries(ts, aliases),
        0 <= c < pass.len(),
        0 <= j < pass[c].1.len(),
        0 <= k < aliases.len(),
        aliases[k].0 == pass[c].1[j],
        forall|d: int| 0 <= d < defs.len() ==> (#[trigger] defs[d]).0 != aliases[k].0,
    ensures
        forall|i: int| 0 <= i < provenance(ts, aliases, pass, defs).len() ==> (#[trigger] provenance(ts, aliases, pass, defs)[i]).0 != aliases[k].0,
        forall|i: int| 0 <= i < provenance(ts, aliases, pass, defs).len() && (#[trigger] provenance(ts, aliases, pass, defs)[i]).0 == alias_target(ts[aliases[k].1 as int])
            ==> provenance(ts, aliases, pass, defs)[i].2.contains(pass[c].0),
        (exists|d: int| 0 <= d < defs.len() && defs[d].0 == alias_target(ts[aliases[k].1 as int])) ==> exists|i: int|
            0 <= i < provenance(ts, aliases, pass, defs).len() && provenance(ts, aliases, pass, defs)[i].0 == alias_target(ts[aliases[k].1 as int]),
{
    let n = aliases[k].0;
    let m = alias_target(ts[aliases[k].1 as int]);
    let w = choose|i: int| 0 <= i < aliases.len() && aliases[i].0 == n;
    assert(w == k);
    assert(resolve(ts, aliases, pass[c].1[j]) == m);
    assert(requires_type(ts, aliases, pass[c], m));
    lemma_providers_contains(ts, aliases, pass, m, pass[c].0);
    lemma_provenance_entries(ts, aliases, pass, defs);
    lemma_type_reachability(ts, aliases, pass, defs, m);
    let r = provenance(ts, aliases, pass, defs);
    assert forall|i: int| 0 <= i < r.len() implies (#[trigger] r[i]).0 != n by {
        let d = choose|d: int| 0 <= d < defs.len() && defs[d].0 == r[i].0;
        assert(defs[d].0 != n);
    }
}

proof fn lemma_last_space_of_token(prefix: Seq<char>, tok: Seq<char>)
    requires
        forall|i: int| 0 <= i < tok.len() ==> tok[i] != ' ',
    ensures
        last_space(prefix.push(' ') + tok) == prefix.len(),
    decreases tok.len(),
{
    let s = prefix.push(' ') + tok;
    if tok.len() == 0 {
        assert(s =~= prefix.push(' '));
    } else {
        assert(s.drop_last() =~= prefix.push(' ') + tok.drop_last());
        assert(s.last() == tok.last());
        lemma_last_space_of_token(prefix, tok.drop_last());
    }
}

/// Payload text ending in the token 213 after a space yields version 213,
/// and text ending in the token abc yields no version at all.
pub proof fn lemma_header_version_token(prefix: Seq<char>)
    ensures
        version_from_text(prefix.push(' ') + seq!['2', '1', '3']) == Ok::<u16, ConfigurationError>(213),
        version_from_text(prefix.push(' ') + seq!['a', 'b', 'c']) == Err::<u16, ConfigurationError>(ConfigurationError::MalformedHeaderVersion),
{
    let good = seq!['2', '1', '3'];
    let bad = seq!['a', 'b', 'c'];
    lemma_last_space_of_token(prefix, good);
    lemma_last_space_of_token(prefix, bad);
    let s1 = prefix.push(' ') + good;
    let s2 = prefix.push(' ') + bad;
    assert(trailing_token(s1) == Some(s1.subrange(prefix.len() as int + 1, s1.len() as int)));
    assert(s1.subrange(prefix.len() as int + 1, s1.len() as int) =~= good);
    assert(s2.subrange(prefix.len() as int + 1, s2.len() as int) =~= bad);
    assert(unsigned_digits(good) == good);
    assert(unsigned_digits(bad) == bad);
    assert(good.drop_last() =~= seq!['2', '1']);
    assert(seq!['2', '1'].drop_last() =~= seq!['2']);
    assert(seq!['2'].drop_last() =~= Seq::<char>::empty());
    assert(digits_value(Seq::<char>::empty()) == 0);
    assert(seq!['2'].last() == '2');
    assert(seq!['2', '1'].last() == '1');
    assert(good.last() == '3');
    assert(digits_value(seq!['2']) == 2);
    assert(digits_value(seq!['2', '1']) == 21);
    assert(digits_value(good) == 213);
    assert(forall|i: int| 0 <= i < good.len() ==> is_digit(#[trigger] good[i]));
    assert(parse_u16(good) == Some(213u16));
    assert(!is_digit(bad[0]));
    assert(parse_u16(bad) is None);
}

/// Some entry of `e` has key `k`.
pub open spec fn has_key(e: Seq<(Seq<char>, usize)>, k: Seq<char>) -> bool {
    exists|i: int| 0 <= i < e.len() && e[i].0 == k
}

proof fn lemma_ordered_same_keys(e1: Seq<(Seq<char>, usize)>, e2: Seq<(Seq<char>, usize)>)
    requires
        strictly_ordered(e1),
        strictly_ordered(e2),
        forall|k: Seq<char>| #[trigger] has_key(e1, k) == has_key(e2, k),
    ensures
        e1.len() == e2.len(),
        forall|i: int| 0 <= i < e1.len() ==> #[trigger] e1[i].0 == e2[i].0,
    decreases e1.len(),
{
    if e1.len() == 0 {
        if e2.len() > 0 {
            assert(has_key(e2, e2[0].0));
            assert(has_key(e1, e2[0].0) == has_key(e2, e2[0].0));
        }
    } else {
        let l1 = e1.len() - 1;
        let a = e1[l1].0;
        assert(has_key(e1, a));
        assert(has_key(e1, a) == has_key(e2, a));
        assert(has_key(e1, a));
        let l2 = e2.len() - 1;
        let b = e2[l2].0;
        assert(has_key(e2, b));
        assert(has_key(e1, b) == has_key(e2, b));
        assert(has_key(e1, a) == has_key(e2, a));
        let p = choose|i: int| 0 <= i < e2.len() && e2[i].0 == a;
        let q = choose|i: int| 0 <= i < e1.len() && e1[i].0 == b;
        crate::order::lemma_extension_order_strict_total(a, b, a);
        if p < l2 {
            assert(extension_lt(a, b));
            if q < l1 {
                assert(extension_lt(b, a));
            }
        }
        assert(a == b);
        let d1 = e1.drop_last();
        let d2 = e2.drop_last();
        assert forall|k: Seq<char>| #[trigger] has_key(d1, k) == has_key(d2, k) by {
            if has_key(d1, k) {
                let i = choose|i: int| 0 <= i < d1.len() && d1[i].0 == k;
                assert(extension_lt(e1[i].0, a));
                crate::order::lemma_extension_order_strict_total(k, k, k);
                assert(has_key(e1, k));
                assert(has_key(e2, k));
                let j = choose|j: int| 0 <= j < e2.len() && e2[j].0 == k;
                assert(j != l2);
                assert(d2[j].0 == k);
            }
            if has_key(d2, k) {
                let i = choose|i: int| 0 <= i < d2.len() && d2[i].0 == k;
                assert(extension_lt(e2[i].0, a));
                crate::order::lemma_extension_order_strict_total(k, k, k);
                assert(has_key(e2, k));
                assert(has_key(e1, k) == has_key(e2, k));
                let j = choose|j: int| 0 <= j < e1.len() && e1[j].0 == k;
                assert(j != l1);
                assert(d1[j].0 == k);
            }
        }
        lemma_ordered_same_keys(d1, d2);
        assert forall|i: int| 0 <= i < e1.len() implies #[trigger] e1[i].0 == e2[i].0 by {
            if i < l1 {
                assert(d1[i].0 == d2[i].0);
            }
        }
    }
}

/// The description of the extension collection admits one collection only.
pub proof fn lemma_extension_collection_unique(
    exts: Seq<Extension>,
    platform: Seq<char>,
    e1: Seq<(Seq<char>, usize)>,
    e2: Seq<(Seq<char>, usize)>,
)
    requires
        is_extension_collection(exts, platform, exts.len() as int, e1),
        is_extension_collection(exts, platform, exts.len() as int, e2),
    ensures
        e1 == e2,
{
    let bound = exts.len() as int;
    assert forall|k: Seq<char>| #[trigger] has_key(e1, k) == has_key(e2, k) by {
        lemma_extension_presence(exts, platform, e1, k);
        lemma_extension_presence(exts, platform, e2, k);
    }
    lemma_ordered_same_keys(e1, e2);
    assert forall|i: int| 0 <= i < e1.len() implies #[trigger] e1[i] == e2[i] by {
        assert(e1[i].0 == e2[i].0);
        assert(names_last_retained(exts, platform, bound, e1[i]));
        assert(names_last_retained(exts, platform, bound, e2[i]));
        let v1 = e1[i].1 as int;
        let v2 = e2[i].1 as int;
        if v1 < v2 {
            assert(is_retained(exts[v2], platform));
        } else if v2 < v1 {
            assert(is_retained(exts[v1], platform));
        }
    }
    assert(e1 =~= e2);
}

/// The models as plain values.
pub open spec fn models_view(m: Models) -> (
    Seq<(Seq<char>, usize)>,
    Seq<(Seq<char>, usize)>,
    Seq<(Seq<char>, usize, Seq<Seq<char>>)>,
    u16,
) {
    (
        name_index_entries(m.extensions),
        name_index_entries(m.features),
        m.types@.map_values(|e: ProvenanceEntry| provenance_view(e)),
        m.header_version,
    )
}

/// Extraction is deterministic: any two results of extracting the same
/// registry for the same platform hold the same ordered collections, the
/// same provenance model and the same header version.
pub proof fn lemma_extraction_deterministic(registry: crate::registry::Registry, platform: Seq<char>, m1: Models, m2: Models)
    requires
        is_extraction_of(registry, platform, m1),
        is_extraction_of(registry, platform, m2),
    ensures
        models_view(m1) == models_view(m2),
{
    lemma_extension_collection_unique(
        registry.extensions@,
        platform,
        name_index_entries(m1.extensions),
        name_index_entries(m2.extensions),
    );
}

} // verus!
