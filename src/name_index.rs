use indexmap::IndexMap;
use vstd::prelude::*;

verus! {

/// indexmap's insertion-ordered hash map, held opaque; its contents are
/// spoken of through `name_index_entries`.
#[verifier::external_type_specification]
#[verifier::external_body]
#[verifier::reject_recursive_types(K)]
#[verifier::reject_recursive_types(V)]
#[verifier::reject_recursive_types(S)]
pub struct ExIndexMap<K, V, S>(IndexMap<K, V, S>);

/// The entries of an insertion-ordered map from names to indices, in order.
pub uninterp spec fn name_index_entries(m: IndexMap<String, usize>) -> Seq<(Seq<char>, usize)>;

/// No key occurs twice among the entries.
pub open spec fn entry_keys_unique(e: Seq<(Seq<char>, usize)>) -> bool {
    forall|i: int, j: int| 0 <= i < j < e.len() ==> e[i].0 != e[j].0
}

/// The entries after inserting `k -> v`: an entry with key `k` keeps its
/// place and takes the new value; otherwise the pair goes last.
pub open spec fn insert_entry(e: Seq<(Seq<char>, usize)>, k: Seq<char>, v: usize) -> Seq<(Seq<char>, usize)> {
    if exists|i: int| 0 <= i < e.len() && e[i].0 == k {
        let i = choose|i: int| 0 <= i < e.len() && e[i].0 == k;
        e.update(i, (k, v))
    } else {
        e.push((k, v))
    }
}

/// An owned entry as a pair of plain values.
pub open spec fn entry_view(p: (String, usize)) -> (Seq<char>, usize) {
    (p.0@, p.1)
}

/// What a lookup of `k` may return, given the entries.
pub open spec fn lookup_holds(e: Seq<(Seq<char>, usize)>, k: Seq<char>, r: Option<usize>) -> bool {
    match r {
        Some(v) => exists|i: int| 0 <= i < e.len() && e[i] == (k, v),
        None => forall|i: int| 0 <= i < e.len() ==> e[i].0 != k,
    }
}

/// Relies on indexmap::IndexMap::new: the map starts with no entries.
#[verifier::external_body]
pub(crate) fn name_index_new() -> (r: IndexMap<String, usize>)
    ensures
        name_index_entries(r) == Seq::<(Seq<char>, usize)>::empty(),
{
    IndexMap::new()
}

/// Relies on indexmap::IndexMap::insert: an equal key keeps its place and
/// takes the new value; a new key is appended last.
#[verifier::external_body]
pub(crate) fn name_index_insert(m: &mut IndexMap<String, usize>, k: String, v: usize)
    ensures
        name_index_entries(*final(m)) == insert_entry(name_index_entries(*old(m)), k@, v),
{
    m.insert(k, v);
}

/// Relies on indexmap::IndexMap::get: the value of the entry whose key
/// equals `k`, if there is one.
#[verifier::external_body]
pub(crate) fn name_index_get(m: &IndexMap<String, usize>, k: &str) -> (r: Option<usize>)
    ensures
        lookup_holds(name_index_entries(*m), k@, r),
{
    m.get(k).copied()
}

/// Relies on indexmap::IndexMap::get_index_of: the position of the entry
/// whose key equals `k`, if there is one.
#[verifier::external_body]
pub(crate) fn name_index_position(m: &IndexMap<String, usize>, k: &str) -> (r: Option<usize>)
    ensures
        r is Some ==> r.unwrap() < name_index_entries(*m).len() && name_index_entries(*m)[r.unwrap() as int].0 == k@,
        r is None ==> forall|i: int| 0 <= i < name_index_entries(*m).len() ==> name_index_entries(*m)[i].0 != k@,
{
    m.get_index_of(k)
}

/// Relies on indexmap::IndexMap::len: the number of entries.
#[verifier::external_body]
pub(crate) fn name_index_len(m: &IndexMap<String, usize>) -> (r: usize)
    ensures
        r == name_index_entries(*m).len(),
{
    m.len()
}

/// Relies on indexmap::IndexMap::get_index: the entry at position `i`.
#[verifier::external_body]
pub(crate) fn name_index_get_index(m: &IndexMap<String, usize>, i: usize) -> (r: Option<(String, usize)>)
    ensures
        r is Some <==> i < name_index_entries(*m).len(),
        r is Some ==> entry_view(r.unwrap()) == name_index_entries(*m)[i as int],
{
    m.get_index(i).map(|(k, v)| (k.clone(), *v))
}

/// Each entry after inserting is the new pair or the entry that stood there.
pub proof fn lemma_insert_entry_shape(e: Seq<(Seq<char>, usize)>, k: Seq<char>, v: usize)
    ensures
        forall|i: int| 0 <= i < insert_entry(e, k, v).len() ==> #[trigger] insert_entry(e, k, v)[i] == (k, v) || (i < e.len()
            && insert_entry(e, k, v)[i] == e[i]),
{
}

/// Inserting keeps keys unique.
pub proof fn lemma_insert_entry_unique(e: Seq<(Seq<char>, usize)>, k: Seq<char>, v: usize)
    requires
        entry_keys_unique(e),
    ensures
        entry_keys_unique(insert_entry(e, k, v)),
        forall|i: int| 0 <= i < e.len() ==> #[trigger] insert_entry(e, k, v)[i].0 == e[i].0,
        insert_entry(e, k, v).len() >= e.len(),
        exists|i: int| 0 <= i < insert_entry(e, k, v).len() && insert_entry(e, k, v)[i] == (k, v),
{
    let r = insert_entry(e, k, v);
    if exists|i: int| 0 <= i < e.len() && e[i].0 == k {
        let i = choose|i: int| 0 <= i < e.len() && e[i].0 == k;
        assert(r[i] == (k, v));
    } else {
        assert(r[e.len() as int] == (k, v));
    }
}

} // verus!
