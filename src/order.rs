use crate::text::{char_seq_lt, has_prefix, lemma_first_difference, lt_at, str_compare, str_starts_with, TextOrder};
use vstd::prelude::*;

verus! {

/// The rank of an extension name: Khronos extensions first, then
/// multi-vendor extensions, then all others.
pub open spec fn extension_tier(name: Seq<char>) -> int {
    if has_prefix("VK_KHR_"@, name) {
        0
    } else if has_prefix("VK_EXT_"@, name) {
        1
    } else {
        2
    }
}

/// The order of the extension collection: by tier, then by name.
pub open spec fn extension_lt(a: Seq<char>, b: Seq<char>) -> bool {
    extension_tier(a) < extension_tier(b) || (extension_tier(a) == extension_tier(b) && char_seq_lt(a, b))
}

/// The rank of an extension name, computed.
fn tier_of(name: &str) -> (r: u8)
    ensures
        r as int == extension_tier(name@),
{
    if str_starts_with(name, "VK_KHR_") {
        0
    } else if str_starts_with(name, "VK_EXT_") {
        1
    } else {
        2
    }
}

/// Compares two extension names in the order `extension_lt`.
pub fn extension_compare(a: &str, b: &str) -> (r: TextOrder)
    ensures
        r is Less <==> extension_lt(a@, b@),
        r is Equal <==> a@ == b@,
        r is Greater <==> extension_lt(b@, a@),
{
    let ta = tier_of(a);
    let tb = tier_of(b);
    if ta < tb {
        TextOrder::Less
    } else if tb < ta {
        TextOrder::Greater
    } else {
        str_compare(a, b)
    }
}

/// No sequence precedes itself.
pub proof fn lemma_char_seq_lt_irreflexive(a: Seq<char>)
    ensures
        !char_seq_lt(a, a),
{
    if char_seq_lt(a, a) {
        let k = choose|k: int| lt_at(a, a, k);
        assert(lt_at(a, a, k));
    }
}

/// The lexicographic order is transitive.
pub proof fn lemma_char_seq_lt_transitive(a: Seq<char>, b: Seq<char>, c: Seq<char>)
    requires
        char_seq_lt(a, b),
        char_seq_lt(b, c),
    ensures
        char_seq_lt(a, c),
{
    let k1 = choose|k: int| lt_at(a, b, k);
    let k2 = choose|k: int| lt_at(b, c, k);
    if k1 < k2 {
        assert(b[k1] == c[k1]);
        assert(lt_at(a, c, k1));
    } else if k2 < k1 {
        assert(a[k2] == b[k2]);
        assert(lt_at(a, c, k2));
    } else {
        assert(lt_at(a, c, k1));
    }
}

proof fn lemma_char_seq_total_from(a: Seq<char>, b: Seq<char>, k: int)
    requires
        0 <= k <= a.len(),
        k <= b.len(),
        forall|j: int| 0 <= j < k ==> a[j] == b[j],
    ensures
        a == b || char_seq_lt(a, b) || char_seq_lt(b, a),
    decreases a.len() - k,
{
    if k == a.len() || k == b.len() || a[k] != b[k] {
        lemma_first_difference(a, b, k);
        if k == a.len() && k == b.len() {
            assert(a =~= b);
        }
    } else {
        lemma_char_seq_total_from(a, b, k + 1);
    }
}

/// Two different sequences are ordered one way or the other.
pub proof fn lemma_char_seq_lt_total(a: Seq<char>, b: Seq<char>)
    ensures
        a == b || char_seq_lt(a, b) || char_seq_lt(b, a),
{
    lemma_char_seq_total_from(a, b, 0);
}

/// The extension order is a strict total order: irreflexive, transitive,
/// and it orders any two different names.
pub proof fn lemma_extension_order_strict_total(a: Seq<char>, b: Seq<char>, c: Seq<char>)
    ensures
        !extension_lt(a, a),
        extension_lt(a, b) ==> !extension_lt(b, a),
        extension_lt(a, b) && extension_lt(b, c) ==> extension_lt(a, c),
        a == b || extension_lt(a, b) || extension_lt(b, a),
{
    lemma_char_seq_lt_irreflexive(a);
    lemma_char_seq_lt_total(a, b);
    if char_seq_lt(a, b) && char_seq_lt(b, a) {
        lemma_char_seq_lt_transitive(a, b, a);
    }
    if char_seq_lt(a, b) && char_seq_lt(b, c) {
        lemma_char_seq_lt_transitive(a, b, c);
    }
}

} // verus!
