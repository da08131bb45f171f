use vstd::prelude::*;

verus! {

/// `p` is a prefix of `s`.
pub open spec fn has_prefix(p: Seq<char>, s: Seq<char>) -> bool {
    p.len() <= s.len() && s.subrange(0, p.len() as int) == p
}

/// Lexicographic order on character sequences by code point: `a` precedes
/// `b` at the first position where they differ, or `a` is a proper prefix
/// of `b`. For strings this is the order of their UTF-8 bytes.
pub open spec fn char_seq_lt(a: Seq<char>, b: Seq<char>) -> bool {
    exists|k: int| lt_at(a, b, k)
}

/// `a` and `b` agree before `k`, and at `k` either `a` ends while `b` goes
/// on, or `a` holds the smaller character.
pub open spec fn lt_at(a: Seq<char>, b: Seq<char>, k: int) -> bool {
    &&& 0 <= k <= a.len()
    &&& k <= b.len()
    &&& forall|j: int| 0 <= j < k ==> a[j] == b[j]
    &&& ((k == a.len() && k < b.len()) || (k < a.len() && k < b.len() && (a[k] as int) < (b[k] as int)))
}

/// The outcome of comparing two strings.
pub enum TextOrder {
    Less,
    Equal,
    Greater,
}

/// Whether two strings hold the same characters.
pub fn str_eq(a: &str, b: &str) -> (r: bool)
    ensures
        r == (a@ == b@),
{
    let n = a.unicode_len();
    if n != b.unicode_len() {
        return false;
    }
    let mut i: usize = 0;
    while i < n
        invariant
            n == a@.len() == b@.len(),
            i <= n,
            forall|j: int| 0 <= j < i ==> a@[j] == b@[j],
        decreases n - i,
    {
        if a.get_char(i) != b.get_char(i) {
            return false;
        }
        i = i + 1;
    }
    assert(a@ =~= b@);
    true
}

/// Whether `s` begins with `p`.
pub fn str_starts_with(s: &str, p: &str) -> (r: bool)
    ensures
        r == has_prefix(p@, s@),
{
    let n = p.unicode_len();
    if n > s.unicode_len() {
        return false;
    }
    let mut i: usize = 0;
    while i < n
        invariant
            n == p@.len() <= s@.len(),
            i <= n,
            forall|j: int| 0 <= j < i ==> s@[j] == p@[j],
        decreases n - i,
    {
        if s.get_char(i) != p.get_char(i) {
            assert(s@.subrange(0, n as int)[i as int] != p@[i as int]);
            return false;
        }
        i = i + 1;
    }
    assert(s@.subrange(0, n as int) =~= p@);
    true
}

/// Compares two strings in the order `char_seq_lt`.
pub fn str_compare(a: &str, b: &str) -> (r: TextOrder)
    ensures
        r is Less <==> char_seq_lt(a@, b@),
        r is Equal <==> a@ == b@,
        r is Greater <==> char_seq_lt(b@, a@),
{
    let na = a.unicode_len();
    let nb = b.unicode_len();
    let mut i: usize = 0;
    while i < na && i < nb
        invariant
            na == a@.len(),
            nb == b@.len(),
            i <= na,
            i <= nb,
            forall|j: int| 0 <= j < i ==> a@[j] == b@[j],
        decreases na - i,
    {
        let ca = a.get_char(i);
        let cb = b.get_char(i);
        if ca != cb {
            proof {
                lemma_first_difference(a@, b@, i as int);
            }
            if (ca as u32) < (cb as u32) {
                return TextOrder::Less;
            } else {
                return TextOrder::Greater;
            }
        }
        i = i + 1;
    }
    proof {
        lemma_first_difference(a@, b@, i as int);
    }
    if na < nb {
        TextOrder::Less
    } else if nb < na {
        TextOrder::Greater
    } else {
        assert(a@ =~= b@);
        TextOrder::Equal
    }
}

/// Where two sequences first differ at `k` (or one ends there), the order
/// between them is decided at `k`.
pub proof fn lemma_first_difference(a: Seq<char>, b: Seq<char>, k: int)
    requires
        0 <= k <= a.len(),
        k <= b.len(),
        forall|j: int| 0 <= j < k ==> a[j] == b[j],
        k == a.len() || k == b.len() || a[k] != b[k],
    ensures
        char_seq_lt(a, b) <==> lt_at(a, b, k),
        char_seq_lt(b, a) <==> lt_at(b, a, k),
{
    assert forall|m: int| #[trigger] lt_at(a, b, m) implies m == k by {
        if m < k {
            assert(a[m] == b[m]);
        } else if m > k {
            assert(a[k] == b[k]);
        }
    }
    assert forall|m: int| #[trigger] lt_at(b, a, m) implies m == k by {
        if m < k {
            assert(a[m] == b[m]);
        } else if m > k {
            assert(a[k] == b[k]);
        }
    }
}

} // verus!
