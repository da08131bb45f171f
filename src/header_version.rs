use crate::registry::{Registry, TypeDecl, TypePayload};
use crate::text::str_eq;
use vstd::prelude::*;

verus! {

/// A fatal condition: no model can be built, and nothing may be written.
#[derive(PartialEq, Eq, Structural, Debug, Clone, Copy)]
pub enum ConfigurationError {
    /// The registry document is missing or cannot be parsed at all.
    MissingDocument,
    /// No type declaration carries the header version marker.
    MissingHeaderVersion,
    /// More than one type declaration carries the header version marker.
    DuplicateHeaderVersion,
    /// The marked payload does not end in a token that reads as a `u16`.
    MalformedHeaderVersion,
}

impl ConfigurationError {
    /// A sentence naming the invariant that was violated.
    pub fn message(&self) -> (r: String)
        ensures
            *self == ConfigurationError::MissingDocument ==> r@ == "the registry document is missing or unreadable"@,
            *self == ConfigurationError::MissingHeaderVersion ==> r@ == "no type declaration carries the VK_HEADER_VERSION marker"@,
            *self == ConfigurationError::DuplicateHeaderVersion ==> r@ == "more than one type declaration carries the VK_HEADER_VERSION marker"@,
            *self == ConfigurationError::MalformedHeaderVersion ==> r@ == "the VK_HEADER_VERSION payload does not end in an unsigned 16-bit integer"@,
    {
        let s = match self {
            ConfigurationError::MissingDocument => String::from_str("the registry document is missing or unreadable"),
            ConfigurationError::MissingHeaderVersion => String::from_str("no type declaration carries the VK_HEADER_VERSION marker"),
            ConfigurationError::DuplicateHeaderVersion => String::from_str("more than one type declaration carries the VK_HEADER_VERSION marker"),
            ConfigurationError::MalformedHeaderVersion => String::from_str("the VK_HEADER_VERSION payload does not end in an unsigned 16-bit integer"),
        };
        s
    }
}

/// Whether `t` is a definition whose code markup flags the header version.
pub open spec fn marks_header_version(t: TypeDecl) -> bool {
    match t {
        TypeDecl::Definition { payload: TypePayload::Code { markup_names, .. }, .. } =>
            exists|i: int| 0 <= i < markup_names@.len() && (#[trigger] markup_names@[i])@ == "VK_HEADER_VERSION"@,
        _ => false,
    }
}

/// The code text of a definition with a code payload.
pub open spec fn code_text(t: TypeDecl) -> Seq<char> {
    match t {
        TypeDecl::Definition { payload: TypePayload::Code { text, .. }, .. } => text@,
        _ => Seq::empty(),
    }
}

/// Two different declarations of `ts` carry the header version marker.
pub open spec fn marked_twice(ts: Seq<TypeDecl>) -> bool {
    exists|i: int, j: int| 0 <= i < j < ts.len() && marks_header_version(ts[i]) && marks_header_version(ts[j])
}

/// The position of the last space in `s`, or -1 where there is none.
pub open spec fn last_space(s: Seq<char>) -> int
    decreases s.len(),
{
    if s.len() == 0 {
        -1
    } else if s.last() == ' ' {
        s.len() - 1
    } else {
        last_space(s.drop_last())
    }
}

/// What follows the last space of `s`, if `s` holds a space.
pub open spec fn trailing_token(s: Seq<char>) -> Option<Seq<char>> {
    let p = last_space(s);
    if p < 0 {
        None
    } else {
        Some(s.subrange(p + 1, s.len() as int))
    }
}

pub open spec fn is_digit(c: char) -> bool {
    '0' <= c && c <= '9'
}

/// The number that a string of decimal digits denotes.
pub open spec fn digits_value(s: Seq<char>) -> nat
    decreases s.len(),
{
    if s.len() == 0 {
        0
    } else {
        digits_value(s.drop_last()) * 10 + (s.last() as nat - '0' as nat) as nat
    }
}

/// The digits of an unsigned decimal literal: without its optional `+`.
pub open spec fn unsigned_digits(s: Seq<char>) -> Seq<char> {
    if s.len() > 0 && s[0] == '+' {
        s.subrange(1, s.len() as int)
    } else {
        s
    }
}

/// `s` read as a `u16` in decimal, as `str::parse` reads it: an optional
/// `+`, then one or more digits, of value at most 65535.
pub open spec fn parse_u16(s: Seq<char>) -> Option<u16> {
    let d = unsigned_digits(s);
    if d.len() > 0 && (forall|i: int| 0 <= i < d.len() ==> is_digit(#[trigger] d[i])) && digits_value(d) <= 65535 {
        Some(digits_value(d) as u16)
    } else {
        None
    }
}

/// The header version that the marked payload text `s` states.
pub open spec fn version_from_text(s: Seq<char>) -> Result<u16, ConfigurationError> {
    match trailing_token(s) {
        None => Err(ConfigurationError::MalformedHeaderVersion),
        Some(tok) => match parse_u16(tok) {
            Some(v) => Ok(v),
            None => Err(ConfigurationError::MalformedHeaderVersion),
        },
    }
}

/// The header version of the type declarations `ts`: exactly one
/// declaration must carry the marker, and its payload states the version.
pub open spec fn header_version(ts: Seq<TypeDecl>) -> Result<u16, ConfigurationError> {
    if marked_twice(ts) {
        Err(ConfigurationError::DuplicateHeaderVersion)
    } else if exists|i: int| 0 <= i < ts.len() && marks_header_version(ts[i]) {
        let i = choose|i: int| 0 <= i < ts.len() && marks_header_version(ts[i]);
        version_from_text(code_text(ts[i]))
    } else {
        Err(ConfigurationError::MissingHeaderVersion)
    }
}

proof fn lemma_digits_value_prefix(d: Seq<char>, k: int)
    requires
        0 <= k <= d.len(),
        forall|i: int| 0 <= i < d.len() ==> is_digit(#[trigger] d[i]),
    ensures
        digits_value(d.subrange(0, k)) <= digits_value(d),
    decreases d.len(),
{
    if k < d.len() {
        assert(d.drop_last().subrange(0, k) =~= d.subrange(0, k));
        lemma_digits_value_prefix(d.drop_last(), k);
    } else {
        assert(d.subrange(0, k) =~= d);
    }
}

/// Reads `s` as a `u16` in decimal.
fn read_u16(s: &str) -> (r: Option<u16>)
    ensures
        r == parse_u16(s@),
{
    let n = s.unicode_len();
    let start: usize = if n > 0 && s.get_char(0) == '+' { 1 } else { 0 };
    let ghost d = unsigned_digits(s@);
    assert(d =~= s@.subrange(start as int, n as int));
    if start == n {
        return None;
    }
    let mut acc: u32 = 0;
    let mut i: usize = start;
    while i < n
        invariant
            start <= i <= n == s@.len(),
            d == s@.subrange(start as int, n as int),
            d == unsigned_digits(s@),
            d.len() > 0,
            forall|j: int| 0 <= j < i - start ==> is_digit(#[trigger] d[j]),
            acc as nat == digits_value(d.subrange(0, i - start)),
            acc <= 65535,
        decreases n - i,
    {
        let c = s.get_char(i);
        assert(d[i - start] == c);
        if !('0' <= c && c <= '9') {
            assert(!is_digit(d[i - start]));
            return None;
        }
        let ghost k = i - start;
        assert(d.subrange(0, k + 1).drop_last() =~= d.subrange(0, k));
        assert(d.subrange(0, k + 1).last() == c);
        let next: u32 = acc * 10 + (c as u32 - '0' as u32);
        assert(next as nat == digits_value(d.subrange(0, k + 1)));
        if next > 65535 {
            proof {
                if forall|j: int| 0 <= j < d.len() ==> is_digit(#[trigger] d[j]) {
                    lemma_digits_value_prefix(d, i - start + 1);
                }
            }
            return None;
        }
        acc = next;
        i = i + 1;
    }
    assert(d.subrange(0, n - start) =~= d);
    Some(acc as u16)
}

/// The position just after the last space of `s`, if `s` holds a space.
fn token_start(s: &str) -> (r: Option<usize>)
    ensures
        r is None <==> last_space(s@) < 0,
        r is Some ==> r.unwrap() == last_space(s@) + 1 && r.unwrap() <= s@.len(),
{
    let n = s.unicode_len();
    let mut i: usize = n;
    assert(s@.subrange(0, n as int) =~= s@);
    while i > 0
        invariant
            i <= n == s@.len(),
            last_space(s@) == last_space(s@.subrange(0, i as int)),
        decreases i,
    {
        assert(s@.subrange(0, i as int).last() == s@[i - 1]);
        if s.get_char(i - 1) == ' ' {
            return Some(i);
        }
        assert(s@.subrange(0, i as int).drop_last() =~= s@.subrange(0, i - 1));
        i = i - 1;
    }
    None
}

/// Reads the header version from the marked payload text: the token after
/// its last space, as a `u16`.
pub fn parse_header_version(text: &str) -> (r: Result<u16, ConfigurationError>)
    ensures
        r == version_from_text(text@),
{
    match token_start(text) {
        None => Err(ConfigurationError::MalformedHeaderVersion),
        Some(p) => {
            let tok = text.substring_char(p, text.unicode_len());
            match read_u16(tok) {
                Some(v) => Ok(v),
                None => Err(ConfigurationError::MalformedHeaderVersion),
            }
        },
    }
}

/// Whether `names` holds the header version marker.
fn has_marker(names: &Vec<String>) -> (r: bool)
    ensures
        r == exists|i: int| 0 <= i < names@.len() && (#[trigger] names@[i])@ == "VK_HEADER_VERSION"@,
{
    let mut i: usize = 0;
    while i < names.len()
        invariant
            i <= names@.len(),
            forall|j: int| 0 <= j < i ==> (#[trigger] names@[j])@ != "VK_HEADER_VERSION"@,
        decreases names@.len() - i,
    {
        if str_eq(names[i].as_str(), "VK_HEADER_VERSION") {
            return true;
        }
        i = i + 1;
    }
    false
}

/// Finds the header version: the one type declaration whose code markup
/// flags `VK_HEADER_VERSION`, read by `parse_header_version`. No such
/// declaration, or more than one, is an error.
pub fn get_header_version(registry: &Registry) -> (r: Result<u16, ConfigurationError>)
    ensures
        r == header_version(registry.types@),
{
    let ts = &registry.types;
    let mut found: Option<usize> = None;
    let mut i: usize = 0;
    while i < ts.len()
        invariant
            i <= ts@.len(),
            ts@ == registry.types@,
            found is None ==> forall|j: int| 0 <= j < i ==> !marks_header_version(#[trigger] ts@[j]),
            found is Some ==> found.unwrap() < i && marks_header_version(ts@[found.unwrap() as int]) && forall|j: int|
                0 <= j < i && j != found.unwrap() ==> !marks_header_version(#[trigger] ts@[j]),
        decreases ts@.len() - i,
    {
        let marked = match &ts[i] {
            TypeDecl::Definition { payload: TypePayload::Code { markup_names, .. }, .. } => has_marker(markup_names),
            _ => false,
        };
        if marked {
            match found {
                Some(k) => {
                    assert(marks_header_version(ts@[k as int]) && marks_header_version(ts@[i as int]));
                    assert(marked_twice(ts@));
                    return Err(ConfigurationError::DuplicateHeaderVersion);
                },
                None => {
                    found = Some(i);
                },
            }
        }
        i = i + 1;
    }
    match found {
        None => {
            proof {
                if exists|c: int| 0 <= c < ts@.len() && marks_header_version(ts@[c]) {
                    let c = choose|c: int| 0 <= c < ts@.len() && marks_header_version(ts@[c]);
                    assert(!marks_header_version(ts@[c]));
                }
                if marked_twice(ts@) {
                    let (a, b) = choose|a: int, b: int| 0 <= a < b < ts@.len() && marks_header_version(ts@[a]) && marks_header_version(ts@[b]);
                    assert(!marks_header_version(ts@[a]));
                }
            }
            Err(ConfigurationError::MissingHeaderVersion)
        },
        Some(k) => {
            proof {
                if marked_twice(ts@) {
                    let (a, b) = choose|a: int, b: int| 0 <= a < b < ts@.len() && marks_header_version(ts@[a]) && marks_header_version(ts@[b]);
                    if a != k {
                        assert(!marks_header_version(ts@[a]));
                    } else {
                        assert(!marks_header_version(ts@[b]));
                    }
                }
                let c = choose|c: int| 0 <= c < ts@.len() && marks_header_version(ts@[c]);
                if c != k {
                    assert(!marks_header_version(ts@[c]));
                }
            }
            match &ts[k] {
                TypeDecl::Definition { payload: TypePayload::Code { text, .. }, .. } => {
                    assert(code_text(ts@[k as int]) == text@);
                    parse_header_version(text.as_str())
                },
                _ => {
                    assert(!marks_header_version(ts@[k as int]));
                    Err(ConfigurationError::MissingHeaderVersion)
                },
            }
        },
    }
}

} // verus!
