//! Character classes and scanning primitives shared by the grammar rules.
//!
//! A scan walks forward from a position while the characters belong to a
//! class; every lexical rule of the file format is built from such runs.

use vstd::prelude::*;

verus! {

/// The character classes the grammar distinguishes.
#[derive(Clone, Copy, Debug, PartialEq, Eq, Structural)]
pub enum Cls {
    /// Space or tab: separators inside a line.
    LineWs,
    /// Space, tab, carriage return or newline: blank space between blocks.
    AnyWs,
    /// An ASCII letter: the characters of a method token.
    Letter,
    /// An ASCII digit: the characters of a version number.
    Digit,
    /// Anything except whitespace: the characters of a URI token.
    NonWs,
    /// Anything except a newline: the remainder of a line.
    NotNl,
    /// Anything except `:` or a newline: the characters of a header name.
    NameChar,
}

/// Membership of a character in a class.
pub open spec fn in_cls(cls: Cls, c: char) -> bool {
    match cls {
        Cls::LineWs => c == ' ' || c == '\t',
        Cls::AnyWs => c == ' ' || c == '\t' || c == '\r' || c == '\n',
        Cls::Letter => ('A' <= c && c <= 'Z') || ('a' <= c && c <= 'z'),
        Cls::Digit => '0' <= c && c <= '9',
        Cls::NonWs => !(c == ' ' || c == '\t' || c == '\r' || c == '\n'),
        Cls::NotNl => c != '\n',
        Cls::NameChar => c != ':' && c != '\n',
    }
}

/// The first position at or after `i` whose character is outside `cls`
/// (or the end of the text).
pub open spec fn scan(s: Seq<char>, i: int, cls: Cls) -> int
    decreases s.len() - i,
{
    if 0 <= i < s.len() && in_cls(cls, s[i]) {
        scan(s, i + 1, cls)
    } else {
        i
    }
}

/// What a scan returns: the longest run of `cls` characters starting at `i`.
pub proof fn lemma_scan(s: Seq<char>, i: int, cls: Cls)
    requires
        0 <= i <= s.len(),
    ensures
        i <= scan(s, i, cls) <= s.len(),
        forall|j: int| i <= j < scan(s, i, cls) ==> in_cls(cls, s[j]),
        scan(s, i, cls) < s.len() ==> !in_cls(cls, s[scan(s, i, cls)]),
    decreases s.len() - i,
{
    if i < s.len() && in_cls(cls, s[i]) {
        lemma_scan(s, i + 1, cls);
    }
}

/// A scan result is determined by its characterization: any bound `e` of a
/// run of `cls` characters that stops at a non-member (or the end) is the
/// scan result.
pub proof fn lemma_scan_unique(s: Seq<char>, i: int, cls: Cls, e: int)
    requires
        0 <= i <= e <= s.len(),
        forall|j: int| i <= j < e ==> in_cls(cls, s[j]),
        e < s.len() ==> !in_cls(cls, s[e]),
    ensures
        scan(s, i, cls) == e,
    decreases e - i,
{
    if i < e {
        lemma_scan_unique(s, i + 1, cls, e);
    }
}

/// Executable membership test, equal to the spec-level class.
pub fn cls_test(cls: Cls, c: char) -> (b: bool)
    ensures
        b == in_cls(cls, c),
{
    match cls {
        Cls::LineWs => c == ' ' || c == '\t',
        Cls::AnyWs => c == ' ' || c == '\t' || c == '\r' || c == '\n',
        Cls::Letter => ('A' <= c && c <= 'Z') || ('a' <= c && c <= 'z'),
        Cls::Digit => '0' <= c && c <= '9',
        Cls::NonWs => !(c == ' ' || c == '\t' || c == '\r' || c == '\n'),
        Cls::NotNl => c != '\n',
        Cls::NameChar => c != ':' && c != '\n',
    }
}

/// Executable scan over a string, by character position.
pub fn scan_from(s: &str, n: usize, i: usize, cls: Cls) -> (r: usize)
    requires
        n == s@.len(),
        i <= n,
    ensures
        r == scan(s@, i as int, cls),
        i <= r <= n,
{
    let mut k: usize = i;
    while k < n && cls_test(cls, s.get_char(k))
        invariant
            n == s@.len(),
            i <= k <= n,
            scan(s@, i as int, cls) == scan(s@, k as int, cls),
        decreases n - k,
    {
        k = k + 1;
    }
    proof {
        lemma_scan(s@, k as int, cls);
    }
    k
}

/// Executable string comparison, equal to equality of the views.
pub fn str_eq(a: &str, b: &str) -> (r: bool)
    ensures
        r == (a@ == b@),
{
    let na = a.unicode_len();
    let nb = b.unicode_len();
    if na != nb {
        proof {
            assert(a@ != b@);
        }
        return false;
    }
    let mut k: usize = 0;
    while k < na
        invariant
            na == a@.len(),
            na == b@.len(),
            k <= na,
            forall|j: int| 0 <= j < k ==> a@[j] == b@[j],
        decreases na - k,
    {
        if a.get_char(k) != b.get_char(k) {
            proof {
                assert(a@[k as int] != b@[k as int]);
            }
            return false;
        }
        k = k + 1;
    }
    proof {
        assert(a@ =~= b@);
    }
    true
}

} // verus!
