//! Character-level utilities shared by the matcher and the rewriter:
//! converting between `String` and `Vec<char>`, and substring, prefix and
//! suffix tests stated over `Seq<char>`.

use vstd::prelude::*;
use vstd::string::StrSliceExecFns;

verus! {

/// Collect the characters of a string slice into a vector.
pub fn str_to_chars(s: &str) -> (r: Vec<char>)
    ensures
        r@ == s@,
{
    let n = s.unicode_len();
    let mut v: Vec<char> = Vec::new();
    let mut i: usize = 0;
    while i < n
        invariant
            n == s@.len(),
            i <= n,
            v@ == s@.subrange(0, i as int),
        decreases n - i,
    {
        v.push(s.get_char(i));
        i += 1;
        assert(v@ =~= s@.subrange(0, i as int));
    }
    assert(v@ =~= s@);
    v
}

/// Relies on `String::push`: appends exactly the given character at the
/// end of the string.
#[verifier::external_body]
pub fn push_char(s: &mut String, c: char)
    ensures
        final(s)@ == old(s)@.push(c),
{
    s.push(c)
}

/// Build a `String` out of a vector of characters.
pub fn chars_to_string(v: &Vec<char>) -> (s: String)
    ensures
        s@ == v@,
{
    let mut s = String::new();
    let mut i: usize = 0;
    while i < v.len()
        invariant
            i <= v@.len(),
            s@ == v@.subrange(0, i as int),
        decreases v@.len() - i,
    {
        push_char(&mut s, v[i]);
        i += 1;
        assert(s@ =~= v@.subrange(0, i as int));
    }
    assert(s@ =~= v@);
    s
}

/// The needle occurs in the haystack starting at position `k`.
pub open spec fn occurs_at(hay: Seq<char>, needle: Seq<char>, k: int) -> bool {
    0 <= k && k + needle.len() <= hay.len() && hay.subrange(k, k + needle.len() as int)
        == needle
}

/// The needle occurs somewhere in the haystack.
pub open spec fn has_substring(hay: Seq<char>, needle: Seq<char>) -> bool {
    exists|k: int| occurs_at(hay, needle, k)
}

/// Compare equal-length character ranges of two strings.
fn range_eq(a: &str, a_from: usize, b: &str, len: usize) -> (r: bool)
    requires
        a_from + len <= a@.len(),
        a@.len() <= usize::MAX,
        len == b@.len(),
    ensures
        r == (a@.subrange(a_from as int, a_from + len) == b@),
{
    let mut j: usize = 0;
    while j < len
        invariant
            a_from + len <= a@.len(),
            a@.len() <= usize::MAX,
            len == b@.len(),
            j <= len,
            forall|t: int| 0 <= t < j ==> a@[a_from + t] == b@[t],
        decreases len - j,
    {
        if a.get_char(a_from + j) != b.get_char(j) {
            assert(a@.subrange(a_from as int, a_from + len)[j as int] != b@[j as int]);
            return false;
        }
        j += 1;
    }
    assert(a@.subrange(a_from as int, a_from + len) =~= b@);
    true
}

/// Does `needle` occur in `hay` as a contiguous substring?
pub fn str_contains(hay: &str, needle: &str) -> (r: bool)
    ensures
        r == has_substring(hay@, needle@),
{
    let n = hay.unicode_len();
    let m = needle.unicode_len();
    if m > n {
        assert(!has_substring(hay@, needle@)) by {
            assert(forall|k: int| !occurs_at(hay@, needle@, k));
        }
        return false;
    }
    if m == 0 {
        assert(hay@.subrange(0, 0) =~= needle@);
        assert(occurs_at(hay@, needle@, 0));
        return true;
    }
    let mut k: usize = 0;
    while k <= n - m
        invariant
            n == hay@.len(),
            m == needle@.len(),
            0 < m <= n,
            k <= n - m + 1,
            forall|t: int| 0 <= t < k ==> !occurs_at(hay@, needle@, t),
        decreases n - m + 1 - k,
    {
        if range_eq(hay, k, needle, m) {
            assert(occurs_at(hay@, needle@, k as int));
            return true;
        }
        k += 1;
    }
    assert(forall|t: int| occurs_at(hay@, needle@, t) ==> 0 <= t <= n - m);
    false
}

/// Does `hay` start with `needle`?
pub fn str_starts_with(hay: &str, needle: &str) -> (r: bool)
    ensures
        r == needle@.is_prefix_of(hay@),
{
    let n = hay.unicode_len();
    let m = needle.unicode_len();
    if m > n {
        return false;
    }
    let r = range_eq(hay, 0, needle, m);
    assert(hay@.subrange(0, m as int) == needle@ ==> needle@.is_prefix_of(hay@));
    assert(needle@.is_prefix_of(hay@) ==> hay@.subrange(0, m as int) == needle@);
    r
}

/// Does `hay` end with `needle`?
pub fn str_ends_with(hay: &str, needle: &str) -> (r: bool)
    ensures
        r == needle@.is_suffix_of(hay@),
{
    let n = hay.unicode_len();
    let m = needle.unicode_len();
    if m > n {
        return false;
    }
    let r = range_eq(hay, n - m, needle, m);
    assert(hay@.subrange(n - m, n as int) == needle@ ==> needle@.is_suffix_of(hay@));
    assert(needle@.is_suffix_of(hay@) ==> hay@.subrange(n - m, n as int) == needle@);
    r
}

/// Are two strings equal character for character?
pub fn str_eq(a: &str, b: &str) -> (r: bool)
    ensures
        r == (a@ == b@),
{
    let n = a.unicode_len();
    let m = b.unicode_len();
    if n != m {
        return false;
    }
    let r = range_eq(a, 0, b, m);
    assert(a@.subrange(0, m as int) =~= a@);
    r
}

} // verus!
