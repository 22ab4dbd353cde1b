//! Classification of raw property-name patterns.
//!
//! A raw pattern is sorted into exactly one of eight categories by a fixed
//! grammar, tested in priority order; an entry that satisfies no rule is
//! dropped.  The grammar, with X the derived body:
//!
//! | category        | shape   | body X                          |
//! |-----------------|---------|---------------------------------|
//! | not contains    | `!*X*`  | non-empty, no `*`               |
//! | not starts with | `!X*`   | non-empty, no `*`, no `!`       |
//! | not ends with   | `!*X`   | non-empty, no `*`               |
//! | not exact       | `!X`    | non-empty, first char not `*`   |
//! | contains        | `*X*`   | non-empty, no `*`               |
//! | starts with     | `X*`    | non-empty, no `*`, no `!`       |
//! | ends with       | `*X`    | non-empty, no `*`               |
//! | exact           | `X`     | non-empty, no `*`, no `!`       |
//!
//! A bare `*` matches none of these rules; it is handled separately by the
//! wildcard flags of the matcher.

use vstd::prelude::*;
use vstd::string::StrSliceExecFns;

verus! {

/// The eight pattern categories.
#[derive(Clone, Copy, PartialEq, Eq, Structural, Debug)]
pub enum PatternKind {
    Exact,
    Contains,
    StartsWith,
    EndsWith,
    NotExact,
    NotContains,
    NotStartsWith,
    NotEndsWith,
}

/// No `*` anywhere in the sequence.
pub open spec fn star_free(s: Seq<char>) -> bool {
    forall|i: int| 0 <= i < s.len() ==> s[i] != '*'
}

/// Neither `*` nor `!` anywhere in the sequence.
pub open spec fn star_bang_free(s: Seq<char>) -> bool {
    forall|i: int| 0 <= i < s.len() ==> s[i] != '*' && s[i] != '!'
}

/// The category and derived body of a raw pattern, or `None` when the
/// pattern matches no grammar rule.  The rules are tested in priority
/// order, which makes the categories mutually exclusive by construction.
pub open spec fn classify(p: Seq<char>) -> Option<(PatternKind, Seq<char>)> {
    let n = p.len() as int;
    if n >= 4 && p[0] == '!' && p[1] == '*' && p[n - 1] == '*' && star_free(
        p.subrange(2, n - 1),
    ) {
        Some((PatternKind::NotContains, p.subrange(2, n - 1)))
    } else if n >= 3 && p[0] == '!' && p[n - 1] == '*' && star_bang_free(p.subrange(1, n - 1)) {
        Some((PatternKind::NotStartsWith, p.subrange(1, n - 1)))
    } else if n >= 3 && p[0] == '!' && p[1] == '*' && star_free(p.subrange(2, n)) {
        Some((PatternKind::NotEndsWith, p.subrange(2, n)))
    } else if n >= 2 && p[0] == '!' && p[1] != '*' {
        Some((PatternKind::NotExact, p.subrange(1, n)))
    } else if n >= 3 && p[0] == '*' && p[n - 1] == '*' && star_free(p.subrange(1, n - 1)) {
        Some((PatternKind::Contains, p.subrange(1, n - 1)))
    } else if n >= 2 && p[n - 1] == '*' && star_bang_free(p.subrange(0, n - 1)) {
        Some((PatternKind::StartsWith, p.subrange(0, n - 1)))
    } else if n >= 2 && p[0] == '*' && star_free(p.subrange(1, n)) {
        Some((PatternKind::EndsWith, p.subrange(1, n)))
    } else if n >= 1 && star_bang_free(p) {
        Some((PatternKind::Exact, p))
    } else {
        None
    }
}

/// The bodies of the entries of `l` that fall in category `k`, in order.
pub open spec fn category_bodies(l: Seq<Seq<char>>, k: PatternKind) -> Seq<Seq<char>>
    decreases l.len(),
{
    if l.len() == 0 {
        Seq::empty()
    } else {
        let rest = category_bodies(l.drop_last(), k);
        match classify(l.last()) {
            Some(pair) => if pair.0 == k {
                rest.push(pair.1)
            } else {
                rest
            },
            None => rest,
        }
    }
}

/// Is the character range `from..to` of `p` free of `*`?
fn star_free_range(p: &str, from: usize, to: usize) -> (r: bool)
    requires
        from <= to <= p@.len(),
        p@.len() <= usize::MAX,
    ensures
        r == star_free(p@.subrange(from as int, to as int)),
{
    let ghost sub = p@.subrange(from as int, to as int);
    let mut i: usize = from;
    while i < to
        invariant
            from <= i <= to <= p@.len(),
            p@.len() <= usize::MAX,
            sub == p@.subrange(from as int, to as int),
            forall|t: int| 0 <= t < i - from ==> sub[t] != '*',
        decreases to - i,
    {
        if p.get_char(i) == '*' {
            assert(sub[i - from] == '*');
            return false;
        }
        i += 1;
    }
    true
}

/// Is the character range `from..to` of `p` free of both `*` and `!`?
fn star_bang_free_range(p: &str, from: usize, to: usize) -> (r: bool)
    requires
        from <= to <= p@.len(),
        p@.len() <= usize::MAX,
    ensures
        r == star_bang_free(p@.subrange(from as int, to as int)),
{
    let ghost sub = p@.subrange(from as int, to as int);
    let mut i: usize = from;
    while i < to
        invariant
            from <= i <= to <= p@.len(),
            p@.len() <= usize::MAX,
            sub == p@.subrange(from as int, to as int),
            forall|t: int| 0 <= t < i - from ==> sub[t] != '*' && sub[t] != '!',
        decreases to - i,
    {
        let c = p.get_char(i);
        if c == '*' || c == '!' {
            assert(sub[i - from] == c);
            return false;
        }
        i += 1;
    }
    true
}

/// Classify one raw pattern and return its category and derived body.
pub fn classify_pattern(p: &str) -> (r: Option<(PatternKind, String)>)
    ensures
        match r {
            Some(pair) => classify(p@) == Some((pair.0, pair.1@)),
            None => classify(p@) is None,
        },
{
    let n = p.unicode_len();
    if n >= 4 && p.get_char(0) == '!' && p.get_char(1) == '*' && p.get_char(n - 1) == '*'
        && star_free_range(p, 2, n - 1) {
        Some((PatternKind::NotContains, p.substring_char(2, n - 1).to_owned()))
    } else if n >= 3 && p.get_char(0) == '!' && p.get_char(n - 1) == '*' && star_bang_free_range(
        p,
        1,
        n - 1,
    ) {
        Some((PatternKind::NotStartsWith, p.substring_char(1, n - 1).to_owned()))
    } else if n >= 3 && p.get_char(0) == '!' && p.get_char(1) == '*' && star_free_range(p, 2, n) {
        Some((PatternKind::NotEndsWith, p.substring_char(2, n).to_owned()))
    } else if n >= 2 && p.get_char(0) == '!' && p.get_char(1) != '*' {
        Some((PatternKind::NotExact, p.substring_char(1, n).to_owned()))
    } else if n >= 3 && p.get_char(0) == '*' && p.get_char(n - 1) == '*' && star_free_range(
        p,
        1,
        n - 1,
    ) {
        Some((PatternKind::Contains, p.substring_char(1, n - 1).to_owned()))
    } else if n >= 2 && p.get_char(n - 1) == '*' && star_bang_free_range(p, 0, n - 1) {
        Some((PatternKind::StartsWith, p.substring_char(0, n - 1).to_owned()))
    } else if n >= 2 && p.get_char(0) == '*' && star_free_range(p, 1, n) {
        Some((PatternKind::EndsWith, p.substring_char(1, n).to_owned()))
    } else if n >= 1 && star_bang_free_range(p, 0, n) {
        assert(p@.subrange(0, n as int) =~= p@);
        Some((PatternKind::Exact, p.to_owned()))
    } else {
        assert(p@.subrange(0, n as int) =~= p@);
        None
    }
}

/// The derived bodies of the entries of `list` that fall in category `kind`.
fn filter_bodies(list: &Vec<String>, kind: PatternKind) -> (r: Vec<String>)
    ensures
        r.deep_view() == category_bodies(list.deep_view(), kind),
{
    let mut out: Vec<String> = Vec::new();
    let mut i: usize = 0;
    while i < list.len()
        invariant
            i <= list@.len(),
            out.deep_view() == category_bodies(list.deep_view().subrange(0, i as int), kind),
        decreases list@.len() - i,
    {
        let ghost pre = list.deep_view().subrange(0, i as int);
        let ghost cur = list.deep_view().subrange(0, i + 1);
        assert(cur.drop_last() =~= pre);
        assert(cur.last() == list.deep_view()[i as int]);
        match classify_pattern(&list[i]) {
            Some(pair) => {
                if pair.0 == kind {
                    out.push(pair.1);
                }
            },
            None => {},
        }
        i += 1;
        assert(out.deep_view() =~= category_bodies(
            list.deep_view().subrange(0, i as int),
            kind,
        ));
    }
    assert(list.deep_view().subrange(0, list@.len() as int) =~= list.deep_view());
    out
}

/// The bodies of the plain-name entries (`X`).
pub fn exact(list: &Vec<String>) -> (r: Vec<String>)
    ensures
        r.deep_view() == category_bodies(list.deep_view(), PatternKind::Exact),
{
    filter_bodies(list, PatternKind::Exact)
}

/// The bodies of the `*X*` entries.
pub fn contain(list: &Vec<String>) -> (r: Vec<String>)
    ensures
        r.deep_view() == category_bodies(list.deep_view(), PatternKind::Contains),
{
    filter_bodies(list, PatternKind::Contains)
}

/// The bodies of the `X*` entries.
pub fn starts_with(list: &Vec<String>) -> (r: Vec<String>)
    ensures
        r.deep_view() == category_bodies(list.deep_view(), PatternKind::StartsWith),
{
    filter_bodies(list, PatternKind::StartsWith)
}

/// The bodies of the `*X` entries.
pub fn ends_with(list: &Vec<String>) -> (r: Vec<String>)
    ensures
        r.deep_view() == category_bodies(list.deep_view(), PatternKind::EndsWith),
{
    filter_bodies(list, PatternKind::EndsWith)
}

/// The bodies of the `!X` entries.
pub fn not_exact(list: &Vec<String>) -> (r: Vec<String>)
    ensures
        r.deep_view() == category_bodies(list.deep_view(), PatternKind::NotExact),
{
    filter_bodies(list, PatternKind::NotExact)
}

/// The bodies of the `!*X*` entries.
pub fn not_contain(list: &Vec<String>) -> (r: Vec<String>)
    ensures
        r.deep_view() == category_bodies(list.deep_view(), PatternKind::NotContains),
{
    filter_bodies(list, PatternKind::NotContains)
}

/// The bodies of the `!X*` entries.
pub fn not_starts_with(list: &Vec<String>) -> (r: Vec<String>)
    ensures
        r.deep_view() == category_bodies(list.deep_view(), PatternKind::NotStartsWith),
{
    filter_bodies(list, PatternKind::NotStartsWith)
}

/// The bodies of the `!*X` entries.
pub fn not_ends_with(list: &Vec<String>) -> (r: Vec<String>)
    ensures
        r.deep_view() == category_bodies(list.deep_view(), PatternKind::NotEndsWith),
{
    filter_bodies(list, PatternKind::NotEndsWith)
}

} // verus!
