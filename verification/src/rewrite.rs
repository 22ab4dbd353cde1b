//! The value-text scanner.
//!
//! A value is scanned left to right for, in priority order: a
//! double-quoted string, a single-quoted string, a `url(...)` call, a
//! `var(...)` call, and a decimal number immediately followed by the
//! lowercase marker `px`.  Quoted strings and call spans are copied
//! through verbatim and never searched for pixel numbers; only a
//! recognized pixel number is converted.  Everything else passes through
//! unchanged, one character at a time.

use crate::numeric::{
    convert_px_token, is_digit, px_suffix, spec_convert_token,
};
use vstd::prelude::*;

verus! {

/// The least index at or after `from` holding `c`, or the length.
pub open spec fn find_char_from(s: Seq<char>, from: int, c: char) -> int
    decreases s.len() - from,
    when 0 <= from <= s.len()
{
    if from >= s.len() {
        s.len() as int
    } else if s[from] == c {
        from
    } else {
        find_char_from(s, from + 1, c)
    }
}

/// The least index at or after `from` holding a non-digit, or the length.
pub open spec fn digit_run_end(s: Seq<char>, from: int) -> int
    decreases s.len() - from,
    when 0 <= from <= s.len()
{
    if from >= s.len() {
        s.len() as int
    } else if is_digit(s[from]) {
        digit_run_end(s, from + 1)
    } else {
        from
    }
}

/// `w` occurs in `s` starting exactly at `i`.
pub open spec fn starts_with_at(s: Seq<char>, i: int, w: Seq<char>) -> bool {
    0 <= i && i + w.len() <= s.len() && s.subrange(i, i + w.len() as int) == w
}

/// Where `find_char_from` lands and what holds there.
pub proof fn lemma_find_char_from(s: Seq<char>, from: int, c: char)
    requires
        0 <= from <= s.len(),
    ensures
        from <= find_char_from(s, from, c) <= s.len(),
        find_char_from(s, from, c) < s.len() ==> s[find_char_from(s, from, c)] == c,
        forall|t: int| from <= t < find_char_from(s, from, c) ==> s[t] != c,
    decreases s.len() - from,
{
    if from < s.len() && s[from] != c {
        lemma_find_char_from(s, from + 1, c);
    }
}

/// Where `digit_run_end` lands and what holds up to there.
pub proof fn lemma_digit_run_end(s: Seq<char>, from: int)
    requires
        0 <= from <= s.len(),
    ensures
        from <= digit_run_end(s, from) <= s.len(),
        digit_run_end(s, from) < s.len() ==> !is_digit(s[digit_run_end(s, from)]),
        forall|t: int| from <= t < digit_run_end(s, from) ==> is_digit(#[trigger] s[t]),
    decreases s.len() - from,
{
    if from < s.len() && is_digit(s[from]) {
        lemma_digit_run_end(s, from + 1);
    }
}

/// The characters `url(`.
pub open spec fn url_mark() -> Seq<char> {
    seq!['u', 'r', 'l', '(']
}

/// The characters `var(`.
pub open spec fn var_mark() -> Seq<char> {
    seq!['v', 'a', 'r', '(']
}

/// A quoted string starts at `i`: the quote `q`, one or more other
/// characters, and the closing quote.
pub open spec fn is_quote_tok(s: Seq<char>, i: int, q: char) -> bool {
    &&& 0 <= i < s.len()
    &&& s[i] == q
    &&& find_char_from(s, i + 1, q) < s.len()
    &&& find_char_from(s, i + 1, q) >= i + 2
}

/// One past the closing quote.
pub open spec fn quote_end(s: Seq<char>, i: int, q: char) -> int {
    find_char_from(s, i + 1, q) + 1
}

/// A call span starts at `i`: the marker `w`, one or more characters
/// other than `)`, and the closing parenthesis.
pub open spec fn is_call_tok(s: Seq<char>, i: int, w: Seq<char>) -> bool {
    &&& starts_with_at(s, i, w)
    &&& find_char_from(s, i + w.len() as int, ')') < s.len()
    &&& find_char_from(s, i + w.len() as int, ')') >= i + w.len() + 1
}

/// One past the closing parenthesis.
pub open spec fn call_end(s: Seq<char>, i: int, w: Seq<char>) -> int {
    find_char_from(s, i + w.len() as int, ')') + 1
}

/// A pixel number with a decimal point starts at `i`: optional integer
/// digits, the point, fractional digits, then `px`.
pub open spec fn num_dot_tok(s: Seq<char>, i: int) -> bool {
    let ae = digit_run_end(s, i);
    &&& 0 <= i < s.len()
    &&& ae < s.len()
    &&& s[ae] == '.'
    &&& digit_run_end(s, ae + 1) > ae + 1
    &&& starts_with_at(s, digit_run_end(s, ae + 1), px_suffix())
}

/// A pixel number without a point starts at `i`: one or more digits,
/// then `px`.
pub open spec fn num_plain_tok(s: Seq<char>, i: int) -> bool {
    let ae = digit_run_end(s, i);
    &&& 0 <= i < s.len()
    &&& ae > i
    &&& starts_with_at(s, ae, px_suffix())
}

/// A pixel number starts at `i`.
pub open spec fn is_num_tok(s: Seq<char>, i: int) -> bool {
    num_dot_tok(s, i) || num_plain_tok(s, i)
}

/// One past the last digit of the pixel number starting at `i`.
pub open spec fn num_end(s: Seq<char>, i: int) -> int {
    if num_dot_tok(s, i) {
        digit_run_end(s, digit_run_end(s, i) + 1)
    } else {
        digit_run_end(s, i)
    }
}

/// The rewritten tail of `s` from position `i` on.  Each step copies a
/// protected span verbatim, replaces a recognized pixel number, or
/// copies one character.
pub open spec fn spec_px_replace_from(
    s: Seq<char>,
    i: int,
    root: nat,
    prec: nat,
    min_m: nat,
    min_s: nat,
) -> Seq<char>
    decreases s.len() - i,
    when 0 <= i <= s.len()
    via spec_px_replace_from_decreases
{
    if i >= s.len() {
        Seq::empty()
    } else if is_quote_tok(s, i, '"') {
        s.subrange(i, quote_end(s, i, '"')) + spec_px_replace_from(
            s,
            quote_end(s, i, '"'),
            root,
            prec,
            min_m,
            min_s,
        )
    } else if is_quote_tok(s, i, '\'') {
        s.subrange(i, quote_end(s, i, '\'')) + spec_px_replace_from(
            s,
            quote_end(s, i, '\''),
            root,
            prec,
            min_m,
            min_s,
        )
    } else if is_call_tok(s, i, url_mark()) {
        s.subrange(i, call_end(s, i, url_mark())) + spec_px_replace_from(
            s,
            call_end(s, i, url_mark()),
            root,
            prec,
            min_m,
            min_s,
        )
    } else if is_call_tok(s, i, var_mark()) {
        s.subrange(i, call_end(s, i, var_mark())) + spec_px_replace_from(
            s,
            call_end(s, i, var_mark()),
            root,
            prec,
            min_m,
            min_s,
        )
    } else if is_num_tok(s, i) {
        spec_convert_token(s.subrange(i, num_end(s, i)), root, prec, min_m, min_s)
            + spec_px_replace_from(s, num_end(s, i) + 2, root, prec, min_m, min_s)
    } else {
        seq![s[i]] + spec_px_replace_from(s, i + 1, root, prec, min_m, min_s)
    }
}

#[via_fn]
proof fn spec_px_replace_from_decreases(
    s: Seq<char>,
    i: int,
    root: nat,
    prec: nat,
    min_m: nat,
    min_s: nat,
) {
    if 0 <= i < s.len() {
        lemma_find_char_from(s, i + 1, '"');
        lemma_find_char_from(s, i + 1, '\'');
        if i + 4 <= s.len() {
            lemma_find_char_from(s, i + 4, ')');
        }
        lemma_digit_run_end(s, i);
        let ae = digit_run_end(s, i);
        if ae < s.len() {
            lemma_digit_run_end(s, ae + 1);
        }
    }
}

/// The whole rewritten value.
pub open spec fn spec_px_replace(
    s: Seq<char>,
    root: nat,
    prec: nat,
    min_m: nat,
    min_s: nat,
) -> Seq<char> {
    spec_px_replace_from(s, 0, root, prec, min_m, min_s)
}

/// Pins `find_char_from` at `k`.
pub proof fn lemma_find_char_at(s: Seq<char>, from: int, k: int, c: char)
    requires
        0 <= from <= k <= s.len(),
        forall|t: int| from <= t < k ==> s[t] != c,
        k < s.len() ==> s[k] == c,
    ensures
        find_char_from(s, from, c) == k,
    decreases k - from,
{
    if from < k {
        assert(s[from] != c);
        lemma_find_char_at(s, from + 1, k, c);
    }
}

/// Pins `digit_run_end` at `k`.
pub proof fn lemma_digit_run_at(s: Seq<char>, from: int, k: int)
    requires
        0 <= from <= k <= s.len(),
        forall|t: int| from <= t < k ==> is_digit(#[trigger] s[t]),
        k < s.len() ==> !is_digit(s[k]),
    ensures
        digit_run_end(s, from) == k,
    decreases k - from,
{
    if from < k {
        assert(is_digit(s[from]));
        lemma_digit_run_at(s, from + 1, k);
    }
}

/// The least position at or after `from` holding `c`, as an index.
fn find_char_idx(v: &Vec<char>, from: usize, c: char) -> (r: usize)
    requires
        from <= v@.len(),
    ensures
        r == find_char_from(v@, from as int, c),
        from <= r <= v@.len(),
{
    let mut i: usize = from;
    while i < v.len()
        invariant
            from <= i <= v@.len(),
            forall|t: int| from <= t < i ==> v@[t] != c,
        decreases v@.len() - i,
    {
        if v[i] == c {
            proof {
                lemma_find_char_at(v@, from as int, i as int, c);
            }
            return i;
        }
        i += 1;
    }
    proof {
        lemma_find_char_at(v@, from as int, i as int, c);
    }
    i
}

/// The end of the digit run starting at `from`, as an index.
fn digit_run_end_idx(v: &Vec<char>, from: usize) -> (r: usize)
    requires
        from <= v@.len(),
    ensures
        r == digit_run_end(v@, from as int),
        from <= r <= v@.len(),
{
    let mut i: usize = from;
    while i < v.len()
        invariant
            from <= i <= v@.len(),
            forall|t: int| from <= t < i ==> is_digit(#[trigger] v@[t]),
        decreases v@.len() - i,
    {
        let u = v[i] as u32;
        if !(48 <= u && u <= 57) {
            proof {
                lemma_digit_run_at(v@, from as int, i as int);
            }
            return i;
        }
        i += 1;
    }
    proof {
        lemma_digit_run_at(v@, from as int, i as int);
    }
    i
}

/// Does `px` stand at position `i`?
fn is_px_at(v: &Vec<char>, i: usize) -> (r: bool)
    requires
        i <= v@.len(),
    ensures
        r == starts_with_at(v@, i as int, px_suffix()),
{
    if v.len() >= 2 && i <= v.len() - 2 && v[i] == 'p' && v[i + 1] == 'x' {
        assert(v@.subrange(i as int, i + 2) =~= px_suffix());
        true
    } else {
        assert(!starts_with_at(v@, i as int, px_suffix())) by {
            if i + 2 <= v@.len() {
                if v@.subrange(i as int, i + 2) == px_suffix() {
                    assert(v@.subrange(i as int, i + 2)[0] == 'p');
                    assert(v@.subrange(i as int, i + 2)[1] == 'x');
                    assert(v@[i as int] == 'p');
                    assert(v@[i + 1] == 'x');
                }
            }
        }
        false
    }
}

/// Does the four-character marker `c0 c1 c2 c3` stand at position `i`?
fn is_mark_at(v: &Vec<char>, i: usize, c0: char, c1: char, c2: char, c3: char) -> (r: bool)
    requires
        i <= v@.len(),
    ensures
        r == starts_with_at(v@, i as int, seq![c0, c1, c2, c3]),
{
    if v.len() >= 4 && i <= v.len() - 4 && v[i] == c0 && v[i + 1] == c1 && v[i + 2] == c2 && v[i
        + 3] == c3 {
        assert(v@.subrange(i as int, i + 4) =~= seq![c0, c1, c2, c3]);
        true
    } else {
        assert(!starts_with_at(v@, i as int, seq![c0, c1, c2, c3])) by {
            if i + 4 <= v@.len() {
                if v@.subrange(i as int, i + 4) == seq![c0, c1, c2, c3] {
                    assert(v@.subrange(i as int, i + 4)[0] == c0);
                    assert(v@.subrange(i as int, i + 4)[1] == c1);
                    assert(v@.subrange(i as int, i + 4)[2] == c2);
                    assert(v@.subrange(i as int, i + 4)[3] == c3);
                    assert(v@[i as int] == c0);
                    assert(v@[i + 1] == c1);
                    assert(v@[i + 2] == c2);
                    assert(v@[i + 3] == c3);
                }
            }
        }
        false
    }
}

/// The first character of each kind of token.
proof fn lemma_tok_first_char(s: Seq<char>, i: int)
    requires
        0 <= i < s.len(),
    ensures
        is_quote_tok(s, i, '"') ==> s[i] == '"',
        is_quote_tok(s, i, '\'') ==> s[i] == '\'',
        is_call_tok(s, i, url_mark()) ==> s[i] == 'u',
        is_call_tok(s, i, var_mark()) ==> s[i] == 'v',
        is_num_tok(s, i) ==> (is_digit(s[i]) || s[i] == '.'),
{
    if is_call_tok(s, i, url_mark()) {
        assert(s.subrange(i, i + 4)[0] == s[i]);
    }
    if is_call_tok(s, i, var_mark()) {
        assert(s.subrange(i, i + 4)[0] == s[i]);
    }
    lemma_digit_run_end(s, i);
    if is_num_tok(s, i) {
        let ae = digit_run_end(s, i);
        if ae == i {
            if num_plain_tok(s, i) {
            } else {
                assert(s[i] == '.');
            }
        } else {
            assert(is_digit(s[i]));
        }
    }
}

/// Append the characters `from..to` of `v` to `out`.
fn copy_range(out: &mut Vec<char>, v: &Vec<char>, from: usize, to: usize)
    requires
        from <= to <= v@.len(),
    ensures
        final(out)@ == old(out)@ + v@.subrange(from as int, to as int),
{
    let mut j: usize = from;
    while j < to
        invariant
            from <= j <= to <= v@.len(),
            out@ == old(out)@ + v@.subrange(from as int, j as int),
        decreases to - j,
    {
        out.push(v[j]);
        j += 1;
        assert(out@ =~= old(out)@ + v@.subrange(from as int, j as int));
    }
}

/// Rewrite one value text, given as characters: protected spans are
/// copied verbatim, recognized pixel numbers are converted, everything
/// else passes through unchanged.
#[verifier::rlimit(100)]
#[verifier::spinoff_prover]
pub fn px_replace_chars(
    v: &Vec<char>,
    root_value: i32,
    unit_precision: i32,
    min_m: u64,
    min_s: u32,
) -> (out: Vec<char>)
    requires
        root_value >= 1,
        unit_precision >= 0,
    ensures
        out@ == spec_px_replace(
            v@,
            root_value as nat,
            unit_precision as nat,
            min_m as nat,
            min_s as nat,
        ),
{
    let ghost root = root_value as nat;
    let ghost prec = unit_precision as nat;
    let ghost mm = min_m as nat;
    let ghost msc = min_s as nat;
    let ghost whole = spec_px_replace_from(v@, 0, root, prec, mm, msc);
    let mut out: Vec<char> = Vec::new();
    let mut i: usize = 0;
    while i < v.len()
        invariant
            i <= v@.len(),
            root_value >= 1,
            unit_precision >= 0,
            root == root_value as nat,
            prec == unit_precision as nat,
            mm == min_m as nat,
            msc == min_s as nat,
            whole == spec_px_replace_from(v@, 0, root, prec, mm, msc),
            whole == out@ + spec_px_replace_from(v@, i as int, root, prec, mm, msc),
        decreases v@.len() - i,
    {
        let ghost i0 = i as int;
        let ghost tail0 = spec_px_replace_from(v@, i0, root, prec, mm, msc);
        let ghost out0 = out@;
        proof {
            lemma_tok_first_char(v@, i0);
        }
        let c = v[i];
        let cu = c as u32;
        if c == '"' || c == '\'' {
            let j = find_char_idx(v, i + 1, c);
            if j < v.len() && j - i >= 2 {
                assert(is_quote_tok(v@, i0, c));
                copy_range(&mut out, v, i, j + 1);
                i = j + 1;
                proof {
                    let piece = v@.subrange(i0, i as int);
                    let tail1 = spec_px_replace_from(v@, i as int, root, prec, mm, msc);
                    if c == '"' {
                        assert(tail0 == piece + tail1);
                    } else {
                        assert(!is_quote_tok(v@, i0, '"'));
                        assert(tail0 == piece + tail1);
                    }
                    assert(out0 + (piece + tail1) =~= (out0 + piece) + tail1);
                }
            } else {
                assert(!is_quote_tok(v@, i0, '"') && !is_quote_tok(v@, i0, '\''));
                assert(!is_call_tok(v@, i0, url_mark()) && !is_call_tok(v@, i0, var_mark()));
                assert(!is_num_tok(v@, i0));
                out.push(c);
                i = i + 1;
                proof {
                    let piece = seq![v@[i0]];
                    let tail1 = spec_px_replace_from(v@, i as int, root, prec, mm, msc);
                    assert(tail0 == piece + tail1);
                    assert(out@ =~= out0 + piece);
                    assert(out0 + (piece + tail1) =~= (out0 + piece) + tail1);
                }
            }
        } else if c == 'u' || c == 'v' {
            let marked = if c == 'u' {
                is_mark_at(v, i, 'u', 'r', 'l', '(')
            } else {
                is_mark_at(v, i, 'v', 'a', 'r', '(')
            };
            let ghost mark = if c == 'u' {
                url_mark()
            } else {
                var_mark()
            };
            let mut tokened = false;
            if marked {
                let j = find_char_idx(v, i + 4, ')');
                if j < v.len() && j - i >= 5 {
                    tokened = true;
                    assert(is_call_tok(v@, i0, mark));
                    copy_range(&mut out, v, i, j + 1);
                    i = j + 1;
                    proof {
                        let piece = v@.subrange(i0, i as int);
                        let tail1 = spec_px_replace_from(v@, i as int, root, prec, mm, msc);
                        assert(!is_quote_tok(v@, i0, '"') && !is_quote_tok(v@, i0, '\''));
                        if c == 'v' {
                            assert(!is_call_tok(v@, i0, url_mark()));
                        }
                        assert(tail0 == piece + tail1);
                        assert(out0 + (piece + tail1) =~= (out0 + piece) + tail1);
                    }
                }
            }
            if !tokened {
                assert(!is_quote_tok(v@, i0, '"') && !is_quote_tok(v@, i0, '\''));
                assert(!is_call_tok(v@, i0, url_mark()) && !is_call_tok(v@, i0, var_mark()));
                assert(!is_num_tok(v@, i0));
                out.push(c);
                i = i + 1;
                proof {
                    let piece = seq![v@[i0]];
                    let tail1 = spec_px_replace_from(v@, i as int, root, prec, mm, msc);
                    assert(tail0 == piece + tail1);
                    assert(out@ =~= out0 + piece);
                    assert(out0 + (piece + tail1) =~= (out0 + piece) + tail1);
                }
            }
        } else if (48 <= cu && cu <= 57) || c == '.' {
            let ae = digit_run_end_idx(v, i);
            proof {
                lemma_digit_run_end(v@, i0);
            }
            let mut tokened = false;
            let mut next_i: usize = i;
            if ae < v.len() && v[ae] == '.' {
                let be = digit_run_end_idx(v, ae + 1);
                proof {
                    lemma_digit_run_end(v@, ae + 1);
                }
                if be - ae >= 2 && is_px_at(v, be) {
                    tokened = true;
                    assert(num_dot_tok(v@, i0));
                    assert(num_end(v@, i0) == be);
                    let ghost t = v@.subrange(i0, be as int);
                    match convert_px_token(
                        v,
                        i,
                        ae - i,
                        true,
                        be - ae - 1,
                        root_value,
                        unit_precision,
                        min_m,
                        min_s,
                    ) {
                        Some(mut rep) => {
                            assert(rep@ == spec_convert_token(t, root, prec, mm, msc));
                            out.append(&mut rep);
                        },
                        None => {
                            copy_range(&mut out, v, i, be);
                            out.push('p');
                            out.push('x');
                            assert(out@ =~= out0 + (t + px_suffix()));
                        },
                    }
                    next_i = be + 2;
                }
            } else {
                if ae - i >= 1 && is_px_at(v, ae) {
                    tokened = true;
                    assert(num_plain_tok(v@, i0));
                    assert(num_end(v@, i0) == ae);
                    let ghost t = v@.subrange(i0, ae as int);
                    match convert_px_token(
                        v,
                        i,
                        ae - i,
                        false,
                        0,
                        root_value,
                        unit_precision,
                        min_m,
                        min_s,
                    ) {
                        Some(mut rep) => {
                            assert(rep@ == spec_convert_token(t, root, prec, mm, msc));
                            out.append(&mut rep);
                        },
                        None => {
                            copy_range(&mut out, v, i, ae);
                            out.push('p');
                            out.push('x');
                            assert(out@ =~= out0 + (t + px_suffix()));
                        },
                    }
                    next_i = ae + 2;
                }
            }
            if tokened {
                i = next_i;
                proof {
                    let piece = spec_convert_token(
                        v@.subrange(i0, num_end(v@, i0)),
                        root,
                        prec,
                        mm,
                        msc,
                    );
                    let tail1 = spec_px_replace_from(v@, i as int, root, prec, mm, msc);
                    assert(!is_quote_tok(v@, i0, '"') && !is_quote_tok(v@, i0, '\''));
                    assert(!is_call_tok(v@, i0, url_mark()) && !is_call_tok(v@, i0, var_mark()));
                    assert(is_num_tok(v@, i0));
                    assert(i as int == num_end(v@, i0) + 2);
                    assert(tail0 == piece + tail1);
                    assert(out@ == out0 + piece);
                    assert(out0 + (piece + tail1) =~= (out0 + piece) + tail1);
                }
            } else {
                assert(!is_quote_tok(v@, i0, '"') && !is_quote_tok(v@, i0, '\''));
                assert(!is_call_tok(v@, i0, url_mark()) && !is_call_tok(v@, i0, var_mark()));
                proof {
                    if num_dot_tok(v@, i0) {
                        assert(false);
                    }
                    if num_plain_tok(v@, i0) {
                        assert(v@[digit_run_end(v@, i0)] == 'p');
                        assert(false);
                    }
                }
                out.push(c);
                i = i + 1;
                proof {
                    let piece = seq![v@[i0]];
                    let tail1 = spec_px_replace_from(v@, i as int, root, prec, mm, msc);
                    assert(tail0 == piece + tail1);
                    assert(out@ =~= out0 + piece);
                    assert(out0 + (piece + tail1) =~= (out0 + piece) + tail1);
                }
            }
        } else {
            assert(!is_quote_tok(v@, i0, '"') && !is_quote_tok(v@, i0, '\''));
            assert(!is_call_tok(v@, i0, url_mark()) && !is_call_tok(v@, i0, var_mark()));
            assert(!is_num_tok(v@, i0));
            out.push(c);
            i = i + 1;
            proof {
                let piece = seq![v@[i0]];
                let tail1 = spec_px_replace_from(v@, i as int, root, prec, mm, msc);
                assert(tail0 == piece + tail1);
                assert(out@ =~= out0 + piece);
                assert(out0 + (piece + tail1) =~= (out0 + piece) + tail1);
            }
        }
    }
    proof {
        assert(spec_px_replace_from(v@, i as int, root, prec, mm, msc) == Seq::<char>::empty());
        assert(out@ + Seq::<char>::empty() =~= out@);
    }
    out
}

} // verus!
