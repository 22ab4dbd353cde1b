//! Laws of the matcher and of the value scanner, stated and proved once
//! for all inputs.

use crate::rewrite::{
    call_end, is_call_tok, is_quote_tok, lemma_find_char_at, quote_end, spec_px_replace,
    spec_px_replace_from, url_mark, var_mark,
};
use crate::transform::Px2Rem;
use vstd::prelude::*;
use vstd::seq_lib::*;

verus! {

/// Whether some entry of a list satisfies a predicate depends only on
/// which entries the list holds, never on their order.
proof fn lemma_any_entry_multiset(l1: Seq<Seq<char>>, l2: Seq<Seq<char>>, f: spec_fn(
    Seq<char>,
) -> bool)
    requires
        l1.to_multiset() == l2.to_multiset(),
    ensures
        (exists|k: int| 0 <= k < l1.len() && f(#[trigger] l1[k])) == (exists|k: int|
            0 <= k < l2.len() && f(#[trigger] l2[k])),
{
    broadcast use vstd::seq_lib::group_to_multiset_ensures;

    if exists|k: int| 0 <= k < l1.len() && f(#[trigger] l1[k]) {
        let k = choose|k: int| 0 <= k < l1.len() && f(#[trigger] l1[k]);
        let x = l1[k];
        assert(l1.contains(x));
        assert(l1.to_multiset().count(x) > 0);
        assert(l2.contains(x));
        let j = choose|j: int| 0 <= j < l2.len() && l2[j] == x;
        assert(f(l2[j]));
    }
    if exists|k: int| 0 <= k < l2.len() && f(#[trigger] l2[k]) {
        let k = choose|k: int| 0 <= k < l2.len() && f(#[trigger] l2[k]);
        let x = l2[k];
        assert(l2.contains(x));
        assert(l2.to_multiset().count(x) > 0);
        assert(l1.contains(x));
        let j = choose|j: int| 0 <= j < l1.len() && l1[j] == x;
        assert(f(l1[j]));
    }
}

/// Selection does not depend on the order of the patterns within a
/// category: two engines whose eight body lists hold the same bodies,
/// category for category and counted with multiplicity, and whose
/// wildcard flags agree, select exactly the same property names.
pub proof fn lemma_is_selected_order_independent(a: Px2Rem, b: Px2Rem, p: Seq<char>)
    requires
        a.all_match == b.all_match,
        a.has_wild == b.has_wild,
        a.match_list.exact_list.deep_view().to_multiset()
            == b.match_list.exact_list.deep_view().to_multiset(),
        a.match_list.contain_list.deep_view().to_multiset()
            == b.match_list.contain_list.deep_view().to_multiset(),
        a.match_list.starts_with_list.deep_view().to_multiset()
            == b.match_list.starts_with_list.deep_view().to_multiset(),
        a.match_list.ends_with_list.deep_view().to_multiset()
            == b.match_list.ends_with_list.deep_view().to_multiset(),
        a.match_list.not_exact_list.deep_view().to_multiset()
            == b.match_list.not_exact_list.deep_view().to_multiset(),
        a.match_list.not_contain_list.deep_view().to_multiset()
            == b.match_list.not_contain_list.deep_view().to_multiset(),
        a.match_list.not_starts_list.deep_view().to_multiset()
            == b.match_list.not_starts_list.deep_view().to_multiset(),
        a.match_list.not_ends_list.deep_view().to_multiset()
            == b.match_list.not_ends_list.deep_view().to_multiset(),
    ensures
        a.spec_is_selected(p) == b.spec_is_selected(p),
{
    lemma_any_entry_multiset(
        a.match_list.exact_list.deep_view(),
        b.match_list.exact_list.deep_view(),
        |x: Seq<char>| x == p,
    );
    lemma_any_entry_multiset(
        a.match_list.contain_list.deep_view(),
        b.match_list.contain_list.deep_view(),
        |x: Seq<char>| crate::strutil::has_substring(p, x),
    );
    lemma_any_entry_multiset(
        a.match_list.starts_with_list.deep_view(),
        b.match_list.starts_with_list.deep_view(),
        |x: Seq<char>| x.is_prefix_of(p),
    );
    lemma_any_entry_multiset(
        a.match_list.ends_with_list.deep_view(),
        b.match_list.ends_with_list.deep_view(),
        |x: Seq<char>| x.is_suffix_of(p),
    );
    lemma_any_entry_multiset(
        a.match_list.not_exact_list.deep_view(),
        b.match_list.not_exact_list.deep_view(),
        |x: Seq<char>| x == p,
    );
    lemma_any_entry_multiset(
        a.match_list.not_contain_list.deep_view(),
        b.match_list.not_contain_list.deep_view(),
        |x: Seq<char>| crate::strutil::has_substring(p, x),
    );
    lemma_any_entry_multiset(
        a.match_list.not_starts_list.deep_view(),
        b.match_list.not_starts_list.deep_view(),
        |x: Seq<char>| x.is_prefix_of(p),
    );
    lemma_any_entry_multiset(
        a.match_list.not_ends_list.deep_view(),
        b.match_list.not_ends_list.deep_view(),
        |x: Seq<char>| x.is_suffix_of(p),
    );
}

/// A pattern list of exactly `["*"]` selects every property name.
pub proof fn lemma_wildcard_selects_all(r: Px2Rem, p: Seq<char>)
    requires
        r.match_list_wf(),
        r.prop_list.deep_view() == seq!["*"@],
    ensures
        r.spec_is_selected(p),
{
    reveal_strlit("*");
    assert("*"@ =~= seq!['*']);
    assert(r.prop_list.deep_view()[0] == seq!['*']);
    assert(crate::transform::list_has_star(r.prop_list.deep_view()));
    assert(r.has_wild);
    assert(r.all_match);
}

/// A value that is one whole quoted string is never altered.
pub proof fn lemma_quoted_value_unchanged(
    s: Seq<char>,
    q: char,
    root: nat,
    prec: nat,
    min_m: nat,
    min_s: nat,
)
    requires
        q == '"' || q == '\'',
        s.len() >= 3,
        s[0] == q,
        s.last() == q,
        forall|i: int| 0 < i < s.len() - 1 ==> s[i] != q,
    ensures
        spec_px_replace(s, root, prec, min_m, min_s) == s,
{
    lemma_find_char_at(s, 1, s.len() - 1, q);
    assert(is_quote_tok(s, 0, q));
    assert(quote_end(s, 0, q) == s.len());
    assert(s.subrange(0, s.len() as int) =~= s);
    assert(spec_px_replace_from(s, s.len() as int, root, prec, min_m, min_s)
        == Seq::<char>::empty());
    if q == '"' {
        assert(spec_px_replace(s, root, prec, min_m, min_s) =~= s);
    } else {
        assert(!is_quote_tok(s, 0, '"'));
        assert(spec_px_replace(s, root, prec, min_m, min_s) =~= s);
    }
}

/// A value that is one whole `url(...)` or `var(...)` call is never
/// altered, whatever stands between the parentheses.
pub proof fn lemma_call_value_unchanged(
    s: Seq<char>,
    mark: Seq<char>,
    root: nat,
    prec: nat,
    min_m: nat,
    min_s: nat,
)
    requires
        mark == url_mark() || mark == var_mark(),
        s.len() >= 6,
        s.subrange(0, 4) == mark,
        s.last() == ')',
        forall|i: int| 4 <= i < s.len() - 1 ==> s[i] != ')',
    ensures
        spec_px_replace(s, root, prec, min_m, min_s) == s,
{
    lemma_find_char_at(s, 4, s.len() - 1, ')');
    assert(s[0] == mark[0]) by {
        assert(s.subrange(0, 4)[0] == s[0]);
    }
    assert(is_call_tok(s, 0, mark));
    assert(call_end(s, 0, mark) == s.len());
    assert(s.subrange(0, s.len() as int) =~= s);
    assert(spec_px_replace_from(s, s.len() as int, root, prec, min_m, min_s)
        == Seq::<char>::empty());
    assert(!is_quote_tok(s, 0, '"'));
    assert(!is_quote_tok(s, 0, '\''));
    if mark == url_mark() {
        assert(spec_px_replace(s, root, prec, min_m, min_s) =~= s);
    } else {
        assert(url_mark()[0] == 'u' && var_mark()[0] == 'v');
        assert(s.subrange(0, 4) != url_mark());
        assert(!is_call_tok(s, 0, url_mark()));
        assert(spec_px_replace(s, root, prec, min_m, min_s) =~= s);
    }
}

} // verus!
