//! The value rewriter: configuration, the compiled property-name match
//! lists, the selector exclusion check, and the tree walk that rewrites
//! pixel lengths in place.

use crate::ast::{
    AtRule, AtRuleView, Declaration, DeclView, NodeView, Root, RootView, Rule,
    RuleOrAtRuleOrDecl, RuleView, lemma_nodes_view_index, node_view, nodes_view,
};
use crate::filter_prop_list::{
    PatternKind, category_bodies, contain, ends_with, exact, not_contain, not_ends_with,
    not_exact, not_starts_with, starts_with,
};
use crate::numeric::px_suffix;
use crate::rewrite::{px_replace_chars, spec_px_replace};
use crate::selector_regex::{SelectorRegex, regex_match, regex_valid};
use crate::strutil::{
    chars_to_string, has_substring, push_char, str_contains, str_ends_with, str_eq,
    str_starts_with, str_to_chars,
};
use vstd::prelude::*;
use vstd::string::StrSliceExecFns;

verus! {

/// One selector exclusion entry: a regular expression or a literal
/// substring.
#[derive(Debug)]
pub enum StringOrRegexp {
    Regexp(String),
    String(String),
}

/// Is the entry a regular expression?
pub open spec fn sor_is_regexp(e: StringOrRegexp) -> bool {
    match e {
        StringOrRegexp::Regexp(_) => true,
        StringOrRegexp::String(_) => false,
    }
}

/// The text of the entry.
pub open spec fn sor_text(e: StringOrRegexp) -> Seq<char> {
    match e {
        StringOrRegexp::Regexp(s) => s@,
        StringOrRegexp::String(s) => s@,
    }
}

/// A non-negative decimal threshold, `mantissa / 10^scale`.
#[derive(Clone, Copy, Debug, PartialEq, Eq, Structural)]
pub struct MinPixelValue {
    pub mantissa: u64,
    pub scale: u32,
}

impl MinPixelValue {
    /// The threshold for a whole number of pixels.
    pub fn from_int(value: u64) -> (r: MinPixelValue)
        ensures
            r.mantissa == value,
            r.scale == 0,
    {
        MinPixelValue { mantissa: value, scale: 0 }
    }
}

/// The configuration surface; every field defaults when `None`.
pub struct Px2RemOption {
    pub root_value: Option<i32>,
    pub unit_precision: Option<i32>,
    pub selector_black_list: Option<Vec<StringOrRegexp>>,
    pub prop_list: Option<Vec<String>>,
    pub replace: Option<bool>,
    pub media_query: Option<bool>,
    pub min_pixel_value: Option<MinPixelValue>,
}

impl Default for Px2RemOption {
    fn default() -> (r: Px2RemOption)
        ensures
            r.root_value is None,
            r.unit_precision is None,
            r.selector_black_list is None,
            r.prop_list is None,
            r.replace is None,
            r.media_query is None,
            r.min_pixel_value is None,
    {
        Px2RemOption {
            root_value: None,
            unit_precision: None,
            selector_black_list: None,
            prop_list: None,
            replace: None,
            media_query: None,
            min_pixel_value: None,
        }
    }
}

/// The configuration error: the joined selector exclusion regular
/// expression does not compile.
#[derive(Clone, Copy, Debug, PartialEq, Eq, Structural)]
pub enum ConfigError {
    InvalidSelectorRegex,
}

/// The eight compiled pattern-body lists, one per category.
#[derive(Debug)]
pub struct MatchList {
    pub exact_list: Vec<String>,
    pub contain_list: Vec<String>,
    pub starts_with_list: Vec<String>,
    pub ends_with_list: Vec<String>,
    pub not_exact_list: Vec<String>,
    pub not_contain_list: Vec<String>,
    pub not_starts_list: Vec<String>,
    pub not_ends_list: Vec<String>,
}

impl Default for MatchList {
    fn default() -> (r: MatchList)
        ensures
            r.exact_list@.len() == 0,
            r.contain_list@.len() == 0,
            r.starts_with_list@.len() == 0,
            r.ends_with_list@.len() == 0,
            r.not_exact_list@.len() == 0,
            r.not_contain_list@.len() == 0,
            r.not_starts_list@.len() == 0,
            r.not_ends_list@.len() == 0,
    {
        MatchList {
            exact_list: Vec::new(),
            contain_list: Vec::new(),
            starts_with_list: Vec::new(),
            ends_with_list: Vec::new(),
            not_exact_list: Vec::new(),
            not_contain_list: Vec::new(),
            not_starts_list: Vec::new(),
            not_ends_list: Vec::new(),
        }
    }
}

/// Some entry of `l` equals `p`.
pub open spec fn list_any_eq(l: Seq<Seq<char>>, p: Seq<char>) -> bool {
    exists|k: int| 0 <= k < l.len() && l[k] == p
}

/// Some entry of `l` is a substring of `p`.
pub open spec fn list_any_sub(l: Seq<Seq<char>>, p: Seq<char>) -> bool {
    exists|k: int| 0 <= k < l.len() && has_substring(p, l[k])
}

/// Some entry of `l` is a prefix of `p`.
pub open spec fn list_any_prefix(l: Seq<Seq<char>>, p: Seq<char>) -> bool {
    exists|k: int| 0 <= k < l.len() && (#[trigger] l[k]).is_prefix_of(p)
}

/// Some entry of `l` is a suffix of `p`.
pub open spec fn list_any_suffix(l: Seq<Seq<char>>, p: Seq<char>) -> bool {
    exists|k: int| 0 <= k < l.len() && (#[trigger] l[k]).is_suffix_of(p)
}

/// The inclusion side of the selection formula.
pub open spec fn spec_positive(ml: MatchList, has_wild: bool, p: Seq<char>) -> bool {
    ||| has_wild
    ||| list_any_eq(ml.exact_list.deep_view(), p)
    ||| list_any_sub(ml.contain_list.deep_view(), p)
    ||| list_any_prefix(ml.starts_with_list.deep_view(), p)
    ||| list_any_suffix(ml.ends_with_list.deep_view(), p)
}

/// The exclusion side of the selection formula; it always wins.
pub open spec fn spec_negative(ml: MatchList, p: Seq<char>) -> bool {
    ||| list_any_eq(ml.not_exact_list.deep_view(), p)
    ||| list_any_sub(ml.not_contain_list.deep_view(), p)
    ||| list_any_prefix(ml.not_starts_list.deep_view(), p)
    ||| list_any_suffix(ml.not_ends_list.deep_view(), p)
}

/// Some raw pattern is exactly `*`.
pub open spec fn list_has_star(l: Seq<Seq<char>>) -> bool {
    exists|k: int| 0 <= k < l.len() && l[k] == seq!['*']
}

/// Does some entry of `l` equal `p`?
fn any_eq(l: &Vec<String>, p: &str) -> (r: bool)
    ensures
        r == list_any_eq(l.deep_view(), p@),
{
    let mut k: usize = 0;
    while k < l.len()
        invariant
            k <= l@.len(),
            forall|t: int| 0 <= t < k ==> l.deep_view()[t] != p@,
        decreases l@.len() - k,
    {
        if str_eq(l[k].as_str(), p) {
            assert(l.deep_view()[k as int] == p@);
            return true;
        }
        k += 1;
    }
    false
}

/// Is some entry of `l` a substring of `p`?
fn any_sub(l: &Vec<String>, p: &str) -> (r: bool)
    ensures
        r == list_any_sub(l.deep_view(), p@),
{
    let mut k: usize = 0;
    while k < l.len()
        invariant
            k <= l@.len(),
            forall|t: int| 0 <= t < k ==> !has_substring(p@, l.deep_view()[t]),
        decreases l@.len() - k,
    {
        if str_contains(p, l[k].as_str()) {
            assert(has_substring(p@, l.deep_view()[k as int]));
            return true;
        }
        k += 1;
    }
    false
}

/// Is some entry of `l` a prefix of `p`?
fn any_prefix(l: &Vec<String>, p: &str) -> (r: bool)
    ensures
        r == list_any_prefix(l.deep_view(), p@),
{
    let mut k: usize = 0;
    while k < l.len()
        invariant
            k <= l@.len(),
            forall|t: int| 0 <= t < k ==> !(#[trigger] l.deep_view()[t]).is_prefix_of(p@),
        decreases l@.len() - k,
    {
        if str_starts_with(p, l[k].as_str()) {
            assert((l.deep_view()[k as int]).is_prefix_of(p@));
            return true;
        }
        k += 1;
    }
    false
}

/// Is some entry of `l` a suffix of `p`?
fn any_suffix(l: &Vec<String>, p: &str) -> (r: bool)
    ensures
        r == list_any_suffix(l.deep_view(), p@),
{
    let mut k: usize = 0;
    while k < l.len()
        invariant
            k <= l@.len(),
            forall|t: int| 0 <= t < k ==> !(#[trigger] l.deep_view()[t]).is_suffix_of(p@),
        decreases l@.len() - k,
    {
        if str_ends_with(p, l[k].as_str()) {
            assert((l.deep_view()[k as int]).is_suffix_of(p@));
            return true;
        }
        k += 1;
    }
    false
}

/// Is some entry of `l` the bare wildcard `*`?
fn any_star(l: &Vec<String>) -> (r: bool)
    ensures
        r == list_has_star(l.deep_view()),
{
    let mut k: usize = 0;
    while k < l.len()
        invariant
            k <= l@.len(),
            forall|t: int| 0 <= t < k ==> l.deep_view()[t] != seq!['*'],
        decreases l@.len() - k,
    {
        let e = l[k].as_str();
        if e.unicode_len() == 1 && e.get_char(0) == '*' {
            assert(l.deep_view()[k as int] =~= seq!['*']);
            return true;
        }
        assert(l.deep_view()[k as int] != seq!['*']) by {
            if l.deep_view()[k as int] == seq!['*'] {
                assert(l.deep_view()[k as int].len() == 1);
                assert(l.deep_view()[k as int][0] == '*');
            }
        }
        k += 1;
    }
    false
}

/// The texts of the regular expression entries, in order.
pub open spec fn regex_texts(l: Seq<StringOrRegexp>) -> Seq<Seq<char>>
    decreases l.len(),
{
    if l.len() == 0 {
        Seq::empty()
    } else {
        let rest = regex_texts(l.drop_last());
        if sor_is_regexp(l.last()) {
            rest.push(sor_text(l.last()))
        } else {
            rest
        }
    }
}

/// The parts joined with `|` between them.
pub open spec fn join_bar(parts: Seq<Seq<char>>) -> Seq<char>
    decreases parts.len(),
{
    if parts.len() == 0 {
        Seq::empty()
    } else if parts.len() == 1 {
        parts[0]
    } else {
        join_bar(parts.drop_last()) + seq!['|'] + parts.last()
    }
}

/// The single regular expression built from the exclusion list: the
/// alternation of all its regular expression entries.
pub open spec fn spec_joined_pattern(l: Seq<StringOrRegexp>) -> Seq<char> {
    join_bar(regex_texts(l))
}

/// The rewriting engine: the compiled property matcher plus the numeric
/// conversion configuration.
pub struct Px2Rem {
    pub root_value: i32,
    pub unit_precision: i32,
    pub selector_black_list: Vec<StringOrRegexp>,
    pub prop_list: Vec<String>,
    pub replace: bool,
    pub media_query: bool,
    pub min_pixel_value: MinPixelValue,
    pub has_wild: bool,
    pub match_list: MatchList,
    pub all_match: bool,
    pub black_regex: Option<SelectorRegex>,
    pub black_regex_invalid: bool,
}

impl Px2Rem {
    /// Is the property name selected by the compiled match lists?
    /// Inclusion must hold and exclusion must not; exclusion always
    /// wins, except that a pattern list of exactly `["*"]` selects
    /// everything.
    pub open spec fn spec_is_selected(&self, p: Seq<char>) -> bool {
        if self.all_match {
            true
        } else {
            spec_positive(self.match_list, self.has_wild, p) && !spec_negative(
                self.match_list,
                p,
            )
        }
    }

    /// The match lists and wildcard flags are the ones derived from the
    /// property pattern list.
    pub open spec fn match_list_wf(&self) -> bool {
        &&& self.match_list.exact_list.deep_view() == category_bodies(
            self.prop_list.deep_view(),
            PatternKind::Exact,
        )
        &&& self.match_list.contain_list.deep_view() == category_bodies(
            self.prop_list.deep_view(),
            PatternKind::Contains,
        )
        &&& self.match_list.starts_with_list.deep_view() == category_bodies(
            self.prop_list.deep_view(),
            PatternKind::StartsWith,
        )
        &&& self.match_list.ends_with_list.deep_view() == category_bodies(
            self.prop_list.deep_view(),
            PatternKind::EndsWith,
        )
        &&& self.match_list.not_exact_list.deep_view() == category_bodies(
            self.prop_list.deep_view(),
            PatternKind::NotExact,
        )
        &&& self.match_list.not_contain_list.deep_view() == category_bodies(
            self.prop_list.deep_view(),
            PatternKind::NotContains,
        )
        &&& self.match_list.not_starts_list.deep_view() == category_bodies(
            self.prop_list.deep_view(),
            PatternKind::NotStartsWith,
        )
        &&& self.match_list.not_ends_list.deep_view() == category_bodies(
            self.prop_list.deep_view(),
            PatternKind::NotEndsWith,
        )
        &&& self.has_wild == list_has_star(self.prop_list.deep_view())
        &&& self.all_match == (self.has_wild && self.prop_list.deep_view().len() == 1)
    }

    /// The stored exclusion regular expression matches the exclusion
    /// list: compiled from the joined pattern when that is non-empty
    /// and valid, absent otherwise, with the invalid flag set exactly
    /// on a non-empty joined pattern that does not compile.
    pub open spec fn black_wf(&self) -> bool {
        let joined = spec_joined_pattern(self.selector_black_list@);
        &&& self.black_regex_invalid == (joined.len() > 0 && !regex_valid(joined))
        &&& match self.black_regex {
            Some(r) => joined.len() > 0 && regex_valid(joined) && r.pattern_view() == joined,
            None => joined.len() == 0 || !regex_valid(joined),
        }
    }

    /// A well-formed engine: sane numeric configuration, derived match
    /// lists, and a blacklist regular expression in step with the list.
    pub open spec fn wf(&self) -> bool {
        &&& self.root_value >= 1
        &&& self.unit_precision >= 0
        &&& self.match_list_wf()
        &&& self.black_wf()
    }

    /// Is the rule with this selector excluded?  True when the selector
    /// contains a literal entry as a substring, or when the joined
    /// regular expression is non-empty and matches it.
    pub open spec fn spec_blacklisted(&self, sel: Seq<char>) -> bool {
        let joined = spec_joined_pattern(self.selector_black_list@);
        ||| (joined.len() > 0 && regex_match(joined, sel))
        ||| exists|k: int|
            0 <= k < self.selector_black_list@.len() && !sor_is_regexp(
                #[trigger] self.selector_black_list@[k],
            ) && has_substring(sel, sor_text(self.selector_black_list@[k]))
    }

    /// Derive the match lists and wildcard flags from the current
    /// property pattern list.
    pub fn generate_match_list(&mut self)
        ensures
            final(self).match_list_wf(),
            final(self).root_value == old(self).root_value,
            final(self).unit_precision == old(self).unit_precision,
            final(self).selector_black_list == old(self).selector_black_list,
            final(self).prop_list == old(self).prop_list,
            final(self).replace == old(self).replace,
            final(self).media_query == old(self).media_query,
            final(self).min_pixel_value == old(self).min_pixel_value,
            final(self).black_regex == old(self).black_regex,
            final(self).black_regex_invalid == old(self).black_regex_invalid,
    {
        self.match_list = MatchList {
            exact_list: exact(&self.prop_list),
            contain_list: contain(&self.prop_list),
            starts_with_list: starts_with(&self.prop_list),
            ends_with_list: ends_with(&self.prop_list),
            not_exact_list: not_exact(&self.prop_list),
            not_contain_list: not_contain(&self.prop_list),
            not_starts_list: not_starts_with(&self.prop_list),
            not_ends_list: not_ends_with(&self.prop_list),
        };
        let has_wild = any_star(&self.prop_list);
        let match_all = has_wild && self.prop_list.len() == 1;
        self.has_wild = has_wild;
        self.all_match = match_all;
    }

    /// Is the property name selected?
    pub fn is_match(&self, prop: &str) -> (r: bool)
        ensures
            r == self.spec_is_selected(prop@),
    {
        if self.all_match {
            return true;
        }
        let positive = self.has_wild || any_eq(&self.match_list.exact_list, prop) || any_sub(
            &self.match_list.contain_list,
            prop,
        ) || any_prefix(&self.match_list.starts_with_list, prop) || any_suffix(
            &self.match_list.ends_with_list,
            prop,
        );
        let negative = any_eq(&self.match_list.not_exact_list, prop) || any_sub(
            &self.match_list.not_contain_list,
            prop,
        ) || any_prefix(&self.match_list.not_starts_list, prop) || any_suffix(
            &self.match_list.not_ends_list,
            prop,
        );
        positive && !negative
    }

    /// Join the regular expression entries of the exclusion list and
    /// compile the result once.
    fn compile_black_list(&mut self)
        ensures
            final(self).black_wf(),
            final(self).root_value == old(self).root_value,
            final(self).unit_precision == old(self).unit_precision,
            final(self).selector_black_list == old(self).selector_black_list,
            final(self).prop_list == old(self).prop_list,
            final(self).replace == old(self).replace,
            final(self).media_query == old(self).media_query,
            final(self).min_pixel_value == old(self).min_pixel_value,
            final(self).has_wild == old(self).has_wild,
            final(self).match_list == old(self).match_list,
            final(self).all_match == old(self).all_match,
    {
        let ghost entries = self.selector_black_list@;
        let mut joined = String::new();
        let mut any: bool = false;
        let mut k: usize = 0;
        while k < self.selector_black_list.len()
            invariant
                k <= entries.len(),
                entries == self.selector_black_list@,
                joined@ == join_bar(regex_texts(entries.subrange(0, k as int))),
                any == (regex_texts(entries.subrange(0, k as int)).len() > 0),
            decreases entries.len() - k,
        {
            let ghost pre = entries.subrange(0, k as int);
            let ghost cur = entries.subrange(0, k + 1);
            proof {
                assert(cur.drop_last() =~= pre);
                assert(cur.last() == entries[k as int]);
            }
            match &self.selector_black_list[k] {
                StringOrRegexp::Regexp(s) => {
                    if any {
                        push_char(&mut joined, '|');
                        joined.append(s.as_str());
                        proof {
                            assert(regex_texts(cur) =~= regex_texts(pre).push(s@));
                            assert(regex_texts(pre).len() >= 1);
                            assert(regex_texts(cur).drop_last() =~= regex_texts(pre));
                            assert(join_bar(regex_texts(cur)) == join_bar(regex_texts(pre))
                                + seq!['|'] + s@);
                            assert(joined@ =~= join_bar(regex_texts(cur)));
                        }
                    } else {
                        joined.append(s.as_str());
                        proof {
                            assert(regex_texts(pre).len() == 0);
                            assert(regex_texts(cur) =~= regex_texts(pre).push(s@));
                            assert(regex_texts(cur).len() == 1);
                            assert(regex_texts(cur)[0] == s@);
                            assert(joined@ =~= join_bar(regex_texts(cur)));
                        }
                    }
                    any = true;
                },
                StringOrRegexp::String(_) => {
                    proof {
                        assert(regex_texts(cur) =~= regex_texts(pre));
                    }
                },
            }
            k += 1;
        }
        proof {
            assert(entries.subrange(0, entries.len() as int) =~= entries);
        }
        if joined.as_str().unicode_len() == 0 {
            self.black_regex = None;
            self.black_regex_invalid = false;
        } else {
            match SelectorRegex::compile(joined.as_str()) {
                Some(re) => {
                    self.black_regex = Some(re);
                    self.black_regex_invalid = false;
                },
                None => {
                    self.black_regex = None;
                    self.black_regex_invalid = true;
                },
            }
        }
    }

    /// Build an engine from the options, deriving the match lists and
    /// compiling the selector exclusion regular expression eagerly.
    pub fn new(option: Px2RemOption) -> (r: Px2Rem)
        requires
            match option.root_value {
                Some(v) => v >= 1,
                None => true,
            },
            match option.unit_precision {
                Some(v) => v >= 0,
                None => true,
            },
        ensures
            r.wf(),
            r.root_value == (match option.root_value {
                Some(v) => v,
                None => 16,
            }),
            r.unit_precision == (match option.unit_precision {
                Some(v) => v,
                None => 5,
            }),
            r.selector_black_list@ == (match option.selector_black_list {
                Some(l) => l@,
                None => Seq::<StringOrRegexp>::empty(),
            }),
            r.prop_list.deep_view() == (match option.prop_list {
                Some(l) => l.deep_view(),
                None => default_prop_list(),
            }),
            r.replace == (match option.replace {
                Some(v) => v,
                None => true,
            }),
            r.media_query == (match option.media_query {
                Some(v) => v,
                None => false,
            }),
            r.min_pixel_value == (match option.min_pixel_value {
                Some(v) => v,
                None => MinPixelValue { mantissa: 0, scale: 0 },
            }),
    {
        let root_value: i32 = match option.root_value {
            Some(v) => v,
            None => 16,
        };
        let unit_precision: i32 = match option.unit_precision {
            Some(v) => v,
            None => 5,
        };
        let selector_black_list: Vec<StringOrRegexp> = match option.selector_black_list {
            Some(l) => l,
            None => Vec::new(),
        };
        let prop_list: Vec<String> = match option.prop_list {
            Some(l) => l,
            None => default_props(),
        };
        let replace: bool = match option.replace {
            Some(v) => v,
            None => true,
        };
        let media_query: bool = match option.media_query {
            Some(v) => v,
            None => false,
        };
        let min_pixel_value: MinPixelValue = match option.min_pixel_value {
            Some(v) => v,
            None => MinPixelValue { mantissa: 0, scale: 0 },
        };
        let mut ret = Px2Rem {
            root_value,
            unit_precision,
            selector_black_list,
            prop_list,
            replace,
            media_query,
            min_pixel_value,
            has_wild: false,
            match_list: MatchList::default(),
            all_match: false,
            black_regex: None,
            black_regex_invalid: false,
        };
        ret.generate_match_list();
        ret.compile_black_list();
        ret
    }

    /// Is the rule with this selector excluded?  The error reports a
    /// non-empty exclusion list whose joined regular expression does
    /// not compile.
    pub fn blacklisted_selector(&self, selector: &str) -> (r: Result<bool, ConfigError>)
        requires
            self.black_wf(),
        ensures
            r is Err <==> (self.selector_black_list@.len() > 0 && self.black_regex_invalid),
            r is Ok ==> r->Ok_0 == self.spec_blacklisted(selector@),
    {
        if self.selector_black_list.len() == 0 {
            proof {
                assert(self.selector_black_list@.subrange(
                    0,
                    self.selector_black_list@.len() as int,
                ) =~= self.selector_black_list@);
                assert(regex_texts(self.selector_black_list@) =~= Seq::<Seq<char>>::empty());
            }
            return Ok(false);
        }
        if self.black_regex_invalid {
            return Err(ConfigError::InvalidSelectorRegex);
        }
        let by_regex: bool = match &self.black_regex {
            Some(re) => re.is_match(selector),
            None => false,
        };
        let ghost entries = self.selector_black_list@;
        let mut by_literal: bool = false;
        let mut k: usize = 0;
        while k < self.selector_black_list.len()
            invariant
                k <= entries.len(),
                entries == self.selector_black_list@,
                by_literal == exists|t: int|
                    0 <= t < k && !sor_is_regexp(#[trigger] entries[t]) && has_substring(
                        selector@,
                        sor_text(entries[t]),
                    ),
            decreases entries.len() - k,
        {
            match &self.selector_black_list[k] {
                StringOrRegexp::Regexp(_) => {},
                StringOrRegexp::String(s) => {
                    if str_contains(selector, s.as_str()) {
                        assert(!sor_is_regexp(entries[k as int]) && has_substring(
                            selector@,
                            sor_text(entries[k as int]),
                        ));
                        by_literal = true;
                    }
                },
            }
            k += 1;
        }
        Ok(by_regex || by_literal)
    }

    /// Rewrite one value text: protected spans stay verbatim, recognized
    /// pixel numbers become rem values, everything else passes through.
    pub fn px_replace(&self, value: &str) -> (r: String)
        requires
            self.root_value >= 1,
            self.unit_precision >= 0,
        ensures
            r@ == spec_px_replace(
                value@,
                self.root_value as nat,
                self.unit_precision as nat,
                self.min_pixel_value.mantissa as nat,
                self.min_pixel_value.scale as nat,
            ),
    {
        let chars = str_to_chars(value);
        let out = px_replace_chars(
            &chars,
            self.root_value,
            self.unit_precision,
            self.min_pixel_value.mantissa,
            self.min_pixel_value.scale,
        );
        chars_to_string(&out)
    }
}

/// The characters of the at-rule name `media`.
pub open spec fn media_name() -> Seq<char> {
    seq!['m', 'e', 'd', 'i', 'a']
}

impl Px2Rem {
    /// The rewritten value of one value text.
    pub open spec fn spec_replace(&self, value: Seq<char>) -> Seq<char> {
        spec_px_replace(
            value,
            self.root_value as nat,
            self.unit_precision as nat,
            self.min_pixel_value.mantissa as nat,
            self.min_pixel_value.scale as nat,
        )
    }

    /// The rewritten declaration: the value changes exactly when it
    /// contains `px` and the property is selected.
    pub open spec fn tf_decl(&self, d: DeclView) -> DeclView {
        if has_substring(d.value, px_suffix()) && self.spec_is_selected(d.prop) {
            DeclView { prop: d.prop, value: self.spec_replace(d.value) }
        } else {
            d
        }
    }

    /// The rewritten at-rule parameter text: it changes exactly for a
    /// `media` rule whose parameters contain `px`, when media queries
    /// are enabled.
    pub open spec fn tf_params(&self, name: Seq<char>, params: Seq<char>) -> Seq<char> {
        if self.media_query && name == media_name() && has_substring(params, px_suffix()) {
            self.spec_replace(params)
        } else {
            params
        }
    }

    /// The exclusion configuration is broken: the list is non-empty and
    /// its joined regular expression does not compile.  The walk raises
    /// the configuration error at the first rule it meets.
    pub open spec fn spec_black_broken(&self) -> bool {
        self.selector_black_list@.len() > 0 && self.black_regex_invalid
    }

    /// The rewritten node.  A rule whose selector is excluded is kept
    /// verbatim, its whole subtree skipped.
    pub open spec fn tf_node(&self, n: NodeView) -> NodeView
        decreases n,
    {
        match n {
            NodeView::Rule(r) => if self.spec_blacklisted(r.selector) {
                n
            } else {
                NodeView::Rule(RuleView { selector: r.selector, children: self.tf_nodes(r.children) })
            },
            NodeView::AtRule(a) => NodeView::AtRule(
                AtRuleView {
                    name: a.name,
                    params: self.tf_params(a.name, a.params),
                    children: self.tf_nodes(a.children),
                },
            ),
            NodeView::Declaration(d) => NodeView::Declaration(self.tf_decl(d)),
        }
    }

    /// The rewritten children of a rule or an at-rule.
    pub open spec fn tf_nodes(&self, s: Seq<NodeView>) -> Seq<NodeView>
        decreases s,
    {
        if s.len() == 0 {
            Seq::empty()
        } else {
            self.tf_nodes(s.drop_last()).push(self.tf_node(s.last()))
        }
    }

    /// The rewritten children of the root: a stray declaration at the
    /// top level is left alone.
    pub open spec fn tf_root_children(&self, s: Seq<NodeView>) -> Seq<NodeView>
        decreases s,
    {
        if s.len() == 0 {
            Seq::empty()
        } else {
            let done = self.tf_root_children(s.drop_last());
            let last = match s.last() {
                NodeView::Declaration(_) => s.last(),
                _ => self.tf_node(s.last()),
            };
            done.push(last)
        }
    }

    /// The rewritten tree.
    pub open spec fn tf_root(&self, r: RootView) -> RootView {
        RootView { children: self.tf_root_children(r.children) }
    }

    /// Rewrite one declaration in place.
    pub fn visit_declaration(&self, decl: &mut Declaration)
        requires
            self.root_value >= 1,
            self.unit_precision >= 0,
        ensures
            final(decl)@ == self.tf_decl(old(decl)@),
    {
        proof {
            reveal_strlit("px");
            assert("px"@ =~= px_suffix());
        }
        if !str_contains(decl.value.as_str(), "px") {
            return;
        }
        if !self.is_match(decl.prop.as_str()) {
            return;
        }
        decl.value = self.px_replace(decl.value.as_str());
    }

    /// Rewrite one rule's children in place.  The rule's own selector
    /// is not tested here: whoever walks the tree asks
    /// `blacklisted_selector` before entering a rule.  The error
    /// reports a broken exclusion configuration met at a nested rule;
    /// the rule is then left untouched.
    pub fn visit_rule(&self, rule: &mut Rule) -> (r: Result<(), ConfigError>)
        requires
            self.root_value >= 1,
            self.unit_precision >= 0,
            self.black_wf(),
        ensures
            r is Ok ==> final(rule)@ == (RuleView {
                selector: old(rule)@.selector,
                children: self.tf_nodes(old(rule)@.children),
            }),
            r is Err ==> *final(rule) == *old(rule),
            r is Err <==> (self.spec_black_broken() && seq_has_rule(old(rule)@.children)),
    {
        let fresh = match self.transform_nodes(&rule.children) {
            Ok(fresh) => fresh,
            Err(e) => {
                return Err(e);
            },
        };
        rule.children = fresh;
        Ok(())
    }

    /// Rewrite one at-rule in place: its parameters, then its
    /// children.  The error reports a broken exclusion configuration
    /// met at a nested rule; the at-rule is then left untouched.
    pub fn visit_at_rule(&self, at_rule: &mut AtRule) -> (r: Result<(), ConfigError>)
        requires
            self.root_value >= 1,
            self.unit_precision >= 0,
            self.black_wf(),
        ensures
            r is Ok ==> final(at_rule)@ == (AtRuleView {
                name: old(at_rule)@.name,
                params: self.tf_params(old(at_rule)@.name, old(at_rule)@.params),
                children: self.tf_nodes(old(at_rule)@.children),
            }),
            r is Err ==> *final(at_rule) == *old(at_rule),
            r is Err <==> (self.spec_black_broken() && seq_has_rule(old(at_rule)@.children)),
    {
        proof {
            reveal_strlit("px");
            reveal_strlit("media");
            assert("px"@ =~= px_suffix());
            assert("media"@ =~= media_name());
        }
        let fresh = match self.transform_nodes(&at_rule.children) {
            Ok(fresh) => fresh,
            Err(e) => {
                return Err(e);
            },
        };
        if self.media_query && str_eq(at_rule.name.as_str(), "media") && str_contains(
            at_rule.params.as_str(),
            "px",
        ) {
            at_rule.params = self.px_replace(at_rule.params.as_str());
        }
        at_rule.children = fresh;
        Ok(())
    }

    /// The rewritten copy of one node, or the configuration error if
    /// the exclusion configuration is broken and the subtree holds a
    /// rule.
    fn transform_node(&self, n: &RuleOrAtRuleOrDecl) -> (r: Result<
        RuleOrAtRuleOrDecl,
        ConfigError,
    >)
        requires
            self.root_value >= 1,
            self.unit_precision >= 0,
            self.black_wf(),
        ensures
            r matches Ok(t) ==> node_view(t) == self.tf_node(node_view(*n)),
            r is Err <==> (self.spec_black_broken() && subtree_has_rule(node_view(*n))),
        decreases *n,
    {
        match n {
            RuleOrAtRuleOrDecl::Rule(rule) => {
                let excluded = match self.blacklisted_selector(rule.selector.as_str()) {
                    Ok(b) => b,
                    Err(e) => {
                        return Err(e);
                    },
                };
                if excluded {
                    Ok(clone_node(n))
                } else {
                    match self.transform_nodes(&rule.children) {
                        Ok(children) => Ok(
                            RuleOrAtRuleOrDecl::Rule(
                                Rule { selector: rule.selector.clone(), children },
                            ),
                        ),
                        Err(e) => Err(e),
                    }
                }
            },
            RuleOrAtRuleOrDecl::AtRule(a) => {
                proof {
                    reveal_strlit("px");
                    reveal_strlit("media");
                    assert("px"@ =~= px_suffix());
                    assert("media"@ =~= media_name());
                }
                let children = match self.transform_nodes(&a.children) {
                    Ok(children) => children,
                    Err(e) => {
                        return Err(e);
                    },
                };
                let params = if self.media_query && str_eq(a.name.as_str(), "media")
                    && str_contains(a.params.as_str(), "px") {
                    self.px_replace(a.params.as_str())
                } else {
                    a.params.clone()
                };
                Ok(RuleOrAtRuleOrDecl::AtRule(AtRule { name: a.name.clone(), params, children }))
            },
            RuleOrAtRuleOrDecl::Declaration(d) => {
                let mut fresh = Declaration { prop: d.prop.clone(), value: d.value.clone() };
                self.visit_declaration(&mut fresh);
                Ok(RuleOrAtRuleOrDecl::Declaration(fresh))
            },
        }
    }

    /// The rewritten copies of a node sequence, or the configuration
    /// error if the exclusion configuration is broken and some subtree
    /// holds a rule.
    fn transform_nodes(&self, children: &Vec<RuleOrAtRuleOrDecl>) -> (r: Result<
        Vec<RuleOrAtRuleOrDecl>,
        ConfigError,
    >)
        requires
            self.root_value >= 1,
            self.unit_precision >= 0,
            self.black_wf(),
        ensures
            r matches Ok(fresh) ==> nodes_view(fresh@) == self.tf_nodes(nodes_view(children@)),
            r is Err <==> (self.spec_black_broken() && seq_has_rule(nodes_view(children@))),
        decreases children@,
    {
        proof {
            lemma_seq_has_rule_index(nodes_view(children@));
            lemma_nodes_view_index(children@);
        }
        let mut out: Vec<RuleOrAtRuleOrDecl> = Vec::new();
        let mut i: usize = 0;
        while i < children.len()
            invariant
                i <= children@.len(),
                self.root_value >= 1,
                self.unit_precision >= 0,
                self.black_wf(),
                nodes_view(out@) == self.tf_nodes(nodes_view(children@.subrange(0, i as int))),
                self.spec_black_broken() ==> !seq_has_rule(
                    nodes_view(children@.subrange(0, i as int)),
                ),
            decreases children@.len() - i,
        {
            proof {
                assert(decreases_to!(children@ => children@[i as int]));
            }
            let t = match self.transform_node(&children[i]) {
                Ok(t) => t,
                Err(e) => {
                    proof {
                        lemma_seq_has_rule_index(nodes_view(children@));
                        lemma_nodes_view_index(children@);
                        assert(subtree_has_rule(nodes_view(children@)[i as int]));
                    }
                    return Err(e);
                },
            };
            let ghost out_pre = out@;
            out.push(t);
            i += 1;
            proof {
                let pre = children@.subrange(0, i - 1);
                let cur = children@.subrange(0, i as int);
                assert(cur.drop_last() =~= pre);
                assert(cur.last() == children@[i - 1]);
                assert(nodes_view(cur).drop_last() =~= nodes_view(pre));
                assert(nodes_view(cur).last() == node_view(children@[i - 1]));
                assert(out@.drop_last() =~= out_pre);
                assert(out@.last() == t);
                assert(nodes_view(out@) =~= nodes_view(out_pre).push(node_view(t)));
                assert(nodes_view(out@) =~= self.tf_nodes(nodes_view(cur)));
            }
        }
        proof {
            assert(children@.subrange(0, children@.len() as int) =~= children@);
        }
        Ok(out)
    }

    /// Rewrite a whole tree in place.  The error reports a non-empty
    /// selector exclusion list whose joined regular expression does not
    /// compile; it is raised at the first rule met, anywhere in the
    /// tree, and the tree is then left untouched.
    pub fn visit_root(&self, root: &mut Root) -> (r: Result<(), ConfigError>)
        requires
            self.wf(),
        ensures
            r is Ok ==> final(root)@ == self.tf_root(old(root)@),
            r is Err ==> *final(root) == *old(root),
            r is Err <==> (self.spec_black_broken() && seq_has_rule(old(root)@.children)),
    {
        let ghost all = root.children@;
        proof {
            lemma_nodes_view_index(all);
            lemma_seq_has_rule_index(nodes_view(all));
        }
        let mut out: Vec<RuleOrAtRuleOrDecl> = Vec::new();
        let mut i: usize = 0;
        while i < root.children.len()
            invariant
                i <= all.len(),
                all == root.children@,
                self.wf(),
                nodes_view(out@) == self.tf_root_children(nodes_view(all.subrange(0, i as int))),
                self.spec_black_broken() ==> !seq_has_rule(
                    nodes_view(all.subrange(0, i as int)),
                ),
            decreases all.len() - i,
        {
            proof {
                lemma_nodes_view_index(all);
                assert(decreases_to!(all => all[i as int]));
            }
            let t = match &root.children[i] {
                RuleOrAtRuleOrDecl::Declaration(_) => {
                    assert(node_view(all[i as int]) is Declaration);
                    clone_node(&root.children[i])
                },
                _ => {
                    match self.transform_node(&root.children[i]) {
                        Ok(t) => t,
                        Err(e) => {
                            proof {
                                lemma_seq_has_rule_index(nodes_view(all));
                                assert(subtree_has_rule(nodes_view(all)[i as int]));
                            }
                            return Err(e);
                        },
                    }
                },
            };
            let ghost out_pre = out@;
            out.push(t);
            i += 1;
            proof {
                let pre = all.subrange(0, i - 1);
                let cur = all.subrange(0, i as int);
                assert(cur.drop_last() =~= pre);
                assert(cur.last() == all[i - 1]);
                assert(nodes_view(cur).drop_last() =~= nodes_view(pre));
                assert(nodes_view(cur).last() == node_view(all[i - 1]));
                assert(out@.drop_last() =~= out_pre);
                assert(out@.last() == t);
                assert(nodes_view(out@) =~= nodes_view(out_pre).push(node_view(t)));
                assert(nodes_view(out@) =~= self.tf_root_children(nodes_view(cur)));
                if self.spec_black_broken() {
                    assert(!subtree_has_rule(node_view(all[i - 1])));
                    assert(!seq_has_rule(nodes_view(cur)));
                }
            }
        }
        proof {
            assert(all.subrange(0, all.len() as int) =~= all);
        }
        root.children = out;
        Ok(())
    }
}

/// Does the subtree rooted at `n` hold a rule?
pub open spec fn subtree_has_rule(n: NodeView) -> bool
    decreases n,
{
    match n {
        NodeView::Rule(_) => true,
        NodeView::AtRule(a) => seq_has_rule(a.children),
        NodeView::Declaration(_) => false,
    }
}

/// Does some subtree in the sequence hold a rule?
pub open spec fn seq_has_rule(s: Seq<NodeView>) -> bool
    decreases s,
{
    if s.len() == 0 {
        false
    } else {
        seq_has_rule(s.drop_last()) || subtree_has_rule(s.last())
    }
}

/// `seq_has_rule` as a statement about the elements.
pub proof fn lemma_seq_has_rule_index(s: Seq<NodeView>)
    ensures
        seq_has_rule(s) <==> exists|i: int| 0 <= i < s.len() && subtree_has_rule(#[trigger] s[i]),
    decreases s,
{
    if s.len() > 0 {
        lemma_seq_has_rule_index(s.drop_last());
        if seq_has_rule(s.drop_last()) {
            let i = choose|i: int|
                0 <= i < s.drop_last().len() && subtree_has_rule(#[trigger] s.drop_last()[i]);
            assert(s.drop_last()[i] == s[i]);
            assert(subtree_has_rule(s[i]));
        } else if subtree_has_rule(s.last()) {
            assert(subtree_has_rule(s[s.len() - 1]));
        } else {
            assert forall|i: int| 0 <= i < s.len() implies !subtree_has_rule(#[trigger] s[i]) by {
                if i < s.len() - 1 {
                    assert(s.drop_last()[i] == s[i]);
                }
            }
        }
    }
}

/// A structurally fresh copy of one node.
fn clone_node(n: &RuleOrAtRuleOrDecl) -> (r: RuleOrAtRuleOrDecl)
    ensures
        node_view(r) == node_view(*n),
    decreases *n,
{
    match n {
        RuleOrAtRuleOrDecl::Rule(rule) => RuleOrAtRuleOrDecl::Rule(
            Rule { selector: rule.selector.clone(), children: clone_nodes(&rule.children) },
        ),
        RuleOrAtRuleOrDecl::AtRule(a) => RuleOrAtRuleOrDecl::AtRule(
            AtRule {
                name: a.name.clone(),
                params: a.params.clone(),
                children: clone_nodes(&a.children),
            },
        ),
        RuleOrAtRuleOrDecl::Declaration(d) => RuleOrAtRuleOrDecl::Declaration(
            Declaration { prop: d.prop.clone(), value: d.value.clone() },
        ),
    }
}

/// Structurally fresh copies of a node sequence.
fn clone_nodes(children: &Vec<RuleOrAtRuleOrDecl>) -> (r: Vec<RuleOrAtRuleOrDecl>)
    ensures
        nodes_view(r@) == nodes_view(children@),
    decreases children@,
{
    let mut out: Vec<RuleOrAtRuleOrDecl> = Vec::new();
    let mut i: usize = 0;
    while i < children.len()
        invariant
            i <= children@.len(),
            nodes_view(out@) == nodes_view(children@.subrange(0, i as int)),
        decreases children@.len() - i,
    {
        proof {
            assert(decreases_to!(children@ => children@[i as int]));
        }
        let t = clone_node(&children[i]);
        let ghost out_pre = out@;
        out.push(t);
        i += 1;
        proof {
            let pre = children@.subrange(0, i - 1);
            let cur = children@.subrange(0, i as int);
            assert(cur.drop_last() =~= pre);
            assert(cur.last() == children@[i - 1]);
            assert(nodes_view(cur).drop_last() =~= nodes_view(pre));
            assert(nodes_view(cur).last() == node_view(children@[i - 1]));
            assert(out@.drop_last() =~= out_pre);
            assert(out@.last() == t);
            assert(nodes_view(out@) =~= nodes_view(out_pre).push(node_view(t)));
            assert(nodes_view(out@) =~= nodes_view(cur));
        }
    }
    proof {
        assert(children@.subrange(0, children@.len() as int) =~= children@);
    }
    out
}

/// The default property pattern list.
pub open spec fn default_prop_list() -> Seq<Seq<char>> {
    seq!["font"@, "font-size"@, "line-height"@, "letter-spacing"@]
}

/// The default property pattern list, as owned strings.
fn default_props() -> (r: Vec<String>)
    ensures
        r.deep_view() == default_prop_list(),
{
    let mut v: Vec<String> = Vec::new();
    v.push("font".to_owned());
    v.push("font-size".to_owned());
    v.push("line-height".to_owned());
    v.push("letter-spacing".to_owned());
    assert(v.deep_view() =~= default_prop_list());
    v
}

impl Default for Px2Rem {
    /// The default engine.  The match lists are not derived here: call
    /// `generate_match_list` before asking `is_match` anything, as the
    /// fresh lists select nothing.
    fn default() -> (r: Px2Rem)
        ensures
            r.root_value == 16,
            r.unit_precision == 5,
            r.selector_black_list@.len() == 0,
            r.prop_list.deep_view() == default_prop_list(),
            r.replace == true,
            r.media_query == false,
            r.min_pixel_value == (MinPixelValue { mantissa: 0, scale: 0 }),
            r.has_wild == false,
            r.all_match == false,
            r.black_wf(),
    {
        let r = Px2Rem {
            root_value: 16,
            unit_precision: 5,
            selector_black_list: Vec::new(),
            prop_list: default_props(),
            replace: true,
            media_query: false,
            min_pixel_value: MinPixelValue { mantissa: 0, scale: 0 },
            has_wild: false,
            match_list: MatchList::default(),
            all_match: false,
            black_regex: None,
            black_regex_invalid: false,
        };
        proof {
            assert(regex_texts(r.selector_black_list@) =~= Seq::<Seq<char>>::empty());
        }
        r
    }
}

/// `n` space characters.
pub open spec fn spaces(n: nat) -> Seq<char> {
    Seq::new(n, |i: int| ' ')
}

/// The printed form of one node at the given indentation level.
pub open spec fn render_node(n: NodeView, indent: nat, level: nat) -> Seq<char>
    decreases n,
{
    match n {
        NodeView::Rule(r) => spaces(level * indent) + r.selector + seq![' ', '{', '\n']
            + render_all(r.children, indent, level + 1) + spaces(level * indent) + seq![
            '}',
            '\n',
        ],
        NodeView::AtRule(a) => spaces(level * indent) + seq!['@'] + a.name + seq![' '] + a.params
            + seq![' ', '{', '\n'] + render_skip_decl(a.children, indent, level + 1) + spaces(
            level * indent,
        ) + seq!['}', '\n'],
        NodeView::Declaration(d) => spaces(level * indent) + d.prop + seq![':', ' '] + d.value
            + seq![';', '\n'],
    }
}

/// The printed forms of a rule's children, in order.
pub open spec fn render_all(s: Seq<NodeView>, indent: nat, level: nat) -> Seq<char>
    decreases s,
{
    if s.len() == 0 {
        Seq::empty()
    } else {
        render_all(s.drop_last(), indent, level) + render_node(s.last(), indent, level)
    }
}

/// The printed forms of the children of the root or of an at-rule:
/// declarations at these places are not printed.
pub open spec fn render_skip_decl(s: Seq<NodeView>, indent: nat, level: nat) -> Seq<char>
    decreases s,
{
    if s.len() == 0 {
        Seq::empty()
    } else {
        render_skip_decl(s.drop_last(), indent, level) + (match s.last() {
            NodeView::Declaration(_) => Seq::<char>::empty(),
            _ => render_node(s.last(), indent, level),
        })
    }
}

/// The printed form of a whole tree.
pub open spec fn render_root(r: RootView, indent: nat, level: nat) -> Seq<char> {
    render_skip_decl(r.children, indent, level)
}

/// The indentation prefix for `level` levels of `indent` spaces each.
fn make_prefix(level: usize, indent: usize) -> (r: String)
    ensures
        r@ == spaces((level * indent) as nat),
{
    let mut s = String::new();
    let mut l: usize = 0;
    while l < level
        invariant
            l <= level,
            s@ == spaces((l * indent) as nat),
        decreases level - l,
    {
        let ghost before = s@;
        let mut k: usize = 0;
        while k < indent
            invariant
                k <= indent,
                s@ == before + spaces(k as nat),
            decreases indent - k,
        {
            push_char(&mut s, ' ');
            k += 1;
            assert(s@ =~= before + spaces(k as nat));
        }
        l += 1;
        proof {
            assert((l * indent) as nat == (l - 1) * indent + indent) by (nonlinear_arith)
                requires l >= 1;
            assert(s@ =~= spaces((l * indent) as nat));
        }
    }
    s
}

/// The indentation prefix one level deeper.
fn extend_prefix(prefix: &String, indent: usize, Ghost(level): Ghost<nat>) -> (r: String)
    requires
        prefix@ == spaces(level * indent as nat),
    ensures
        r@ == spaces((level + 1) * indent as nat),
{
    let mut s = prefix.clone();
    let mut k: usize = 0;
    while k < indent
        invariant
            k <= indent,
            s@ == prefix@ + spaces(k as nat),
        decreases indent - k,
    {
        push_char(&mut s, ' ');
        k += 1;
        assert(s@ =~= prefix@ + spaces(k as nat));
    }
    proof {
        assert((level + 1) * indent as nat == level * indent as nat + indent as nat)
            by (nonlinear_arith);
        assert(s@ =~= spaces((level + 1) * indent as nat));
    }
    s
}

/// Print one node into `w`.
fn render_node_str(
    w: &mut String,
    n: &RuleOrAtRuleOrDecl,
    indent: usize,
    prefix: &String,
    Ghost(level): Ghost<nat>,
)
    requires
        prefix@ == spaces(level * indent as nat),
    ensures
        final(w)@ == old(w)@ + render_node(node_view(*n), indent as nat, level),
    decreases *n,
{
    match n {
        RuleOrAtRuleOrDecl::Rule(rule) => {
            render_rule_str(w, rule, indent, prefix, Ghost(level));
        },
        RuleOrAtRuleOrDecl::AtRule(a) => {
            render_at_rule_str(w, a, indent, prefix, Ghost(level));
        },
        RuleOrAtRuleOrDecl::Declaration(d) => {
            render_decl_str(w, d, prefix, Ghost(level * indent as nat));
        },
    }
}

/// Print one rule into `w`.
fn render_rule_str(
    w: &mut String,
    rule: &Rule,
    indent: usize,
    prefix: &String,
    Ghost(level): Ghost<nat>,
)
    requires
        prefix@ == spaces(level * indent as nat),
    ensures
        final(w)@ == old(w)@ + render_node(
            NodeView::Rule(rule@),
            indent as nat,
            level,
        ),
    decreases *rule,
{
    w.append(prefix.as_str());
    w.append(rule.selector.as_str());
    push_char(w, ' ');
    push_char(w, '{');
    push_char(w, '\n');
    let child_prefix = extend_prefix(prefix, indent, Ghost(level));
    render_children_all(w, &rule.children, indent, &child_prefix, Ghost(level + 1));
    w.append(prefix.as_str());
    push_char(w, '}');
    push_char(w, '\n');
    proof {
        assert(final(w)@ =~= old(w)@ + render_node(
            NodeView::Rule(rule@),
            indent as nat,
            level,
        ));
    }
}

/// Print one at-rule into `w`.
fn render_at_rule_str(
    w: &mut String,
    a: &AtRule,
    indent: usize,
    prefix: &String,
    Ghost(level): Ghost<nat>,
)
    requires
        prefix@ == spaces(level * indent as nat),
    ensures
        final(w)@ == old(w)@ + render_node(
            NodeView::AtRule(a@),
            indent as nat,
            level,
        ),
    decreases *a,
{
    w.append(prefix.as_str());
    push_char(w, '@');
    w.append(a.name.as_str());
    push_char(w, ' ');
    w.append(a.params.as_str());
    push_char(w, ' ');
    push_char(w, '{');
    push_char(w, '\n');
    let child_prefix = extend_prefix(prefix, indent, Ghost(level));
    render_children_skip(w, &a.children, indent, &child_prefix, Ghost(level + 1));
    w.append(prefix.as_str());
    push_char(w, '}');
    push_char(w, '\n');
    proof {
        assert(final(w)@ =~= old(w)@ + render_node(
            NodeView::AtRule(a@),
            indent as nat,
            level,
        ));
    }
}

/// Print one declaration into `w`.
fn render_decl_str(w: &mut String, d: &Declaration, prefix: &String, Ghost(ind): Ghost<nat>)
    requires
        prefix@ == spaces(ind),
    ensures
        final(w)@ == old(w)@ + spaces(ind) + d.prop@ + seq![':', ' '] + d.value@ + seq![
            ';',
            '\n',
        ],
{
    w.append(prefix.as_str());
    w.append(d.prop.as_str());
    push_char(w, ':');
    push_char(w, ' ');
    w.append(d.value.as_str());
    push_char(w, ';');
    push_char(w, '\n');
    proof {
        assert(final(w)@ =~= old(w)@ + spaces(ind) + d.prop@ + seq![':', ' '] + d.value@ + seq![
            ';',
            '\n',
        ]);
    }
}

/// Print a rule's children into `w`.
fn render_children_all(
    w: &mut String,
    children: &Vec<RuleOrAtRuleOrDecl>,
    indent: usize,
    prefix: &String,
    Ghost(level): Ghost<nat>,
)
    requires
        prefix@ == spaces(level * indent as nat),
    ensures
        final(w)@ == old(w)@ + render_all(nodes_view(children@), indent as nat, level),
    decreases children@,
{
    let mut i: usize = 0;
    while i < children.len()
        invariant
            i <= children@.len(),
            prefix@ == spaces(level * indent as nat),
            w@ == old(w)@ + render_all(
                nodes_view(children@.subrange(0, i as int)),
                indent as nat,
                level,
            ),
        decreases children@.len() - i,
    {
        proof {
            assert(decreases_to!(children@ => children@[i as int]));
        }
        render_node_str(w, &children[i], indent, prefix, Ghost(level));
        i += 1;
        proof {
            let pre = children@.subrange(0, i - 1);
            let cur = children@.subrange(0, i as int);
            assert(cur.drop_last() =~= pre);
            assert(cur.last() == children@[i - 1]);
            assert(nodes_view(cur).drop_last() =~= nodes_view(pre));
            assert(nodes_view(cur).last() == node_view(children@[i - 1]));
            assert(w@ =~= old(w)@ + render_all(nodes_view(cur), indent as nat, level));
        }
    }
    proof {
        assert(children@.subrange(0, children@.len() as int) =~= children@);
    }
}

/// Print the children of the root or of an at-rule into `w`,
/// skipping declarations.
fn render_children_skip(
    w: &mut String,
    children: &Vec<RuleOrAtRuleOrDecl>,
    indent: usize,
    prefix: &String,
    Ghost(level): Ghost<nat>,
)
    requires
        prefix@ == spaces(level * indent as nat),
    ensures
        final(w)@ == old(w)@ + render_skip_decl(nodes_view(children@), indent as nat, level),
    decreases children@,
{
    let mut i: usize = 0;
    while i < children.len()
        invariant
            i <= children@.len(),
            prefix@ == spaces(level * indent as nat),
            w@ == old(w)@ + render_skip_decl(
                nodes_view(children@.subrange(0, i as int)),
                indent as nat,
                level,
            ),
        decreases children@.len() - i,
    {
        proof {
            assert(decreases_to!(children@ => children@[i as int]));
        }
        match &children[i] {
            RuleOrAtRuleOrDecl::Declaration(_) => {
                assert(node_view(children@[i as int]) is Declaration);
            },
            _ => {
                render_node_str(w, &children[i], indent, prefix, Ghost(level));
            },
        }
        i += 1;
        proof {
            let pre = children@.subrange(0, i - 1);
            let cur = children@.subrange(0, i as int);
            assert(cur.drop_last() =~= pre);
            assert(cur.last() == children@[i - 1]);
            assert(nodes_view(cur).drop_last() =~= nodes_view(pre));
            assert(nodes_view(cur).last() == node_view(children@[i - 1]));
            assert(w@ =~= old(w)@ + render_skip_decl(nodes_view(cur), indent as nat, level));
        }
    }
    proof {
        assert(children@.subrange(0, children@.len() as int) =~= children@);
    }
}

/// A plain printer: it writes the tree into a string, one node per
/// block, indenting each level by a fixed number of spaces.
pub struct SimplePrettier {
    pub level: usize,
    pub writer: String,
    pub indent: usize,
}

impl Default for SimplePrettier {
    fn default() -> (r: SimplePrettier)
        ensures
            r.level == 0,
            r.writer@ == Seq::<char>::empty(),
            r.indent == 0,
    {
        SimplePrettier { level: 0, writer: String::new(), indent: 0 }
    }
}

impl SimplePrettier {
    /// A printer writing into `writer`, `indent` spaces per level.
    pub fn new(writer: String, indent: usize) -> (r: SimplePrettier)
        ensures
            r.level == 0,
            r.writer == writer,
            r.indent == indent,
    {
        SimplePrettier { level: 0, writer, indent }
    }

    /// Print a whole tree.
    pub fn visit_root(&mut self, root: &Root)
        ensures
            final(self).writer@ == old(self).writer@ + render_root(
                root@,
                old(self).indent as nat,
                old(self).level as nat,
            ),
            final(self).level == old(self).level,
            final(self).indent == old(self).indent,
    {
        let prefix = make_prefix(self.level, self.indent);
        let indent = self.indent;
        let ghost lvl = self.level as nat;
        render_children_skip(&mut self.writer, &root.children, indent, &prefix, Ghost(lvl));
    }

    /// Print one rule.
    pub fn visit_rule(&mut self, rule: &Rule)
        ensures
            final(self).writer@ == old(self).writer@ + render_node(
                NodeView::Rule(rule@),
                old(self).indent as nat,
                old(self).level as nat,
            ),
            final(self).level == old(self).level,
            final(self).indent == old(self).indent,
    {
        let prefix = make_prefix(self.level, self.indent);
        let indent = self.indent;
        let ghost lvl = self.level as nat;
        render_rule_str(&mut self.writer, rule, indent, &prefix, Ghost(lvl));
    }

    /// Print one at-rule.
    pub fn visit_at_rule(&mut self, at_rule: &AtRule)
        ensures
            final(self).writer@ == old(self).writer@ + render_node(
                NodeView::AtRule(at_rule@),
                old(self).indent as nat,
                old(self).level as nat,
            ),
            final(self).level == old(self).level,
            final(self).indent == old(self).indent,
    {
        let prefix = make_prefix(self.level, self.indent);
        let indent = self.indent;
        let ghost lvl = self.level as nat;
        render_at_rule_str(&mut self.writer, at_rule, indent, &prefix, Ghost(lvl));
    }

    /// Print one declaration.
    pub fn visit_declaration(&mut self, decl: &Declaration)
        ensures
            final(self).writer@ == old(self).writer@ + render_node(
                NodeView::Declaration(decl@),
                old(self).indent as nat,
                old(self).level as nat,
            ),
            final(self).level == old(self).level,
            final(self).indent == old(self).indent,
    {
        let prefix = make_prefix(self.level, self.indent);
        let ghost ind = (self.level * self.indent) as nat;
        render_decl_str(&mut self.writer, decl, &prefix, Ghost(ind));
    }
}

} // verus!
