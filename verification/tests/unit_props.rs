use postcss_px2rem::ast::{Declaration, Root, Rule, RuleOrAtRuleOrDecl};
use postcss_px2rem::filter_prop_list::{classify_pattern, PatternKind};
use postcss_px2rem::transform::{
    ConfigError, MinPixelValue, Px2Rem, Px2RemOption, SimplePrettier, StringOrRegexp,
};

fn engine_with_props(props: Vec<&str>) -> Px2Rem {
    Px2Rem::new(Px2RemOption {
        prop_list: Some(props.into_iter().map(|s| s.to_string()).collect()),
        ..Px2RemOption::default()
    })
}

#[test]
fn selection_is_positive_and_not_negative() {
    let px = engine_with_props(vec!["*font*", "margin*", "!margin-left", "*-right", "pad"]);
    assert!(px.is_match("font-size"));
    assert!(px.is_match("margin"));
    assert!(!px.is_match("margin-left"));
    assert!(px.is_match("padding-right"));
    assert!(!px.is_match("padding"));
    assert!(px.is_match("pad"));
}

#[test]
fn selection_ignores_order_within_category() {
    let a = engine_with_props(vec!["margin", "font", "*-left*", "!border*"]);
    let b = engine_with_props(vec!["font", "margin", "*-left*", "!border*"]);
    for p in ["margin", "font", "padding-left", "border-top", "width"] {
        assert_eq!(a.is_match(p), b.is_match(p));
    }
}

#[test]
fn negation_beats_wildcard() {
    let px = engine_with_props(vec!["*", "!margin-left"]);
    assert!(!px.is_match("margin-left"));
    assert!(px.is_match("margin"));
}

#[test]
fn wildcard_alone_selects_everything() {
    let px = engine_with_props(vec!["*"]);
    assert!(px.is_match("margin-left"));
    assert!(px.is_match("font-size"));
    assert!(px.is_match("anything-at-all"));
    assert!(px.is_match(""));
}

#[test]
fn empty_prop_list_selects_nothing() {
    let px = engine_with_props(vec![]);
    assert!(!px.is_match("font-size"));
    assert!(!px.is_match(""));
}

#[test]
fn uppercase_px_markers_are_left_alone() {
    let px = engine_with_props(vec!["*"]);
    assert_eq!(px.px_replace("14PX"), "14PX");
    assert_eq!(px.px_replace("12Px"), "12Px");
    assert_eq!(px.px_replace("12pX"), "12pX");
    assert_eq!(px.px_replace("14px"), "0.875rem");
}

#[test]
fn protected_spans_are_never_rewritten() {
    let px = engine_with_props(vec!["*"]);
    assert_eq!(px.px_replace("url(16px.jpg)"), "url(16px.jpg)");
    assert_eq!(px.px_replace("var(--rem-14px)"), "var(--rem-14px)");
    assert_eq!(px.px_replace("'16px'"), "'16px'");
    assert_eq!(px.px_replace("\"16px\""), "\"16px\"");
    assert_eq!(px.px_replace("a \"8px\" 8px"), "a \"8px\" 0.5rem");
}

#[test]
fn zero_pixels_collapse_to_unitless_zero() {
    let px = engine_with_props(vec!["*"]);
    assert_eq!(px.px_replace("0px"), "0");
    assert_eq!(px.px_replace("0.0px"), "0");
    assert_eq!(px.px_replace(".0px"), "0");
}

#[test]
fn tiny_values_keep_their_rounded_digits() {
    let px = engine_with_props(vec!["*"]);
    assert_eq!(px.px_replace("0.001px"), "0.00006rem");
}

#[test]
fn precision_rounds_instead_of_truncating() {
    let five = engine_with_props(vec!["*"]);
    assert_eq!(five.px_replace("15px"), "0.9375rem");
    let two = Px2Rem::new(Px2RemOption {
        unit_precision: Some(2),
        prop_list: Some(vec!["*".to_string()]),
        ..Px2RemOption::default()
    });
    assert_eq!(two.px_replace("15px"), "0.94rem");
}

#[test]
fn rounding_ties_go_to_even() {
    let two = Px2Rem::new(Px2RemOption {
        unit_precision: Some(2),
        prop_list: Some(vec!["*".to_string()]),
        ..Px2RemOption::default()
    });
    assert_eq!(two.px_replace("2px"), "0.12rem");
    assert_eq!(two.px_replace("6px"), "0.38rem");
}

#[test]
fn precision_zero_keeps_whole_numbers() {
    let zero = Px2Rem::new(Px2RemOption {
        unit_precision: Some(0),
        prop_list: Some(vec!["*".to_string()]),
        ..Px2RemOption::default()
    });
    assert_eq!(zero.px_replace("160px"), "10rem");
    assert_eq!(zero.px_replace("24px"), "2rem");
}

#[test]
fn minimum_threshold_spares_small_values() {
    let px = Px2Rem::new(Px2RemOption {
        min_pixel_value: Some(MinPixelValue::from_int(2)),
        prop_list: Some(vec!["*".to_string()]),
        ..Px2RemOption::default()
    });
    assert_eq!(px.px_replace("1px"), "1px");
    assert_eq!(px.px_replace("16px"), "1rem");
    assert_eq!(px.px_replace("2px"), "0.125rem");
}

#[test]
fn fractional_minimum_threshold() {
    let px = Px2Rem::new(Px2RemOption {
        min_pixel_value: Some(MinPixelValue { mantissa: 5, scale: 1 }),
        prop_list: Some(vec!["*".to_string()]),
        ..Px2RemOption::default()
    });
    assert_eq!(px.px_replace("0.4px"), "0.4px");
    assert_eq!(px.px_replace("0.5px"), "0.03125rem");
}

#[test]
fn huge_literals_are_left_untouched() {
    let px = engine_with_props(vec!["*"]);
    let huge = "999999999999999999999999999999999999999px";
    assert_eq!(px.px_replace(huge), huge);
}

#[test]
fn empty_value_stays_empty() {
    let px = engine_with_props(vec!["*"]);
    assert_eq!(px.px_replace(""), "");
}

#[test]
fn end_to_end_value_rewrite() {
    let px = engine_with_props(vec!["*"]);
    assert_eq!(
        px.px_replace("12px calc(100% - 14PX)"),
        "0.75rem calc(100% - 14PX)"
    );
    assert_eq!(px.px_replace("calc(100% - 20px)"), "calc(100% - 1.25rem)");
}

#[test]
fn literal_blacklist_entry_excludes_by_substring() {
    let px = Px2Rem::new(Px2RemOption {
        selector_black_list: Some(vec![StringOrRegexp::String(".rule2".to_string())]),
        ..Px2RemOption::default()
    });
    assert_eq!(px.blacklisted_selector(".rule2"), Ok(true));
    assert_eq!(px.blacklisted_selector("a .rule2 b"), Ok(true));
    assert_eq!(px.blacklisted_selector(".rule"), Ok(false));
}

#[test]
fn regex_blacklist_entry_excludes_by_match() {
    let px = Px2Rem::new(Px2RemOption {
        selector_black_list: Some(vec![StringOrRegexp::Regexp("^body$".to_string())]),
        ..Px2RemOption::default()
    });
    assert_eq!(px.blacklisted_selector("body"), Ok(true));
    assert_eq!(px.blacklisted_selector(".class-body"), Ok(false));
}

#[test]
fn empty_blacklist_excludes_nothing() {
    let px = Px2Rem::new(Px2RemOption::default());
    assert_eq!(px.blacklisted_selector("body"), Ok(false));
}

#[test]
fn invalid_blacklist_regex_is_a_config_error() {
    let px = Px2Rem::new(Px2RemOption {
        selector_black_list: Some(vec![StringOrRegexp::Regexp("(".to_string())]),
        ..Px2RemOption::default()
    });
    assert_eq!(
        px.blacklisted_selector("body"),
        Err(ConfigError::InvalidSelectorRegex)
    );
}

#[test]
fn invalid_blacklist_regex_aborts_the_walk() {
    let px = Px2Rem::new(Px2RemOption {
        selector_black_list: Some(vec![StringOrRegexp::Regexp("(".to_string())]),
        ..Px2RemOption::default()
    });
    let mut root = Root {
        children: vec![RuleOrAtRuleOrDecl::Rule(Rule {
            selector: ".rule".to_string(),
            children: vec![RuleOrAtRuleOrDecl::Declaration(Declaration {
                prop: "font-size".to_string(),
                value: "16px".to_string(),
            })],
        })],
    };
    assert_eq!(px.visit_root(&mut root), Err(ConfigError::InvalidSelectorRegex));
    match &root.children[0] {
        RuleOrAtRuleOrDecl::Rule(rule) => match &rule.children[0] {
            RuleOrAtRuleOrDecl::Declaration(d) => assert_eq!(d.value, "16px"),
            _ => panic!("expected a declaration"),
        },
        _ => panic!("expected a rule"),
    }
}

#[test]
fn invalid_blacklist_regex_without_rules_passes() {
    let px = Px2Rem::new(Px2RemOption {
        selector_black_list: Some(vec![StringOrRegexp::Regexp("(".to_string())]),
        ..Px2RemOption::default()
    });
    let mut root = Root {
        children: vec![RuleOrAtRuleOrDecl::AtRule(postcss_px2rem::ast::AtRule {
            name: "charset".to_string(),
            params: "\"utf-8\"".to_string(),
            children: vec![],
        })],
    };
    assert_eq!(px.visit_root(&mut root), Ok(()));
}

#[test]
fn classify_sorts_patterns_into_the_eight_categories() {
    let cases: Vec<(&str, Option<(PatternKind, &str)>)> = vec![
        ("font", Some((PatternKind::Exact, "font"))),
        ("*font*", Some((PatternKind::Contains, "font"))),
        ("font*", Some((PatternKind::StartsWith, "font"))),
        ("*font", Some((PatternKind::EndsWith, "font"))),
        ("!font", Some((PatternKind::NotExact, "font"))),
        ("!*font*", Some((PatternKind::NotContains, "font"))),
        ("!font*", Some((PatternKind::NotStartsWith, "font"))),
        ("!*font", Some((PatternKind::NotEndsWith, "font"))),
        ("*", None),
        ("!*", None),
        ("", None),
        ("!", None),
        ("a*b", None),
    ];
    for (raw, want) in cases {
        let got = classify_pattern(raw);
        match (got, want) {
            (None, None) => {}
            (Some((k, body)), Some((wk, wb))) => {
                assert_eq!(k, wk, "pattern {raw}");
                assert_eq!(body, wb, "pattern {raw}");
            }
            (g, w) => panic!("pattern {raw}: got {g:?}, want {w:?}"),
        }
    }
}

#[test]
fn prettier_prints_nested_blocks() {
    let root = Root {
        children: vec![RuleOrAtRuleOrDecl::Rule(Rule {
            selector: ".a".to_string(),
            children: vec![RuleOrAtRuleOrDecl::Declaration(Declaration {
                prop: "width".to_string(),
                value: "1rem".to_string(),
            })],
        })],
    };
    let mut writer = SimplePrettier::new(String::new(), 2);
    writer.visit_root(&root);
    assert_eq!(writer.writer, ".a {\n  width: 1rem;\n}\n");
}

#[test]
fn media_query_params_only_rewrite_when_enabled() {
    let on = Px2Rem::new(Px2RemOption { media_query: Some(true), ..Px2RemOption::default() });
    let off = Px2Rem::new(Px2RemOption::default());
    let at = |px: &Px2Rem| {
        let mut root = Root {
            children: vec![RuleOrAtRuleOrDecl::AtRule(postcss_px2rem::ast::AtRule {
                name: "media".to_string(),
                params: "(min-width: 500px)".to_string(),
                children: vec![],
            })],
        };
        px.visit_root(&mut root).unwrap();
        match &root.children[0] {
            RuleOrAtRuleOrDecl::AtRule(a) => a.params.clone(),
            _ => panic!("expected an at-rule"),
        }
    };
    assert_eq!(at(&on), "(min-width: 31.25rem)");
    assert_eq!(at(&off), "(min-width: 500px)");
}

#[test]
fn duplicate_patterns_are_kept() {
    let px = engine_with_props(vec!["margin", "margin"]);
    assert_eq!(px.match_list.exact_list.join(","), "margin,margin");
    assert!(px.is_match("margin"));
}
