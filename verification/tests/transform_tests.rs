use postcss_px2rem::ast::{AtRule, Declaration, Root, Rule, RuleOrAtRuleOrDecl};
use postcss_px2rem::transform::{
    MinPixelValue, Px2Rem, Px2RemOption, SimplePrettier, StringOrRegexp,
};

fn parse_nodes(chars: &[char], pos: &mut usize) -> Vec<RuleOrAtRuleOrDecl> {
    let mut out = Vec::new();
    loop {
        while *pos < chars.len() && chars[*pos].is_whitespace() {
            *pos += 1;
        }
        if *pos >= chars.len() {
            break;
        }
        if chars[*pos] == '}' {
            *pos += 1;
            break;
        }
        if chars[*pos] == '@' {
            *pos += 1;
            let mut name = String::new();
            while *pos < chars.len() && !chars[*pos].is_whitespace() && chars[*pos] != '{' {
                name.push(chars[*pos]);
                *pos += 1;
            }
            let mut params = String::new();
            while *pos < chars.len() && chars[*pos] != '{' {
                params.push(chars[*pos]);
                *pos += 1;
            }
            if *pos < chars.len() {
                *pos += 1;
            }
            let children = parse_nodes(chars, pos);
            out.push(RuleOrAtRuleOrDecl::AtRule(AtRule {
                name,
                params: params.trim().to_string(),
                children,
            }));
            continue;
        }
        let start = *pos;
        let mut j = *pos;
        while j < chars.len() && chars[j] != '{' && chars[j] != ';' && chars[j] != '}' {
            j += 1;
        }
        let text: String = chars[start..j].iter().collect();
        if j < chars.len() && chars[j] == '{' {
            *pos = j + 1;
            let children = parse_nodes(chars, pos);
            out.push(RuleOrAtRuleOrDecl::Rule(Rule {
                selector: text.trim().to_string(),
                children,
            }));
        } else {
            let t = text.trim();
            if !t.is_empty() {
                if let Some(cidx) = t.find(':') {
                    let prop = t[..cidx].trim().to_string();
                    let value = t[cidx + 1..].trim().to_string();
                    out.push(RuleOrAtRuleOrDecl::Declaration(Declaration { prop, value }));
                }
            }
            if j < chars.len() && chars[j] == ';' {
                *pos = j + 1;
            } else {
                *pos = j;
            }
        }
    }
    out
}

fn parse_stylesheet(input: &str) -> Root {
    let chars: Vec<char> = input.chars().collect();
    let mut pos = 0usize;
    Root { children: parse_nodes(&chars, &mut pos) }
}

const BASIC_CSS: &str = ".rule { font-size: 15px; }";

fn get_transformed_content_default(input: &str) -> String {
    let mut root = parse_stylesheet(input);
    let mut px_to_rem = Px2Rem::default();
    px_to_rem.generate_match_list();
    px_to_rem.visit_root(&mut root).unwrap();
    let mut writer = SimplePrettier::new(String::new(), 4);
    writer.visit_root(&root);
    writer.writer
}

fn get_transformed_content_new(input: &str, option: Px2RemOption) -> String {
    let mut root = parse_stylesheet(input);
    let px_to_rem = Px2Rem::new(option);
    px_to_rem.visit_root(&mut root).unwrap();
    let mut writer = SimplePrettier::new(String::new(), 4);
    writer.visit_root(&root);
    writer.writer
}

#[test]
fn test_readme_example() {
    let input = "h1 { margin: 0 0 20px; font-size: 32px; line-height: 1.2; letter-spacing: 1px; }";
    let actual = get_transformed_content_default(input);
    let expected = "h1 {\n    margin: 0 0 20px;\n    font-size: 2rem;\n    line-height: 1.2;\n    letter-spacing: 0.0625rem;\n}\n";
    assert_eq!(expected, actual);
}

#[test]
fn test_should_replace_px_with_rem() {
    let expected = ".rule {\n    font-size: 0.9375rem;\n}\n";
    assert_eq!(expected, get_transformed_content_default(BASIC_CSS));
}

#[test]
fn test_should_ignore_non_px() {
    let expected = ".rule {\n    font-size: 2em;\n}\n";
    assert_eq!(expected, get_transformed_content_default(expected));
}

#[test]
fn test_leading_zero() {
    let input = ".rule { margin: 0.5rem .5px -0.2px -.2em }";
    let expected = ".rule {\n    margin: 0.5rem 0.03125rem -0.0125rem -.2em;\n}\n";
    assert_eq!(
        expected,
        get_transformed_content_new(
            input,
            Px2RemOption {
                prop_list: Some(vec!["margin".to_string()]),
                ..Px2RemOption::default()
            }
        )
    );
}

#[test]
fn ignore_px_in_custom_properties() {
    let input = ":root { --rem-14px: 14px; } .rule { font-size: var(--rem-14px); }";
    let expected =
        ":root {\n    --rem-14px: 0.875rem;\n}\n.rule {\n    font-size: var(--rem-14px);\n}\n";
    assert_eq!(
        expected,
        get_transformed_content_new(
            input,
            Px2RemOption {
                prop_list: Some(vec!["font-size".to_string(), "--*".to_string()]),
                ..Px2RemOption::default()
            }
        )
    );
}

#[test]
fn test_remain_unitless_if_0() {
    let input = ".rule { font-size: 0px; font-size: 0; }";
    let expected = ".rule {\n    font-size: 0;\n    font-size: 0;\n}\n";
    assert_eq!(expected, get_transformed_content_default(input));
}

#[test]
fn test_value_in_quotes() {
    let input = ".rule { content: '16px'; font-family: \"16px\"; font-size: 16px; }";
    let expected =
        ".rule {\n    content: '16px';\n    font-family: \"16px\";\n    font-size: 1rem;\n}\n";
    assert_eq!(
        expected,
        get_transformed_content_new(
            input,
            Px2RemOption { prop_list: Some(vec!["*".to_string()]), ..Default::default() }
        )
    );
}

#[test]
fn test_not_replace_values_in_url_function() {
    let input = ".rule { background: url(16px.jpg); font-size: 16px; }";
    let expected = ".rule {\n    background: url(16px.jpg);\n    font-size: 1rem;\n}\n";
    assert_eq!(
        expected,
        get_transformed_content_new(
            input,
            Px2RemOption { prop_list: Some(vec!["*".to_string()]), ..Default::default() }
        )
    );
}

#[test]
#[allow(non_snake_case)]
fn test_not_replace_values_with_uppercase_PX() {
    let input = ".rule { margin: 12px calc(100% - 14PX); height: calc(100% - 20px); font-size: 12Px; line-height: 16px; }";
    let expected = ".rule {\n    margin: 0.75rem calc(100% - 14PX);\n    height: calc(100% - 1.25rem);\n    font-size: 12Px;\n    line-height: 1rem;\n}\n";
    assert_eq!(
        expected,
        get_transformed_content_new(
            input,
            Px2RemOption { prop_list: Some(vec!["*".to_string()]), ..Default::default() }
        )
    );
}

#[test]
fn test_root_value_of_10() {
    let expected = ".rule {\n    font-size: 1.5rem;\n}\n";
    assert_eq!(
        expected,
        get_transformed_content_new(
            BASIC_CSS,
            Px2RemOption { root_value: Some(10), ..Default::default() }
        )
    );
}

#[test]
fn test_precision_two() {
    let expected = ".rule {\n    font-size: 0.94rem;\n}\n";
    assert_eq!(
        expected,
        get_transformed_content_new(
            BASIC_CSS,
            Px2RemOption { unit_precision: Some(2), ..Default::default() }
        )
    );
}

#[test]
fn test_only_replace_prop_in_whitelist() {
    let expected = ".rule {\n    font-size: 15px;\n}\n";
    assert_eq!(
        expected,
        get_transformed_content_new(
            BASIC_CSS,
            Px2RemOption { prop_list: Some(vec!["font".to_string()]), ..Default::default() }
        )
    );
}

#[test]
fn test_only_replace_prop_in_whitelist_two() {
    let input = ".rule { margin: 16px; margin-left: 10px }";
    let expected = ".rule {\n    margin: 1rem;\n    margin-left: 10px;\n}\n";
    assert_eq!(
        expected,
        get_transformed_content_new(
            input,
            Px2RemOption { prop_list: Some(vec!["margin".to_string()]), ..Default::default() }
        )
    );
}

#[test]
fn test_only_replace_prop_in_whitelist_three() {
    let input = ".rule { font-size: 16px; margin: 16px; margin-left: 5px; padding: 5px; padding-right: 16px }";
    let expected = ".rule {\n    font-size: 1rem;\n    margin: 1rem;\n    margin-left: 5px;\n    padding: 5px;\n    padding-right: 1rem;\n}\n";
    assert_eq!(
        expected,
        get_transformed_content_new(
            input,
            Px2RemOption {
                prop_list: Some(vec![
                    "*font*".to_string(),
                    "margin*".to_string(),
                    "!margin-left".to_string(),
                    "*-right".to_string(),
                    "pad".to_string(),
                ]),
                ..Default::default()
            }
        )
    );
}

#[test]
fn test_only_replace_prop_in_whitelist_with_wildcard() {
    let input = ".rule { font-size: 16px; margin: 16px; margin-left: 5px; padding: 5px; padding-right: 16px }";
    let expected = ".rule {\n    font-size: 16px;\n    margin: 1rem;\n    margin-left: 5px;\n    padding: 5px;\n    padding-right: 16px;\n}\n";
    assert_eq!(
        expected,
        get_transformed_content_new(
            input,
            Px2RemOption {
                prop_list: Some(vec![
                    "*".to_string(),
                    "!*padding*".to_string(),
                    "!margin-left".to_string(),
                    "!font*".to_string(),
                ]),
                ..Default::default()
            }
        )
    );
}

#[test]
fn test_ignore_rule_when_selector_in_black_list() {
    let input = ".rule { font-size: 15px } .rule2 { font-size: 15px }";
    let expected = ".rule {\n    font-size: 0.9375rem;\n}\n.rule2 {\n    font-size: 15px;\n}\n";
    assert_eq!(
        expected,
        get_transformed_content_new(
            input,
            Px2RemOption {
                selector_black_list: Some(vec![StringOrRegexp::String(".rule2".to_string())]),
                ..Default::default()
            }
        )
    );
}

#[test]
fn test_ignore_rule_every_selector_with_body_dollar() {
    let input = "body { font-size: 16px; } .class-body$ { font-size: 16px; } .simple-class { font-size: 16px; }";
    let expected = "body {\n    font-size: 1rem;\n}\n.class-body$ {\n    font-size: 16px;\n}\n.simple-class {\n    font-size: 1rem;\n}\n";
    assert_eq!(
        expected,
        get_transformed_content_new(
            input,
            Px2RemOption {
                selector_black_list: Some(vec![StringOrRegexp::String("body$".to_string())]),
                ..Default::default()
            }
        )
    );
}

#[test]
fn test_ignore_rule_regex_body() {
    let input = "body { font-size: 16px; } .class-body { font-size: 16px; } .simple-class { font-size: 16px; }";
    let expected = "body {\n    font-size: 16px;\n}\n.class-body {\n    font-size: 1rem;\n}\n.simple-class {\n    font-size: 1rem;\n}\n";
    assert_eq!(
        expected,
        get_transformed_content_new(
            input,
            Px2RemOption {
                selector_black_list: Some(vec![StringOrRegexp::Regexp("^body$".to_string())]),
                ..Default::default()
            }
        )
    );
}

#[test]
fn test_replace_px_in_media_query() {
    let input = "@media (min-width: 500px) { .rule { font-size: 16px } }";
    let expected =
        "@media (min-width: 31.25rem) {\n    .rule {\n        font-size: 1rem;\n    }\n}\n";
    assert_eq!(
        expected,
        get_transformed_content_new(
            input,
            Px2RemOption { media_query: Some(true), ..Default::default() }
        )
    );
}

#[test]
fn test_not_replace_value_below_min_pixel_value() {
    let input = ".rule { border: 1px solid #000; font-size: 16px; margin: 1px 10px; }";
    let expected =
        ".rule {\n    border: 1px solid #000;\n    font-size: 1rem;\n    margin: 1px 0.625rem;\n}\n";
    assert_eq!(
        expected,
        get_transformed_content_new(
            input,
            Px2RemOption {
                min_pixel_value: Some(MinPixelValue::from_int(2)),
                prop_list: Some(vec!["*".to_string()]),
                ..Default::default()
            }
        )
    );
}

#[test]
fn nested_rule_selector_is_also_excluded() {
    let input =
        "@media (min-width: 100px) { .rule2 { font-size: 15px } .rule { font-size: 15px } }";
    let expected = "@media (min-width: 100px) {\n    .rule2 {\n        font-size: 15px;\n    }\n    .rule {\n        font-size: 0.9375rem;\n    }\n}\n";
    assert_eq!(
        expected,
        get_transformed_content_new(
            input,
            Px2RemOption {
                selector_black_list: Some(vec![StringOrRegexp::String(".rule2".to_string())]),
                ..Default::default()
            }
        )
    );
}

#[test]
fn test_exact() {
    let mut px_to_rem = Px2Rem::new(Px2RemOption {
        prop_list: Some(vec![
            "font-size".to_string(),
            "margin".to_string(),
            "!padding".to_string(),
            "*border*".to_string(),
            "*".to_string(),
            "*y".to_string(),
            "!*font*".to_string(),
        ]),
        ..Default::default()
    });
    px_to_rem.generate_match_list();
    assert_eq!(px_to_rem.match_list.exact_list.join(","), "font-size,margin");
}

#[test]
fn test_contain() {
    let mut px_to_rem = Px2Rem::new(Px2RemOption {
        prop_list: Some(vec![
            "font-size".to_string(),
            "*margin*".to_string(),
            "!padding".to_string(),
            "*border*".to_string(),
            "*".to_string(),
            "*y".to_string(),
            "!*font*".to_string(),
        ]),
        ..Default::default()
    });
    px_to_rem.generate_match_list();
    assert_eq!(px_to_rem.match_list.contain_list.join(","), "margin,border");
}

#[test]
fn test_start() {
    let mut px_to_rem = Px2Rem::new(Px2RemOption {
        prop_list: Some(vec![
            "font-size".to_string(),
            "*margin*".to_string(),
            "!padding".to_string(),
            "border*".to_string(),
            "*".to_string(),
            "*y".to_string(),
            "!*font*".to_string(),
        ]),
        ..Default::default()
    });
    px_to_rem.generate_match_list();
    assert_eq!(px_to_rem.match_list.starts_with_list.join(","), "border");
}

#[test]
fn test_end() {
    let mut px_to_rem = Px2Rem::new(Px2RemOption {
        prop_list: Some(vec![
            "font-size".to_string(),
            "*margin*".to_string(),
            "!padding".to_string(),
            "border*".to_string(),
            "*".to_string(),
            "*y".to_string(),
            "!*font*".to_string(),
        ]),
        ..Default::default()
    });
    px_to_rem.generate_match_list();
    assert_eq!(px_to_rem.match_list.ends_with_list.join(","), "y");
}

#[test]
fn test_not_exact() {
    let mut px_to_rem = Px2Rem::new(Px2RemOption {
        prop_list: Some(vec![
            "font-size".to_string(),
            "*margin*".to_string(),
            "!padding".to_string(),
            "border*".to_string(),
            "*".to_string(),
            "*y".to_string(),
            "!*font*".to_string(),
        ]),
        ..Default::default()
    });
    px_to_rem.generate_match_list();
    assert_eq!(px_to_rem.match_list.not_exact_list.join(","), "padding");
}

#[test]
fn test_not_start() {
    let mut px_to_rem = Px2Rem::new(Px2RemOption {
        prop_list: Some(vec![
            "font-size".to_string(),
            "*margin*".to_string(),
            "!padding".to_string(),
            "border*".to_string(),
            "*".to_string(),
            "*y".to_string(),
            "!*font*".to_string(),
        ]),
        ..Default::default()
    });
    px_to_rem.generate_match_list();
    assert_eq!(px_to_rem.match_list.not_contain_list.join(","), "font");
}

#[test]
fn test_not_contain() {
    let mut px_to_rem = Px2Rem::new(Px2RemOption {
        prop_list: Some(vec![
            "font-size".to_string(),
            "*margin*".to_string(),
            "!padding".to_string(),
            "border*".to_string(),
            "*".to_string(),
            "*y".to_string(),
            "!*font*".to_string(),
        ]),
        ..Default::default()
    });
    px_to_rem.generate_match_list();
    assert_eq!(px_to_rem.match_list.not_contain_list.join(","), "font");
}

#[test]
fn test_not_end() {
    let mut px_to_rem = Px2Rem::new(Px2RemOption {
        prop_list: Some(vec![
            "font-size".to_string(),
            "*margin*".to_string(),
            "!padding".to_string(),
            "!border*".to_string(),
            "*".to_string(),
            "!*y".to_string(),
            "!*font*".to_string(),
        ]),
        ..Default::default()
    });
    px_to_rem.generate_match_list();
    assert_eq!(px_to_rem.match_list.not_ends_list.join(","), "y");
}
