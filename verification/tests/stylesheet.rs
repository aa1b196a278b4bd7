use rust_browser::css_parser::{
    parse, valid_identifier_char, CSSValue, Color, Decimal, Rule, Selector, SimpleSelector,
    Stylesheet, Unit,
};
use rust_browser::error::ParseError;

fn parsed(src: &str) -> Stylesheet {
    match parse(src.to_string()) {
        Ok(sheet) => sheet,
        Err(e) => panic!("{:?} for {:?}", e, src),
    }
}

fn rejected(src: &str) -> ParseError {
    match parse(src.to_string()) {
        Ok(sheet) => panic!("{:?} for {:?}", sheet, src),
        Err(e) => e,
    }
}

fn simple(rule: &Rule, k: usize) -> &SimpleSelector {
    match &rule.selectors[k] {
        Selector::Simple(s) => s,
    }
}

fn some(s: &str) -> Option<String> {
    Some(s.to_string())
}

fn length_text(value: &CSSValue) -> &str {
    match value {
        CSSValue::Length(number, Unit::Px) => number.as_str(),
        other => panic!("{:?}", other),
    }
}

fn keyword(value: &CSSValue) -> &str {
    match value {
        CSSValue::Keyword(word) => word.as_str(),
        other => panic!("{:?}", other),
    }
}

fn color(value: &CSSValue) -> Color {
    match value {
        CSSValue::ColorVal(c) => *c,
        other => panic!("{:?}", other),
    }
}

#[test]
fn one_rule_one_selector_one_declaration() {
    let sheet = parsed("a { color: #ff0000; }");
    assert_eq!(sheet.rules.len(), 1);
    let rule = &sheet.rules[0];
    assert_eq!(rule.selectors.len(), 1);
    assert_eq!(simple(rule, 0).tag, some("a"));
    assert_eq!(simple(rule, 0).id, None);
    assert!(simple(rule, 0).class.is_empty());
    assert_eq!(rule.declarations.len(), 1);
    assert_eq!(rule.declarations[0].name, "color");
    assert_eq!(color(&rule.declarations[0].value), Color { r: 255, g: 0, b: 0, a: 255 });
}

#[test]
fn id_outranks_class_outranks_tag() {
    let sheet = parsed("#x{}.y{}z{}");
    assert_eq!(sheet.rules.len(), 3);
    let weights: Vec<(usize, usize, usize)> =
        sheet.rules.iter().map(|r| r.selectors[0].specificity()).collect();
    assert_eq!(weights, vec![(1, 0, 0), (0, 1, 0), (0, 0, 1)]);
    assert!(weights[0] > weights[1] && weights[1] > weights[2]);
    let mut sorted = vec![weights[2], weights[0], weights[1]];
    sorted.sort_by(|a, b| b.cmp(a));
    assert_eq!(sorted, weights);
    assert_eq!(simple(&sheet.rules[0], 0).id, some("x"));
    assert_eq!(simple(&sheet.rules[1], 0).class, vec!["y".to_string()]);
    assert_eq!(simple(&sheet.rules[2], 0).tag, some("z"));
    assert!(sheet.rules.iter().all(|r| r.declarations.is_empty()));
}

#[test]
fn specificity_counts_id_classes_tag() {
    let sheet = parsed("div#main.a.b.c, * , .x#y {}");
    let rule = &sheet.rules[0];
    let weights: Vec<(usize, usize, usize)> =
        rule.selectors.iter().map(|s| s.specificity()).collect();
    assert_eq!(weights, vec![(1, 3, 1), (1, 1, 0), (0, 0, 0)]);
}

#[test]
fn selectors_are_kept_heaviest_first_and_equal_ones_in_source_order() {
    let sheet = parsed("a, .k1, b, #i1, .k2, c.k3, #i2 { }");
    let rule = &sheet.rules[0];
    let seen: Vec<(Option<String>, Option<String>, Vec<String>)> = (0..rule.selectors.len())
        .map(|k| {
            let s = simple(rule, k);
            (s.tag.clone(), s.id.clone(), s.class.clone())
        })
        .collect();
    assert_eq!(
        seen,
        vec![
            (None, some("i1"), vec![]),
            (None, some("i2"), vec![]),
            (some("c"), None, vec!["k3".to_string()]),
            (None, None, vec!["k1".to_string()]),
            (None, None, vec!["k2".to_string()]),
            (some("a"), None, vec![]),
            (some("b"), None, vec![]),
        ]
    );
}

#[test]
fn selector_parts_in_any_order() {
    let sheet = parsed(".a#b*c.d {}");
    let s = simple(&sheet.rules[0], 0);
    assert_eq!(s.tag, some("c"));
    assert_eq!(s.id, some("b"));
    assert_eq!(s.class, vec!["a".to_string(), "d".to_string()]);
    let sheet = parsed("#a#b {}");
    assert_eq!(simple(&sheet.rules[0], 0).id, some("b"));
}

#[test]
fn universal_selector_asks_for_nothing() {
    let sheet = parsed("* { margin: 0px; }");
    let s = simple(&sheet.rules[0], 0);
    assert_eq!((s.tag.clone(), s.id.clone(), s.class.len()), (None, None, 0));
    assert_eq!(sheet.rules[0].selectors[0].specificity(), (0, 0, 0));
    let sheet = parsed("{}");
    assert_eq!(sheet.rules[0].selectors.len(), 1);
    assert_eq!(sheet.rules[0].selectors[0].specificity(), (0, 0, 0));
}

#[test]
fn values_of_each_kind() {
    let sheet = parsed("p { width: 12.5px; height:7px ; display : block; background-color: #0a1B2c; }");
    let d = &sheet.rules[0].declarations;
    assert_eq!(d.len(), 4);
    assert_eq!(d[0].name, "width");
    assert_eq!(length_text(&d[0].value), "12.5");
    assert_eq!(d[1].name, "height");
    assert_eq!(length_text(&d[1].value), "7");
    assert_eq!(d[2].name, "display");
    assert_eq!(keyword(&d[2].value), "block");
    assert_eq!(d[3].name, "background-color");
    assert_eq!(color(&d[3].value), Color { r: 10, g: 27, b: 44, a: 255 });
}

#[test]
fn hex_pairs_are_bytes() {
    let sheet = parsed("a{c:#000000;d:#ffffff;e:#FFFFFF;f:#10ff9A;}");
    let d = &sheet.rules[0].declarations;
    assert_eq!(color(&d[0].value), Color { r: 0, g: 0, b: 0, a: 255 });
    assert_eq!(color(&d[1].value), Color { r: 255, g: 255, b: 255, a: 255 });
    assert_eq!(color(&d[2].value), Color { r: 255, g: 255, b: 255, a: 255 });
    assert_eq!(color(&d[3].value), Color { r: 16, g: 255, b: 154, a: 255 });
}

#[test]
fn rules_keep_source_order() {
    let sheet = parsed("\n a { x: y; }\n\n #b { x: z; }\n .c { } \n");
    assert_eq!(sheet.rules.len(), 3);
    assert_eq!(simple(&sheet.rules[0], 0).tag, some("a"));
    assert_eq!(simple(&sheet.rules[1], 0).id, some("b"));
    assert_eq!(simple(&sheet.rules[2], 0).class, vec!["c".to_string()]);
    assert_eq!(keyword(&sheet.rules[1].declarations[0].value), "z");
}

#[test]
fn an_empty_text_is_an_empty_stylesheet() {
    assert_eq!(parsed("").rules.len(), 0);
    assert_eq!(parsed("  \n\t").rules.len(), 0);
}

#[test]
fn every_rule_has_a_selector() {
    let sheet = parsed("{} a,b{} #x{}");
    assert!(sheet.rules.iter().all(|r| !r.selectors.is_empty()));
}

#[test]
fn missing_punctuation_is_malformed() {
    assert_eq!(rejected("a { color red; }"), ParseError::MalformedInput);
    assert_eq!(rejected("a { color: red }"), ParseError::MalformedInput);
    assert_eq!(rejected("a { color: red; "), ParseError::OutOfInput);
    assert_eq!(rejected("a b { }"), ParseError::MalformedInput);
    assert_eq!(rejected("a > b { }"), ParseError::MalformedInput);
    assert_eq!(rejected("a : hover { }"), ParseError::MalformedInput);
    assert_eq!(rejected("a }"), ParseError::MalformedInput);
}

#[test]
fn lengths_need_px_and_one_point_at_most() {
    assert_eq!(rejected("a { width: 12em; }"), ParseError::MalformedInput);
    assert_eq!(rejected("a { width: 12; }"), ParseError::MalformedInput);
    assert_eq!(rejected("a { width: 12p; }"), ParseError::MalformedInput);
    assert_eq!(rejected("a { width: 1.2.3px; }"), ParseError::MalformedInput);
    assert_eq!(rejected("a { width: 1..px; }"), ParseError::MalformedInput);
    assert_eq!(rejected("a { width: 12"), ParseError::OutOfInput);
    assert_eq!(rejected("a { width: 12p"), ParseError::OutOfInput);
    assert_eq!(length_text(&parsed("a { width: 1.px; }").rules[0].declarations[0].value), "1.");
    assert_eq!(rejected("a { width: .5px; }"), ParseError::MalformedInput);
}

#[test]
fn colours_need_six_hex_digits() {
    assert_eq!(rejected("a { color: #ff00; }"), ParseError::MalformedInput);
    assert_eq!(rejected("a { color: #ggffff; }"), ParseError::MalformedInput);
    assert_eq!(rejected("a { color: #+f0000; }"), ParseError::MalformedInput);
    assert_eq!(rejected("a { color: #ff"), ParseError::OutOfInput);
    assert_eq!(rejected("a { color: #fffff"), ParseError::OutOfInput);
    assert_eq!(rejected("a { color: #g"), ParseError::OutOfInput);
    assert_eq!(rejected("a { color: #ffffffff; }"), ParseError::MalformedInput);
}

#[test]
fn stylesheet_that_ends_early_is_out_of_input() {
    assert_eq!(rejected("a"), ParseError::OutOfInput);
    assert_eq!(rejected("a,"), ParseError::OutOfInput);
    assert_eq!(rejected("a {"), ParseError::OutOfInput);
    assert_eq!(rejected("a { color"), ParseError::OutOfInput);
    assert_eq!(rejected("a { color:"), ParseError::OutOfInput);
    assert_eq!(rejected("a { color: red"), ParseError::OutOfInput);
    assert_eq!(rejected("a { color: red;"), ParseError::OutOfInput);
}

#[test]
fn first_violation_in_a_stylesheet_decides() {
    assert_eq!(rejected("a { color red; } b {"), ParseError::MalformedInput);
    assert_eq!(rejected("a { } b ! { color"), ParseError::MalformedInput);
}

#[test]
fn identifier_characters() {
    for c in ['a', 'z', 'A', 'Z', '0', '9', '-', '_'] {
        assert!(valid_identifier_char(c), "{:?}", c);
    }
    for c in [' ', '.', '#', '*', '{', ':', ';', 'é', '\n'] {
        assert!(!valid_identifier_char(c), "{:?}", c);
    }
}

#[test]
fn decimal_numerals() {
    for ok in ["0", "12", "12.5", "1.", "007.250"] {
        let d = Decimal::new(ok.to_string());
        assert_eq!(d.as_ref().map(|d| d.as_str()), Some(ok));
        assert_eq!(d.unwrap().clone().as_str(), ok);
    }
    for bad in ["", ".", ".5", "1.2.3", "1..", "12px", "-1", "1e3", " 1", "١"] {
        assert!(Decimal::new(bad.to_string()).is_none(), "{:?}", bad);
    }
}

#[test]
fn cloned_values_are_the_same() {
    let sheet = parsed("a { w: 1.5px; c: #010203; k: none; }");
    let d = &sheet.rules[0].declarations;
    assert_eq!(length_text(&d[0].value.clone()), "1.5");
    assert_eq!(color(&d[1].value.clone()), Color { r: 1, g: 2, b: 3, a: 255 });
    assert_eq!(keyword(&d[2].value.clone()), "none");
}

#[test]
fn dump_of_a_stylesheet() {
    let sheet = parsed("h1,.a.b , #i ,* { margin : 1.5px; color:#0A10ff; display:block; } p#x.y{}");
    assert_eq!(
        sheet.pretty_print(),
        "*#i, *.a.b, h1, * {\n    margin: 1.5px;\n    color: #0a10ff;\n    display: block;\n}\np#x.y {\n}\n"
    );
    assert_eq!(parsed("").pretty_print(), "");
}

#[test]
fn dump_of_a_stylesheet_parses_to_the_same() {
    let src = "div.note, #main, p.x.y {a: 12.50px; b: #fe01ab; c: none;} * {d: e;}";
    let once = parsed(src).pretty_print();
    let twice = parsed(&once).pretty_print();
    assert_eq!(once, twice);
    assert_eq!(format!("{:?}", parsed(src)), format!("{:?}", parsed(&once)));
}

#[test]
fn dump_shows_alpha_where_a_colour_is_not_opaque() {
    let mut sheet = parsed("a { c: #010203; }");
    sheet.rules[0].declarations[0].value = CSSValue::ColorVal(Color { r: 1, g: 2, b: 3, a: 128 });
    assert_eq!(sheet.pretty_print(), "a {\n    c: #01020380;\n}\n");
}
