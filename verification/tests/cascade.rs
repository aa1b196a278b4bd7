use rust_browser::css_parser::{self, CSSValue, Color, Stylesheet, Unit};
use rust_browser::dom::{Node, NodeType};
use rust_browser::html_parser;
use rust_browser::style::{build_style_tree, StyledNode};

fn dom(src: &str) -> Node {
    html_parser::parse(src.to_string()).unwrap()
}

fn sheet(src: &str) -> Stylesheet {
    css_parser::parse(src.to_string()).unwrap()
}

fn show(value: Option<&CSSValue>) -> String {
    match value {
        None => "-".to_string(),
        Some(CSSValue::Keyword(word)) => word.clone(),
        Some(CSSValue::Length(number, Unit::Px)) => format!("{}px", number.as_str()),
        Some(CSSValue::ColorVal(Color { r, g, b, a })) => format!("rgba({},{},{},{})", r, g, b, a),
    }
}

fn value_of(styled: &StyledNode, name: &str) -> String {
    show(styled.css_values.get(name))
}

#[test]
fn heavier_rule_wins_whatever_the_source_order() {
    let root = dom("<p class='c'></p>");
    let first = sheet("p{color:red;} .c{color:blue;}");
    let styled = build_style_tree(&root, &first);
    assert_eq!(value_of(&styled, "color"), "blue");
    assert_eq!(styled.css_values.len(), 1);
    let second = sheet(".c{color:blue;} p{color:red;}");
    let styled = build_style_tree(&root, &second);
    assert_eq!(value_of(&styled, "color"), "blue");
    assert_eq!(styled.css_values.len(), 1);
}

#[test]
fn of_equal_rules_the_later_wins() {
    let root = dom("<p class='c d'></p>");
    let styled_sheet = sheet(".c{color:red;} .d{color:blue;}");
    assert_eq!(value_of(&build_style_tree(&root, &styled_sheet), "color"), "blue");
    let styled_sheet = sheet(".d{color:blue;} .c{color:red;}");
    assert_eq!(value_of(&build_style_tree(&root, &styled_sheet), "color"), "red");
    let styled_sheet = sheet("p{color:red;} p{color:blue;} p{color:green;}");
    assert_eq!(value_of(&build_style_tree(&root, &styled_sheet), "color"), "green");
}

#[test]
fn within_a_rule_the_later_declaration_wins() {
    let root = dom("<p></p>");
    let styled_sheet = sheet("p{color:red; color:blue;}");
    assert_eq!(value_of(&build_style_tree(&root, &styled_sheet), "color"), "blue");
}

#[test]
fn id_beats_classes_beat_tag() {
    let root = dom("<p id='i' class='a b c'></p>");
    let styled_sheet = sheet("#i{k:id;} .a.b.c{k:classes;} p.a{k:one;} p{k:tag;} *{k:any;}");
    assert_eq!(value_of(&build_style_tree(&root, &styled_sheet), "k"), "id");
    let styled_sheet = sheet(".a.b.c{k:three;} p.a.b{k:two;} p{k:tag;}");
    assert_eq!(value_of(&build_style_tree(&root, &styled_sheet), "k"), "three");
    let styled_sheet = sheet(".a.b{k:two;} p.a{k:one;} .c{k:last;}");
    assert_eq!(value_of(&build_style_tree(&root, &styled_sheet), "k"), "two");
}

#[test]
fn properties_are_resolved_one_by_one() {
    let root = dom("<p id='i' class='c'></p>");
    let styled_sheet =
        sheet("p{a:1px; b:2px; c:3px;} .c{b:20px; d:#010203;} #i{c:300px;} div{e:none;}");
    let styled = build_style_tree(&root, &styled_sheet);
    assert_eq!(styled.css_values.len(), 4);
    assert_eq!(value_of(&styled, "a"), "1px");
    assert_eq!(value_of(&styled, "b"), "20px");
    assert_eq!(value_of(&styled, "c"), "300px");
    assert_eq!(value_of(&styled, "d"), "rgba(1,2,3,255)");
    assert_eq!(value_of(&styled, "e"), "-");
}

#[test]
fn selector_parts_all_have_to_hold() {
    let styled_sheet = sheet("p#i.c{k:v;}");
    for (src, expected) in [
        ("<p id='i' class='c'></p>", "v"),
        ("<p id='i' class='b c d'></p>", "v"),
        ("<div id='i' class='c'></div>", "-"),
        ("<p id='j' class='c'></p>", "-"),
        ("<p class='c'></p>", "-"),
        ("<p id='i' class='cc'></p>", "-"),
        ("<p id='i'></p>", "-"),
    ] {
        let root = dom(src);
        assert_eq!(value_of(&build_style_tree(&root, &styled_sheet), "k"), expected, "{}", src);
    }
}

#[test]
fn a_rule_applies_if_one_of_its_selectors_matches() {
    let styled_sheet = sheet("h1, .x, #y {k:v;}");
    for (src, expected) in [
        ("<h1></h1>", "v"),
        ("<p class='x'></p>", "v"),
        ("<p id='y'></p>", "v"),
        ("<p id='x' class='y'></p>", "-"),
    ] {
        let root = dom(src);
        assert_eq!(value_of(&build_style_tree(&root, &styled_sheet), "k"), expected, "{}", src);
    }
}

#[test]
fn a_rule_applies_with_the_weight_of_its_heaviest_matching_selector() {
    let root = dom("<p id='y'></p>");
    let styled_sheet = sheet("p, #y {k:first;} .c, p {k:second;}");
    assert_eq!(value_of(&build_style_tree(&root, &styled_sheet), "k"), "first");
    let root = dom("<p></p>");
    assert_eq!(value_of(&build_style_tree(&root, &styled_sheet), "k"), "second");
}

#[test]
fn styled_tree_has_the_shape_of_the_document() {
    let root = dom("<a><b>x</b><c><d></d></c>y</a>");
    let styled_sheet = sheet("b{k:v;} d{k:w;}");
    let styled = build_style_tree(&root, &styled_sheet);
    assert!(std::ptr::eq(styled.node, &root));
    assert_eq!(styled.children.len(), 3);
    assert!(std::ptr::eq(styled.children[0].node, &root.children[0]));
    assert_eq!(value_of(&styled, "k"), "-");
    assert_eq!(value_of(&styled.children[0], "k"), "v");
    assert_eq!(styled.children[0].children.len(), 1);
    assert_eq!(styled.children[1].children.len(), 1);
    assert_eq!(value_of(&styled.children[1].children[0], "k"), "w");
    assert!(std::ptr::eq(styled.children[1].children[0].node, &root.children[1].children[0]));
    assert_eq!(styled.children[2].children.len(), 0);
}

#[test]
fn text_nodes_have_no_properties() {
    let root = dom("<p>text</p>");
    let styled_sheet = sheet("*{k:v;} p{l:w;}");
    let styled = build_style_tree(&root, &styled_sheet);
    assert_eq!(styled.css_values.len(), 2);
    let child = &styled.children[0];
    assert!(matches!(child.node.node_type, NodeType::Text(_)));
    assert_eq!(child.css_values.len(), 0);
    let lone = dom("text");
    assert_eq!(build_style_tree(&lone, &styled_sheet).css_values.len(), 0);
}

#[test]
fn building_twice_gives_the_same_tree() {
    let root = dom("<div id='m' class='a b'><p class='a'>x</p><p>y<b class='b'>z</b></p></div>");
    let styled_sheet =
        sheet("div{w:1px;} .a{c:#ff0000; w:2px;} p{c:#00ff00;} #m{w:3px;} .b{d:inline;} b{d:block;}");
    let once = format!("{:?}", build_style_tree(&root, &styled_sheet));
    let twice = format!("{:?}", build_style_tree(&root, &styled_sheet));
    assert_eq!(once, twice);
}

#[test]
fn an_empty_stylesheet_specifies_nothing() {
    let root = dom("<a><b></b></a>");
    let empty = sheet("");
    let styled = build_style_tree(&root, &empty);
    assert_eq!(styled.css_values.len(), 0);
    assert_eq!(styled.children[0].css_values.len(), 0);
}
