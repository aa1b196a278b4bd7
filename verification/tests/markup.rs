use rust_browser::dom::{Node, NodeType};
use rust_browser::error::ParseError;
use rust_browser::html_parser::parse;

fn parsed(src: &str) -> Node {
    match parse(src.to_string()) {
        Ok(node) => node,
        Err(e) => panic!("{:?} for {:?}", e, src),
    }
}

fn rejected(src: &str) -> ParseError {
    match parse(src.to_string()) {
        Ok(node) => panic!("{:?} for {:?}", node, src),
        Err(e) => e,
    }
}

fn tag_of(node: &Node) -> &str {
    match &node.node_type {
        NodeType::Element(elem) => elem.tag_name.as_str(),
        NodeType::Text(data) => panic!("text {:?}", data),
    }
}

fn text_of(node: &Node) -> &str {
    match &node.node_type {
        NodeType::Text(data) => data.as_str(),
        NodeType::Element(elem) => panic!("element {:?}", elem),
    }
}

fn attr(node: &Node, name: &str) -> Option<String> {
    match &node.node_type {
        NodeType::Element(elem) => elem.attributes.get(name).cloned(),
        NodeType::Text(data) => panic!("text {:?}", data),
    }
}

fn attr_count(node: &Node) -> usize {
    match &node.node_type {
        NodeType::Element(elem) => elem.attributes.len(),
        NodeType::Text(data) => panic!("text {:?}", data),
    }
}

fn count_elements(node: &Node) -> usize {
    let own = match node.node_type {
        NodeType::Element(_) => 1,
        NodeType::Text(_) => 0,
    };
    own + node.children.iter().map(count_elements).sum::<usize>()
}

#[test]
fn single_element() {
    let root = parsed("<a></a>");
    assert_eq!(tag_of(&root), "a");
    assert_eq!(attr_count(&root), 0);
    assert_eq!(root.children.len(), 0);
}

#[test]
fn children_keep_their_order() {
    let root = parsed("<a><b></b><c></c></a>");
    assert_eq!(tag_of(&root), "a");
    assert_eq!(root.children.len(), 2);
    assert_eq!(tag_of(&root.children[0]), "b");
    assert_eq!(tag_of(&root.children[1]), "c");
    assert_eq!(root.children[0].children.len(), 0);
    assert_eq!(root.children[1].children.len(), 0);
}

#[test]
fn mismatched_closing_tag_is_malformed() {
    assert_eq!(rejected("<a></b>"), ParseError::MalformedInput);
    assert_eq!(rejected("<a><b></a></b>"), ParseError::MalformedInput);
    assert_eq!(rejected("<ab></a>"), ParseError::MalformedInput);
}

#[test]
fn element_count_is_number_of_opening_tags() {
    let root = parsed("<html><head><title>t</title></head><body><p>a</p><p>b<i>c</i></p></body></html>");
    assert_eq!(count_elements(&root), 7);
    let root = parsed("<a x='<b>'><c></c></a>");
    assert_eq!(count_elements(&root), 2);
}

#[test]
fn text_runs_up_to_the_next_tag() {
    let root = parsed("<p>Hello,  world !</p>");
    assert_eq!(root.children.len(), 1);
    assert_eq!(text_of(&root.children[0]), "Hello,  world !");
    assert_eq!(root.children[0].children.len(), 0);
}

#[test]
fn white_space_between_tags_is_dropped_and_inside_text_kept() {
    let root = parsed("  <a>\n\t <b> x  y </b>\n</a>\n ");
    assert_eq!(tag_of(&root), "a");
    assert_eq!(root.children.len(), 1);
    let b = &root.children[0];
    assert_eq!(tag_of(b), "b");
    assert_eq!(b.children.len(), 1);
    assert_eq!(text_of(&b.children[0]), "x  y ");
}

#[test]
fn text_and_elements_mix() {
    let root = parsed("<p>one<b>two</b>three</p>");
    assert_eq!(root.children.len(), 3);
    assert_eq!(text_of(&root.children[0]), "one");
    assert_eq!(tag_of(&root.children[1]), "b");
    assert_eq!(text_of(&root.children[1].children[0]), "two");
    assert_eq!(text_of(&root.children[2]), "three");
}

#[test]
fn attributes_with_either_quote() {
    let root = parsed("<div id=\"main\" class='a b'  title=\"it's\" ></div>");
    assert_eq!(tag_of(&root), "div");
    assert_eq!(attr_count(&root), 3);
    assert_eq!(attr(&root, "id"), Some("main".to_string()));
    assert_eq!(attr(&root, "class"), Some("a b".to_string()));
    assert_eq!(attr(&root, "title"), Some("it's".to_string()));
    assert_eq!(attr(&root, "href"), None);
}

#[test]
fn later_attribute_of_the_same_name_stays() {
    let root = parsed("<a x='1' y='2' x='3'></a>");
    assert_eq!(attr_count(&root), 2);
    assert_eq!(attr(&root, "x"), Some("3".to_string()));
    assert_eq!(attr(&root, "y"), Some("2".to_string()));
}

#[test]
fn attribute_value_may_hold_tag_characters() {
    let root = parsed("<a x='<b>'></a>");
    assert_eq!(attr(&root, "x"), Some("<b>".to_string()));
    assert_eq!(root.children.len(), 0);
}

#[test]
fn several_top_level_nodes_get_a_root() {
    let root = parsed("<a></a><b></b>");
    assert_eq!(tag_of(&root), "html");
    assert_eq!(attr_count(&root), 0);
    assert_eq!(root.children.len(), 2);
    assert_eq!(tag_of(&root.children[0]), "a");
    assert_eq!(tag_of(&root.children[1]), "b");
}

#[test]
fn no_top_level_node_gets_a_root() {
    let root = parsed("");
    assert_eq!(tag_of(&root), "html");
    assert_eq!(root.children.len(), 0);
    let root = parsed(" \n ");
    assert_eq!(tag_of(&root), "html");
    assert_eq!(root.children.len(), 0);
}

#[test]
fn a_single_text_is_the_document() {
    let root = parsed("  hello");
    assert_eq!(text_of(&root), "hello");
}

#[test]
fn tag_names_are_letters_and_digits() {
    let root = parsed("<h1>x</h1>");
    assert_eq!(tag_of(&root), "h1");
    assert_eq!(rejected("<>x</>"), ParseError::MalformedInput);
    assert_eq!(rejected("< a></a>"), ParseError::MalformedInput);
    assert_eq!(rejected("<a-b></a-b>"), ParseError::MalformedInput);
}

#[test]
fn text_that_ends_early_is_out_of_input() {
    assert_eq!(rejected("<"), ParseError::OutOfInput);
    assert_eq!(rejected("<a"), ParseError::OutOfInput);
    assert_eq!(rejected("<a>"), ParseError::OutOfInput);
    assert_eq!(rejected("<a>text"), ParseError::OutOfInput);
    assert_eq!(rejected("<a></a"), ParseError::OutOfInput);
    assert_eq!(rejected("<a x"), ParseError::OutOfInput);
    assert_eq!(rejected("<a x="), ParseError::OutOfInput);
    assert_eq!(rejected("<a x='1"), ParseError::OutOfInput);
    assert_eq!(rejected("<a><b></b>"), ParseError::OutOfInput);
}

#[test]
fn wrong_characters_are_malformed() {
    assert_eq!(rejected("<a x></a>"), ParseError::MalformedInput);
    assert_eq!(rejected("<a x=1></a>"), ParseError::MalformedInput);
    assert_eq!(rejected("<a/>"), ParseError::MalformedInput);
    assert_eq!(rejected("<a></a >"), ParseError::MalformedInput);
    assert_eq!(rejected("<a></"), ParseError::MalformedInput);
    assert_eq!(rejected("<a x=\"1'></a>"), ParseError::OutOfInput);
}

#[test]
fn closing_tag_that_closes_nothing_is_malformed() {
    assert_eq!(rejected("</a>"), ParseError::MalformedInput);
    assert_eq!(rejected("<a></a></b>"), ParseError::MalformedInput);
    assert_eq!(rejected("<a></a> </a> <b></b>"), ParseError::MalformedInput);
}

#[test]
fn first_violation_decides() {
    assert_eq!(rejected("<a x=1></b"), ParseError::MalformedInput);
    assert_eq!(rejected("<a><b x></c"), ParseError::MalformedInput);
    assert_eq!(rejected("<a><b></b></c"), ParseError::MalformedInput);
}

#[test]
fn names_beyond_ascii_end_a_tag_name() {
    assert_eq!(rejected("<é></é>"), ParseError::MalformedInput);
    let root = parsed("<p>é ü</p>");
    assert_eq!(text_of(&root.children[0]), "é ü");
}
