use rust_browser::dom::{element, pretty_print, text, AttrMap, ElementData, NodeType};

fn elem_with(attrs: &[(&str, &str)]) -> ElementData {
    let mut map = AttrMap::new();
    for (k, v) in attrs {
        map.insert(k.to_string(), v.to_string());
    }
    ElementData { tag_name: "div".to_string(), attributes: map }
}

fn sorted(mut list: Vec<String>) -> Vec<String> {
    list.sort();
    list
}

#[test]
fn text_node_has_no_children() {
    let node = text("hi".to_string());
    assert_eq!(node.children.len(), 0);
    assert!(matches!(&node.node_type, NodeType::Text(data) if data == "hi"));
}

#[test]
fn element_node_holds_what_it_was_given() {
    let mut attrs = AttrMap::new();
    attrs.insert("id".to_string(), "x".to_string());
    let node = element("p".to_string(), attrs, vec![text("a".to_string()), text("b".to_string())]);
    assert_eq!(node.children.len(), 2);
    assert!(matches!(&node.children[0].node_type, NodeType::Text(data) if data == "a"));
    assert!(matches!(&node.children[1].node_type, NodeType::Text(data) if data == "b"));
    match &node.node_type {
        NodeType::Element(elem) => {
            assert_eq!(elem.tag_name, "p");
            assert_eq!(elem.attributes.len(), 1);
            assert_eq!(elem.attributes.get("id"), Some(&"x".to_string()));
        }
        NodeType::Text(_) => panic!("text"),
    }
}

#[test]
fn id_is_the_id_attribute() {
    assert_eq!(elem_with(&[("id", "main"), ("class", "c")]).id(), Some(&"main".to_string()));
    assert_eq!(elem_with(&[("class", "c")]).id(), None);
    assert_eq!(elem_with(&[("id", "")]).id(), Some(&"".to_string()));
}

#[test]
fn classes_are_the_tokens_of_the_class_attribute() {
    assert_eq!(sorted(elem_with(&[("class", "a b c")]).classes()), vec!["a", "b", "c"]);
    assert_eq!(sorted(elem_with(&[("class", "one")]).classes()), vec!["one"]);
}

#[test]
fn classes_without_the_attribute_are_none() {
    assert!(elem_with(&[("id", "x")]).classes().is_empty());
    assert!(elem_with(&[]).classes().is_empty());
}

#[test]
fn classes_are_split_at_any_white_space_and_held_once() {
    assert_eq!(sorted(elem_with(&[("class", "  a \t b\n\na  ")]).classes()), vec!["a", "b"]);
    assert!(elem_with(&[("class", "")]).classes().is_empty());
    assert!(elem_with(&[("class", "   ")]).classes().is_empty());
    assert_eq!(sorted(elem_with(&[("class", "x-1 x_2")]).classes()), vec!["x-1", "x_2"]);
}

#[test]
fn dump_of_a_text_node() {
    assert_eq!(pretty_print(&text("hello".to_string())), "hello\n");
}

#[test]
fn dump_indents_by_four_spaces_a_level() {
    let leaf = element("b".to_string(), AttrMap::new(), vec![text("x".to_string())]);
    let root = element(
        "a".to_string(),
        AttrMap::new(),
        vec![leaf, text("y".to_string()), element("c".to_string(), AttrMap::new(), vec![])],
    );
    assert_eq!(
        pretty_print(&root),
        "<a>\n    <b>\n        x\n    </b>\n    y\n    <c>\n    </c>\n</a>\n"
    );
}
