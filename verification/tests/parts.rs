use rust_browser::error::ParseError;
use rust_browser::scanner::Scanner;
use rust_browser::css_parser::{Selector, SimpleSelector};
use rust_browser::specificity::{stable_sort, stands_before, weighs_more};
use rust_browser::string_map::StringMap;
use rust_browser::text::{chars_of, string_of, whitespace, CharClass};

fn tag(name: &str) -> Selector {
    Selector::Simple(SimpleSelector { tag: Some(name.to_string()), id: None, class: vec![] })
}

fn class(name: &str) -> Selector {
    Selector::Simple(SimpleSelector { tag: None, id: None, class: vec![name.to_string()] })
}

fn id(name: &str) -> Selector {
    Selector::Simple(SimpleSelector { tag: None, id: Some(name.to_string()), class: vec![] })
}

fn any() -> Selector {
    Selector::Simple(SimpleSelector { tag: None, id: None, class: vec![] })
}

fn names(items: &[Selector]) -> Vec<String> {
    items
        .iter()
        .map(|s| match s {
            Selector::Simple(s) => s
                .id
                .clone()
                .or(s.tag.clone())
                .or(s.class.first().cloned())
                .unwrap_or("*".to_string()),
        })
        .collect()
}

#[test]
fn weights_compare_part_by_part() {
    assert!(weighs_more((1, 0, 0), (0, 9, 9)));
    assert!(weighs_more((0, 1, 0), (0, 0, 1)));
    assert!(weighs_more((0, 2, 0), (0, 1, 1)));
    assert!(weighs_more((1, 1, 1), (1, 1, 0)));
    assert!(!weighs_more((1, 1, 1), (1, 1, 1)));
    assert!(!weighs_more((0, 9, 9), (1, 0, 0)));
    assert!(!weighs_more((0, 0, 0), (0, 0, 0)));
}

#[test]
fn standing_before_follows_the_direction() {
    assert!(stands_before((1, 0, 0), (0, 1, 0), true));
    assert!(!stands_before((1, 0, 0), (0, 1, 0), false));
    assert!(stands_before((0, 0, 1), (0, 1, 0), false));
    assert!(!stands_before((0, 1, 0), (0, 1, 0), true));
    assert!(!stands_before((0, 1, 0), (0, 1, 0), false));
}

#[test]
fn sort_ascending_is_stable() {
    let mut items = vec![class("a"), tag("b"), id("c"), class("d"), tag("e"), any()];
    stable_sort(&mut items, false);
    assert_eq!(names(&items), vec!["*", "b", "e", "a", "d", "c"]);
}

#[test]
fn sort_descending_is_stable() {
    let mut items = vec![class("a"), tag("b"), id("c"), class("d"), tag("e"), any()];
    stable_sort(&mut items, true);
    assert_eq!(names(&items), vec!["c", "a", "d", "b", "e", "*"]);
}

#[test]
fn sort_of_nothing_and_of_one() {
    let mut items: Vec<Selector> = vec![];
    stable_sort(&mut items, false);
    assert!(items.is_empty());
    let mut items = vec![id("x")];
    stable_sort(&mut items, true);
    assert_eq!(names(&items), vec!["x"]);
}

#[test]
fn sort_of_sorted_and_of_reversed() {
    let mut items = vec![any(), tag("t"), class("k"), id("i")];
    stable_sort(&mut items, false);
    assert_eq!(names(&items), vec!["*", "t", "k", "i"]);
    stable_sort(&mut items, true);
    assert_eq!(names(&items), vec!["i", "k", "t", "*"]);
}

#[test]
fn map_holds_each_key_once() {
    let mut map: StringMap<String> = StringMap::new();
    assert_eq!(map.len(), 0);
    assert_eq!(map.get("a"), None);
    map.insert("a".to_string(), "1".to_string());
    map.insert("b".to_string(), "2".to_string());
    map.insert("a".to_string(), "3".to_string());
    assert_eq!(map.len(), 2);
    assert_eq!(map.get("a"), Some(&"3".to_string()));
    assert_eq!(map.get("b"), Some(&"2".to_string()));
    assert_eq!(map.get("c"), None);
    assert_eq!(map.get(""), None);
    map.insert("".to_string(), "4".to_string());
    assert_eq!(map.get(""), Some(&"4".to_string()));
    assert_eq!(map.len(), 3);
}

#[test]
fn characters_and_strings_convert() {
    assert_eq!(chars_of("aé<"), vec!['a', 'é', '<']);
    assert_eq!(chars_of(""), Vec::<char>::new());
    let v = vec!['h', 'e', 'l', 'l', 'o'];
    assert_eq!(string_of(&v, 1, 4), "ell");
    assert_eq!(string_of(&v, 0, 5), "hello");
    assert_eq!(string_of(&v, 2, 2), "");
}

#[test]
fn white_space_is_unicode_white_space() {
    for n in 0u32..0x11_0000 {
        if let Some(c) = char::from_u32(n) {
            assert_eq!(whitespace(c), c.is_whitespace(), "{:x}", n);
        }
    }
}

#[test]
fn character_classes() {
    assert!(CharClass::Whitespace.holds('\t') && !CharClass::Whitespace.holds('x'));
    assert!(CharClass::Visible.holds('x') && !CharClass::Visible.holds(' '));
    assert!(CharClass::AlphaNumeric.holds('q') && CharClass::AlphaNumeric.holds('7'));
    assert!(!CharClass::AlphaNumeric.holds('-') && !CharClass::AlphaNumeric.holds('é'));
    assert!(CharClass::Identifier.holds('-') && CharClass::Identifier.holds('_'));
    assert!(!CharClass::Identifier.holds('.'));
    assert!(CharClass::Numeric.holds('.') && CharClass::Numeric.holds('0'));
    assert!(!CharClass::Numeric.holds('a'));
    assert!(CharClass::Except('<').holds('>') && !CharClass::Except('<').holds('<'));
}

#[test]
fn scanner_steps() {
    let mut sc = Scanner::new("ab  <c");
    assert!(!sc.eof());
    assert_eq!(sc.next_char(), Ok('a'));
    assert_eq!(sc.consume_char(), Ok('a'));
    assert_eq!(sc.expect('b'), Ok(()));
    assert!(sc.starts_with("  <"));
    assert!(!sc.starts_with("  <cd"));
    assert!(sc.starts_with(""));
    sc.consume_whitespace();
    assert_eq!(sc.expect('>'), Err(ParseError::MalformedInput));
    assert_eq!(sc.consume_while(CharClass::AlphaNumeric), "c");
    assert!(sc.eof());
    assert_eq!(sc.consume_while(CharClass::AlphaNumeric), "");
    assert_eq!(sc.next_char(), Err(ParseError::OutOfInput));
    assert_eq!(sc.consume_char(), Err(ParseError::OutOfInput));
    assert_eq!(sc.expect('x'), Err(ParseError::OutOfInput));
    assert!(sc.starts_with("") && !sc.starts_with("x"));
}

#[test]
fn scanner_reads_the_longest_run() {
    let mut sc = Scanner::new("abc123-x");
    assert_eq!(sc.consume_while(CharClass::AlphaNumeric), "abc123");
    assert_eq!(sc.consume_while(CharClass::AlphaNumeric), "");
    assert_eq!(sc.consume_while(CharClass::Identifier), "-x");
    let mut sc = Scanner::new("it's");
    assert_eq!(sc.consume_while(CharClass::Except('\'')), "it");
}
