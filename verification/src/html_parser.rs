//! The markup parser: from a text to a document tree.
//!
//! The grammar is stated as functions on the text and a position in it,
//! which yield what stands there and the position after it; the parser is
//! proved to compute them.
use vstd::prelude::*;
use vstd::string::StringExecFns;
use crate::dom::{element, text, AttrMap, ElementView, Node, NodeTypeView, NodeView};
use crate::error::ParseError;
use crate::scanner::{
    char_at, expect_at, has_prefix_at, lemma_scan_forward, scan_while, Scanner,
};
use crate::text::CharClass;
use crate::views::views_of;

verus! {

/// The attributes that stand at `pos`, added to `attrs`, and the position
/// of the `>` that ends them. Each is a name, `=` and a value between two
/// `"` or two `'`; white space may stand before each and before the `>`.
/// Where a name occurs twice, the later value stays.
pub open spec fn attributes_at(
    s: Seq<char>,
    pos: int,
    attrs: Map<Seq<char>, Seq<char>>,
) -> Result<(Map<Seq<char>, Seq<char>>, int), ParseError>
    decreases s.len() - pos,
    via attributes_at_decreases
{
    let name = scan_while(s, pos, CharClass::Whitespace);
    let equals = scan_while(s, name, CharClass::AlphaNumeric);
    match char_at(s, name) {
        Err(e) => Err(e),
        Ok(c) => if c == '>' {
            Ok((attrs, name))
        } else {
            match expect_at(s, equals, '=') {
                Err(e) => Err(e),
                Ok(_) => match char_at(s, equals + 1) {
                    Err(e) => Err(e),
                    Ok(quote) => if quote != '"' && quote != '\'' {
                        Err(ParseError::MalformedInput)
                    } else {
                        let close = scan_while(s, equals + 2, CharClass::Except(quote));
                        match expect_at(s, close, quote) {
                            Err(e) => Err(e),
                            Ok(_) => attributes_at(
                                s,
                                close + 1,
                                attrs.insert(
                                    s.subrange(name, equals),
                                    s.subrange(equals + 2, close),
                                ),
                            ),
                        }
                    },
                },
            }
        },
    }
}

#[via_fn]
proof fn attributes_at_decreases(s: Seq<char>, pos: int, attrs: Map<Seq<char>, Seq<char>>) {
    let name = scan_while(s, pos, CharClass::Whitespace);
    let equals = scan_while(s, name, CharClass::AlphaNumeric);
    lemma_scan_forward(s, pos, CharClass::Whitespace);
    lemma_scan_forward(s, name, CharClass::AlphaNumeric);
    if let Ok(quote) = char_at(s, equals + 1) {
        lemma_scan_forward(s, equals + 2, CharClass::Except(quote));
    }
}

/// Attributes end on a `>` inside the text, at or after their start.
pub proof fn lemma_attributes_end(s: Seq<char>, pos: int, attrs: Map<Seq<char>, Seq<char>>)
    ensures
        attributes_at(s, pos, attrs) matches Ok((_, end)) ==> pos <= end < s.len() && s[end]
            == '>',
    decreases s.len() - pos,
{
    let name = scan_while(s, pos, CharClass::Whitespace);
    let equals = scan_while(s, name, CharClass::AlphaNumeric);
    lemma_scan_forward(s, pos, CharClass::Whitespace);
    lemma_scan_forward(s, name, CharClass::AlphaNumeric);
    if let Ok(quote) = char_at(s, equals + 1) {
        let close = scan_while(s, equals + 2, CharClass::Except(quote));
        lemma_scan_forward(s, equals + 2, CharClass::Except(quote));
        if char_at(s, name) is Ok && char_at(s, name) != Ok::<char, ParseError>('>') && expect_at(
            s,
            equals,
            '=',
        ) is Ok && (quote == '"' || quote == '\'') && expect_at(s, close, quote) is Ok {
            lemma_attributes_end(
                s,
                close + 1,
                attrs.insert(s.subrange(name, equals), s.subrange(equals + 2, close)),
            );
        }
    }
}

/// The text node that stands at `pos`: everything up to the next `<`.
pub open spec fn text_at(s: Seq<char>, pos: int) -> (NodeView, int) {
    let end = scan_while(s, pos, CharClass::Except('<'));
    (
        NodeView { children: Seq::empty(), node_type: NodeTypeView::Text(s.subrange(pos, end)) },
        end,
    )
}

/// The element that stands at `pos`, and the position after its closing
/// tag: `<`, a name of one or more letters and digits, attributes, `>`,
/// the children, and `</`, the same name, `>`.
pub open spec fn element_at(s: Seq<char>, pos: int) -> Result<(NodeView, int), ParseError>
    decreases s.len() - pos, 0nat,
    via element_at_decreases
{
    let name_end = scan_while(s, pos + 1, CharClass::AlphaNumeric);
    let tag_name = s.subrange(pos + 1, name_end);
    match expect_at(s, pos, '<') {
        Err(e) => Err(e),
        Ok(_) => if tag_name.len() == 0 {
            match char_at(s, pos + 1) {
                Err(e) => Err(e),
                Ok(_) => Err(ParseError::MalformedInput),
            }
        } else {
            match attributes_at(s, name_end, Map::empty()) {
                Err(e) => Err(e),
                Ok((attributes, open_end)) => match expect_at(s, open_end, '>') {
                    Err(e) => Err(e),
                    Ok(_) => match nodes_at(s, open_end + 1, Seq::empty()) {
                        Err(e) => Err(e),
                        Ok((children, close)) => {
                            let close_end = scan_while(s, close + 2, CharClass::AlphaNumeric);
                            match expect_at(s, close, '<') {
                                Err(e) => Err(e),
                                Ok(_) => match expect_at(s, close + 1, '/') {
                                    Err(e) => Err(e),
                                    Ok(_) => if s.subrange(close + 2, close_end) != tag_name {
                                        Err(ParseError::MalformedInput)
                                    } else {
                                        match expect_at(s, close_end, '>') {
                                            Err(e) => Err(e),
                                            Ok(_) => Ok(
                                                (
                                                    NodeView {
                                                        children,
                                                        node_type: NodeTypeView::Element(
                                                            ElementView { tag_name, attributes },
                                                        ),
                                                    },
                                                    close_end + 1,
                                                ),
                                            ),
                                        }
                                    },
                                },
                            }
                        },
                    },
                },
            }
        },
    }
}

/// The node that stands at `pos`: an element where a `<` stands, a text
/// node otherwise.
pub open spec fn node_at(s: Seq<char>, pos: int) -> Result<(NodeView, int), ParseError>
    decreases s.len() - pos, 1nat,
{
    if char_at(s, pos) == Ok::<char, ParseError>('<') {
        element_at(s, pos)
    } else {
        Ok(text_at(s, pos))
    }
}

/// The nodes that stand at `pos`, added to `nodes`, up to the end of the
/// text or the next `</`, and the position where they end. White space
/// before each node is skipped. (A node always ends after its start and
/// inside the text; the test on it keeps the definition well-founded.)
pub open spec fn nodes_at(s: Seq<char>, pos: int, nodes: Seq<NodeView>) -> Result<
    (Seq<NodeView>, int),
    ParseError,
>
    decreases s.len() - pos, 2nat,
    via nodes_at_decreases
{
    let start = scan_while(s, pos, CharClass::Whitespace);
    if start >= s.len() || has_prefix_at(s, start, "</"@) {
        Ok((nodes, start))
    } else {
        match node_at(s, start) {
            Err(e) => Err(e),
            Ok((node, end)) => if start < end <= s.len() {
                nodes_at(s, end, nodes.push(node))
            } else {
                Err(ParseError::MalformedInput)
            },
        }
    }
}

#[via_fn]
proof fn element_at_decreases(s: Seq<char>, pos: int) {
    let name_end = scan_while(s, pos + 1, CharClass::AlphaNumeric);
    lemma_scan_forward(s, pos + 1, CharClass::AlphaNumeric);
    lemma_attributes_end(s, name_end, Map::empty());
}

#[via_fn]
proof fn nodes_at_decreases(s: Seq<char>, pos: int, nodes: Seq<NodeView>) {
    lemma_scan_forward(s, pos, CharClass::Whitespace);
}

/// The top-level nodes of a text. The whole text has to be read: a `</`
/// that closes nothing is malformed.
pub open spec fn top_level_nodes(s: Seq<char>) -> Result<Seq<NodeView>, ParseError> {
    match nodes_at(s, 0, Seq::empty()) {
        Err(e) => Err(e),
        Ok((nodes, end)) => if end < s.len() {
            Err(ParseError::MalformedInput)
        } else {
            Ok(nodes)
        },
    }
}

/// The document that a text holds: its one top-level node, or, where it
/// holds none or several, an element `html` without attributes around
/// them.
pub open spec fn document(s: Seq<char>) -> Result<NodeView, ParseError> {
    match top_level_nodes(s) {
        Err(e) => Err(e),
        Ok(nodes) => if nodes.len() == 1 {
            Ok(nodes[0])
        } else {
            Ok(
                NodeView {
                    children: nodes,
                    node_type: NodeTypeView::Element(
                        ElementView { tag_name: "html"@, attributes: Map::empty() },
                    ),
                },
            )
        },
    }
}

/// A node list ends inside the text, at or after its start.
pub proof fn lemma_nodes_end(s: Seq<char>, pos: int, nodes: Seq<NodeView>)
    requires
        0 <= pos <= s.len(),
    ensures
        nodes_at(s, pos, nodes) matches Ok((_, end)) ==> pos <= end <= s.len(),
    decreases s.len() - pos,
{
    let start = scan_while(s, pos, CharClass::Whitespace);
    lemma_scan_forward(s, pos, CharClass::Whitespace);
    if !(start >= s.len() || has_prefix_at(s, start, "</"@)) {
        if let Ok((node, end)) = node_at(s, start) {
            if start < end <= s.len() {
                lemma_nodes_end(s, end, nodes.push(node));
            }
        }
    }
}

/// A node ends inside the text and after its start.
pub proof fn lemma_node_end(s: Seq<char>, pos: int)
    requires
        0 <= pos < s.len(),
    ensures
        node_at(s, pos) matches Ok((_, end)) ==> pos < end <= s.len(),
{
    if s[pos] == '<' {
        let name_end = scan_while(s, pos + 1, CharClass::AlphaNumeric);
        lemma_scan_forward(s, pos + 1, CharClass::AlphaNumeric);
        lemma_attributes_end(s, name_end, Map::empty());
        if let Ok((_, open_end)) = attributes_at(s, name_end, Map::empty()) {
            lemma_nodes_end(s, open_end + 1, Seq::empty());
            if let Ok((_, close)) = nodes_at(s, open_end + 1, Seq::empty()) {
                lemma_scan_forward(s, close + 2, CharClass::AlphaNumeric);
            }
        }
    } else {
        assert(CharClass::Except('<').contains(s[pos]));
        lemma_scan_forward(s, pos + 1, CharClass::Except('<'));
    }
}

fn parse_text(sc: &mut Scanner) -> (node: Node)
    requires
        0 <= old(sc).position() <= old(sc).source().len(),
    ensures
        final(sc).source() == old(sc).source(),
        old(sc).position() <= final(sc).position() <= final(sc).source().len(),
        (node@, final(sc).position()) == text_at(old(sc).source(), old(sc).position()),
{
    text(sc.consume_while(CharClass::Except('<')))
}

fn parse_attrs(sc: &mut Scanner) -> (r: Result<AttrMap, ParseError>)
    requires
        0 <= old(sc).position() <= old(sc).source().len(),
    ensures
        final(sc).source() == old(sc).source(),
        old(sc).position() <= final(sc).position() <= final(sc).source().len(),
        match attributes_at(old(sc).source(), old(sc).position(), Map::empty()) {
            Ok((attrs, end)) => r is Ok && r.unwrap()@ == attrs && final(sc).position() == end,
            Err(e) => r == Err::<AttrMap, ParseError>(e),
        },
{
    let ghost s = sc.source();
    let ghost start = sc.position();
    let mut attrs = AttrMap::new();
    loop
        invariant_except_break
            attributes_at(s, start, Map::empty()) == attributes_at(s, sc.position(), attrs@),
        invariant
            sc.source() == s,
            s == old(sc).source(),
            start == old(sc).position(),
            0 <= start <= sc.position() <= s.len(),
        ensures
            attributes_at(s, start, Map::empty()) == Ok::<
                (Map<Seq<char>, Seq<char>>, int),
                ParseError,
            >((attrs@, sc.position())),
        decreases s.len() - sc.position(),
    {
        sc.consume_whitespace();
        if sc.next_char()? == '>' {
            break ;
        }
        let name = sc.consume_while(CharClass::AlphaNumeric);
        sc.expect('=')?;
        let quote = sc.consume_char()?;
        if quote != '"' && quote != '\'' {
            return Err(ParseError::MalformedInput);
        }
        let value = sc.consume_while(CharClass::Except(quote));
        sc.expect(quote)?;
        attrs.insert(name, value);
    }
    Ok(attrs)
}

fn parse_element(sc: &mut Scanner) -> (r: Result<Node, ParseError>)
    requires
        0 <= old(sc).position() <= old(sc).source().len(),
    ensures
        final(sc).source() == old(sc).source(),
        old(sc).position() <= final(sc).position() <= final(sc).source().len(),
        match element_at(old(sc).source(), old(sc).position()) {
            Ok((node, end)) => r is Ok && r.unwrap()@ == node && final(sc).position() == end,
            Err(e) => r == Err::<Node, ParseError>(e),
        },
    decreases old(sc).source().len() - old(sc).position(), 0nat,
{
    sc.expect('<')?;
    let tag_name = sc.consume_while(CharClass::AlphaNumeric);
    if tag_name.as_str().is_empty() {
        sc.next_char()?;
        return Err(ParseError::MalformedInput);
    }
    let attrs = parse_attrs(sc)?;
    sc.expect('>')?;
    let children = parse_node_sequence(sc)?;
    sc.expect('<')?;
    sc.expect('/')?;
    let closing = sc.consume_while(CharClass::AlphaNumeric);
    if closing != tag_name {
        return Err(ParseError::MalformedInput);
    }
    sc.expect('>')?;
    Ok(element(tag_name, attrs, children))
}

fn parse_node(sc: &mut Scanner) -> (r: Result<Node, ParseError>)
    requires
        0 <= old(sc).position() < old(sc).source().len(),
    ensures
        final(sc).source() == old(sc).source(),
        old(sc).position() <= final(sc).position() <= final(sc).source().len(),
        match node_at(old(sc).source(), old(sc).position()) {
            Ok((node, end)) => r is Ok && r.unwrap()@ == node && final(sc).position() == end,
            Err(e) => r == Err::<Node, ParseError>(e),
        },
    decreases old(sc).source().len() - old(sc).position(), 1nat,
{
    match sc.next_char() {
        Ok('<') => parse_element(sc),
        _ => Ok(parse_text(sc)),
    }
}

fn parse_node_sequence(sc: &mut Scanner) -> (r: Result<Vec<Node>, ParseError>)
    requires
        0 <= old(sc).position() <= old(sc).source().len(),
    ensures
        final(sc).source() == old(sc).source(),
        old(sc).position() <= final(sc).position() <= final(sc).source().len(),
        match nodes_at(old(sc).source(), old(sc).position(), Seq::empty()) {
            Ok((nodes, end)) => r is Ok && views_of(r.unwrap()@) == nodes && final(sc).position()
                == end,
            Err(e) => r == Err::<Vec<Node>, ParseError>(e),
        },
    decreases old(sc).source().len() - old(sc).position(), 2nat,
{
    let ghost s = sc.source();
    let ghost start = sc.position();
    let mut nodes: Vec<Node> = Vec::new();
    assert(views_of(nodes@) =~= Seq::empty());
    loop
        invariant_except_break
            nodes_at(s, start, Seq::empty()) == nodes_at(s, sc.position(), views_of(nodes@)),
        invariant
            sc.source() == s,
            s == old(sc).source(),
            start == old(sc).position(),
            0 <= start <= sc.position() <= s.len(),
        ensures
            nodes_at(s, start, Seq::empty()) == Ok::<(Seq<NodeView>, int), ParseError>(
                (views_of(nodes@), sc.position()),
            ),
        decreases s.len() - sc.position(),
    {
        sc.consume_whitespace();
        if sc.eof() || sc.starts_with("</") {
            break ;
        }
        proof {
            lemma_node_end(s, sc.position());
        }
        let ghost before = views_of(nodes@);
        let node = parse_node(sc)?;
        nodes.push(node);
        assert(views_of(nodes@) =~= before.push(node@));
    }
    Ok(nodes)
}

/// Parses a document. The result is the one top-level node of `input`, or
/// an element `html` around its top-level nodes where there are none or
/// several; a text that breaks the grammar is rejected with the first
/// violation, and nothing of it is returned.
pub fn parse(input: String) -> (r: Result<Node, ParseError>)
    ensures
        match document(input@) {
            Ok(root) => r is Ok && r.unwrap()@ == root,
            Err(e) => r == Err::<Node, ParseError>(e),
        },
{
    let mut sc = Scanner::new(input.as_str());
    let mut nodes = parse_node_sequence(&mut sc)?;
    if !sc.eof() {
        return Err(ParseError::MalformedInput);
    }
    if nodes.len() == 1 {
        Ok(nodes.remove(0))
    } else {
        Ok(element(String::from_str("html"), AttrMap::new(), nodes))
    }
}

} // verus!
