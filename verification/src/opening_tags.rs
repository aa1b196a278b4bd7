//! Counting the opening tags of a text, and the elements of a tree.
use vstd::prelude::*;
use crate::dom::NodeView;
use crate::html_parser::{
    attributes_at, document, element_at, lemma_attributes_end, lemma_node_end, lemma_nodes_end,
    node_at, nodes_at, text_at, top_level_nodes,
};
use crate::scanner::{has_prefix_at, lemma_scan_forward, lemma_scan_while, scan_while};
use crate::text::CharClass;

verus! {

/// Where in a markup text a character stands.
pub enum Place {
    /// Between tags.
    Content,
    /// Inside a tag, from its `<` up to its `>`.
    Tag,
    /// Inside an attribute value, between two of the given quote.
    Quoted(char),
}

/// Where the character after `s[pos]` stands, if `s[pos]` stands at
/// `place`.
pub open spec fn place_after(s: Seq<char>, pos: int, place: Place) -> Place {
    match place {
        Place::Content => if s[pos] == '<' {
            Place::Tag
        } else {
            Place::Content
        },
        Place::Tag => if s[pos] == '>' {
            Place::Content
        } else if s[pos] == '"' || s[pos] == '\'' {
            Place::Quoted(s[pos])
        } else {
            Place::Tag
        },
        Place::Quoted(quote) => if s[pos] == quote {
            Place::Tag
        } else {
            Place::Quoted(quote)
        },
    }
}

/// Whether an opening tag begins at `pos`: a `<` between tags that no `/`
/// follows.
pub open spec fn opens_tag(s: Seq<char>, pos: int, place: Place) -> bool {
    place is Content && s[pos] == '<' && !(pos + 1 < s.len() && s[pos + 1] == '/')
}

/// The number of opening tags that begin in `s[from..to]`, if `s[from]`
/// stands at `place`.
pub open spec fn tags_opened(s: Seq<char>, from: int, to: int, place: Place) -> nat
    decreases to - from,
{
    if from >= to {
        0
    } else {
        let rest = tags_opened(s, from + 1, to, place_after(s, from, place));
        if opens_tag(s, from, place) {
            rest + 1
        } else {
            rest
        }
    }
}

/// The number of opening tags in a text.
pub open spec fn opening_tags(s: Seq<char>) -> nat {
    tags_opened(s, 0, s.len() as int, Place::Content)
}

/// The number of elements in a tree.
pub open spec fn count_elements(node: NodeView) -> nat
    decreases node, 1nat,
{
    if node.node_type is Element {
        count_all(node.children) + 1
    } else {
        count_all(node.children)
    }
}

/// The number of elements in a list of trees.
pub open spec fn count_all(nodes: Seq<NodeView>) -> nat
    decreases nodes, 0nat,
{
    if nodes.len() == 0 {
        0
    } else {
        count_all(nodes.drop_last()) + count_elements(nodes.last())
    }
}

/// Whether a character leaves the place as it is and begins no tag.
pub open spec fn keeps_place(c: char, place: Place) -> bool {
    match place {
        Place::Content => c != '<',
        Place::Tag => c != '>' && c != '"' && c != '\'',
        Place::Quoted(quote) => c != quote,
    }
}

/// A run of characters that keep the place opens no tag.
proof fn lemma_run_opens_nothing(s: Seq<char>, from: int, to: int, class: CharClass, place: Place)
    requires
        0 <= from,
        scan_while(s, from, class) <= to <= s.len(),
        forall|c: char| class.contains(c) ==> keeps_place(c, place),
    ensures
        tags_opened(s, from, to, place) == tags_opened(s, scan_while(s, from, class), to, place),
    decreases s.len() - from,
{
    if from < s.len() && class.contains(s[from]) {
        lemma_scan_forward(s, from + 1, class);
        lemma_run_opens_nothing(s, from + 1, to, class, place);
    }
}

/// Attributes open no tag.
proof fn lemma_attributes_open_nothing(
    s: Seq<char>,
    pos: int,
    attrs: Map<Seq<char>, Seq<char>>,
    to: int,
)
    requires
        0 <= pos,
        attributes_at(s, pos, attrs) is Ok,
        attributes_at(s, pos, attrs).unwrap().1 <= to <= s.len(),
    ensures
        tags_opened(s, pos, to, Place::Tag) == tags_opened(
            s,
            attributes_at(s, pos, attrs).unwrap().1,
            to,
            Place::Tag,
        ),
    decreases s.len() - pos,
{
    let name = scan_while(s, pos, CharClass::Whitespace);
    let equals = scan_while(s, name, CharClass::AlphaNumeric);
    lemma_scan_forward(s, pos, CharClass::Whitespace);
    lemma_scan_forward(s, name, CharClass::AlphaNumeric);
    lemma_attributes_end(s, pos, attrs);
    if s[name] != '>' {
        let quote = s[equals + 1];
        let close = scan_while(s, equals + 2, CharClass::Except(quote));
        let next = attrs.insert(s.subrange(name, equals), s.subrange(equals + 2, close));
        lemma_scan_forward(s, equals + 2, CharClass::Except(quote));
        lemma_attributes_end(s, close + 1, next);
        lemma_attributes_open_nothing(s, close + 1, next, to);
        lemma_run_opens_nothing(s, equals + 2, to, CharClass::Except(quote), Place::Quoted(quote));
        assert(tags_opened(s, close, to, Place::Quoted(quote)) == tags_opened(
            s,
            close + 1,
            to,
            Place::Tag,
        ));
        assert(tags_opened(s, equals + 1, to, Place::Tag) == tags_opened(
            s,
            equals + 2,
            to,
            Place::Quoted(quote),
        ));
        assert(tags_opened(s, equals, to, Place::Tag) == tags_opened(
            s,
            equals + 1,
            to,
            Place::Tag,
        ));
        lemma_run_opens_nothing(s, name, to, CharClass::AlphaNumeric, Place::Tag);
    }
    lemma_run_opens_nothing(s, pos, to, CharClass::Whitespace, Place::Tag);
}

/// An element opens as many tags as it has elements.
proof fn lemma_element_opens_its_tags(s: Seq<char>, pos: int, to: int)
    requires
        0 <= pos,
        element_at(s, pos) is Ok,
        element_at(s, pos).unwrap().1 <= to <= s.len(),
    ensures
        tags_opened(s, pos, to, Place::Content) == count_elements(element_at(s, pos).unwrap().0)
            + tags_opened(s, element_at(s, pos).unwrap().1, to, Place::Content),
    decreases s.len() - pos, 0nat,
{
    let name_end = scan_while(s, pos + 1, CharClass::AlphaNumeric);
    lemma_scan_forward(s, pos + 1, CharClass::AlphaNumeric);
    lemma_scan_while(s, pos + 1, CharClass::AlphaNumeric);
    lemma_attributes_end(s, name_end, Map::empty());
    let (attributes, open_end) = attributes_at(s, name_end, Map::empty()).unwrap();
    lemma_nodes_end(s, open_end + 1, Seq::empty());
    let (children, close) = nodes_at(s, open_end + 1, Seq::empty()).unwrap();
    let close_end = scan_while(s, close + 2, CharClass::AlphaNumeric);
    lemma_scan_forward(s, close + 2, CharClass::AlphaNumeric);
    let (node, end) = element_at(s, pos).unwrap();
    assert(end == close_end + 1);
    assert(node.children == children);
    assert(node.node_type is Element);
    // the closing tag
    lemma_run_opens_nothing(s, close + 2, to, CharClass::AlphaNumeric, Place::Tag);
    assert(tags_opened(s, close_end, to, Place::Tag) == tags_opened(
        s,
        close_end + 1,
        to,
        Place::Content,
    ));
    assert(tags_opened(s, close + 1, to, Place::Tag) == tags_opened(
        s,
        close + 2,
        to,
        Place::Tag,
    ));
    assert(tags_opened(s, close, to, Place::Content) == tags_opened(
        s,
        close + 1,
        to,
        Place::Tag,
    ));
    // the children
    lemma_nodes_open_their_tags(s, open_end + 1, Seq::empty(), to);
    assert(count_all(Seq::<NodeView>::empty()) == 0);
    // the opening tag
    assert(tags_opened(s, open_end, to, Place::Tag) == tags_opened(
        s,
        open_end + 1,
        to,
        Place::Content,
    ));
    lemma_attributes_open_nothing(s, name_end, Map::empty(), to);
    lemma_run_opens_nothing(s, pos + 1, to, CharClass::AlphaNumeric, Place::Tag);
    assert(CharClass::AlphaNumeric.contains(s[pos + 1]));
    assert(opens_tag(s, pos, Place::Content));
    assert(tags_opened(s, pos, to, Place::Content) == tags_opened(s, pos + 1, to, Place::Tag)
        + 1);
}

/// A list of nodes opens as many tags as it has elements.
proof fn lemma_nodes_open_their_tags(s: Seq<char>, pos: int, nodes: Seq<NodeView>, to: int)
    requires
        0 <= pos <= s.len(),
        nodes_at(s, pos, nodes) is Ok,
        nodes_at(s, pos, nodes).unwrap().1 <= to <= s.len(),
    ensures
        tags_opened(s, pos, to, Place::Content) + count_all(nodes) == count_all(
            nodes_at(s, pos, nodes).unwrap().0,
        ) + tags_opened(s, nodes_at(s, pos, nodes).unwrap().1, to, Place::Content),
    decreases s.len() - pos, 2nat,
{
    let start = scan_while(s, pos, CharClass::Whitespace);
    lemma_scan_forward(s, pos, CharClass::Whitespace);
    lemma_nodes_end(s, pos, nodes);
    if !(start >= s.len() || has_prefix_at(s, start, "</"@)) {
        lemma_node_end(s, start);
        let (node, end) = node_at(s, start).unwrap();
        let more = nodes.push(node);
        lemma_nodes_end(s, end, more);
        lemma_nodes_open_their_tags(s, end, more, to);
        assert(more.drop_last() == nodes);
        assert(count_all(more) == count_all(nodes) + count_elements(node));
        if s[start] == '<' {
            lemma_element_opens_its_tags(s, start, to);
        } else {
            assert(node == text_at(s, start).0);
            assert(count_all(node.children) == 0);
            assert(count_elements(node) == 0);
            lemma_run_opens_nothing(s, start, to, CharClass::Except('<'), Place::Content);
        }
    }
    lemma_run_opens_nothing(s, pos, to, CharClass::Whitespace, Place::Content);
}

/// The top-level nodes of a text that parses hold as many elements as the
/// text has opening tags.
pub proof fn lemma_elements_are_opening_tags(s: Seq<char>)
    requires
        top_level_nodes(s) is Ok,
    ensures
        count_all(top_level_nodes(s).unwrap()) == opening_tags(s),
{
    lemma_nodes_end(s, 0, Seq::empty());
    lemma_nodes_open_their_tags(s, 0, Seq::empty(), s.len() as int);
    assert(count_all(Seq::<NodeView>::empty()) == 0);
}

/// The document of a text with one top-level node holds as many elements
/// as the text has opening tags; where an element `html` is put around
/// none or several top-level nodes, it holds one more.
pub proof fn lemma_document_elements(s: Seq<char>)
    requires
        document(s) is Ok,
    ensures
        count_elements(document(s).unwrap()) == if top_level_nodes(s).unwrap().len() == 1 {
            opening_tags(s)
        } else {
            opening_tags(s) + 1
        },
{
    lemma_elements_are_opening_tags(s);
    let nodes = top_level_nodes(s).unwrap();
    if nodes.len() == 1 {
        assert(nodes.drop_last() =~= Seq::empty());
        assert(count_all(nodes.drop_last()) == 0);
    }
}

} // verus!
