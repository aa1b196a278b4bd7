//! Well-formed markup, stated without the parser: what is written for a
//! tree of elements and texts. Every such text parses, and to that tree.
use vstd::prelude::*;
use crate::dom::{ElementView, NodeTypeView, NodeView};
use crate::error::ParseError;
use crate::html_parser::{attributes_at, document, element_at, node_at, nodes_at, top_level_nodes};
use crate::opening_tags::{count_elements, lemma_document_elements, opening_tags};
use crate::scanner::{all_in, has_prefix_at, lemma_parts, lemma_run, lemma_stands};
use crate::text::{is_whitespace, CharClass};

verus! {

/// An attribute as it is written: white space, the name, `=`, and the
/// value between two of `quote`.
pub struct AttributeSyntax {
    pub gap: Seq<char>,
    pub name: Seq<char>,
    pub quote: char,
    pub value: Seq<char>,
}

/// A node as it is written, with the white space around its parts.
pub enum Markup {
    /// White space and a text.
    Text { lead: Seq<char>, content: Seq<char> },
    /// White space, the opening tag with the attributes and white space
    /// before its `>`, the children, white space and the closing tag.
    Element {
        lead: Seq<char>,
        name: Seq<char>,
        attributes: Seq<AttributeSyntax>,
        gap: Seq<char>,
        children: Seq<Markup>,
        tail: Seq<char>,
    },
}

/// The text of one attribute.
pub open spec fn written_attribute(a: AttributeSyntax) -> Seq<char> {
    a.gap + (a.name + (seq!['=', a.quote] + (a.value + seq![a.quote])))
}

/// The text of the attributes from index `from` on.
pub open spec fn written_attributes(attributes: Seq<AttributeSyntax>, from: int) -> Seq<char>
    decreases attributes.len() - from,
{
    if from < 0 || from >= attributes.len() {
        Seq::empty()
    } else {
        written_attribute(attributes[from]) + written_attributes(attributes, from + 1)
    }
}

/// The text of a node.
pub open spec fn written(m: Markup) -> Seq<char>
    decreases m, 0nat,
{
    match m {
        Markup::Text { lead, content } => lead + content,
        Markup::Element { lead, name, attributes, gap, children, tail } => lead + (seq!['<'] + (
        name + (written_attributes(attributes, 0) + (gap + (seq!['>'] + (written_all(children, 0)
            + (tail + (seq!['<', '/'] + (name + seq!['>'])))))))))
    }
}

/// The text of the nodes from index `from` on.
pub open spec fn written_all(nodes: Seq<Markup>, from: int) -> Seq<char>
    decreases nodes, nodes.len() - from,
{
    if from < 0 || from >= nodes.len() {
        Seq::empty()
    } else {
        written(nodes[from]) + written_all(nodes, from + 1)
    }
}

/// The attributes that the first `count` written attributes give an
/// element: where a name is written twice, the later value.
pub open spec fn attribute_map(attributes: Seq<AttributeSyntax>, count: int) -> Map<
    Seq<char>,
    Seq<char>,
>
    decreases count,
{
    if count <= 0 {
        Map::empty()
    } else {
        attribute_map(attributes, count - 1).insert(
            attributes[count - 1].name,
            attributes[count - 1].value,
        )
    }
}

/// The tree that a written node stands for.
pub open spec fn tree_of(m: Markup) -> NodeView
    decreases m,
{
    match m {
        Markup::Text { lead, content } => NodeView {
            children: Seq::empty(),
            node_type: NodeTypeView::Text(content),
        },
        Markup::Element { lead, name, attributes, gap, children, tail } => NodeView {
            children: Seq::new(
                children.len(),
                |k: int|
                    if 0 <= k < children.len() {
                        tree_of(children[k])
                    } else {
                        arbitrary()
                    },
            ),
            node_type: NodeTypeView::Element(
                ElementView {
                    tag_name: name,
                    attributes: attribute_map(attributes, attributes.len() as int),
                },
            ),
        },
    }
}

/// The trees that a list of written nodes stands for.
pub open spec fn trees_of(nodes: Seq<Markup>) -> Seq<NodeView> {
    Seq::new(nodes.len(), |k: int| tree_of(nodes[k]))
}

/// Whether an attribute is well written: white space before it, a name
/// of letters and digits, a quote, and a value without that quote.
pub open spec fn well_formed_attribute(a: AttributeSyntax) -> bool {
    &&& a.gap.len() > 0
    &&& all_in(a.gap, CharClass::Whitespace)
    &&& all_in(a.name, CharClass::AlphaNumeric)
    &&& (a.quote == '"' || a.quote == '\'')
    &&& all_in(a.value, CharClass::Except(a.quote))
}

/// The white space before a node.
pub open spec fn lead_of(m: Markup) -> Seq<char> {
    match m {
        Markup::Text { lead, content } => lead,
        Markup::Element { lead, name, attributes, gap, children, tail } => lead,
    }
}

/// Whether a node is well written. A text is not empty, holds no `<` and
/// begins with no white space, which belongs before it. An element has a
/// name of one or more letters and digits, the same in both tags, well
/// written attributes and children, and white space where it is allowed;
/// after a text, its closing tag follows at once.
pub open spec fn well_formed(m: Markup) -> bool
    decreases m, 0nat,
{
    match m {
        Markup::Text { lead, content } => {
            &&& all_in(lead, CharClass::Whitespace)
            &&& content.len() > 0
            &&& all_in(content, CharClass::Except('<'))
            &&& !is_whitespace(content[0])
        },
        Markup::Element { lead, name, attributes, gap, children, tail } => {
            &&& all_in(lead, CharClass::Whitespace)
            &&& name.len() > 0
            &&& all_in(name, CharClass::AlphaNumeric)
            &&& forall|k: int|
                0 <= k < attributes.len() ==> well_formed_attribute(#[trigger] attributes[k])
            &&& all_in(gap, CharClass::Whitespace)
            &&& well_formed_all(children, 0)
            &&& well_formed_end(children, tail)
        },
    }
}

/// Whether the nodes from index `from` on are well written, and after
/// each text an element follows at once.
pub open spec fn well_formed_all(nodes: Seq<Markup>, from: int) -> bool
    decreases nodes, nodes.len() - from,
{
    if from < 0 || from >= nodes.len() {
        true
    } else {
        &&& well_formed(nodes[from])
        &&& (from + 1 < nodes.len() && nodes[from] is Text ==> nodes[from + 1] is Element
            && lead_of(nodes[from + 1]).len() == 0)
        &&& well_formed_all(nodes, from + 1)
    }
}

/// Whether `tail` may end a list of nodes: it is white space, and there
/// is none after a text.
pub open spec fn well_formed_end(nodes: Seq<Markup>, tail: Seq<char>) -> bool {
    &&& all_in(tail, CharClass::Whitespace)
    &&& (nodes.len() > 0 && nodes.last() is Text ==> tail.len() == 0)
}

/// The text of a document: its top-level nodes and white space at the end.
pub open spec fn written_document(nodes: Seq<Markup>, tail: Seq<char>) -> Seq<char> {
    written_all(nodes, 0) + tail
}

/// Whether a document is well written.
pub open spec fn well_formed_document(nodes: Seq<Markup>, tail: Seq<char>) -> bool {
    well_formed_all(nodes, 0) && well_formed_end(nodes, tail)
}

/// Well written attributes parse, to the attributes that they give.
proof fn lemma_attributes_parse(
    s: Seq<char>,
    pos: int,
    attributes: Seq<AttributeSyntax>,
    from: int,
    gap: Seq<char>,
)
    requires
        0 <= from <= attributes.len(),
        forall|k: int|
            0 <= k < attributes.len() ==> well_formed_attribute(#[trigger] attributes[k]),
        all_in(gap, CharClass::Whitespace),
        has_prefix_at(s, pos, written_attributes(attributes, from) + (gap + seq!['>'])),
    ensures
        attributes_at(s, pos, attribute_map(attributes, from)) == Ok::<
            (Map<Seq<char>, Seq<char>>, int),
            ParseError,
        >(
            (
                attribute_map(attributes, attributes.len() as int),
                pos + written_attributes(attributes, from).len() + gap.len(),
            ),
        ),
    decreases attributes.len() - from,
{
    let acc = attribute_map(attributes, from);
    if from == attributes.len() {
        assert(written_attributes(attributes, from) + (gap + seq!['>']) =~= gap + seq!['>']);
        lemma_parts(s, pos, gap, seq!['>']);
        lemma_stands(s, pos + gap.len(), seq!['>']);
        assert(s[pos + gap.len()] == seq!['>'][0]);
        lemma_run(s, pos, gap, CharClass::Whitespace);
    } else {
        let a = attributes[from];
        let rest = written_attributes(attributes, from + 1) + (gap + seq!['>']);
        assert(well_formed_attribute(a));
        assert(written_attributes(attributes, from) + (gap + seq!['>']) =~= written_attribute(a)
            + rest);
        lemma_parts(s, pos, written_attribute(a), rest);
        let name = pos + a.gap.len();
        let equals = name + a.name.len();
        let close = equals + 2 + a.value.len();
        lemma_parts(s, pos, a.gap, a.name + (seq!['=', a.quote] + (a.value + seq![a.quote])));
        lemma_parts(s, name, a.name, seq!['=', a.quote] + (a.value + seq![a.quote]));
        lemma_parts(s, equals, seq!['=', a.quote], a.value + seq![a.quote]);
        lemma_parts(s, equals + 2, a.value, seq![a.quote]);
        lemma_stands(s, equals, seq!['=', a.quote]);
        assert(s[equals + 0] == seq!['=', a.quote][0]);
        assert(s[equals + 1] == seq!['=', a.quote][1]);
        lemma_stands(s, close, seq![a.quote]);
        assert(s[close + 0] == seq![a.quote][0]);
        lemma_stands(s, name, a.name);
        if a.name.len() > 0 {
            assert(s[name + 0] == a.name[0]);
            assert(CharClass::AlphaNumeric.contains(a.name[0]));
        }
        lemma_run(s, pos, a.gap, CharClass::Whitespace);
        lemma_run(s, name, a.name, CharClass::AlphaNumeric);
        lemma_run(s, equals + 2, a.value, CharClass::Except(a.quote));
        assert(written_attribute(a).len() == close + 1 - pos);
        lemma_attributes_parse(s, close + 1, attributes, from + 1, gap);
        assert(acc.insert(s.subrange(name, equals), s.subrange(equals + 2, close))
            == attribute_map(attributes, from + 1));
        assert(s[name] != '>');
    }
}

/// A well written element parses, to the tree that it stands for.
proof fn lemma_element_parses(s: Seq<char>, pos: int, m: Markup)
    requires
        m is Element,
        well_formed(m),
        has_prefix_at(s, pos, written(m)),
    ensures
        element_at(s, pos + lead_of(m).len()) == Ok::<(NodeView, int), ParseError>(
            (tree_of(m), pos + written(m).len()),
        ),
    decreases m, 0nat,
{
    match m {
        Markup::Text { lead, content } => {},
        Markup::Element { lead, name, attributes, gap, children, tail } => {
            let closing = seq!['<', '/'] + (name + seq!['>']);
            let inside = written_all(children, 0) + (tail + closing);
            let attrs = written_attributes(attributes, 0);
            let after_name = attrs + (gap + (seq!['>'] + inside));
            let start = pos + lead.len();
            let name_end = start + 1 + name.len();
            let open_end = name_end + attrs.len() + gap.len();
            let close = open_end + 1 + written_all(children, 0).len() + tail.len();
            let close_end = close + 2 + name.len();
            assert(written(m) == lead + (seq!['<'] + (name + after_name)));
            lemma_parts(s, pos, lead, seq!['<'] + (name + after_name));
            lemma_parts(s, start, seq!['<'], name + after_name);
            lemma_parts(s, start + 1, name, after_name);
            assert(after_name =~= (attrs + (gap + seq!['>'])) + inside);
            lemma_parts(s, name_end, attrs + (gap + seq!['>']), inside);
            assert(inside =~= (written_all(children, 0) + tail) + closing);
            lemma_parts(s, open_end + 1, written_all(children, 0) + tail, closing);
            lemma_parts(s, close, seq!['<', '/'], name + seq!['>']);
            lemma_parts(s, close + 2, name, seq!['>']);
            // the characters that are written out
            lemma_stands(s, start, seq!['<']);
            assert(s[start + 0] == seq!['<'][0]);
            lemma_stands(s, close, seq!['<', '/']);
            assert(s[close + 0] == seq!['<', '/'][0]);
            assert(s[close + 1] == seq!['<', '/'][1]);
            lemma_stands(s, close_end, seq!['>']);
            assert(s[close_end + 0] == seq!['>'][0]);
            // the name ends where the attributes or the `>` begin
            lemma_stands(s, name_end, attrs + (gap + seq!['>']));
            assert(!CharClass::AlphaNumeric.contains(s[name_end])) by {
                let follow = attrs + (gap + seq!['>']);
                assert(s[name_end + 0] == follow[0]);
                if attributes.len() > 0 {
                    let first = attributes[0];
                    assert(well_formed_attribute(first));
                    assert(follow[0] == first.gap[0]);
                    assert(CharClass::Whitespace.contains(first.gap[0]));
                } else if gap.len() > 0 {
                    assert(follow[0] == gap[0]);
                    assert(CharClass::Whitespace.contains(gap[0]));
                } else {
                    assert(follow[0] == '>');
                }
            }
            lemma_run(s, start + 1, name, CharClass::AlphaNumeric);
            lemma_run(s, close + 2, name, CharClass::AlphaNumeric);
            lemma_attributes_parse(s, name_end, attributes, 0, gap);
            lemma_parts(s, name_end, attrs, gap + seq!['>']);
            lemma_parts(s, name_end + attrs.len(), gap, seq!['>']);
            lemma_stands(s, open_end, seq!['>']);
            assert(s[open_end + 0] == seq!['>'][0]);
            lemma_nodes_parse(s, open_end + 1, children, 0, tail);
            assert(trees_of(children).take(0) =~= Seq::empty());
            assert(tree_of(m).children =~= trees_of(children));
            assert(written(m).len() == close_end + 1 - pos);
        },
    }
}

/// Well written nodes parse, to the trees that they stand for, up to the
/// closing tag or the end of the text that follows them.
proof fn lemma_nodes_parse(s: Seq<char>, pos: int, nodes: Seq<Markup>, from: int, tail: Seq<char>)
    requires
        0 <= from <= nodes.len(),
        well_formed_all(nodes, from),
        well_formed_end(nodes, tail),
        has_prefix_at(s, pos, written_all(nodes, from) + tail),
        ({
            let stop = pos + written_all(nodes, from).len() + tail.len();
            stop == s.len() || (stop + 1 < s.len() && s[stop] == '<' && s[stop + 1] == '/')
        }),
    ensures
        nodes_at(s, pos, trees_of(nodes).take(from)) == Ok::<(Seq<NodeView>, int), ParseError>(
            (trees_of(nodes), pos + written_all(nodes, from).len() + tail.len()),
        ),
    decreases nodes, nodes.len() - from,
{
    reveal_strlit("</");
    let stop = pos + written_all(nodes, from).len() + tail.len();
    if stop < s.len() {
        assert(has_prefix_at(s, stop, "</"@)) by {
            assert(s.subrange(stop, stop + 2) =~= "</"@);
        }
    }
    if from == nodes.len() {
        assert(written_all(nodes, from) + tail =~= tail);
        lemma_run(s, pos, tail, CharClass::Whitespace);
        assert(trees_of(nodes).take(from) =~= trees_of(nodes));
    } else {
        let m = nodes[from];
        let rest = written_all(nodes, from + 1) + tail;
        let lead = lead_of(m);
        assert(well_formed(m));
        assert(well_formed_all(nodes, from + 1));
        let start = pos + lead.len();
        let end = pos + written(m).len();
        assert(written_all(nodes, from) + tail =~= written(m) + rest);
        lemma_parts(s, pos, written(m), rest);
        lemma_stands(s, end, rest);
        // what follows a text is a `<` or the end
        if m is Text && end < s.len() {
            if from + 1 < nodes.len() {
                let next = nodes[from + 1];
                assert(well_formed_all(nodes, from + 1));
                assert(next is Element && lead_of(next).len() == 0);
                assert(written(next)[0] == '<');
                assert(rest[0] == written(next)[0]);
                assert(s[end + 0] == rest[0]);
            } else {
                assert(nodes.last() == m);
                assert(written_all(nodes, from + 1).len() == 0);
                assert(end == stop);
            }
            assert(s[end] == '<');
        }
        match m {
            Markup::Text { lead, content } => {
                lemma_parts(s, pos, lead, content);
                lemma_stands(s, start, content);
                assert(s[start + 0] == content[0]);
                assert(CharClass::Except('<').contains(content[0]));
                lemma_run(s, pos, lead, CharClass::Whitespace);
                lemma_run(s, start, content, CharClass::Except('<'));
                assert(!has_prefix_at(s, start, "</"@)) by {
                    if has_prefix_at(s, start, "</"@) {
                        assert(s.subrange(start, start + 2)[0] == "</"@[0]);
                    }
                }
                assert(node_at(s, start) == Ok::<(NodeView, int), ParseError>(
                    (tree_of(m), end),
                ));
            },
            Markup::Element { lead, name, attributes, gap, children, tail: inner } => {
                let body = seq!['<'] + (name + (written_attributes(attributes, 0) + (gap + (
                seq!['>'] + (written_all(children, 0) + (inner + (seq!['<', '/'] + (name
                    + seq!['>']))))))));
                assert(written(m) == lead + body);
                lemma_parts(s, pos, lead, body);
                lemma_stands(s, start, body);
                assert(s[start + 0] == body[0]);
                assert(s[start + 1] == body[1]);
                assert(body[1] == name[0]);
                assert(CharClass::AlphaNumeric.contains(name[0]));
                lemma_run(s, pos, lead, CharClass::Whitespace);
                assert(!has_prefix_at(s, start, "</"@)) by {
                    if has_prefix_at(s, start, "</"@) {
                        assert(s.subrange(start, start + 2)[1] == "</"@[1]);
                    }
                }
                lemma_element_parses(s, pos, m);
                assert(node_at(s, start) == Ok::<(NodeView, int), ParseError>(
                    (tree_of(m), end),
                ));
            },
        }
        assert(start < end <= s.len());
        lemma_nodes_parse(s, end, nodes, from + 1, tail);
        assert(trees_of(nodes).take(from).push(tree_of(m)) =~= trees_of(nodes).take(from + 1));
    }
}

/// Every well written document parses: its top-level nodes are the trees
/// that the written nodes stand for.
pub proof fn lemma_well_formed_parses(nodes: Seq<Markup>, tail: Seq<char>)
    requires
        well_formed_document(nodes, tail),
    ensures
        top_level_nodes(written_document(nodes, tail)) == Ok::<Seq<NodeView>, ParseError>(
            trees_of(nodes),
        ),
        document(written_document(nodes, tail)) is Ok,
{
    let s = written_document(nodes, tail);
    assert(s.subrange(0, s.len() as int) =~= s);
    lemma_nodes_parse(s, 0, nodes, 0, tail);
    assert(trees_of(nodes).take(0) =~= Seq::empty());
}

/// A well written document with one top-level node parses to the tree of
/// that node, which has as many elements as the text has opening tags.
pub proof fn lemma_well_formed_elements(root: Markup, tail: Seq<char>)
    requires
        well_formed_document(seq![root], tail),
    ensures
        document(written_document(seq![root], tail)) == Ok::<NodeView, ParseError>(
            tree_of(root),
        ),
        count_elements(tree_of(root)) == opening_tags(written_document(seq![root], tail)),
{
    lemma_well_formed_parses(seq![root], tail);
    lemma_document_elements(written_document(seq![root], tail));
}

} // verus!
