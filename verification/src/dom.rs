//! The document tree: text and element nodes, and what an element's
//! attributes say about it.
use vstd::prelude::*;
use vstd::string::StringExecFns;
use crate::scanner::{lemma_scan_while, Scanner};
use crate::string_map::StringMap;
use crate::text::{is_whitespace, CharClass};
use crate::views::views_of;

verus! {

/// The attributes of an element, by name.
pub type AttrMap = StringMap<String>;

/// A node of the document tree, which owns its children.
#[derive(Debug)]
pub struct Node {
    pub children: Vec<Node>,
    pub node_type: NodeType,
}

/// What a node is: a text, or an element.
#[derive(Debug)]
pub enum NodeType {
    Text(String),
    Element(ElementData),
}

/// The tag name and the attributes of an element.
#[derive(Debug)]
pub struct ElementData {
    pub tag_name: String,
    pub attributes: AttrMap,
}

/// What an element holds, as mathematical values.
pub struct ElementView {
    pub tag_name: Seq<char>,
    pub attributes: Map<Seq<char>, Seq<char>>,
}

/// What a node is, as a mathematical value.
pub enum NodeTypeView {
    Text(Seq<char>),
    Element(ElementView),
}

/// A document tree as a mathematical value.
pub struct NodeView {
    pub children: Seq<NodeView>,
    pub node_type: NodeTypeView,
}

/// Whether `s[from..to]` is a token of `s`: a longest run of characters
/// that are not white space.
pub open spec fn is_token_at(s: Seq<char>, from: int, to: int) -> bool {
    &&& 0 <= from < to <= s.len()
    &&& forall|i: int| from <= i < to ==> !is_whitespace(#[trigger] s[i])
    &&& (from == 0 || is_whitespace(s[from - 1]))
    &&& (to == s.len() || is_whitespace(s[to]))
}

/// The tokens of `s` that end at or before `limit`.
pub open spec fn tokens_up_to(s: Seq<char>, limit: int) -> Set<Seq<char>> {
    Set::new(
        |t: Seq<char>|
            exists|from: int, to: int|
                #[trigger] is_token_at(s, from, to) && to <= limit && s.subrange(from, to) == t,
    )
}

/// The set of tokens that white space separates in `s`.
pub open spec fn tokens(s: Seq<char>) -> Set<Seq<char>> {
    tokens_up_to(s, s.len() as int)
}

/// Whether one of the strings of `list` reads `t`.
pub open spec fn holds_text(list: Seq<String>, t: Seq<char>) -> bool {
    exists|i: int| 0 <= i < list.len() && (#[trigger] list[i])@ == t
}

/// No two strings of `list` read the same.
pub open spec fn distinct_texts(list: Seq<String>) -> bool {
    forall|i: int, j: int|
        0 <= i < j < list.len() ==> (#[trigger] list[i])@ != (#[trigger] list[j])@
}

impl ElementView {
    /// The value of the attribute `id`.
    pub open spec fn id(self) -> Option<Seq<char>> {
        if self.attributes.contains_key("id"@) {
            Some(self.attributes["id"@])
        } else {
            None
        }
    }

    /// The tokens of the attribute `class`.
    pub open spec fn classes(self) -> Set<Seq<char>> {
        if self.attributes.contains_key("class"@) {
            tokens(self.attributes["class"@])
        } else {
            Set::empty()
        }
    }
}

impl View for ElementData {
    type V = ElementView;

    open spec fn view(&self) -> ElementView {
        ElementView { tag_name: self.tag_name@, attributes: self.attributes@ }
    }
}

impl View for NodeType {
    type V = NodeTypeView;

    open spec fn view(&self) -> NodeTypeView {
        match self {
            NodeType::Text(data) => NodeTypeView::Text(data@),
            NodeType::Element(elem) => NodeTypeView::Element(elem@),
        }
    }
}

/// The document tree that `node` holds.
pub open spec fn node_view(node: Node) -> NodeView
    decreases node,
{
    NodeView {
        children: Seq::new(
            node.children@.len(),
            |i: int|
                if 0 <= i < node.children@.len() {
                    node_view(node.children@[i])
                } else {
                    arbitrary()
                },
        ),
        node_type: node.node_type@,
    }
}

impl View for Node {
    type V = NodeView;

    open spec fn view(&self) -> NodeView {
        node_view(*self)
    }
}

/// A node's view is made of its kind and the views of its children.
pub proof fn lemma_node_view(node: Node)
    ensures
        node@.children == views_of(node.children@),
        node@.node_type == node.node_type@,
{
    assert(node@.children =~= views_of(node.children@));
}

/// Whether one of the strings of `list` reads as `t` does.
pub fn contains_text(list: &Vec<String>, t: &String) -> (b: bool)
    ensures
        b == holds_text(list@, t@),
{
    let mut i: usize = 0;
    while i < list.len()
        invariant
            i <= list.len(),
            forall|k: int| 0 <= k < i ==> (#[trigger] list[k])@ != t@,
        decreases list.len() - i,
    {
        if list[i] == *t {
            return true;
        }
        i += 1;
    }
    false
}

/// The tokens that white space separates in `value`, each once.
fn split_tokens(value: &str) -> (list: Vec<String>)
    ensures
        forall|t: Seq<char>| #[trigger] tokens(value@).contains(t) <==> holds_text(list@, t),
        distinct_texts(list@),
{
    let ghost s = value@;
    let mut sc = Scanner::new(value);
    let mut list: Vec<String> = Vec::new();
    loop
        invariant_except_break
            sc.source() == s,
            0 <= sc.position() <= s.len(),
            sc.position() == 0 || sc.position() == s.len() || is_whitespace(s[sc.position()]),
            forall|from: int, to: int| #[trigger]
                is_token_at(s, from, to) ==> to <= sc.position() || from >= sc.position(),
            forall|t: Seq<char>| #[trigger]
                tokens_up_to(s, sc.position()).contains(t) <==> holds_text(list@, t),
            distinct_texts(list@),
        ensures
            forall|t: Seq<char>| #[trigger] tokens(s).contains(t) <==> holds_text(list@, t),
            distinct_texts(list@),
        decreases s.len() - sc.position(),
    {
        let ghost p = sc.position();
        sc.consume_whitespace();
        let ghost q = sc.position();
        proof {
            lemma_scan_while(s, p, CharClass::Whitespace);
            assert forall|from: int, to: int| #[trigger] is_token_at(s, from, to) implies to <= p
                || from >= q by {
                if from >= p && from < q {
                    assert(CharClass::Whitespace.contains(s[from]));
                }
            }
        }
        if sc.eof() {
            proof {
                assert forall|t: Seq<char>| #[trigger]
                    tokens(s).contains(t) <==> holds_text(list@, t) by {
                    assert(tokens_up_to(s, p).contains(t) <==> holds_text(list@, t));
                }
            }
            break ;
        }
        let token = sc.consume_while(CharClass::Visible);
        let ghost e = sc.position();
        proof {
            lemma_scan_while(s, q, CharClass::Visible);
            assert(!CharClass::Whitespace.contains(s[q]));
            assert(CharClass::Visible.contains(s[q]));
            assert(e > q);
            if q > 0 && q == p {
                assert(is_whitespace(s[p]));
            }
            if q > p {
                assert(CharClass::Whitespace.contains(s[q - 1]));
            }
            assert(is_token_at(s, q, e)) by {
                assert forall|i: int| q <= i < e implies !is_whitespace(#[trigger] s[i]) by {
                    assert(CharClass::Visible.contains(s[i]));
                }
                if e < s.len() {
                    assert(!CharClass::Visible.contains(s[e]));
                }
            }
            assert forall|from: int, to: int| #[trigger] is_token_at(s, from, to) implies to <= p
                || (from == q && to == e) || from >= e by {
                if to > p && from < e {
                    assert(from >= q);
                    if from > q {
                        assert(CharClass::Visible.contains(s[from - 1]));
                    }
                    if to < e {
                        assert(CharClass::Visible.contains(s[to]));
                    }
                    if to > e {
                        assert(!CharClass::Visible.contains(s[e]));
                        assert(!is_whitespace(s[e]));
                    }
                }
            }
        }
        let ghost before = list@;
        let known = contains_text(&list, &token);
        if !known {
            list.push(token);
        }
        proof {
            assert forall|t: Seq<char>| #[trigger]
                tokens_up_to(s, e).contains(t) <==> holds_text(list@, t) by {
                assert(tokens_up_to(s, p).contains(t) <==> holds_text(before, t));
                if tokens_up_to(s, e).contains(t) {
                    let (from, to) = choose|from: int, to: int|
                        #[trigger] is_token_at(s, from, to) && to <= e && s.subrange(from, to)
                            == t;
                    if to <= p {
                        assert(tokens_up_to(s, p).contains(t));
                        let i = choose|i: int| 0 <= i < before.len() && (#[trigger] before[i])@ == t;
                        assert(list@[i]@ == t);
                    } else {
                        assert(t == token@);
                        if known {
                            let i = choose|i: int|
                                0 <= i < before.len() && (#[trigger] before[i])@ == t;
                            assert(list@[i]@ == t);
                        } else {
                            assert(list@[list@.len() - 1]@ == t);
                        }
                    }
                }
                if holds_text(list@, t) {
                    let i = choose|i: int| 0 <= i < list@.len() && (#[trigger] list@[i])@ == t;
                    if i < before.len() {
                        assert(before[i]@ == t);
                        assert(tokens_up_to(s, p).contains(t));
                        let (from, to) = choose|from: int, to: int|
                            #[trigger] is_token_at(s, from, to) && to <= p && s.subrange(from, to)
                                == t;
                        assert(is_token_at(s, from, to) && to <= e && s.subrange(from, to) == t);
                    } else {
                        assert(is_token_at(s, q, e) && e <= e && s.subrange(q, e) == t);
                    }
                }
            }
            assert(distinct_texts(list@)) by {
                assert forall|i: int, j: int| 0 <= i < j < list@.len() implies (#[trigger] list@[i])@
                    != (#[trigger] list@[j])@ by {
                    if j < before.len() {
                        assert(before[i]@ != before[j]@);
                    } else {
                        assert(before[i]@ != token@);
                    }
                }
            }
            assert forall|from: int, to: int| #[trigger] is_token_at(s, from, to) implies to <= e
                || from >= e by {}
            if e < s.len() {
                assert(!CharClass::Visible.contains(s[e]));
            }
        }
    }
    list
}

impl ElementData {
    /// The value of the attribute `id`, if the element has one.
    pub fn id(&self) -> (r: Option<&String>)
        ensures
            match r {
                Some(value) => self@.id() == Some(value@),
                None => self@.id() is None,
            },
    {
        self.attributes.get("id")
    }

    /// The tokens of the attribute `class`, each once; none where the
    /// element has no such attribute.
    pub fn classes(&self) -> (list: Vec<String>)
        ensures
            forall|t: Seq<char>| #[trigger] self@.classes().contains(t) <==> holds_text(list@, t),
            distinct_texts(list@),
    {
        match self.attributes.get("class") {
            Some(value) => split_tokens(value.as_str()),
            None => Vec::new(),
        }
    }
}

/// A text node with the given content.
pub fn text(data: String) -> (node: Node)
    ensures
        node@ == (NodeView { children: Seq::empty(), node_type: NodeTypeView::Text(data@) }),
{
    let node = Node { children: Vec::new(), node_type: NodeType::Text(data) };
    proof {
        lemma_node_view(node);
        assert(node@.children =~= Seq::empty());
    }
    node
}

/// An element node with the given tag name, attributes and children.
pub fn element(name: String, attrs: AttrMap, children: Vec<Node>) -> (node: Node)
    ensures
        node@ == (NodeView {
            children: views_of(children@),
            node_type: NodeTypeView::Element(
                ElementView { tag_name: name@, attributes: attrs@ },
            ),
        }),
{
    let node = Node {
        children: children,
        node_type: NodeType::Element(ElementData { tag_name: name, attributes: attrs }),
    };
    proof {
        lemma_node_view(node);
    }
    node
}

/// The text that shows `node` and what is below it: one line for a text
/// node, an opening and a closing line for an element with its children
/// between them, each line after `margin` and each level four spaces
/// further in.
pub open spec fn dump(node: NodeView, margin: Seq<char>) -> Seq<char>
    decreases node, node.children.len() + 1,
{
    match node.node_type {
        NodeTypeView::Text(data) => margin + data + seq!['\n'],
        NodeTypeView::Element(elem) => margin + seq!['<'] + elem.tag_name + seq!['>', '\n']
            + dump_children(node, node.children.len(), margin + "    "@) + margin + seq!['<', '/']
            + elem.tag_name + seq!['>', '\n'],
    }
}

/// The text that shows the first `count` children of `node`.
pub open spec fn dump_children(node: NodeView, count: nat, margin: Seq<char>) -> Seq<char>
    decreases node, count,
{
    if count == 0 || count > node.children.len() {
        Seq::empty()
    } else {
        dump_children(node, (count - 1) as nat, margin) + dump(node.children[count - 1], margin)
    }
}

fn write_node(node: &Node, margin: &String, out: &mut String)
    ensures
        final(out)@ == old(out)@ + dump(node@, margin@),
    decreases node,
{
    proof {
        lemma_node_view(*node);
    }
    out.append(margin.as_str());
    match &node.node_type {
        NodeType::Text(data) => {
            out.append(data.as_str());
            out.push('\n');
            assert(out@ =~= old(out)@ + dump(node@, margin@));
        },
        NodeType::Element(elem) => {
            out.push('<');
            out.append(elem.tag_name.as_str());
            out.push('>');
            out.push('\n');
            let inner = margin.clone().concat("    ");
            let ghost head = out@;
            let mut i: usize = 0;
            while i < node.children.len()
                invariant
                    i <= node.children.len(),
                    node@.children == views_of(node.children@),
                    out@ == head + dump_children(node@, i as nat, inner@),
                decreases node.children.len() - i,
            {
                write_node(&node.children[i], &inner, out);
                i += 1;
                assert(out@ =~= head + dump_children(node@, i as nat, inner@));
            }
            out.append(margin.as_str());
            out.push('<');
            out.push('/');
            out.append(elem.tag_name.as_str());
            out.push('>');
            out.push('\n');
            assert(out@ =~= old(out)@ + dump(node@, margin@));
        },
    }
}

/// A readable dump of the tree under `root`, one node per line.
pub fn pretty_print(root: &Node) -> (out: String)
    ensures
        out@ == dump(root@, Seq::empty()),
{
    let mut out = String::new();
    let margin = String::new();
    write_node(root, &margin, &mut out);
    assert(out@ =~= dump(root@, Seq::empty()));
    out
}

} // verus!
