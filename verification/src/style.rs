//! The style resolver: which rules apply to an element, and the tree of
//! styled nodes that decorates a document tree.
use vstd::prelude::*;
use crate::cascade::{
    application_order, apply_declarations, apply_rules, lemma_cascade, lemma_matched, matched,
    matched_ranks, specified_values,
};
use crate::css_parser::{
    heaviest_first, CSSValue, Rule, RuleView, Selector, SelectorView, SimpleSelector, Stylesheet,
    StylesheetView, ValueView,
};
use crate::dom::{
    contains_text, holds_text, lemma_node_view, ElementData, ElementView, Node, NodeType,
    NodeTypeView, NodeView,
};
use crate::specificity::{
    lemma_stable_order, outranks, ranks, stable_order, stable_sort, Ranked, Specificity,
};
use crate::string_map::StringMap;

verus! {

/// Whether `selector` matches `elem`: its tag name, if it has one, is the
/// element's; its id, if it has one, is the element's; and each of its
/// classes is among the element's.
pub open spec fn selector_matches(elem: ElementView, selector: SelectorView) -> bool {
    match selector {
        SelectorView::Simple(simple) => {
            &&& simple.tag matches Some(tag) ==> elem.tag_name == tag
            &&& simple.id matches Some(id) ==> elem.id() == Some(id)
            &&& forall|k: int|
                0 <= k < simple.class.len() ==> elem.classes().contains(#[trigger] simple.class[k])
        },
    }
}

/// The weight of the first of `selectors`, from index `from` on, that
/// matches `elem`.
pub open spec fn first_match(elem: ElementView, selectors: Seq<SelectorView>, from: int) -> Option<
    Specificity,
>
    decreases selectors.len() - from,
{
    if from < 0 || from >= selectors.len() {
        None
    } else if selector_matches(elem, selectors[from]) {
        Some(selectors[from].specificity())
    } else {
        first_match(elem, selectors, from + 1)
    }
}

/// The weight with which `rule` applies to `elem`: that of its first
/// selector that matches. A rule of which no selector matches does not
/// apply.
pub open spec fn rule_rank(elem: ElementView, rule: RuleView) -> Option<Specificity> {
    first_match(elem, rule.selectors, 0)
}

/// Where the selectors of a rule stand the heaviest first, the rule
/// applies exactly if one of them matches, and with the greatest weight
/// among those that match.
pub proof fn lemma_rule_rank_is_heaviest(elem: ElementView, rule: RuleView)
    requires
        heaviest_first(rule.selectors),
    ensures
        rule_rank(elem, rule) is Some <==> exists|k: int|
            0 <= k < rule.selectors.len() && selector_matches(elem, #[trigger] rule.selectors[k]),
        rule_rank(elem, rule) matches Some(weight) ==> {
            &&& exists|k: int|
                0 <= k < rule.selectors.len() && selector_matches(
                    elem,
                    #[trigger] rule.selectors[k],
                ) && rule.selectors[k].specificity() == weight
            &&& forall|k: int|
                0 <= k < rule.selectors.len() && selector_matches(
                    elem,
                    #[trigger] rule.selectors[k],
                ) ==> !outranks(rule.selectors[k].specificity(), weight)
        },
{
    lemma_first_match(elem, rule.selectors, 0);
    let selectors = rule.selectors;
    if let Some(weight) = rule_rank(elem, rule) {
        let first = choose|k: int|
            0 <= k < selectors.len() && selector_matches(elem, #[trigger] selectors[k])
                && selectors[k].specificity() == weight && forall|l: int|
                0 <= l < k ==> !selector_matches(elem, #[trigger] selectors[l]);
        assert forall|k: int|
            0 <= k < selectors.len() && selector_matches(
                elem,
                #[trigger] selectors[k],
            ) implies !outranks(selectors[k].specificity(), weight) by {
            if k > first {
                assert(!outranks(selectors[k].specificity(), selectors[first].specificity()));
            }
        }
    }
}

proof fn lemma_first_match(elem: ElementView, selectors: Seq<SelectorView>, from: int)
    requires
        0 <= from <= selectors.len(),
    ensures
        first_match(elem, selectors, from) is None ==> forall|k: int|
            from <= k < selectors.len() ==> !selector_matches(elem, #[trigger] selectors[k]),
        first_match(elem, selectors, from) matches Some(weight) ==> exists|k: int|
            from <= k < selectors.len() && selector_matches(elem, #[trigger] selectors[k])
                && selectors[k].specificity() == weight && forall|l: int|
                from <= l < k ==> !selector_matches(elem, #[trigger] selectors[l]),
    decreases selectors.len() - from,
{
    if from < selectors.len() {
        if selector_matches(elem, selectors[from]) {
            assert(selector_matches(elem, selectors[from]) && selectors[from].specificity()
                == first_match(elem, selectors, from).unwrap() && forall|l: int|
                from <= l < from ==> !selector_matches(elem, #[trigger] selectors[l]));
        } else {
            lemma_first_match(elem, selectors, from + 1);
            if let Some(weight) = first_match(elem, selectors, from) {
                let k = choose|k: int|
                    from + 1 <= k < selectors.len() && selector_matches(
                        elem,
                        #[trigger] selectors[k],
                    ) && selectors[k].specificity() == weight && forall|l: int|
                        from + 1 <= l < k ==> !selector_matches(elem, #[trigger] selectors[l]);
                assert forall|l: int| from <= l < k implies !selector_matches(
                    elem,
                    #[trigger] selectors[l],
                ) by {}
            }
        }
    }
}

fn matches_simple_selector(elem: &ElementData, selector: &SimpleSelector) -> (b: bool)
    ensures
        b == selector_matches(elem@, SelectorView::Simple(selector@)),
{
    if let Some(tag) = &selector.tag {
        if elem.tag_name != *tag {
            return false;
        }
    }
    if let Some(id) = &selector.id {
        match elem.id() {
            Some(value) => {
                if *value != *id {
                    return false;
                }
            },
            None => {
                return false;
            },
        }
    }
    if selector.class.len() > 0 {
        let classes = elem.classes();
        let mut k: usize = 0;
        while k < selector.class.len()
            invariant
                k <= selector.class.len(),
                forall|t: Seq<char>| #[trigger]
                    elem@.classes().contains(t) <==> holds_text(classes@, t),
                forall|l: int|
                    0 <= l < k ==> elem@.classes().contains(#[trigger] selector@.class[l]),
            decreases selector.class.len() - k,
        {
            if !contains_text(&classes, &selector.class[k]) {
                assert(!elem@.classes().contains(selector@.class[k as int]));
                return false;
            }
            assert(elem@.classes().contains(selector@.class[k as int]));
            k += 1;
        }
    }
    true
}

fn match_selectors(elem: &ElementData, selector: &Selector) -> (b: bool)
    ensures
        b == selector_matches(elem@, selector@),
{
    match selector {
        Selector::Simple(simple) => matches_simple_selector(elem, simple),
    }
}

/// A rule that applies to an element, with the weight it applies with.
pub type MatchedRule<'a> = (Specificity, &'a Rule);

impl<'a> Ranked for MatchedRule<'a> {
    open spec fn rank(&self) -> Specificity {
        self.0
    }

    fn weight(&self) -> (r: Specificity) {
        self.0
    }
}

fn match_rule<'a>(elem: &ElementData, rule: &'a Rule) -> (r: Option<MatchedRule<'a>>)
    ensures
        match r {
            Some(found) => rule_rank(elem@, rule@) == Some(found.0) && found.1 == rule,
            None => rule_rank(elem@, rule@) is None,
        },
{
    let mut k: usize = 0;
    while k < rule.selectors.len()
        invariant
            k <= rule.selectors.len(),
            rule_rank(elem@, rule@) == first_match(elem@, rule@.selectors, k as int),
        decreases rule.selectors.len() - k,
    {
        if match_selectors(elem, &rule.selectors[k]) {
            return Some((rule.selectors[k].specificity(), rule));
        }
        k += 1;
    }
    None
}

/// Whether `found` is rule `i` of `stylesheet` with the weight it applies
/// to `elem` with.
pub open spec fn is_match(
    found: MatchedRule<'_>,
    elem: ElementView,
    stylesheet: Stylesheet,
    i: int,
) -> bool {
    &&& 0 <= i < stylesheet.rules@.len()
    &&& found.1 == stylesheet.rules@[i]
    &&& rule_rank(elem, stylesheet@.rules[i]) == Some(found.0)
}

/// The rules of `stylesheet` that apply to `elem`, in source order, each
/// with the weight it applies with.
fn get_matching_rules<'a>(elem: &ElementData, stylesheet: &'a Stylesheet) -> (found: Vec<
    MatchedRule<'a>,
>)
    ensures
        found@.len() == matched(elem@, stylesheet@, stylesheet.rules@.len() as int).len(),
        forall|k: int|
            0 <= k < found@.len() ==> is_match(
                #[trigger] found@[k],
                elem@,
                *stylesheet,
                matched(elem@, stylesheet@, stylesheet.rules@.len() as int)[k],
            ),
{
    let mut found: Vec<MatchedRule<'a>> = Vec::new();
    let mut n: usize = 0;
    while n < stylesheet.rules.len()
        invariant
            n <= stylesheet.rules@.len(),
            found@.len() == matched(elem@, stylesheet@, n as int).len(),
            forall|k: int|
                0 <= k < found@.len() ==> is_match(
                    #[trigger] found@[k],
                    elem@,
                    *stylesheet,
                    matched(elem@, stylesheet@, n as int)[k],
                ),
        decreases stylesheet.rules@.len() - n,
    {
        let ghost before = found@;
        let ghost front = matched(elem@, stylesheet@, n as int);
        assert(stylesheet@.rules[n as int] == stylesheet.rules@[n as int]@);
        if let Some(hit) = match_rule(elem, &stylesheet.rules[n]) {
            found.push(hit);
        }
        n += 1;
        assert forall|k: int| 0 <= k < found@.len() implies is_match(
            #[trigger] found@[k],
            elem@,
            *stylesheet,
            matched(elem@, stylesheet@, n as int)[k],
        ) by {
            if k < before.len() {
                assert(found@[k] == before[k]);
                assert(matched(elem@, stylesheet@, n as int)[k] == front[k]);
            }
        }
    }
    found
}

/// The values that `stylesheet` specifies for `elem`. The declarations of
/// the rules that apply are written into a map, the lightest rule first
/// and rules of equal weight in source order, so that the last write for a
/// property is that of the declaration that wins it.
fn get_properties(elem: &ElementData, stylesheet: &Stylesheet) -> (values: CSSProperties)
    ensures
        values@ == specified_values(elem@, stylesheet@),
{
    let mut values: CSSProperties = StringMap::new();
    let mut rules = get_matching_rules(elem, stylesheet);
    let ghost found = rules@;
    let ghost indices = matched(elem@, stylesheet@, stylesheet.rules@.len() as int);
    let ghost keys = matched_ranks(elem@, stylesheet@, indices);
    let ghost order = application_order(elem@, stylesheet@);
    proof {
        assert forall|k: int| 0 <= k < found.len() implies #[trigger] ranks(found)[k]
            == keys[k] by {
            assert(is_match(found[k], elem@, *stylesheet, indices[k]));
        }
        assert(ranks(rules@) =~= keys);
        lemma_stable_order(keys, keys.len() as int, false);
        lemma_matched(elem@, stylesheet@, stylesheet.rules@.len() as int);
    }
    stable_sort(&mut rules, false);
    assert forall|p: int| 0 <= p < rules@.len() implies 0 <= #[trigger] order[p]
        < stylesheet.rules@.len() && rules@[p].1 == stylesheet.rules@[order[p]] by {
        let k = stable_order(keys, false)[p];
        assert(0 <= k < indices.len());
        assert(order[p] == indices[k]);
        assert(is_match(found[k], elem@, *stylesheet, indices[k]));
    }
    let mut p: usize = 0;
    while p < rules.len()
        invariant
            p <= rules@.len(),
            rules@.len() == order.len(),
            forall|q: int|
                0 <= q < rules@.len() ==> 0 <= #[trigger] order[q] < stylesheet.rules@.len()
                    && rules@[q].1 == stylesheet.rules@[order[q]],
            values@ == apply_rules(stylesheet@, order, p as int),
        decreases rules@.len() - p,
    {
        let rule = rules[p].1;
        assert(rule@ == stylesheet@.rules[order[p as int]]);
        let mut j: usize = 0;
        while j < rule.declarations.len()
            invariant
                j <= rule.declarations@.len(),
                rule@.declarations.len() == rule.declarations@.len(),
                values@ == apply_declarations(
                    apply_rules(stylesheet@, order, p as int),
                    rule@.declarations,
                    j as int,
                ),
            decreases rule.declarations@.len() - j,
        {
            let declaration = &rule.declarations[j];
            assert(rule@.declarations[j as int] == declaration@);
            values.insert(declaration.name.clone(), declaration.value.clone());
            j += 1;
        }
        p += 1;
    }
    proof {
        lemma_cascade(elem@, stylesheet@);
    }
    values
}

/// The properties of an element, by name.
pub type CSSProperties = StringMap<CSSValue>;

/// A node of the styled tree: a node of the document tree, the values
/// specified for it, and the styled nodes of its children.
#[derive(Debug)]
pub struct StyledNode<'a> {
    pub node: &'a Node,
    pub css_values: CSSProperties,
    pub children: Vec<StyledNode<'a>>,
}

/// A styled tree as a mathematical value.
pub struct StyledView {
    pub node: NodeView,
    pub css_values: Map<Seq<char>, ValueView>,
    pub children: Seq<StyledView>,
}

/// The styled tree that `styled` holds.
pub open spec fn styled_view(styled: StyledNode<'_>) -> StyledView
    decreases styled,
{
    StyledView {
        node: styled.node@,
        css_values: styled.css_values@,
        children: Seq::new(
            styled.children@.len(),
            |i: int|
                if 0 <= i < styled.children@.len() {
                    styled_view(styled.children@[i])
                } else {
                    arbitrary()
                },
        ),
    }
}

impl<'a> View for StyledNode<'a> {
    type V = StyledView;

    open spec fn view(&self) -> StyledView {
        styled_view(*self)
    }
}

/// The styled tree of the document tree `node` under `sheet`: of the same
/// shape, with the values that `sheet` specifies at each element and none
/// at a text node.
pub open spec fn styled_tree(node: NodeView, sheet: StylesheetView) -> StyledView
    decreases node,
{
    StyledView {
        node: node,
        css_values: match node.node_type {
            NodeTypeView::Element(elem) => specified_values(elem, sheet),
            NodeTypeView::Text(_) => Map::empty(),
        },
        children: Seq::new(
            node.children.len(),
            |i: int|
                if 0 <= i < node.children.len() {
                    styled_tree(node.children[i], sheet)
                } else {
                    arbitrary()
                },
        ),
    }
}

/// Whether `styled` and the styled nodes below it refer to `node` and the
/// nodes below it, one styled node to each node.
pub open spec fn decorates(styled: StyledNode<'_>, node: Node) -> bool
    decreases styled,
{
    &&& *styled.node == node
    &&& styled.children@.len() == node.children@.len()
    &&& forall|k: int|
        0 <= k < styled.children@.len() ==> decorates(
            #[trigger] styled.children@[k],
            node.children@[k],
        )
}

/// Decorates the document tree under `root` with the values that
/// `stylesheet` specifies for each of its elements. The styled tree
/// refers to the nodes of the document tree and copies none.
pub fn build_style_tree<'a>(root: &'a Node, stylesheet: &'a Stylesheet) -> (styled: StyledNode<'a>)
    ensures
        styled@ == styled_tree(root@, stylesheet@),
        decorates(styled, *root),
    decreases root,
{
    let css_values = match &root.node_type {
        NodeType::Element(elem) => get_properties(elem, stylesheet),
        NodeType::Text(_) => StringMap::new(),
    };
    let mut children: Vec<StyledNode<'a>> = Vec::new();
    let mut i: usize = 0;
    while i < root.children.len()
        invariant
            i <= root.children@.len(),
            children@.len() == i,
            forall|k: int|
                0 <= k < i ==> (#[trigger] children@[k])@ == styled_tree(
                    root.children@[k]@,
                    stylesheet@,
                ),
            forall|k: int|
                0 <= k < i ==> decorates(#[trigger] children@[k], root.children@[k]),
        decreases root.children@.len() - i,
    {
        children.push(build_style_tree(&root.children[i], stylesheet));
        i += 1;
    }
    let styled = StyledNode { node: root, css_values, children };
    proof {
        lemma_node_view(*root);
        assert(styled@.children =~= styled_tree(root@, stylesheet@).children);
    }
    styled
}

/// The styled tree is a function of the document and the stylesheet: two
/// trees built from the same inputs are the same.
pub proof fn lemma_style_tree_is_determined(
    first: StyledNode<'_>,
    second: StyledNode<'_>,
    root: Node,
    stylesheet: Stylesheet,
)
    requires
        first@ == styled_tree(root@, stylesheet@),
        second@ == styled_tree(root@, stylesheet@),
    ensures
        first@ == second@,
{
}

} // verus!
