//! Stylesheets: rules, selectors, declarations and values, and the parser
//! that reads them from a text.
//!
//! The grammar is stated as functions on the text and a position in it,
//! which yield what stands there and the position after it; the parser is
//! proved to compute them.
use vstd::prelude::*;
use vstd::string::StringExecFns;
use crate::error::ParseError;
use crate::scanner::{char_at, expect_at, lemma_scan_forward, scan_while, Scanner};
use crate::specificity::{
    arrange, goes_before, lemma_stable_order, outranks, ranks, stable_order, stable_sort, Ranked,
    Specificity,
};
use crate::text::{chars_of, is_digit, CharClass};
use crate::views::{view_of, views_of};

verus! {

/// The rules of a stylesheet, in source order.
#[derive(Debug)]
pub struct Stylesheet {
    pub rules: Vec<Rule>,
}

/// A rule: its selectors, the most specific first, and its declarations
/// in source order.
#[derive(Debug)]
pub struct Rule {
    pub selectors: Vec<Selector>,
    pub declarations: Vec<Declaration>,
}

/// A selector. There is one kind, without combinators.
#[derive(Debug)]
pub enum Selector {
    Simple(SimpleSelector),
}

/// What an element has to be for the selector to match: each part that is
/// present has to hold.
#[derive(Debug)]
pub struct SimpleSelector {
    pub tag: Option<String>,
    pub id: Option<String>,
    pub class: Vec<String>,
}

/// A property and the value declared for it.
#[derive(Debug)]
pub struct Declaration {
    pub name: String,
    pub value: CSSValue,
}

/// A value: a length with its unit, a colour, or a keyword.
#[derive(Debug)]
pub enum CSSValue {
    Length(Decimal, Unit),
    ColorVal(Color),
    Keyword(String),
}

/// The unit of a length. Pixels are the only one.
#[derive(Clone, Copy, Debug, PartialEq, Eq, Structural)]
pub enum Unit {
    Px,
}

/// A colour: red, green, blue and alpha, a byte each.
#[derive(Clone, Copy, Debug, PartialEq, Eq, Structural)]
pub struct Color {
    pub r: u8,
    pub g: u8,
    pub b: u8,
    pub a: u8,
}

/// Whether `s` is a decimal numeral: digits with at most one `.` among
/// them, a digit first.
pub open spec fn is_decimal(s: Seq<char>) -> bool {
    &&& s.len() > 0
    &&& is_digit(s[0])
    &&& forall|i: int| 0 <= i < s.len() ==> is_digit(#[trigger] s[i]) || s[i] == '.'
    &&& forall|i: int, j: int| 0 <= i < j < s.len() && #[trigger] s[i] == '.' ==> #[trigger] s[j] != '.'
}

/// A number, kept as the decimal numeral that was written for it.
#[derive(Debug)]
pub struct Decimal {
    digits: String,
}

impl View for Decimal {
    type V = Seq<char>;

    closed spec fn view(&self) -> Seq<char> {
        self.digits@
    }
}

impl Decimal {
    #[verifier::type_invariant]
    spec fn is_numeral(&self) -> bool {
        is_decimal(self.digits@)
    }

    /// The number that `numeral` is written for, if it is a decimal numeral.
    pub fn new(numeral: String) -> (r: Option<Decimal>)
        ensures
            match r {
                Some(d) => is_decimal(numeral@) && d@ == numeral@,
                None => !is_decimal(numeral@),
            },
    {
        let chars = chars_of(numeral.as_str());
        if chars.len() == 0 || !(chars[0] >= '0' && chars[0] <= '9') {
            return None;
        }
        let mut dots: usize = 0;
        let ghost mut dot_at: int = 0;
        let mut i: usize = 0;
        while i < chars.len()
            invariant
                i <= chars.len(),
                chars@ == numeral@,
                dots <= 1,
                dots == 1 ==> 0 <= dot_at < i && chars[dot_at] == '.',
                forall|k: int| 0 <= k < i ==> is_digit(#[trigger] chars[k]) || chars[k] == '.',
                forall|k: int, l: int|
                    0 <= k < l < i && #[trigger] chars[k] == '.' ==> #[trigger] chars[l] != '.',
                dots == 0 ==> forall|k: int| 0 <= k < i ==> #[trigger] chars[k] != '.',
            decreases chars.len() - i,
        {
            let c = chars[i];
            if c == '.' {
                if dots == 1 {
                    return None;
                }
                dots = 1;
                proof {
                    dot_at = i as int;
                }
            } else if !(c >= '0' && c <= '9') {
                return None;
            }
            i += 1;
        }
        Some(Decimal { digits: numeral })
    }

    /// The numeral.
    pub fn as_str(&self) -> (s: &str)
        ensures
            s@ == self@,
            is_decimal(self@),
    {
        proof {
            use_type_invariant(self);
        }
        self.digits.as_str()
    }
}

impl Clone for Decimal {
    fn clone(&self) -> (r: Self)
        ensures
            r@ == self@,
    {
        proof {
            use_type_invariant(self);
        }
        Decimal { digits: self.digits.clone() }
    }
}

/// A value as a mathematical value.
pub enum ValueView {
    Length(Seq<char>, Unit),
    ColorVal(Color),
    Keyword(Seq<char>),
}

/// A declaration as a mathematical value.
pub struct DeclarationView {
    pub name: Seq<char>,
    pub value: ValueView,
}

/// A simple selector as a mathematical value.
pub struct SimpleSelectorView {
    pub tag: Option<Seq<char>>,
    pub id: Option<Seq<char>>,
    pub class: Seq<Seq<char>>,
}

/// A selector as a mathematical value.
pub enum SelectorView {
    Simple(SimpleSelectorView),
}

/// A rule as a mathematical value.
pub struct RuleView {
    pub selectors: Seq<SelectorView>,
    pub declarations: Seq<DeclarationView>,
}

/// A stylesheet as a mathematical value.
pub struct StylesheetView {
    pub rules: Seq<RuleView>,
}

impl View for CSSValue {
    type V = ValueView;

    open spec fn view(&self) -> ValueView {
        match self {
            CSSValue::Length(number, unit) => ValueView::Length(number@, *unit),
            CSSValue::ColorVal(color) => ValueView::ColorVal(*color),
            CSSValue::Keyword(word) => ValueView::Keyword(word@),
        }
    }
}

impl View for Declaration {
    type V = DeclarationView;

    open spec fn view(&self) -> DeclarationView {
        DeclarationView { name: self.name@, value: self.value@ }
    }
}

impl View for SimpleSelector {
    type V = SimpleSelectorView;

    open spec fn view(&self) -> SimpleSelectorView {
        SimpleSelectorView {
            tag: view_of(self.tag),
            id: view_of(self.id),
            class: views_of(self.class@),
        }
    }
}

impl View for Selector {
    type V = SelectorView;

    open spec fn view(&self) -> SelectorView {
        match self {
            Selector::Simple(simple) => SelectorView::Simple(simple@),
        }
    }
}

impl View for Rule {
    type V = RuleView;

    open spec fn view(&self) -> RuleView {
        RuleView {
            selectors: views_of(self.selectors@),
            declarations: views_of(self.declarations@),
        }
    }
}

impl View for Stylesheet {
    type V = StylesheetView;

    open spec fn view(&self) -> StylesheetView {
        StylesheetView { rules: views_of(self.rules@) }
    }
}

impl Clone for CSSValue {
    fn clone(&self) -> (r: Self)
        ensures
            r@ == self@,
    {
        match self {
            CSSValue::Length(number, unit) => CSSValue::Length(number.clone(), *unit),
            CSSValue::ColorVal(color) => CSSValue::ColorVal(*color),
            CSSValue::Keyword(word) => CSSValue::Keyword(word.clone()),
        }
    }
}

impl SelectorView {
    /// The weight of the selector: whether it asks for an id, how many
    /// classes it asks for, whether it asks for a tag name.
    pub open spec fn specificity(self) -> Specificity {
        match self {
            SelectorView::Simple(simple) => (
                if simple.id is Some {
                    1usize
                } else {
                    0usize
                },
                simple.class.len() as usize,
                if simple.tag is Some {
                    1usize
                } else {
                    0usize
                },
            ),
        }
    }
}

impl Selector {
    /// The weight of the selector: whether it asks for an id, how many
    /// classes it asks for, whether it asks for a tag name.
    pub fn specificity(&self) -> (r: Specificity)
        ensures
            r == self@.specificity(),
    {
        match self {
            Selector::Simple(simple) => {
                let ids: usize = if simple.id.is_some() {
                    1
                } else {
                    0
                };
                let tags: usize = if simple.tag.is_some() {
                    1
                } else {
                    0
                };
                (ids, simple.class.len(), tags)
            },
        }
    }
}

/// An id weighs more than any number of classes, and a class more than a
/// tag name: a selector with an id outweighs one without; of two that
/// agree on that, the one with more classes outweighs the other; of two
/// that agree on both, the one with a tag name outweighs the one without.
pub proof fn lemma_id_outweighs_class_outweighs_tag(a: SimpleSelector, b: SimpleSelector)
    ensures
        a.id is Some && b.id is None ==> outranks(
            SelectorView::Simple(a@).specificity(),
            SelectorView::Simple(b@).specificity(),
        ),
        (a.id is Some <==> b.id is Some) && a.class@.len() > b.class@.len() ==> outranks(
            SelectorView::Simple(a@).specificity(),
            SelectorView::Simple(b@).specificity(),
        ),
        (a.id is Some <==> b.id is Some) && a.class@.len() == b.class@.len() && a.tag is Some
            && b.tag is None ==> outranks(
            SelectorView::Simple(a@).specificity(),
            SelectorView::Simple(b@).specificity(),
        ),
{
    assert(a.class.len() == a@.class.len());
    assert(b.class.len() == b@.class.len());
}

impl Ranked for Selector {
    open spec fn rank(&self) -> Specificity {
        self@.specificity()
    }

    fn weight(&self) -> (r: Specificity) {
        self.specificity()
    }
}

/// A selector that asks for nothing.
pub open spec fn blank_selector() -> SimpleSelectorView {
    SimpleSelectorView { tag: None, id: None, class: Seq::empty() }
}

/// The simple selector that stands at `pos`, read into `selector`, and
/// the position after it: any number of `#` and an id, `.` and a class,
/// `*`, and tag names. A later id or tag name replaces an earlier one.
pub open spec fn simple_selector_at(s: Seq<char>, pos: int, selector: SimpleSelectorView) -> (
    SimpleSelectorView,
    int,
)
    decreases s.len() - pos,
    via simple_selector_at_decreases
{
    let word_end = scan_while(s, pos + 1, CharClass::Identifier);
    let word = s.subrange(pos + 1, word_end);
    let tag_end = scan_while(s, pos, CharClass::Identifier);
    match char_at(s, pos) {
        Err(_) => (selector, pos),
        Ok(c) => if c == '#' {
            simple_selector_at(s, word_end, SimpleSelectorView { id: Some(word), ..selector })
        } else if c == '.' {
            simple_selector_at(
                s,
                word_end,
                SimpleSelectorView { class: selector.class.push(word), ..selector },
            )
        } else if c == '*' {
            simple_selector_at(s, pos + 1, selector)
        } else if CharClass::Identifier.contains(c) {
            simple_selector_at(
                s,
                tag_end,
                SimpleSelectorView { tag: Some(s.subrange(pos, tag_end)), ..selector },
            )
        } else {
            (selector, pos)
        },
    }
}

#[via_fn]
proof fn simple_selector_at_decreases(s: Seq<char>, pos: int, selector: SimpleSelectorView) {
    lemma_scan_forward(s, pos + 1, CharClass::Identifier);
    lemma_scan_forward(s, pos, CharClass::Identifier);
}

/// A simple selector ends inside the text, at or after its start.
pub proof fn lemma_simple_selector_end(s: Seq<char>, pos: int, selector: SimpleSelectorView)
    ensures
        pos <= simple_selector_at(s, pos, selector).1,
        pos <= s.len() ==> simple_selector_at(s, pos, selector).1 <= s.len(),
    decreases s.len() - pos,
{
    let word_end = scan_while(s, pos + 1, CharClass::Identifier);
    let word = s.subrange(pos + 1, word_end);
    let tag_end = scan_while(s, pos, CharClass::Identifier);
    lemma_scan_forward(s, pos + 1, CharClass::Identifier);
    lemma_scan_forward(s, pos, CharClass::Identifier);
    if let Ok(c) = char_at(s, pos) {
        if c == '#' {
            lemma_simple_selector_end(
                s,
                word_end,
                SimpleSelectorView { id: Some(word), ..selector },
            );
        } else if c == '.' {
            lemma_simple_selector_end(
                s,
                word_end,
                SimpleSelectorView { class: selector.class.push(word), ..selector },
            );
        } else if c == '*' {
            lemma_simple_selector_end(s, pos + 1, selector);
        } else if CharClass::Identifier.contains(c) {
            lemma_simple_selector_end(
                s,
                tag_end,
                SimpleSelectorView { tag: Some(s.subrange(pos, tag_end)), ..selector },
            );
        }
    }
}

/// The selectors that stand at `pos`, added to `selectors`, and the
/// position of the `{` that ends them: simple selectors with a `,`
/// between them; white space may stand around the `,` and before the `{`.
pub open spec fn selectors_at(s: Seq<char>, pos: int, selectors: Seq<SelectorView>) -> Result<
    (Seq<SelectorView>, int),
    ParseError,
>
    decreases s.len() - pos,
    via selectors_at_decreases
{
    let (simple, end) = simple_selector_at(s, pos, blank_selector());
    let found = selectors.push(SelectorView::Simple(simple));
    let mark = scan_while(s, end, CharClass::Whitespace);
    match char_at(s, mark) {
        Err(e) => Err(e),
        Ok(c) => if c == ',' {
            selectors_at(s, scan_while(s, mark + 1, CharClass::Whitespace), found)
        } else if c == '{' {
            Ok((found, mark))
        } else {
            Err(ParseError::MalformedInput)
        },
    }
}

#[via_fn]
proof fn selectors_at_decreases(s: Seq<char>, pos: int, selectors: Seq<SelectorView>) {
    let (simple, end) = simple_selector_at(s, pos, blank_selector());
    let mark = scan_while(s, end, CharClass::Whitespace);
    lemma_simple_selector_end(s, pos, blank_selector());
    lemma_scan_forward(s, end, CharClass::Whitespace);
    lemma_scan_forward(s, mark + 1, CharClass::Whitespace);
}

/// The weights of a list of selectors, in order.
pub open spec fn weights(selectors: Seq<SelectorView>) -> Seq<Specificity> {
    Seq::new(selectors.len(), |i: int| selectors[i].specificity())
}

/// The selectors of a rule as the rule keeps them: the heaviest first,
/// those of equal weight in the order in which they were written.
pub open spec fn by_weight(selectors: Seq<SelectorView>) -> Seq<SelectorView> {
    arrange(selectors, stable_order(weights(selectors), true))
}

/// Whether the selectors stand the heaviest first.
pub open spec fn heaviest_first(selectors: Seq<SelectorView>) -> bool {
    forall|k: int, l: int|
        0 <= k < l < selectors.len() ==> !outranks(
            (#[trigger] selectors[l]).specificity(),
            (#[trigger] selectors[k]).specificity(),
        )
}

/// A rule keeps all the selectors that were written for it, and the
/// heaviest first.
pub proof fn lemma_by_weight(selectors: Seq<SelectorView>)
    ensures
        by_weight(selectors).len() == selectors.len(),
        heaviest_first(by_weight(selectors)),
        forall|i: int|
            0 <= i < selectors.len() ==> by_weight(selectors).contains(#[trigger] selectors[i]),
        forall|k: int|
            0 <= k < selectors.len() ==> selectors.contains(#[trigger] by_weight(selectors)[k]),
{
    let keys = weights(selectors);
    let order = stable_order(keys, true);
    let sorted = by_weight(selectors);
    lemma_stable_order(keys, keys.len() as int, true);
    assert forall|k: int, l: int| 0 <= k < l < sorted.len() implies !outranks(
        (#[trigger] sorted[l]).specificity(),
        (#[trigger] sorted[k]).specificity(),
    ) by {
        assert(0 <= order[k] < selectors.len() && 0 <= order[l] < selectors.len());
        assert(goes_before(keys[order[k]], keys[order[l]], true) || keys[order[k]]
            == keys[order[l]]);
    }
    assert forall|i: int| 0 <= i < selectors.len() implies sorted.contains(
        #[trigger] selectors[i],
    ) by {
        assert(order.contains(i));
        let k = choose|k: int| 0 <= k < order.len() && order[k] == i;
        assert(sorted[k] == selectors[i]);
    }
    assert forall|k: int| 0 <= k < selectors.len() implies selectors.contains(
        #[trigger] sorted[k],
    ) by {
        assert(0 <= order[k] < selectors.len());
        assert(selectors[order[k]] == sorted[k]);
    }
}

/// What a hexadecimal digit stands for.
pub open spec fn hex_value(c: char) -> Option<int> {
    if '0' <= c <= '9' {
        Some(c as int - '0' as int)
    } else if 'a' <= c <= 'f' {
        Some(c as int - 'a' as int + 10)
    } else if 'A' <= c <= 'F' {
        Some(c as int - 'A' as int + 10)
    } else {
        None
    }
}

/// The byte that the two hexadecimal digits at `pos` stand for.
pub open spec fn hex_pair_at(s: Seq<char>, pos: int) -> Result<u8, ParseError> {
    if !(0 <= pos && pos + 2 <= s.len()) {
        Err(ParseError::OutOfInput)
    } else {
        match (hex_value(s[pos]), hex_value(s[pos + 1])) {
            (Some(high), Some(low)) => Ok((16 * high + low) as u8),
            _ => Err(ParseError::MalformedInput),
        }
    }
}

/// The colour that stands at `pos`: `#` and six hexadecimal digits for
/// red, green and blue. It is opaque.
pub open spec fn color_at(s: Seq<char>, pos: int) -> Result<(ValueView, int), ParseError> {
    match expect_at(s, pos, '#') {
        Err(e) => Err(e),
        Ok(_) => match hex_pair_at(s, pos + 1) {
            Err(e) => Err(e),
            Ok(r) => match hex_pair_at(s, pos + 3) {
                Err(e) => Err(e),
                Ok(g) => match hex_pair_at(s, pos + 5) {
                    Err(e) => Err(e),
                    Ok(b) => Ok((ValueView::ColorVal(Color { r, g, b, a: 255 }), pos + 7)),
                },
            },
        },
    }
}

/// The length that stands at `pos`: a decimal numeral and the unit `px`.
pub open spec fn length_at(s: Seq<char>, pos: int) -> Result<(ValueView, int), ParseError> {
    let end = scan_while(s, pos, CharClass::Numeric);
    match expect_at(s, end, 'p') {
        Err(e) => Err(e),
        Ok(_) => match expect_at(s, end + 1, 'x') {
            Err(e) => Err(e),
            Ok(_) => if is_decimal(s.subrange(pos, end)) {
                Ok((ValueView::Length(s.subrange(pos, end), Unit::Px), end + 2))
            } else {
                Err(ParseError::MalformedInput)
            },
        },
    }
}

/// The value that stands at `pos`: a length where a digit stands, a
/// colour where a `#` stands, a keyword otherwise.
pub open spec fn value_at(s: Seq<char>, pos: int) -> Result<(ValueView, int), ParseError> {
    let word_end = scan_while(s, pos, CharClass::Identifier);
    match char_at(s, pos) {
        Err(e) => Err(e),
        Ok(c) => if is_digit(c) {
            length_at(s, pos)
        } else if c == '#' {
            color_at(s, pos)
        } else {
            Ok((ValueView::Keyword(s.subrange(pos, word_end)), word_end))
        },
    }
}

/// The declaration that stands at `pos`: a name, `:`, a value and `;`.
/// White space may stand before and after the `:` and before the `;`.
pub open spec fn declaration_at(s: Seq<char>, pos: int) -> Result<
    (DeclarationView, int),
    ParseError,
> {
    let name_end = scan_while(s, pos, CharClass::Identifier);
    let colon = scan_while(s, name_end, CharClass::Whitespace);
    let start = scan_while(s, colon + 1, CharClass::Whitespace);
    match expect_at(s, colon, ':') {
        Err(e) => Err(e),
        Ok(_) => match value_at(s, start) {
            Err(e) => Err(e),
            Ok((value, end)) => {
                let semicolon = scan_while(s, end, CharClass::Whitespace);
                match expect_at(s, semicolon, ';') {
                    Err(e) => Err(e),
                    Ok(_) => Ok(
                        (DeclarationView { name: s.subrange(pos, name_end), value }, semicolon + 1),
                    ),
                }
            },
        },
    }
}

/// A value ends at or after its start.
pub proof fn lemma_value_end(s: Seq<char>, pos: int)
    ensures
        value_at(s, pos) matches Ok((_, end)) ==> pos <= end,
{
    lemma_scan_forward(s, pos, CharClass::Identifier);
    lemma_scan_forward(s, pos, CharClass::Numeric);
}

/// A declaration ends inside the text and after its start.
pub proof fn lemma_declaration_end(s: Seq<char>, pos: int)
    ensures
        declaration_at(s, pos) matches Ok((_, end)) ==> pos < end <= s.len(),
{
    let name_end = scan_while(s, pos, CharClass::Identifier);
    let colon = scan_while(s, name_end, CharClass::Whitespace);
    let start = scan_while(s, colon + 1, CharClass::Whitespace);
    lemma_scan_forward(s, pos, CharClass::Identifier);
    lemma_scan_forward(s, name_end, CharClass::Whitespace);
    lemma_scan_forward(s, colon + 1, CharClass::Whitespace);
    lemma_value_end(s, start);
    if let Ok((_, end)) = value_at(s, start) {
        lemma_scan_forward(s, end, CharClass::Whitespace);
    }
}

/// The declarations that stand at `pos`, added to `declarations`, up to
/// the `}` that ends them, and the position after it. White space may
/// stand before each and before the `}`.
pub open spec fn declarations_at(
    s: Seq<char>,
    pos: int,
    declarations: Seq<DeclarationView>,
) -> Result<(Seq<DeclarationView>, int), ParseError>
    decreases s.len() - pos,
    via declarations_at_decreases
{
    let start = scan_while(s, pos, CharClass::Whitespace);
    match char_at(s, start) {
        Err(e) => Err(e),
        Ok(c) => if c == '}' {
            Ok((declarations, start + 1))
        } else {
            match declaration_at(s, start) {
                Err(e) => Err(e),
                Ok((declaration, end)) => declarations_at(s, end, declarations.push(declaration)),
            }
        },
    }
}

#[via_fn]
proof fn declarations_at_decreases(s: Seq<char>, pos: int, declarations: Seq<DeclarationView>) {
    let start = scan_while(s, pos, CharClass::Whitespace);
    lemma_scan_forward(s, pos, CharClass::Whitespace);
    lemma_declaration_end(s, start);
}

/// The declarations of a rule, which stand at `pos` between `{` and `}`,
/// and the position after the `}`.
pub open spec fn rule_body_at(s: Seq<char>, pos: int) -> Result<
    (Seq<DeclarationView>, int),
    ParseError,
> {
    match expect_at(s, pos, '{') {
        Err(e) => Err(e),
        Ok(_) => declarations_at(s, pos + 1, Seq::empty()),
    }
}

/// The rule that stands at `pos`, and the position after it: selectors
/// and the declarations.
pub open spec fn rule_at(s: Seq<char>, pos: int) -> Result<(RuleView, int), ParseError> {
    match selectors_at(s, pos, Seq::empty()) {
        Err(e) => Err(e),
        Ok((selectors, open)) => match rule_body_at(s, open) {
            Err(e) => Err(e),
            Ok((declarations, end)) => Ok(
                (RuleView { selectors: by_weight(selectors), declarations }, end),
            ),
        },
    }
}

/// A selector list ends on a `{` inside the text, at or after its start.
pub proof fn lemma_selectors_end(s: Seq<char>, pos: int, selectors: Seq<SelectorView>)
    ensures
        selectors_at(s, pos, selectors) matches Ok((found, end)) ==> pos <= end < s.len()
            && s[end] == '{' && found.len() > selectors.len(),
    decreases s.len() - pos,
{
    let (simple, end) = simple_selector_at(s, pos, blank_selector());
    let found = selectors.push(SelectorView::Simple(simple));
    let mark = scan_while(s, end, CharClass::Whitespace);
    lemma_simple_selector_end(s, pos, blank_selector());
    lemma_scan_forward(s, end, CharClass::Whitespace);
    lemma_scan_forward(s, mark + 1, CharClass::Whitespace);
    if char_at(s, mark) == Ok::<char, ParseError>(',') {
        lemma_selectors_end(s, scan_while(s, mark + 1, CharClass::Whitespace), found);
    }
}

/// A declaration list ends inside the text and after its start.
pub proof fn lemma_declarations_end(s: Seq<char>, pos: int, declarations: Seq<DeclarationView>)
    ensures
        declarations_at(s, pos, declarations) matches Ok((_, end)) ==> pos < end <= s.len(),
    decreases s.len() - pos,
{
    let start = scan_while(s, pos, CharClass::Whitespace);
    lemma_scan_forward(s, pos, CharClass::Whitespace);
    lemma_declaration_end(s, start);
    if let Ok(c) = char_at(s, start) {
        if c != '}' {
            if let Ok((declaration, end)) = declaration_at(s, start) {
                lemma_declarations_end(s, end, declarations.push(declaration));
            }
        }
    }
}

/// A rule ends inside the text and after its start, and has a selector.
pub proof fn lemma_rule_end(s: Seq<char>, pos: int)
    ensures
        rule_at(s, pos) matches Ok((rule, end)) ==> pos < end <= s.len() && rule.selectors.len()
            > 0,
{
    lemma_selectors_end(s, pos, Seq::empty());
    if let Ok((selectors, open)) = selectors_at(s, pos, Seq::empty()) {
        lemma_declarations_end(s, open + 1, Seq::empty());
    }
}

/// The rules that stand at `pos`, added to `rules`, up to the end of the
/// text. White space may stand before each and at the end.
pub open spec fn rules_at(s: Seq<char>, pos: int, rules: Seq<RuleView>) -> Result<
    Seq<RuleView>,
    ParseError,
>
    decreases s.len() - pos,
    via rules_at_decreases
{
    let start = scan_while(s, pos, CharClass::Whitespace);
    if start >= s.len() {
        Ok(rules)
    } else {
        match rule_at(s, start) {
            Err(e) => Err(e),
            Ok((rule, end)) => rules_at(s, end, rules.push(rule)),
        }
    }
}

#[via_fn]
proof fn rules_at_decreases(s: Seq<char>, pos: int, rules: Seq<RuleView>) {
    let start = scan_while(s, pos, CharClass::Whitespace);
    lemma_scan_forward(s, pos, CharClass::Whitespace);
    lemma_rule_end(s, start);
}

/// The stylesheet that a text holds: its rules in source order.
pub open spec fn stylesheet(s: Seq<char>) -> Result<StylesheetView, ParseError> {
    match rules_at(s, 0, Seq::empty()) {
        Err(e) => Err(e),
        Ok(rules) => Ok(StylesheetView { rules }),
    }
}

/// Whether a rule has a selector, and its selectors stand the heaviest
/// first.
pub open spec fn is_ordered_rule(rule: RuleView) -> bool {
    rule.selectors.len() > 0 && heaviest_first(rule.selectors)
}

proof fn lemma_rules_are_ordered(s: Seq<char>, pos: int, rules: Seq<RuleView>)
    requires
        forall|i: int| 0 <= i < rules.len() ==> is_ordered_rule(#[trigger] rules[i]),
    ensures
        rules_at(s, pos, rules) matches Ok(all) ==> forall|i: int|
            0 <= i < all.len() ==> is_ordered_rule(#[trigger] all[i]),
    decreases s.len() - pos,
{
    let start = scan_while(s, pos, CharClass::Whitespace);
    lemma_scan_forward(s, pos, CharClass::Whitespace);
    lemma_rule_end(s, start);
    if start < s.len() {
        if let Ok((rule, end)) = rule_at(s, start) {
            let found = selectors_at(s, start, Seq::empty()).unwrap().0;
            lemma_selectors_end(s, start, Seq::empty());
            lemma_by_weight(found);
            assert(is_ordered_rule(rule));
            lemma_rules_are_ordered(s, end, rules.push(rule));
        }
    }
}

/// Every rule of a stylesheet that parses has a selector, and keeps its
/// selectors the heaviest first.
pub proof fn lemma_parsed_rules_are_ordered(s: Seq<char>)
    requires
        stylesheet(s) is Ok,
    ensures
        forall|i: int|
            0 <= i < stylesheet(s).unwrap().rules.len() ==> is_ordered_rule(
                #[trigger] stylesheet(s).unwrap().rules[i],
            ),
{
    lemma_rules_are_ordered(s, 0, Seq::empty());
}

/// Whether `c` may stand in an identifier: an ASCII letter or digit, `-`
/// or `_`.
pub fn valid_identifier_char(c: char) -> (b: bool)
    ensures
        b == CharClass::Identifier.contains(c),
{
    CharClass::Identifier.holds(c)
}

/// The number that a hexadecimal digit stands for.
fn hex_digit(c: char) -> (r: Option<u8>)
    ensures
        match r {
            Some(value) => hex_value(c) == Some(value as int) && value < 16,
            None => hex_value(c) is None,
        },
{
    let n: u32 = c as u32;
    if '0' <= c && c <= '9' {
        Some((n - 0x30) as u8)
    } else if 'a' <= c && c <= 'f' {
        Some((n - 0x61 + 10) as u8)
    } else if 'A' <= c && c <= 'F' {
        Some((n - 0x41 + 10) as u8)
    } else {
        None
    }
}

fn parse_identifier(sc: &mut Scanner) -> (word: String)
    requires
        0 <= old(sc).position() <= old(sc).source().len(),
    ensures
        final(sc).source() == old(sc).source(),
        old(sc).position() <= final(sc).position() <= final(sc).source().len(),
        final(sc).position() == scan_while(
            old(sc).source(),
            old(sc).position(),
            CharClass::Identifier,
        ),
        word@ == old(sc).source().subrange(old(sc).position(), final(sc).position()),
{
    sc.consume_while(CharClass::Identifier)
}

fn parse_hex_pair(sc: &mut Scanner) -> (r: Result<u8, ParseError>)
    requires
        0 <= old(sc).position() <= old(sc).source().len(),
    ensures
        final(sc).source() == old(sc).source(),
        old(sc).position() <= final(sc).position() <= final(sc).source().len(),
        r == hex_pair_at(old(sc).source(), old(sc).position()),
        r is Ok ==> final(sc).position() == old(sc).position() + 2,
{
    let high = sc.consume_char()?;
    let low = sc.consume_char()?;
    match (hex_digit(high), hex_digit(low)) {
        (Some(h), Some(l)) => Ok(h * 16 + l),
        _ => Err(ParseError::MalformedInput),
    }
}

fn parse_color(sc: &mut Scanner) -> (r: Result<CSSValue, ParseError>)
    requires
        0 <= old(sc).position() <= old(sc).source().len(),
    ensures
        final(sc).source() == old(sc).source(),
        old(sc).position() <= final(sc).position() <= final(sc).source().len(),
        match color_at(old(sc).source(), old(sc).position()) {
            Ok((value, end)) => r is Ok && r.unwrap()@ == value && final(sc).position() == end,
            Err(e) => r == Err::<CSSValue, ParseError>(e),
        },
{
    sc.expect('#')?;
    let r = parse_hex_pair(sc)?;
    let g = parse_hex_pair(sc)?;
    let b = parse_hex_pair(sc)?;
    Ok(CSSValue::ColorVal(Color { r, g, b, a: 255 }))
}

fn parse_length(sc: &mut Scanner) -> (r: Result<CSSValue, ParseError>)
    requires
        0 <= old(sc).position() <= old(sc).source().len(),
    ensures
        final(sc).source() == old(sc).source(),
        old(sc).position() <= final(sc).position() <= final(sc).source().len(),
        match length_at(old(sc).source(), old(sc).position()) {
            Ok((value, end)) => r is Ok && r.unwrap()@ == value && final(sc).position() == end,
            Err(e) => r == Err::<CSSValue, ParseError>(e),
        },
{
    let numeral = sc.consume_while(CharClass::Numeric);
    sc.expect('p')?;
    sc.expect('x')?;
    match Decimal::new(numeral) {
        Some(number) => Ok(CSSValue::Length(number, Unit::Px)),
        None => Err(ParseError::MalformedInput),
    }
}

fn parse_value(sc: &mut Scanner) -> (r: Result<CSSValue, ParseError>)
    requires
        0 <= old(sc).position() <= old(sc).source().len(),
    ensures
        final(sc).source() == old(sc).source(),
        old(sc).position() <= final(sc).position() <= final(sc).source().len(),
        match value_at(old(sc).source(), old(sc).position()) {
            Ok((value, end)) => r is Ok && r.unwrap()@ == value && final(sc).position() == end,
            Err(e) => r == Err::<CSSValue, ParseError>(e),
        },
{
    let c = sc.next_char()?;
    if '0' <= c && c <= '9' {
        parse_length(sc)
    } else if c == '#' {
        parse_color(sc)
    } else {
        Ok(CSSValue::Keyword(parse_identifier(sc)))
    }
}

fn parse_single_declaration(sc: &mut Scanner) -> (r: Result<Declaration, ParseError>)
    requires
        0 <= old(sc).position() <= old(sc).source().len(),
    ensures
        final(sc).source() == old(sc).source(),
        old(sc).position() <= final(sc).position() <= final(sc).source().len(),
        match declaration_at(old(sc).source(), old(sc).position()) {
            Ok((declaration, end)) => r is Ok && r.unwrap()@ == declaration
                && final(sc).position() == end,
            Err(e) => r == Err::<Declaration, ParseError>(e),
        },
{
    let property = parse_identifier(sc);
    sc.consume_whitespace();
    sc.expect(':')?;
    sc.consume_whitespace();
    let value = parse_value(sc)?;
    sc.consume_whitespace();
    sc.expect(';')?;
    Ok(Declaration { name: property, value: value })
}

fn parse_declarations(sc: &mut Scanner) -> (r: Result<Vec<Declaration>, ParseError>)
    requires
        0 <= old(sc).position() <= old(sc).source().len(),
    ensures
        final(sc).source() == old(sc).source(),
        old(sc).position() <= final(sc).position() <= final(sc).source().len(),
        match rule_body_at(old(sc).source(), old(sc).position()) {
            Ok((declarations, end)) => r is Ok && views_of(r.unwrap()@) == declarations
                && final(sc).position() == end,
            Err(e) => r == Err::<Vec<Declaration>, ParseError>(e),
        },
{
    sc.expect('{')?;
    let ghost s = sc.source();
    let ghost start = sc.position();
    let mut declarations: Vec<Declaration> = Vec::new();
    assert(views_of(declarations@) =~= Seq::empty());
    loop
        invariant_except_break
            declarations_at(s, start, Seq::empty()) == declarations_at(
                s,
                sc.position(),
                views_of(declarations@),
            ),
        invariant
            sc.source() == s,
            s == old(sc).source(),
            start == old(sc).position() + 1,
            start <= sc.position() <= s.len(),
            rule_body_at(s, start - 1) == declarations_at(s, start, Seq::empty()),
        ensures
            declarations_at(s, start, Seq::empty()) == Ok::<
                (Seq<DeclarationView>, int),
                ParseError,
            >((views_of(declarations@), sc.position())),
        decreases s.len() - sc.position(),
    {
        sc.consume_whitespace();
        if sc.next_char()? == '}' {
            sc.consume_char()?;
            break ;
        }
        proof {
            lemma_declaration_end(s, sc.position());
        }
        let ghost before = views_of(declarations@);
        let declaration = parse_single_declaration(sc)?;
        declarations.push(declaration);
        assert(views_of(declarations@) =~= before.push(declaration@));
    }
    Ok(declarations)
}

fn parse_simple_selector(sc: &mut Scanner) -> (selector: SimpleSelector)
    requires
        0 <= old(sc).position() <= old(sc).source().len(),
    ensures
        final(sc).source() == old(sc).source(),
        old(sc).position() <= final(sc).position() <= final(sc).source().len(),
        (selector@, final(sc).position()) == simple_selector_at(
            old(sc).source(),
            old(sc).position(),
            blank_selector(),
        ),
{
    let ghost s = sc.source();
    let ghost start = sc.position();
    let mut selector = SimpleSelector { tag: None, id: None, class: Vec::new() };
    assert(selector@ =~= blank_selector()) by {
        assert(views_of(selector.class@) =~= Seq::empty());
    }
    loop
        invariant_except_break
            simple_selector_at(s, start, blank_selector()) == simple_selector_at(
                s,
                sc.position(),
                selector@,
            ),
        invariant
            sc.source() == s,
            s == old(sc).source(),
            start == old(sc).position(),
            0 <= start <= sc.position() <= s.len(),
        ensures
            simple_selector_at(s, start, blank_selector()) == (selector@, sc.position()),
        decreases s.len() - sc.position(),
    {
        proof {
            lemma_scan_forward(s, sc.position() + 1, CharClass::Identifier);
        }
        let c = match sc.next_char() {
            Ok(c) => c,
            Err(_) => {
                break ;
            },
        };
        if c == '#' {
            let _ = sc.consume_char();
            selector.id = Some(parse_identifier(sc));
        } else if c == '.' {
            let _ = sc.consume_char();
            let ghost before = views_of(selector.class@);
            let word = parse_identifier(sc);
            selector.class.push(word);
            assert(views_of(selector.class@) =~= before.push(word@));
        } else if c == '*' {
            let _ = sc.consume_char();
        } else if valid_identifier_char(c) {
            selector.tag = Some(parse_identifier(sc));
        } else {
            break ;
        }
    }
    selector
}

fn parse_selectors(sc: &mut Scanner) -> (r: Result<Vec<Selector>, ParseError>)
    requires
        0 <= old(sc).position() <= old(sc).source().len(),
    ensures
        final(sc).source() == old(sc).source(),
        old(sc).position() <= final(sc).position() <= final(sc).source().len(),
        match selectors_at(old(sc).source(), old(sc).position(), Seq::empty()) {
            Ok((selectors, end)) => r is Ok && views_of(r.unwrap()@) == by_weight(selectors)
                && final(sc).position() == end,
            Err(e) => r == Err::<Vec<Selector>, ParseError>(e),
        },
{
    let ghost s = sc.source();
    let ghost start = sc.position();
    let mut selectors: Vec<Selector> = Vec::new();
    assert(views_of(selectors@) =~= Seq::empty());
    loop
        invariant_except_break
            selectors_at(s, start, Seq::empty()) == selectors_at(
                s,
                sc.position(),
                views_of(selectors@),
            ),
        invariant
            sc.source() == s,
            s == old(sc).source(),
            start == old(sc).position(),
            0 <= start <= sc.position() <= s.len(),
        ensures
            selectors_at(s, start, Seq::empty()) == Ok::<(Seq<SelectorView>, int), ParseError>(
                (views_of(selectors@), sc.position()),
            ),
        decreases s.len() - sc.position(),
    {
        let ghost before = views_of(selectors@);
        let simple = parse_simple_selector(sc);
        selectors.push(Selector::Simple(simple));
        assert(views_of(selectors@) =~= before.push(SelectorView::Simple(simple@)));
        sc.consume_whitespace();
        let c = sc.next_char()?;
        if c == ',' {
            let _ = sc.consume_char();
            sc.consume_whitespace();
        } else if c == '{' {
            break ;
        } else {
            return Err(ParseError::MalformedInput);
        }
    }
    let ghost unsorted = selectors@;
    stable_sort(&mut selectors, true);
    proof {
        assert(ranks(unsorted) =~= weights(views_of(unsorted)));
        lemma_stable_order(weights(views_of(unsorted)), unsorted.len() as int, true);
        assert(views_of(selectors@) =~= by_weight(views_of(unsorted)));
    }
    Ok(selectors)
}

fn parse_rule(sc: &mut Scanner) -> (r: Result<Rule, ParseError>)
    requires
        0 <= old(sc).position() <= old(sc).source().len(),
    ensures
        final(sc).source() == old(sc).source(),
        old(sc).position() <= final(sc).position() <= final(sc).source().len(),
        match rule_at(old(sc).source(), old(sc).position()) {
            Ok((rule, end)) => r is Ok && r.unwrap()@ == rule && final(sc).position() == end,
            Err(e) => r == Err::<Rule, ParseError>(e),
        },
{
    let selectors = parse_selectors(sc)?;
    let declarations = parse_declarations(sc)?;
    Ok(Rule { selectors, declarations })
}

fn parse_rules(sc: &mut Scanner) -> (r: Result<Vec<Rule>, ParseError>)
    requires
        0 <= old(sc).position() <= old(sc).source().len(),
    ensures
        final(sc).source() == old(sc).source(),
        match rules_at(old(sc).source(), old(sc).position(), Seq::empty()) {
            Ok(rules) => r is Ok && views_of(r.unwrap()@) == rules,
            Err(e) => r == Err::<Vec<Rule>, ParseError>(e),
        },
{
    let ghost s = sc.source();
    let ghost start = sc.position();
    let mut rules: Vec<Rule> = Vec::new();
    assert(views_of(rules@) =~= Seq::empty());
    loop
        invariant_except_break
            rules_at(s, start, Seq::empty()) == rules_at(s, sc.position(), views_of(rules@)),
        invariant
            sc.source() == s,
            s == old(sc).source(),
            start == old(sc).position(),
            0 <= start <= sc.position() <= s.len(),
        ensures
            rules_at(s, start, Seq::empty()) == Ok::<Seq<RuleView>, ParseError>(views_of(rules@)),
        decreases s.len() - sc.position(),
    {
        sc.consume_whitespace();
        if sc.eof() {
            break ;
        }
        proof {
            lemma_rule_end(s, sc.position());
        }
        let ghost before = views_of(rules@);
        let rule = parse_rule(sc)?;
        rules.push(rule);
        assert(views_of(rules@) =~= before.push(rule@));
    }
    Ok(rules)
}

/// Parses a stylesheet. The result holds the rules of `input` in source
/// order, each with its selectors sorted, the heaviest first; a text that
/// breaks the grammar is rejected with the first violation, and nothing of
/// it is returned.
pub fn parse(input: String) -> (r: Result<Stylesheet, ParseError>)
    ensures
        match stylesheet(input@) {
            Ok(sheet) => r is Ok && r.unwrap()@ == sheet,
            Err(e) => r == Err::<Stylesheet, ParseError>(e),
        },
{
    let mut sc = Scanner::new(input.as_str());
    let rules = parse_rules(&mut sc)?;
    Ok(Stylesheet { rules })
}

/// The hexadecimal digit for a number below sixteen.
pub open spec fn hex_digit_of(n: int) -> char {
    if n == 0 {
        '0'
    } else if n == 1 {
        '1'
    } else if n == 2 {
        '2'
    } else if n == 3 {
        '3'
    } else if n == 4 {
        '4'
    } else if n == 5 {
        '5'
    } else if n == 6 {
        '6'
    } else if n == 7 {
        '7'
    } else if n == 8 {
        '8'
    } else if n == 9 {
        '9'
    } else if n == 10 {
        'a'
    } else if n == 11 {
        'b'
    } else if n == 12 {
        'c'
    } else if n == 13 {
        'd'
    } else if n == 14 {
        'e'
    } else {
        'f'
    }
}

/// The two hexadecimal digits of a byte.
pub open spec fn hex_pair_of(byte: u8) -> Seq<char> {
    seq![hex_digit_of(byte as int / 16), hex_digit_of(byte as int % 16)]
}

/// A value as it is shown: a length with its unit; a colour as `#` and
/// two hexadecimal digits each for red, green and blue, and for alpha
/// where it is not opaque; a keyword as it is.
pub open spec fn value_text(value: ValueView) -> Seq<char> {
    match value {
        ValueView::Length(number, unit) => number + "px"@,
        ValueView::ColorVal(color) => seq!['#'] + hex_pair_of(color.r) + hex_pair_of(color.g)
            + hex_pair_of(color.b) + if color.a == 255 {
            Seq::empty()
        } else {
            hex_pair_of(color.a)
        },
        ValueView::Keyword(word) => word,
    }
}

/// The first `count` classes of a selector as they are shown: each after
/// a `.`.
pub open spec fn classes_text(classes: Seq<Seq<char>>, count: int) -> Seq<char>
    decreases count,
{
    if count <= 0 {
        Seq::empty()
    } else {
        classes_text(classes, count - 1) + seq!['.'] + classes[count - 1]
    }
}

/// A selector as it is shown: the tag name, or `*` where it asks for
/// none, then `#` and the id, then the classes.
pub open spec fn selector_text(selector: SelectorView) -> Seq<char> {
    match selector {
        SelectorView::Simple(simple) => (match simple.tag {
            Some(tag) => tag,
            None => seq!['*'],
        }) + (match simple.id {
            Some(id) => seq!['#'] + id,
            None => Seq::empty(),
        }) + classes_text(simple.class, simple.class.len() as int),
    }
}

/// The first `count` selectors of a rule as they are shown: with `, `
/// between them.
pub open spec fn selectors_text(selectors: Seq<SelectorView>, count: int) -> Seq<char>
    decreases count,
{
    if count <= 0 {
        Seq::empty()
    } else if count == 1 {
        selector_text(selectors[0])
    } else {
        selectors_text(selectors, count - 1) + ", "@ + selector_text(selectors[count - 1])
    }
}

/// The first `count` declarations of a rule as they are shown: each on a
/// line of its own, four spaces in: the name, `: `, the value and `;`.
pub open spec fn declarations_text(declarations: Seq<DeclarationView>, count: int) -> Seq<char>
    decreases count,
{
    if count <= 0 {
        Seq::empty()
    } else {
        declarations_text(declarations, count - 1) + "    "@ + declarations[count - 1].name
            + ": "@ + value_text(declarations[count - 1].value) + seq![';', '\n']
    }
}

/// A rule as it is shown: the selectors and ` {` on one line, the
/// declarations, and `}` on a line of its own.
pub open spec fn rule_text(rule: RuleView) -> Seq<char> {
    selectors_text(rule.selectors, rule.selectors.len() as int) + seq![' ', '{', '\n']
        + declarations_text(rule.declarations, rule.declarations.len() as int) + seq!['}', '\n']
}

/// The first `count` rules of a stylesheet as they are shown, one after
/// the other.
pub open spec fn rules_text(rules: Seq<RuleView>, count: int) -> Seq<char>
    decreases count,
{
    if count <= 0 {
        Seq::empty()
    } else {
        rules_text(rules, count - 1) + rule_text(rules[count - 1])
    }
}

fn hex_digit_char(n: u8) -> (c: char)
    requires
        n < 16,
    ensures
        c == hex_digit_of(n as int),
{
    if n == 0 {
        '0'
    } else if n == 1 {
        '1'
    } else if n == 2 {
        '2'
    } else if n == 3 {
        '3'
    } else if n == 4 {
        '4'
    } else if n == 5 {
        '5'
    } else if n == 6 {
        '6'
    } else if n == 7 {
        '7'
    } else if n == 8 {
        '8'
    } else if n == 9 {
        '9'
    } else if n == 10 {
        'a'
    } else if n == 11 {
        'b'
    } else if n == 12 {
        'c'
    } else if n == 13 {
        'd'
    } else if n == 14 {
        'e'
    } else {
        'f'
    }
}

fn write_hex_pair(byte: u8, out: &mut String)
    ensures
        final(out)@ == old(out)@ + hex_pair_of(byte),
{
    out.push(hex_digit_char(byte / 16));
    out.push(hex_digit_char(byte % 16));
    assert(out@ =~= old(out)@ + hex_pair_of(byte));
}

fn write_value(value: &CSSValue, out: &mut String)
    ensures
        final(out)@ == old(out)@ + value_text(value@),
{
    match value {
        CSSValue::Length(number, unit) => {
            out.append(number.as_str());
            out.append("px");
            assert(out@ =~= old(out)@ + value_text(value@));
        },
        CSSValue::ColorVal(color) => {
            out.push('#');
            write_hex_pair(color.r, out);
            write_hex_pair(color.g, out);
            write_hex_pair(color.b, out);
            if color.a != 255 {
                write_hex_pair(color.a, out);
            }
            assert(out@ =~= old(out)@ + value_text(value@));
        },
        CSSValue::Keyword(word) => {
            out.append(word.as_str());
        },
    }
}

fn write_selector(selector: &Selector, out: &mut String)
    ensures
        final(out)@ == old(out)@ + selector_text(selector@),
{
    match selector {
        Selector::Simple(simple) => {
            match &simple.tag {
                Some(tag) => out.append(tag.as_str()),
                None => out.push('*'),
            }
            if let Some(id) = &simple.id {
                out.push('#');
                out.append(id.as_str());
            }
            let ghost head = out@;
            let mut k: usize = 0;
            while k < simple.class.len()
                invariant
                    k <= simple.class@.len(),
                    simple@.class.len() == simple.class@.len(),
                    out@ == head + classes_text(simple@.class, k as int),
                decreases simple.class@.len() - k,
            {
                out.push('.');
                out.append(simple.class[k].as_str());
                k += 1;
                assert(out@ =~= head + classes_text(simple@.class, k as int));
            }
            assert(out@ =~= old(out)@ + selector_text(selector@));
        },
    }
}

fn write_rule(rule: &Rule, out: &mut String)
    ensures
        final(out)@ == old(out)@ + rule_text(rule@),
{
    let mut k: usize = 0;
    while k < rule.selectors.len()
        invariant
            k <= rule.selectors@.len(),
            rule@.selectors.len() == rule.selectors@.len(),
            out@ == old(out)@ + selectors_text(rule@.selectors, k as int),
        decreases rule.selectors@.len() - k,
    {
        if k > 0 {
            out.append(", ");
        }
        assert(rule@.selectors[k as int] == rule.selectors@[k as int]@);
        write_selector(&rule.selectors[k], out);
        k += 1;
        assert(out@ =~= old(out)@ + selectors_text(rule@.selectors, k as int));
    }
    out.push(' ');
    out.push('{');
    out.push('\n');
    let ghost head = out@;
    let mut j: usize = 0;
    while j < rule.declarations.len()
        invariant
            j <= rule.declarations@.len(),
            rule@.declarations.len() == rule.declarations@.len(),
            out@ == head + declarations_text(rule@.declarations, j as int),
        decreases rule.declarations@.len() - j,
    {
        let declaration = &rule.declarations[j];
        assert(rule@.declarations[j as int] == declaration@);
        out.append("    ");
        out.append(declaration.name.as_str());
        out.append(": ");
        write_value(&declaration.value, out);
        out.push(';');
        out.push('\n');
        j += 1;
        assert(out@ =~= head + declarations_text(rule@.declarations, j as int));
    }
    out.push('}');
    out.push('\n');
    assert(out@ =~= old(out)@ + rule_text(rule@));
}

impl Stylesheet {
    /// A readable dump of the stylesheet, rule by rule.
    pub fn pretty_print(&self) -> (out: String)
        ensures
            out@ == rules_text(self@.rules, self@.rules.len() as int),
    {
        let mut out = String::new();
        let mut i: usize = 0;
        while i < self.rules.len()
            invariant
                i <= self.rules@.len(),
                self@.rules.len() == self.rules@.len(),
                out@ == rules_text(self@.rules, i as int),
            decreases self.rules@.len() - i,
        {
            assert(self@.rules[i as int] == self.rules@[i as int]@);
            write_rule(&self.rules[i], &mut out);
            i += 1;
        }
        out
    }
}

} // verus!
