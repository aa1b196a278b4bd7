//! Well-formed stylesheets, stated without the parser: what is written for
//! a list of rules. Every such text parses, and to those rules.
use vstd::prelude::*;
use crate::css_parser::{
    blank_selector, by_weight, declaration_at, declarations_at, hex_pair_at, hex_value, is_decimal,
    lemma_selectors_end, rule_at, rules_at, selectors_at, simple_selector_at, stylesheet, value_at,
    Color, DeclarationView, RuleView, SelectorView, SimpleSelectorView, StylesheetView, Unit,
    ValueView,
};
use crate::error::ParseError;
use crate::scanner::{all_in, has_prefix_at, lemma_parts, lemma_run, lemma_stands};
use crate::text::{is_digit, CharClass};

verus! {

/// One part of a simple selector as it is written.
pub enum SelectorPart {
    /// `#` and an id.
    Id(Seq<char>),
    /// `.` and a class.
    Class(Seq<char>),
    /// A tag name.
    Tag(Seq<char>),
    /// `*`.
    Universal,
}

/// A selector as it is written: white space, the parts, white space.
pub struct SelectorSyntax {
    pub lead: Seq<char>,
    pub parts: Seq<SelectorPart>,
    pub gap: Seq<char>,
}

/// A value as it is written.
pub enum ValueSyntax {
    /// A decimal numeral, before the unit `px`.
    Length(Seq<char>),
    /// Six hexadecimal digits, after a `#`.
    Color(Seq<char>),
    /// A keyword.
    Keyword(Seq<char>),
}

/// A declaration as it is written: white space, the name, white space,
/// `:`, white space, the value, white space and `;`.
pub struct DeclarationSyntax {
    pub lead: Seq<char>,
    pub name: Seq<char>,
    pub before_colon: Seq<char>,
    pub after_colon: Seq<char>,
    pub value: ValueSyntax,
    pub before_semicolon: Seq<char>,
}

/// A rule as it is written: the selectors with a `,` between them, `{`,
/// the declarations, white space and `}`.
pub struct RuleSyntax {
    pub selectors: Seq<SelectorSyntax>,
    pub declarations: Seq<DeclarationSyntax>,
    pub tail: Seq<char>,
}

/// The text of one part of a selector.
pub open spec fn written_part(part: SelectorPart) -> Seq<char> {
    match part {
        SelectorPart::Id(name) => seq!['#'] + name,
        SelectorPart::Class(name) => seq!['.'] + name,
        SelectorPart::Tag(name) => name,
        SelectorPart::Universal => seq!['*'],
    }
}

/// The text of the parts from index `from` on.
pub open spec fn written_parts(parts: Seq<SelectorPart>, from: int) -> Seq<char>
    decreases parts.len() - from,
{
    if from < 0 || from >= parts.len() {
        Seq::empty()
    } else {
        written_part(parts[from]) + written_parts(parts, from + 1)
    }
}

/// The text of the selectors from index `from` on, after the white space
/// before the first of them, and the `{` that ends them.
pub open spec fn written_selectors(selectors: Seq<SelectorSyntax>, from: int) -> Seq<char>
    decreases selectors.len() - from,
{
    if from < 0 || from >= selectors.len() {
        Seq::empty()
    } else {
        written_parts(selectors[from].parts, 0) + (selectors[from].gap + if from + 1
            < selectors.len() {
            seq![','] + (selectors[from + 1].lead + written_selectors(selectors, from + 1))
        } else {
            seq!['{']
        })
    }
}

/// The text of a value.
pub open spec fn written_value(value: ValueSyntax) -> Seq<char> {
    match value {
        ValueSyntax::Length(numeral) => numeral + seq!['p', 'x'],
        ValueSyntax::Color(digits) => seq!['#'] + digits,
        ValueSyntax::Keyword(word) => word,
    }
}

/// The text of a declaration after the white space before it.
pub open spec fn written_declaration(d: DeclarationSyntax) -> Seq<char> {
    d.name + (d.before_colon + (seq![':'] + (d.after_colon + (written_value(d.value) + (
    d.before_semicolon + seq![';'])))))
}

/// The text of the declarations from index `from` on.
pub open spec fn written_declarations(declarations: Seq<DeclarationSyntax>, from: int) -> Seq<
    char,
>
    decreases declarations.len() - from,
{
    if from < 0 || from >= declarations.len() {
        Seq::empty()
    } else {
        declarations[from].lead + (written_declaration(declarations[from]) + written_declarations(
            declarations,
            from + 1,
        ))
    }
}

/// The text of a rule after the white space before it.
pub open spec fn written_rule(rule: RuleSyntax) -> Seq<char> {
    written_selectors(rule.selectors, 0) + (written_declarations(rule.declarations, 0) + (rule.tail
        + seq!['}']))
}

/// The text of the rules from index `from` on.
pub open spec fn written_rules(rules: Seq<RuleSyntax>, from: int) -> Seq<char>
    decreases rules.len() - from,
{
    if from < 0 || from >= rules.len() {
        Seq::empty()
    } else {
        rules[from].selectors[0].lead + (written_rule(rules[from]) + written_rules(rules, from + 1))
    }
}

/// The text of a stylesheet: its rules and white space at the end.
pub open spec fn written_stylesheet(rules: Seq<RuleSyntax>, tail: Seq<char>) -> Seq<char> {
    written_rules(rules, 0) + tail
}

/// What a selector asks for once `part` has been read into it.
pub open spec fn with_part(selector: SimpleSelectorView, part: SelectorPart) -> SimpleSelectorView {
    match part {
        SelectorPart::Id(name) => SimpleSelectorView { id: Some(name), ..selector },
        SelectorPart::Class(name) => SimpleSelectorView {
            class: selector.class.push(name),
            ..selector
        },
        SelectorPart::Tag(name) => SimpleSelectorView { tag: Some(name), ..selector },
        SelectorPart::Universal => selector,
    }
}

/// What the first `count` parts of a selector ask for.
pub open spec fn selector_after(parts: Seq<SelectorPart>, count: int) -> SimpleSelectorView
    decreases count,
{
    if count <= 0 {
        blank_selector()
    } else {
        with_part(selector_after(parts, count - 1), parts[count - 1])
    }
}

/// The selectors that a list of written selectors stands for.
pub open spec fn selectors_of(selectors: Seq<SelectorSyntax>) -> Seq<SelectorView> {
    Seq::new(
        selectors.len(),
        |k: int|
            SelectorView::Simple(
                selector_after(selectors[k].parts, selectors[k].parts.len() as int),
            ),
    )
}

/// The byte that two hexadecimal digits stand for.
pub open spec fn byte_of(high: char, low: char) -> u8 {
    (16 * hex_value(high).unwrap() + hex_value(low).unwrap()) as u8
}

/// The value that a written value stands for.
pub open spec fn value_of(value: ValueSyntax) -> ValueView {
    match value {
        ValueSyntax::Length(numeral) => ValueView::Length(numeral, Unit::Px),
        ValueSyntax::Color(digits) => ValueView::ColorVal(
            Color {
                r: byte_of(digits[0], digits[1]),
                g: byte_of(digits[2], digits[3]),
                b: byte_of(digits[4], digits[5]),
                a: 255,
            },
        ),
        ValueSyntax::Keyword(word) => ValueView::Keyword(word),
    }
}

/// The declarations that a list of written declarations stands for.
pub open spec fn declarations_of(declarations: Seq<DeclarationSyntax>) -> Seq<DeclarationView> {
    Seq::new(
        declarations.len(),
        |k: int|
            DeclarationView { name: declarations[k].name, value: value_of(declarations[k].value) },
    )
}

/// The rule that a written rule stands for: its selectors the heaviest
/// first, its declarations as they are written.
pub open spec fn rule_of(rule: RuleSyntax) -> RuleView {
    RuleView {
        selectors: by_weight(selectors_of(rule.selectors)),
        declarations: declarations_of(rule.declarations),
    }
}

/// The rules that a list of written rules stands for.
pub open spec fn rules_of(rules: Seq<RuleSyntax>) -> Seq<RuleView> {
    Seq::new(rules.len(), |k: int| rule_of(rules[k]))
}

/// Whether `name` is an identifier of one or more characters.
pub open spec fn is_identifier(name: Seq<char>) -> bool {
    name.len() > 0 && all_in(name, CharClass::Identifier)
}

/// Whether the parts of a selector are well written: there is one at
/// least, each name is an identifier, and a tag name stands first or
/// after a `*`, so that it does not run on from the name before it.
pub open spec fn well_formed_parts(parts: Seq<SelectorPart>) -> bool {
    &&& parts.len() > 0
    &&& forall|k: int|
        0 <= k < parts.len() ==> match #[trigger] parts[k] {
            SelectorPart::Id(name) => is_identifier(name),
            SelectorPart::Class(name) => is_identifier(name),
            SelectorPart::Tag(name) => is_identifier(name) && (k == 0 || parts[k - 1] is Universal),
            SelectorPart::Universal => true,
        }
}

/// Whether a selector is well written.
pub open spec fn well_formed_selector(selector: SelectorSyntax) -> bool {
    &&& all_in(selector.lead, CharClass::Whitespace)
    &&& well_formed_parts(selector.parts)
    &&& all_in(selector.gap, CharClass::Whitespace)
}

/// Whether a value is well written: a length is a decimal numeral, a
/// colour six hexadecimal digits, a keyword an identifier that begins with
/// no digit.
pub open spec fn well_formed_value(value: ValueSyntax) -> bool {
    match value {
        ValueSyntax::Length(numeral) => is_decimal(numeral),
        ValueSyntax::Color(digits) => digits.len() == 6 && forall|i: int|
            0 <= i < 6 ==> hex_value(#[trigger] digits[i]) is Some,
        ValueSyntax::Keyword(word) => is_identifier(word) && !is_digit(word[0]),
    }
}

/// Whether a declaration is well written.
pub open spec fn well_formed_declaration(d: DeclarationSyntax) -> bool {
    &&& all_in(d.lead, CharClass::Whitespace)
    &&& is_identifier(d.name)
    &&& all_in(d.before_colon, CharClass::Whitespace)
    &&& all_in(d.after_colon, CharClass::Whitespace)
    &&& well_formed_value(d.value)
    &&& all_in(d.before_semicolon, CharClass::Whitespace)
}

/// Whether a rule is well written: it has a selector, and its selectors
/// and declarations are well written.
pub open spec fn well_formed_rule(rule: RuleSyntax) -> bool {
    &&& rule.selectors.len() > 0
    &&& forall|k: int|
        0 <= k < rule.selectors.len() ==> well_formed_selector(#[trigger] rule.selectors[k])
    &&& forall|k: int|
        0 <= k < rule.declarations.len() ==> well_formed_declaration(
            #[trigger] rule.declarations[k],
        )
    &&& all_in(rule.tail, CharClass::Whitespace)
}

/// Whether a stylesheet is well written.
pub open spec fn well_formed_stylesheet(rules: Seq<RuleSyntax>, tail: Seq<char>) -> bool {
    &&& forall|k: int| 0 <= k < rules.len() ==> well_formed_rule(#[trigger] rules[k])
    &&& all_in(tail, CharClass::Whitespace)
}

/// Whether a character can follow a simple selector: it begins no part.
pub open spec fn ends_selector(c: char) -> bool {
    c != '#' && c != '.' && c != '*' && !CharClass::Identifier.contains(c)
}

/// The parts of a well written selector parse, to what they ask for.
proof fn lemma_parts_parse(s: Seq<char>, pos: int, parts: Seq<SelectorPart>, from: int)
    requires
        0 <= from <= parts.len(),
        well_formed_parts(parts),
        has_prefix_at(s, pos, written_parts(parts, from)),
        pos + written_parts(parts, from).len() == s.len() || ends_selector(
            s[pos + written_parts(parts, from).len()],
        ),
    ensures
        simple_selector_at(s, pos, selector_after(parts, from)) == (
            selector_after(parts, parts.len() as int),
            pos + written_parts(parts, from).len(),
        ),
    decreases parts.len() - from,
{
    let selector = selector_after(parts, from);
    if from < parts.len() {
        let part = parts[from];
        let rest = written_parts(parts, from + 1);
        let end = pos + written_part(part).len();
        lemma_parts(s, pos, written_part(part), rest);
        lemma_stands(s, pos, written_part(part));
        lemma_stands(s, end, rest);
        // what follows the part begins another part or ends the selector
        assert(end == s.len() || !CharClass::Identifier.contains(s[end]) || part is Universal) by {
            if from + 1 < parts.len() {
                let next = parts[from + 1];
                let after = written_parts(parts, from + 2);
                assert(rest == written_part(next) + after);
                assert(s[end + 0] == rest[0]);
                assert(rest[0] == written_part(next)[0]);
            }
        }
        assert(selector_after(parts, from + 1) == with_part(selector, part));
        lemma_parts_parse(s, end, parts, from + 1);
        match part {
            SelectorPart::Id(name) => {
                assert(s[pos + 0] == written_part(part)[0]);
                lemma_parts(s, pos, seq!['#'], name);
                lemma_run(s, pos + 1, name, CharClass::Identifier);
            },
            SelectorPart::Class(name) => {
                assert(s[pos + 0] == written_part(part)[0]);
                lemma_parts(s, pos, seq!['.'], name);
                lemma_run(s, pos + 1, name, CharClass::Identifier);
            },
            SelectorPart::Tag(name) => {
                assert(s[pos + 0] == name[0]);
                assert(CharClass::Identifier.contains(name[0]));
                lemma_run(s, pos, name, CharClass::Identifier);
            },
            SelectorPart::Universal => {
                assert(s[pos + 0] == written_part(part)[0]);
            },
        }
    }
}

/// Well written selectors parse, to the selectors that they stand for.
proof fn lemma_selectors_parse(
    s: Seq<char>,
    pos: int,
    selectors: Seq<SelectorSyntax>,
    from: int,
)
    requires
        0 <= from < selectors.len(),
        forall|k: int|
            0 <= k < selectors.len() ==> well_formed_selector(#[trigger] selectors[k]),
        has_prefix_at(s, pos, written_selectors(selectors, from)),
    ensures
        selectors_at(s, pos, selectors_of(selectors).take(from)) == Ok::<
            (Seq<SelectorView>, int),
            ParseError,
        >((selectors_of(selectors), pos + written_selectors(selectors, from).len() - 1)),
    decreases selectors.len() - from,
{
    let selector = selectors[from];
    let parts = written_parts(selector.parts, 0);
    let end = pos + parts.len();
    let mark = end + selector.gap.len();
    assert(well_formed_selector(selector));
    let found = selectors_of(selectors).take(from).push(selectors_of(selectors)[from]);
    assert(found =~= selectors_of(selectors).take(from + 1));
    if from + 1 < selectors.len() {
        let next = selectors[from + 1];
        assert(well_formed_selector(next));
        let more = written_selectors(selectors, from + 1);
        let after_gap = seq![','] + (next.lead + more);
        lemma_parts(s, pos, parts, selector.gap + after_gap);
        lemma_parts(s, end, selector.gap, after_gap);
        lemma_parts(s, mark, seq![','], next.lead + more);
        lemma_parts(s, mark + 1, next.lead, more);
        lemma_stands(s, mark, seq![',']);
        assert(s[mark + 0] == seq![','][0]);
        lemma_stands(s, end, selector.gap + after_gap);
        assert(s[end + 0] == (selector.gap + after_gap)[0]);
        if selector.gap.len() > 0 {
            assert(CharClass::Whitespace.contains(selector.gap[0]));
        }
        lemma_parts_parse(s, pos, selector.parts, 0);
        lemma_run(s, end, selector.gap, CharClass::Whitespace);
        // the next selector begins with no white space
        let start = mark + 1 + next.lead.len();
        lemma_stands(s, start, more);
        assert(!CharClass::Whitespace.contains(s[start])) by {
            let first = next.parts[0];
            let next_parts = written_parts(next.parts, 0);
            assert(next_parts == written_part(first) + written_parts(next.parts, 1));
            assert(s[start + 0] == more[0]);
            assert(more[0] == next_parts[0]);
            assert(next_parts[0] == written_part(first)[0]);
            match first {
                SelectorPart::Tag(name) => {
                    assert(CharClass::Identifier.contains(name[0]));
                },
                _ => {},
            }
        }
        lemma_run(s, mark + 1, next.lead, CharClass::Whitespace);
        lemma_selectors_parse(s, start, selectors, from + 1);
    } else {
        lemma_parts(s, pos, parts, selector.gap + seq!['{']);
        lemma_parts(s, end, selector.gap, seq!['{']);
        lemma_stands(s, mark, seq!['{']);
        assert(s[mark + 0] == seq!['{'][0]);
        lemma_stands(s, end, selector.gap + seq!['{']);
        assert(s[end + 0] == (selector.gap + seq!['{'])[0]);
        if selector.gap.len() > 0 {
            assert(CharClass::Whitespace.contains(selector.gap[0]));
        }
        lemma_parts_parse(s, pos, selector.parts, 0);
        lemma_run(s, end, selector.gap, CharClass::Whitespace);
        assert(found =~= selectors_of(selectors));
    }
}

/// A well written value parses, to the value that it stands for.
proof fn lemma_value_parses(s: Seq<char>, pos: int, value: ValueSyntax)
    requires
        well_formed_value(value),
        has_prefix_at(s, pos, written_value(value)),
        pos + written_value(value).len() == s.len() || !CharClass::Identifier.contains(
            s[pos + written_value(value).len()],
        ),
    ensures
        value_at(s, pos) == Ok::<(ValueView, int), ParseError>(
            (value_of(value), pos + written_value(value).len()),
        ),
{
    lemma_stands(s, pos, written_value(value));
    match value {
        ValueSyntax::Length(numeral) => {
            let end = pos + numeral.len();
            lemma_parts(s, pos, numeral, seq!['p', 'x']);
            lemma_stands(s, end, seq!['p', 'x']);
            assert(s[end + 0] == seq!['p', 'x'][0]);
            assert(s[end + 1] == seq!['p', 'x'][1]);
            assert(s[pos + 0] == written_value(value)[0]);
            assert(all_in(numeral, CharClass::Numeric)) by {
                assert forall|i: int| 0 <= i < numeral.len() implies CharClass::Numeric.contains(
                    #[trigger] numeral[i],
                ) by {
                    assert(is_digit(numeral[i]) || numeral[i] == '.');
                }
            }
            lemma_run(s, pos, numeral, CharClass::Numeric);
        },
        ValueSyntax::Color(digits) => {
            lemma_parts(s, pos, seq!['#'], digits);
            lemma_stands(s, pos + 1, digits);
            assert(s[pos + 0] == written_value(value)[0]);
            assert(s[pos + 1 + 0] == digits[0]);
            assert(s[pos + 1 + 1] == digits[1]);
            assert(s[pos + 1 + 2] == digits[2]);
            assert(s[pos + 1 + 3] == digits[3]);
            assert(s[pos + 1 + 4] == digits[4]);
            assert(s[pos + 1 + 5] == digits[5]);
            assert(hex_pair_at(s, pos + 1) == Ok::<u8, ParseError>(byte_of(digits[0], digits[1])));
            assert(hex_pair_at(s, pos + 3) == Ok::<u8, ParseError>(byte_of(digits[2], digits[3])));
            assert(hex_pair_at(s, pos + 5) == Ok::<u8, ParseError>(byte_of(digits[4], digits[5])));
        },
        ValueSyntax::Keyword(word) => {
            assert(s[pos + 0] == word[0]);
            assert(CharClass::Identifier.contains(word[0]));
            lemma_run(s, pos, word, CharClass::Identifier);
        },
    }
}

/// A well written declaration parses, to the declaration that it stands
/// for.
proof fn lemma_declaration_parses(s: Seq<char>, pos: int, d: DeclarationSyntax)
    requires
        well_formed_declaration(d),
        has_prefix_at(s, pos, written_declaration(d)),
    ensures
        declaration_at(s, pos) == Ok::<(DeclarationView, int), ParseError>(
            (
                DeclarationView { name: d.name, value: value_of(d.value) },
                pos + written_declaration(d).len(),
            ),
        ),
{
    let value = written_value(d.value);
    let after_value = d.before_semicolon + seq![';'];
    let after_colon = d.after_colon + (value + after_value);
    let after_name = d.before_colon + (seq![':'] + after_colon);
    let name_end = pos + d.name.len();
    let colon = name_end + d.before_colon.len();
    let start = colon + 1 + d.after_colon.len();
    let end = start + value.len();
    let semicolon = end + d.before_semicolon.len();
    lemma_parts(s, pos, d.name, after_name);
    lemma_parts(s, name_end, d.before_colon, seq![':'] + after_colon);
    lemma_parts(s, colon, seq![':'], after_colon);
    lemma_parts(s, colon + 1, d.after_colon, value + after_value);
    lemma_parts(s, start, value, after_value);
    lemma_parts(s, end, d.before_semicolon, seq![';']);
    lemma_stands(s, colon, seq![':']);
    assert(s[colon + 0] == seq![':'][0]);
    lemma_stands(s, semicolon, seq![';']);
    assert(s[semicolon + 0] == seq![';'][0]);
    // the name ends at white space or at the `:`
    lemma_stands(s, name_end, after_name);
    assert(s[name_end + 0] == after_name[0]);
    if d.before_colon.len() > 0 {
        assert(CharClass::Whitespace.contains(d.before_colon[0]));
    }
    lemma_run(s, pos, d.name, CharClass::Identifier);
    lemma_run(s, name_end, d.before_colon, CharClass::Whitespace);
    // the value begins with no white space
    lemma_stands(s, start, value);
    assert(s[start + 0] == value[0]);
    assert(!CharClass::Whitespace.contains(value[0])) by {
        match d.value {
            ValueSyntax::Length(numeral) => {
                assert(value[0] == numeral[0]);
            },
            ValueSyntax::Color(digits) => {
                assert(value[0] == '#');
            },
            ValueSyntax::Keyword(word) => {
                assert(CharClass::Identifier.contains(word[0]));
            },
        }
    }
    lemma_run(s, colon + 1, d.after_colon, CharClass::Whitespace);
    // the value ends at white space or at the `;`
    lemma_stands(s, end, after_value);
    assert(s[end + 0] == after_value[0]);
    if d.before_semicolon.len() > 0 {
        assert(CharClass::Whitespace.contains(d.before_semicolon[0]));
    }
    lemma_value_parses(s, start, d.value);
    lemma_run(s, end, d.before_semicolon, CharClass::Whitespace);
    assert(written_declaration(d).len() == semicolon + 1 - pos);
}

/// Well written declarations parse, to the declarations that they stand
/// for, up to the `}` that follows them.
proof fn lemma_declarations_parse(
    s: Seq<char>,
    pos: int,
    declarations: Seq<DeclarationSyntax>,
    from: int,
    tail: Seq<char>,
)
    requires
        0 <= from <= declarations.len(),
        forall|k: int|
            0 <= k < declarations.len() ==> well_formed_declaration(#[trigger] declarations[k]),
        all_in(tail, CharClass::Whitespace),
        has_prefix_at(s, pos, written_declarations(declarations, from) + (tail + seq!['}'])),
    ensures
        declarations_at(s, pos, declarations_of(declarations).take(from)) == Ok::<
            (Seq<DeclarationView>, int),
            ParseError,
        >(
            (
                declarations_of(declarations),
                pos + written_declarations(declarations, from).len() + tail.len() + 1,
            ),
        ),
    decreases declarations.len() - from,
{
    if from == declarations.len() {
        assert(written_declarations(declarations, from) + (tail + seq!['}']) =~= tail + seq![
            '}',
        ]);
        lemma_parts(s, pos, tail, seq!['}']);
        lemma_stands(s, pos + tail.len(), seq!['}']);
        assert(s[pos + tail.len() + 0] == seq!['}'][0]);
        lemma_run(s, pos, tail, CharClass::Whitespace);
        assert(declarations_of(declarations).take(from) =~= declarations_of(declarations));
    } else {
        let d = declarations[from];
        let rest = written_declarations(declarations, from + 1) + (tail + seq!['}']);
        let start = pos + d.lead.len();
        let end = start + written_declaration(d).len();
        assert(well_formed_declaration(d));
        assert(written_declarations(declarations, from) + (tail + seq!['}']) =~= d.lead + (
        written_declaration(d) + rest));
        lemma_parts(s, pos, d.lead, written_declaration(d) + rest);
        lemma_parts(s, start, written_declaration(d), rest);
        lemma_stands(s, start, written_declaration(d));
        assert(s[start + 0] == written_declaration(d)[0]);
        assert(written_declaration(d)[0] == d.name[0]);
        assert(CharClass::Identifier.contains(d.name[0]));
        lemma_run(s, pos, d.lead, CharClass::Whitespace);
        lemma_declaration_parses(s, start, d);
        lemma_declarations_parse(s, end, declarations, from + 1, tail);
        assert(declarations_of(declarations).take(from).push(declarations_of(declarations)[from])
            =~= declarations_of(declarations).take(from + 1));
    }
}

/// A well written rule parses, to the rule that it stands for.
proof fn lemma_rule_parses(s: Seq<char>, pos: int, rule: RuleSyntax)
    requires
        well_formed_rule(rule),
        has_prefix_at(s, pos, written_rule(rule)),
    ensures
        rule_at(s, pos) == Ok::<(RuleView, int), ParseError>(
            (rule_of(rule), pos + written_rule(rule).len()),
        ),
{
    let selectors = written_selectors(rule.selectors, 0);
    let body = written_declarations(rule.declarations, 0) + (rule.tail + seq!['}']);
    let open = pos + selectors.len() - 1;
    lemma_parts(s, pos, selectors, body);
    lemma_selectors_parse(s, pos, rule.selectors, 0);
    assert(selectors_of(rule.selectors).take(0) =~= Seq::empty());
    lemma_selectors_end(s, pos, Seq::empty());
    lemma_declarations_parse(s, open + 1, rule.declarations, 0, rule.tail);
    assert(declarations_of(rule.declarations).take(0) =~= Seq::empty());
}

/// Well written rules parse, to the rules that they stand for.
proof fn lemma_rules_parse(
    s: Seq<char>,
    pos: int,
    rules: Seq<RuleSyntax>,
    from: int,
    tail: Seq<char>,
)
    requires
        0 <= from <= rules.len(),
        well_formed_stylesheet(rules, tail),
        has_prefix_at(s, pos, written_rules(rules, from) + tail),
        pos + written_rules(rules, from).len() + tail.len() == s.len(),
    ensures
        rules_at(s, pos, rules_of(rules).take(from)) == Ok::<Seq<RuleView>, ParseError>(
            rules_of(rules),
        ),
    decreases rules.len() - from,
{
    if from == rules.len() {
        assert(written_rules(rules, from) + tail =~= tail);
        lemma_run(s, pos, tail, CharClass::Whitespace);
        assert(rules_of(rules).take(from) =~= rules_of(rules));
    } else {
        let rule = rules[from];
        let lead = rule.selectors[0].lead;
        let rest = written_rules(rules, from + 1) + tail;
        let start = pos + lead.len();
        let end = start + written_rule(rule).len();
        assert(well_formed_rule(rule));
        assert(well_formed_selector(rule.selectors[0]));
        assert(written_rules(rules, from) + tail =~= lead + (written_rule(rule) + rest));
        lemma_parts(s, pos, lead, written_rule(rule) + rest);
        lemma_parts(s, start, written_rule(rule), rest);
        // the rule begins with no white space
        lemma_stands(s, start, written_rule(rule));
        assert(!CharClass::Whitespace.contains(s[start])) by {
            let first = rule.selectors[0].parts[0];
            let parts = written_parts(rule.selectors[0].parts, 0);
            let selectors = written_selectors(rule.selectors, 0);
            assert(parts == written_part(first) + written_parts(rule.selectors[0].parts, 1));
            assert(s[start + 0] == written_rule(rule)[0]);
            assert(written_rule(rule)[0] == selectors[0]);
            assert(selectors[0] == parts[0]);
            assert(parts[0] == written_part(first)[0]);
            match first {
                SelectorPart::Tag(name) => {
                    assert(CharClass::Identifier.contains(name[0]));
                },
                _ => {},
            }
        }
        lemma_run(s, pos, lead, CharClass::Whitespace);
        lemma_rule_parses(s, start, rule);
        lemma_rules_parse(s, end, rules, from + 1, tail);
        assert(rules_of(rules).take(from).push(rules_of(rules)[from]) =~= rules_of(rules).take(
            from + 1,
        ));
    }
}

/// Every well written stylesheet parses, to the rules that it stands for:
/// in source order, each with its selectors the heaviest first.
pub proof fn lemma_well_formed_parses(rules: Seq<RuleSyntax>, tail: Seq<char>)
    requires
        well_formed_stylesheet(rules, tail),
    ensures
        stylesheet(written_stylesheet(rules, tail)) == Ok::<StylesheetView, ParseError>(
            StylesheetView { rules: rules_of(rules) },
        ),
{
    let s = written_stylesheet(rules, tail);
    assert(s.subrange(0, s.len() as int) =~= s);
    lemma_rules_parse(s, 0, rules, 0, tail);
    assert(rules_of(rules).take(0) =~= Seq::empty());
}

} // verus!
