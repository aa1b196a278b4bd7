//! The cascade: which declaration decides the value of a property for an
//! element.
use vstd::prelude::*;
use crate::css_parser::{DeclarationView, StylesheetView, ValueView};
use crate::dom::ElementView;
use crate::specificity::{
    arrange, goes_before, is_stable_order, lemma_stable_order, outranks, stable_order, Specificity,
};
use crate::style::rule_rank;

verus! {

/// Whether rule `i` of `sheet` applies to `elem` and its declaration `j`
/// is one of the property `name`.
pub open spec fn declares(
    elem: ElementView,
    sheet: StylesheetView,
    i: int,
    j: int,
    name: Seq<char>,
) -> bool {
    &&& 0 <= i < sheet.rules.len()
    &&& rule_rank(elem, sheet.rules[i]) is Some
    &&& 0 <= j < sheet.rules[i].declarations.len()
    &&& sheet.rules[i].declarations[j].name == name
}

/// Whether declaration `j1` of rule `i1` gives way to declaration `j2` of
/// rule `i2`: the rule that applies with the greater weight decides; of
/// two rules of equal weight the later one; within a rule the later
/// declaration.
pub open spec fn yields_to(
    elem: ElementView,
    sheet: StylesheetView,
    i1: int,
    j1: int,
    i2: int,
    j2: int,
) -> bool {
    let w1 = rule_rank(elem, sheet.rules[i1]).unwrap();
    let w2 = rule_rank(elem, sheet.rules[i2]).unwrap();
    outranks(w2, w1) || (w1 == w2 && (i1 < i2 || (i1 == i2 && j1 <= j2)))
}

/// Whether declaration `j` of rule `i` decides the property `name` for
/// `elem`: every declaration of that property in a rule that applies
/// gives way to it.
pub open spec fn wins(
    elem: ElementView,
    sheet: StylesheetView,
    i: int,
    j: int,
    name: Seq<char>,
) -> bool {
    &&& declares(elem, sheet, i, j, name)
    &&& forall|i2: int, j2: int| #[trigger]
        declares(elem, sheet, i2, j2, name) ==> yields_to(elem, sheet, i2, j2, i, j)
}

/// The values that `sheet` specifies for `elem`: for each property that a
/// rule which applies declares, the value of the declaration that wins.
pub open spec fn specified_values(elem: ElementView, sheet: StylesheetView) -> Map<
    Seq<char>,
    ValueView,
> {
    Map::new(
        |name: Seq<char>| exists|i: int, j: int| declares(elem, sheet, i, j, name),
        |name: Seq<char>|
            {
                let (i, j) = choose|i: int, j: int| wins(elem, sheet, i, j, name);
                sheet.rules[i].declarations[j].value
            },
    )
}

/// At most one declaration wins a property.
pub proof fn lemma_winner_is_unique(
    elem: ElementView,
    sheet: StylesheetView,
    i1: int,
    j1: int,
    i2: int,
    j2: int,
    name: Seq<char>,
)
    requires
        wins(elem, sheet, i1, j1, name),
        wins(elem, sheet, i2, j2, name),
    ensures
        i1 == i2,
        j1 == j2,
{
    assert(declares(elem, sheet, i1, j1, name));
    assert(declares(elem, sheet, i2, j2, name));
    assert(yields_to(elem, sheet, i1, j1, i2, j2));
    assert(yields_to(elem, sheet, i2, j2, i1, j1));
}

/// The declaration that wins a property gives the property its value.
pub proof fn lemma_winner_decides(
    elem: ElementView,
    sheet: StylesheetView,
    i: int,
    j: int,
    name: Seq<char>,
)
    requires
        wins(elem, sheet, i, j, name),
    ensures
        specified_values(elem, sheet).contains_key(name),
        specified_values(elem, sheet)[name] == sheet.rules[i].declarations[j].value,
{
    assert(declares(elem, sheet, i, j, name));
    let (i2, j2) = choose|i2: int, j2: int| wins(elem, sheet, i2, j2, name);
    lemma_winner_is_unique(elem, sheet, i, j, i2, j2, name);
}

/// Whether declaration `j` is the last one of its property in rule `i`.
pub open spec fn is_last_in_rule(sheet: StylesheetView, i: int, j: int) -> bool {
    forall|j2: int|
        j < j2 < sheet.rules[i].declarations.len() ==> (
        #[trigger] sheet.rules[i].declarations[j2]).name != sheet.rules[i].declarations[j].name
}

/// The heavier rule decides, wherever it stands in the stylesheet: if rule
/// `i` applies with more weight than every other rule that applies and
/// declares the property, the property has the value that rule `i` gives
/// it last.
pub proof fn lemma_heavier_rule_wins(
    elem: ElementView,
    sheet: StylesheetView,
    i: int,
    j: int,
    name: Seq<char>,
)
    requires
        declares(elem, sheet, i, j, name),
        is_last_in_rule(sheet, i, j),
        forall|i2: int, j2: int| #[trigger]
            declares(elem, sheet, i2, j2, name) && i2 != i ==> outranks(
                rule_rank(elem, sheet.rules[i]).unwrap(),
                rule_rank(elem, sheet.rules[i2]).unwrap(),
            ),
    ensures
        specified_values(elem, sheet).contains_key(name),
        specified_values(elem, sheet)[name] == sheet.rules[i].declarations[j].value,
{
    assert forall|i2: int, j2: int| #[trigger]
        declares(elem, sheet, i2, j2, name) implies yields_to(elem, sheet, i2, j2, i, j) by {
        if i2 == i && j2 > j {
            assert(sheet.rules[i].declarations[j2].name != name);
        }
    }
    lemma_winner_decides(elem, sheet, i, j, name);
}

/// Of rules of equal weight the later one decides: if every other rule
/// that applies and declares the property has the weight of rule `i` and
/// stands before it, the property has the value that rule `i` gives it
/// last.
pub proof fn lemma_later_rule_wins(
    elem: ElementView,
    sheet: StylesheetView,
    i: int,
    j: int,
    name: Seq<char>,
)
    requires
        declares(elem, sheet, i, j, name),
        is_last_in_rule(sheet, i, j),
        forall|i2: int, j2: int| #[trigger]
            declares(elem, sheet, i2, j2, name) && i2 != i ==> i2 < i && rule_rank(
                elem,
                sheet.rules[i2],
            ) == rule_rank(elem, sheet.rules[i]),
    ensures
        specified_values(elem, sheet).contains_key(name),
        specified_values(elem, sheet)[name] == sheet.rules[i].declarations[j].value,
{
    assert forall|i2: int, j2: int| #[trigger]
        declares(elem, sheet, i2, j2, name) implies yields_to(elem, sheet, i2, j2, i, j) by {
        if i2 == i && j2 > j {
            assert(sheet.rules[i].declarations[j2].name != name);
        }
    }
    lemma_winner_decides(elem, sheet, i, j, name);
}

/// A property has a value exactly if a rule that applies declares it, and
/// then a declaration wins it.
pub proof fn lemma_some_declaration_wins(elem: ElementView, sheet: StylesheetView, name: Seq<char>)
    requires
        specified_values(elem, sheet).contains_key(name),
    ensures
        exists|i: int, j: int| wins(elem, sheet, i, j, name),
{
    let order = application_order(elem, sheet);
    let count = order.len() as int;
    lemma_cascade(elem, sheet);
    lemma_application_order(elem, sheet);
    lemma_apply_rules(sheet, order, count, name);
    lemma_last_rule(sheet, order, count, name);
    let p = last_rule(sheet, order, count, name);
    let i = order[p];
    let declarations = sheet.rules[i].declarations;
    lemma_last_declaration(declarations, declarations.len() as int, name);
    let j = last_declaration(declarations, declarations.len() as int, name);
    lemma_last_written_wins(elem, sheet, name);
    assert(wins(elem, sheet, i, j, name));
}

/// The rules among the first `count` of `sheet` that apply to `elem`, by
/// their indices, in source order.
pub open spec fn matched(elem: ElementView, sheet: StylesheetView, count: int) -> Seq<int>
    decreases count,
{
    if count <= 0 {
        Seq::empty()
    } else if rule_rank(elem, sheet.rules[count - 1]) is Some {
        matched(elem, sheet, count - 1).push(count - 1)
    } else {
        matched(elem, sheet, count - 1)
    }
}

/// The weights with which the rules `indices` of `sheet` apply to `elem`.
pub open spec fn matched_ranks(elem: ElementView, sheet: StylesheetView, indices: Seq<int>) -> Seq<
    Specificity,
> {
    Seq::new(indices.len(), |k: int| rule_rank(elem, sheet.rules[indices[k]]).unwrap())
}

/// The rules of `sheet` that apply to `elem`, by their indices, in the
/// order in which their declarations are applied: the lightest first,
/// those of equal weight in source order.
pub open spec fn application_order(elem: ElementView, sheet: StylesheetView) -> Seq<int> {
    let indices = matched(elem, sheet, sheet.rules.len() as int);
    arrange(indices, stable_order(matched_ranks(elem, sheet, indices), false))
}

/// `values` after the first `count` of `declarations` have been written
/// into it, each in place of what was there for its property.
pub open spec fn apply_declarations(
    values: Map<Seq<char>, ValueView>,
    declarations: Seq<DeclarationView>,
    count: int,
) -> Map<Seq<char>, ValueView>
    decreases count,
{
    if count <= 0 {
        values
    } else {
        apply_declarations(values, declarations, count - 1).insert(
            declarations[count - 1].name,
            declarations[count - 1].value,
        )
    }
}

/// What the declarations of the first `count` rules of `order` leave,
/// applied in that order to an empty map.
pub open spec fn apply_rules(sheet: StylesheetView, order: Seq<int>, count: int) -> Map<
    Seq<char>,
    ValueView,
>
    decreases count,
{
    if count <= 0 {
        Map::empty()
    } else {
        let declarations = sheet.rules[order[count - 1]].declarations;
        apply_declarations(
            apply_rules(sheet, order, count - 1),
            declarations,
            declarations.len() as int,
        )
    }
}

/// The index of the last of the first `count` of `declarations` that is
/// one of `name`, or -1.
pub open spec fn last_declaration(declarations: Seq<DeclarationView>, count: int, name: Seq<char>) -> int
    decreases count,
{
    if count <= 0 {
        -1
    } else if declarations[count - 1].name == name {
        count - 1
    } else {
        last_declaration(declarations, count - 1, name)
    }
}

/// The place in `order` of the last of its first `count` rules that
/// declares `name`, or -1.
pub open spec fn last_rule(sheet: StylesheetView, order: Seq<int>, count: int, name: Seq<char>) -> int
    decreases count,
{
    if count <= 0 {
        -1
    } else if last_declaration(
        sheet.rules[order[count - 1]].declarations,
        sheet.rules[order[count - 1]].declarations.len() as int,
        name,
    ) >= 0 {
        count - 1
    } else {
        last_rule(sheet, order, count - 1, name)
    }
}

proof fn lemma_last_declaration(declarations: Seq<DeclarationView>, count: int, name: Seq<char>)
    requires
        0 <= count <= declarations.len(),
    ensures
        -1 <= last_declaration(declarations, count, name) < count,
        last_declaration(declarations, count, name) >= 0 ==> declarations[last_declaration(
            declarations,
            count,
            name,
        )].name == name,
        forall|j: int|
            last_declaration(declarations, count, name) < j < count ==> (
            #[trigger] declarations[j]).name != name,
    decreases count,
{
    if count > 0 && declarations[count - 1].name != name {
        lemma_last_declaration(declarations, count - 1, name);
    }
}

proof fn lemma_apply_declarations(
    values: Map<Seq<char>, ValueView>,
    declarations: Seq<DeclarationView>,
    count: int,
    name: Seq<char>,
)
    requires
        0 <= count <= declarations.len(),
    ensures
        apply_declarations(values, declarations, count).contains_key(name) <==> (
        values.contains_key(name) || last_declaration(declarations, count, name) >= 0),
        apply_declarations(values, declarations, count)[name] == if last_declaration(
            declarations,
            count,
            name,
        ) >= 0 {
            declarations[last_declaration(declarations, count, name)].value
        } else {
            values[name]
        },
    decreases count,
{
    if count > 0 {
        lemma_apply_declarations(values, declarations, count - 1, name);
    }
}

proof fn lemma_last_rule(sheet: StylesheetView, order: Seq<int>, count: int, name: Seq<char>)
    requires
        0 <= count <= order.len(),
    ensures
        -1 <= last_rule(sheet, order, count, name) < count,
        last_rule(sheet, order, count, name) >= 0 ==> last_declaration(
            sheet.rules[order[last_rule(sheet, order, count, name)]].declarations,
            sheet.rules[order[last_rule(sheet, order, count, name)]].declarations.len() as int,
            name,
        ) >= 0,
        forall|p: int|
            last_rule(sheet, order, count, name) < p < count ==> last_declaration(
                sheet.rules[#[trigger] order[p]].declarations,
                sheet.rules[order[p]].declarations.len() as int,
                name,
            ) < 0,
    decreases count,
{
    if count > 0 {
        let declarations = sheet.rules[order[count - 1]].declarations;
        if last_declaration(declarations, declarations.len() as int, name) < 0 {
            lemma_last_rule(sheet, order, count - 1, name);
        }
    }
}

proof fn lemma_apply_rules(sheet: StylesheetView, order: Seq<int>, count: int, name: Seq<char>)
    requires
        0 <= count <= order.len(),
    ensures
        apply_rules(sheet, order, count).contains_key(name) <==> last_rule(
            sheet,
            order,
            count,
            name,
        ) >= 0,
        last_rule(sheet, order, count, name) >= 0 ==> ({
            let declarations = sheet.rules[order[last_rule(sheet, order, count, name)]].declarations;
            apply_rules(sheet, order, count)[name] == declarations[last_declaration(
                declarations,
                declarations.len() as int,
                name,
            )].value
        }),
    decreases count,
{
    if count > 0 {
        let declarations = sheet.rules[order[count - 1]].declarations;
        lemma_apply_rules(sheet, order, count - 1, name);
        lemma_apply_declarations(
            apply_rules(sheet, order, count - 1),
            declarations,
            declarations.len() as int,
            name,
        );
    }
}

/// The rules that apply, in source order: each applies, each stands
/// before the later ones, and none is left out.
pub proof fn lemma_matched(elem: ElementView, sheet: StylesheetView, count: int)
    requires
        0 <= count <= sheet.rules.len(),
    ensures
        forall|k: int|
            0 <= k < matched(elem, sheet, count).len() ==> 0 <= #[trigger] matched(
                elem,
                sheet,
                count,
            )[k] < count && rule_rank(elem, sheet.rules[matched(elem, sheet, count)[k]]) is Some,
        forall|k: int, l: int|
            0 <= k < l < matched(elem, sheet, count).len() ==> #[trigger] matched(
                elem,
                sheet,
                count,
            )[k] < #[trigger] matched(elem, sheet, count)[l],
        forall|i: int|
            0 <= i < count && rule_rank(elem, sheet.rules[i]) is Some ==> #[trigger] matched(
                elem,
                sheet,
                count,
            ).contains(i),
    decreases count,
{
    if count > 0 {
        lemma_matched(elem, sheet, count - 1);
        let front = matched(elem, sheet, count - 1);
        let all = matched(elem, sheet, count);
        assert forall|i: int|
            0 <= i < count && rule_rank(elem, sheet.rules[i]) is Some implies #[trigger] all.contains(
            i,
        ) by {
            if i == count - 1 {
                assert(all[all.len() - 1] == i);
            } else {
                assert(front.contains(i));
                let k = choose|k: int| 0 <= k < front.len() && front[k] == i;
                assert(all[k] == i);
            }
        }
    }
}

/// Whether rule `i1` is applied before rule `i2`.
pub open spec fn applied_before(elem: ElementView, sheet: StylesheetView, i1: int, i2: int) -> bool {
    let w1 = rule_rank(elem, sheet.rules[i1]).unwrap();
    let w2 = rule_rank(elem, sheet.rules[i2]).unwrap();
    outranks(w2, w1) || (w1 == w2 && i1 < i2)
}

/// The order of application lists the rules that apply, each once, a
/// lighter rule before a heavier one and rules of equal weight in source
/// order.
pub proof fn lemma_application_order(elem: ElementView, sheet: StylesheetView)
    ensures
        forall|p: int|
            0 <= p < application_order(elem, sheet).len() ==> 0 <= #[trigger] application_order(
                elem,
                sheet,
            )[p] < sheet.rules.len() && rule_rank(
                elem,
                sheet.rules[application_order(elem, sheet)[p]],
            ) is Some,
        forall|i: int|
            0 <= i < sheet.rules.len() && rule_rank(elem, sheet.rules[i]) is Some
                ==> #[trigger] application_order(elem, sheet).contains(i),
        forall|p: int, q: int|
            0 <= p < q < application_order(elem, sheet).len() ==> applied_before(
                elem,
                sheet,
                #[trigger] application_order(elem, sheet)[p],
                #[trigger] application_order(elem, sheet)[q],
            ),
{
    let count = sheet.rules.len() as int;
    let indices = matched(elem, sheet, count);
    let keys = matched_ranks(elem, sheet, indices);
    let order = stable_order(keys, false);
    let applied = application_order(elem, sheet);
    lemma_matched(elem, sheet, count);
    lemma_stable_order(keys, keys.len() as int, false);
    assert(is_stable_order(keys, indices.len() as int, false, order));
    assert forall|p: int| 0 <= p < applied.len() implies 0 <= #[trigger] applied[p]
        < sheet.rules.len() && rule_rank(elem, sheet.rules[applied[p]]) is Some by {
        assert(0 <= order[p] < indices.len());
        assert(applied[p] == indices[order[p]]);
    }
    assert forall|i: int|
        0 <= i < sheet.rules.len() && rule_rank(
            elem,
            sheet.rules[i],
        ) is Some implies #[trigger] applied.contains(i) by {
        assert(indices.contains(i));
        let k = choose|k: int| 0 <= k < indices.len() && indices[k] == i;
        assert(order.contains(k));
        let p = choose|p: int| 0 <= p < order.len() && order[p] == k;
        assert(applied[p] == i);
    }
    assert forall|p: int, q: int| 0 <= p < q < applied.len() implies applied_before(
        elem,
        sheet,
        #[trigger] applied[p],
        #[trigger] applied[q],
    ) by {
        assert(0 <= order[p] < indices.len());
        assert(0 <= order[q] < indices.len());
        assert(applied[p] == indices[order[p]]);
        assert(applied[q] == indices[order[q]]);
        assert(goes_before(keys[order[p]], keys[order[q]], false) || (keys[order[p]]
            == keys[order[q]] && order[p] < order[q]));
        if order[p] < order[q] {
            assert(indices[order[p]] < indices[order[q]]);
        }
    }
}

/// The declaration that is written last for a property wins it.
proof fn lemma_last_written_wins(elem: ElementView, sheet: StylesheetView, name: Seq<char>)
    requires
        last_rule(
            sheet,
            application_order(elem, sheet),
            application_order(elem, sheet).len() as int,
            name,
        ) >= 0,
    ensures
        ({
            let order = application_order(elem, sheet);
            let i = order[last_rule(sheet, order, order.len() as int, name)];
            let declarations = sheet.rules[i].declarations;
            wins(
                elem,
                sheet,
                i,
                last_declaration(declarations, declarations.len() as int, name),
                name,
            )
        }),
{
    let order = application_order(elem, sheet);
    let count = order.len() as int;
    lemma_application_order(elem, sheet);
    lemma_last_rule(sheet, order, count, name);
    let p = last_rule(sheet, order, count, name);
    let i = order[p];
    let declarations = sheet.rules[i].declarations;
    lemma_last_declaration(declarations, declarations.len() as int, name);
    let j = last_declaration(declarations, declarations.len() as int, name);
    assert(declares(elem, sheet, i, j, name));
    assert forall|i2: int, j2: int| #[trigger]
        declares(elem, sheet, i2, j2, name) implies yields_to(elem, sheet, i2, j2, i, j) by {
        assert(order.contains(i2));
        let p2 = choose|p2: int| 0 <= p2 < order.len() && order[p2] == i2;
        let others = sheet.rules[i2].declarations;
        lemma_last_declaration(others, others.len() as int, name);
        if p2 > p {
            assert(last_declaration(
                sheet.rules[order[p2]].declarations,
                sheet.rules[order[p2]].declarations.len() as int,
                name,
            ) < 0);
            assert(others[j2].name != name);
        } else if p2 < p {
            assert(applied_before(elem, sheet, order[p2], order[p]));
        } else {
            if j2 > j {
                assert(declarations[j2].name != name);
            }
        }
    }
}

/// Applying the declarations of the rules that apply, the lightest rule
/// first and rules of equal weight in source order, leaves for each
/// property the value of the declaration that wins.
pub proof fn lemma_cascade(elem: ElementView, sheet: StylesheetView)
    ensures
        apply_rules(
            sheet,
            application_order(elem, sheet),
            application_order(elem, sheet).len() as int,
        ) == specified_values(elem, sheet),
{
    let order = application_order(elem, sheet);
    let count = order.len() as int;
    let applied = apply_rules(sheet, order, count);
    let specified = specified_values(elem, sheet);
    lemma_application_order(elem, sheet);
    assert forall|name: Seq<char>| #[trigger]
        applied.dom().contains(name) implies specified.dom().contains(name) && applied[name]
        == specified[name] by {
        lemma_apply_rules(sheet, order, count, name);
        lemma_last_rule(sheet, order, count, name);
        let p = last_rule(sheet, order, count, name);
        let i = order[p];
        let declarations = sheet.rules[i].declarations;
        let j = last_declaration(declarations, declarations.len() as int, name);
        lemma_last_written_wins(elem, sheet, name);
        assert(wins(elem, sheet, i, j, name));
        lemma_winner_decides(elem, sheet, i, j, name);
    }
    assert forall|name: Seq<char>| #[trigger]
        specified.dom().contains(name) implies applied.dom().contains(name) by {
        lemma_apply_rules(sheet, order, count, name);
        lemma_last_rule(sheet, order, count, name);
        let (i, j) = choose|i: int, j: int| declares(elem, sheet, i, j, name);
        assert(order.contains(i));
        let p = choose|p: int| 0 <= p < order.len() && order[p] == i;
        let declarations = sheet.rules[i].declarations;
        lemma_last_declaration(declarations, declarations.len() as int, name);
        if last_rule(sheet, order, count, name) < p {
            assert(last_declaration(
                sheet.rules[order[p]].declarations,
                sheet.rules[order[p]].declarations.len() as int,
                name,
            ) < 0);
            assert(declarations[j].name != name);
        }
    }
    assert(applied =~= specified);
}

} // verus!
