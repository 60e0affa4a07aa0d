//! Deciding which rules of a stylesheet apply to an element.
use crate::css::{Rule, Selector, SimpleSelector, Stylesheet};
use crate::dom::{string_views, ElementData};
use vstd::prelude::*;

verus! {

/// Whether the simple selector `s` matches `e`: its tag name, id and every
/// class it names must all agree with the element.
pub open spec fn simple_selector_matches(e: ElementData, s: SimpleSelector) -> bool {
    &&& match s.local_name {
        Some(n) => n@ == e.tag_name@,
        None => true,
    }
    &&& match s.id {
        Some(id) => e.attr("id"@) == Some(id@),
        None => true,
    }
    &&& forall|i: int| 0 <= i < s.class@.len() ==> e.class_set().contains(#[trigger] s.class@[i]@)
}

/// Whether the selector `s` matches `e`.
pub open spec fn selector_matches(e: ElementData, s: Selector) -> bool {
    match s {
        Selector::Simple(simple) => simple_selector_matches(e, simple),
    }
}

/// Whether at least one selector of `rule` matches `e`.
pub open spec fn rule_matches(e: ElementData, rule: Rule) -> bool {
    exists|i: int| 0 <= i < rule.selectors@.len() && selector_matches(e, #[trigger] rule.selectors@[i])
}

/// The rules of `sheet` that apply to `e`, in stylesheet order.
pub open spec fn rules_matching(e: ElementData, sheet: Stylesheet) -> Seq<Rule> {
    sheet.rules@.filter(|rule: Rule| rule_matches(e, rule))
}

/// A simple selector with no tag name, no id and no classes matches every element.
pub proof fn lemma_empty_selector_matches_all(e: ElementData, s: SimpleSelector)
    requires
        s.local_name is None,
        s.id is None,
        s.class@.len() == 0,
    ensures
        simple_selector_matches(e, s),
{
}

/// Where each item of `s.filter(pred)` stands in `s`: positions in increasing
/// order, one for each item of `s` that satisfies `pred`.
proof fn lemma_filter_positions(s: Seq<Rule>, pred: spec_fn(Rule) -> bool) -> (idx: Seq<int>)
    ensures
        idx.len() == s.filter(pred).len(),
        forall|k: int|
            0 <= k < idx.len() ==> 0 <= #[trigger] idx[k] < s.len() && s[idx[k]] == s.filter(
                pred,
            )[k],
        forall|k1: int, k2: int| 0 <= k1 < k2 < idx.len() ==> #[trigger] idx[k1] < #[trigger] idx[k2],
        forall|j: int|
            0 <= j < s.len() && #[trigger] pred(s[j]) ==> exists|k: int|
                0 <= k < idx.len() && idx[k] == j,
    decreases s.len(),
{
    reveal_with_fuel(Seq::filter, 1);
    if s.len() == 0 {
        Seq::empty()
    } else {
        let q = s.drop_last();
        let sub = lemma_filter_positions(q, pred);
        let n = s.len() - 1;
        assert forall|j: int| 0 <= j < n && #[trigger] pred(s[j]) implies exists|k: int|
            0 <= k < sub.len() && sub[k] == j by {
            assert(q[j] == s[j]);
            assert(pred(q[j]));
        }
        if pred(s.last()) {
            let idx = sub.push(n);
            assert(forall|k: int| 0 <= k < sub.len() ==> idx[k] == sub[k]);
            assert(idx[sub.len() as int] == n);
            idx
        } else {
            sub
        }
    }
}

/// `idx` gives, for each rule of `picked`, its position in `rules`: positions
/// increase, and every rule of `rules` that matches `e` has one.
pub open spec fn positions_in_order(
    idx: Seq<int>,
    e: ElementData,
    rules: Seq<Rule>,
    picked: Seq<Rule>,
) -> bool {
    &&& idx.len() == picked.len()
    &&& forall|k: int|
        0 <= k < idx.len() ==> 0 <= #[trigger] idx[k] < rules.len() && rules[idx[k]] == picked[k]
    &&& forall|k1: int, k2: int| 0 <= k1 < k2 < idx.len() ==> #[trigger] idx[k1] < #[trigger] idx[k2]
    &&& forall|j: int|
        0 <= j < rules.len() && rule_matches(e, #[trigger] rules[j]) ==> exists|k: int|
            0 <= k < idx.len() && idx[k] == j
}

/// The matching rules come out in the order in which they stand in the
/// stylesheet: each one matches, each sits at a later position of
/// `sheet.rules` than the one before it, and no matching rule is left out.
pub proof fn lemma_matching_rules_keep_order(e: ElementData, sheet: Stylesheet)
    ensures
        forall|k: int|
            0 <= k < rules_matching(e, sheet).len() ==> rule_matches(
                e,
                #[trigger] rules_matching(e, sheet)[k],
            ),
        exists|idx: Seq<int>| #[trigger] positions_in_order(idx, e, sheet.rules@, rules_matching(e, sheet)),
{
    let pred = |rule: Rule| rule_matches(e, rule);
    sheet.rules@.filter_lemma(pred);
    let idx = lemma_filter_positions(sheet.rules@, pred);
    assert forall|j: int|
        0 <= j < sheet.rules@.len() && rule_matches(e, #[trigger] sheet.rules@[j]) implies exists|
        k: int,
    | 0 <= k < idx.len() && idx[k] == j by {
        assert(pred(sheet.rules@[j]));
    }
    assert(positions_in_order(idx, e, sheet.rules@, rules_matching(e, sheet)));
}

/// Matching has no hidden state: two queries on the same element and
/// stylesheet give the same rules.
pub proof fn lemma_matching_rules_deterministic(
    e: ElementData,
    sheet: Stylesheet,
    first: Seq<Rule>,
    second: Seq<Rule>,
)
    requires
        first == rules_matching(e, sheet),
        second == rules_matching(e, sheet),
    ensures
        first == second,
{
}

/// Every rule of `stylesheet` with a selector that matches `elem`, in stylesheet order.
pub fn matching_rules<'a>(elem: &ElementData, stylesheet: &'a Stylesheet) -> (r: Vec<&'a Rule>)
    ensures
        r@.map_values(|x: &Rule| *x) == rules_matching(*elem, *stylesheet),
{
    let mut out: Vec<&'a Rule> = Vec::new();
    let mut i: usize = 0;
    let ghost pred = |rule: Rule| rule_matches(*elem, rule);
    assert(stylesheet.rules@.take(0) =~= Seq::<Rule>::empty());
    assert(out@.map_values(|x: &Rule| *x) =~= Seq::<Rule>::empty());
    proof {
        reveal_with_fuel(Seq::filter, 1);
    }
    while i < stylesheet.rules.len()
        invariant
            i <= stylesheet.rules.len(),
            pred == (|rule: Rule| rule_matches(*elem, rule)),
            out@.map_values(|x: &Rule| *x) == stylesheet.rules@.take(i as int).filter(pred),
        decreases stylesheet.rules.len() - i,
    {
        let rule = &stylesheet.rules[i];
        let ghost before = stylesheet.rules@.take(i as int);
        assert(stylesheet.rules@.take(i + 1).drop_last() =~= before);
        proof {
            reveal_with_fuel(Seq::filter, 1);
        }
        let ghost prev = out@;
        if any_selector_matches(elem, rule) {
            out.push(rule);
            assert(out@.map_values(|x: &Rule| *x) =~= prev.map_values(|x: &Rule| *x).push(*rule));
        }
        i = i + 1;
    }
    assert(stylesheet.rules@.take(i as int) =~= stylesheet.rules@);
    out
}

/// Whether some selector of `rule` matches `elem`.
fn any_selector_matches(elem: &ElementData, rule: &Rule) -> (r: bool)
    ensures
        r == rule_matches(*elem, *rule),
{
    let mut j: usize = 0;
    while j < rule.selectors.len()
        invariant
            j <= rule.selectors.len(),
            forall|k: int| 0 <= k < j ==> !selector_matches(*elem, #[trigger] rule.selectors@[k]),
        decreases rule.selectors.len() - j,
    {
        if matches_selector(elem, &rule.selectors[j]) {
            return true;
        }
        j = j + 1;
    }
    false
}

/// Whether `selector` matches `elem`.
pub fn matches_selector(elem: &ElementData, selector: &Selector) -> (r: bool)
    ensures
        r == selector_matches(*elem, *selector),
{
    match selector {
        Selector::Simple(simple) => matches_simple_selector(elem, simple),
    }
}

/// Whether `selector` matches `elem`: tag name, id and classes, all three.
pub fn matches_simple_selector(elem: &ElementData, selector: &SimpleSelector) -> (r: bool)
    ensures
        r == simple_selector_matches(*elem, *selector),
{
    if let Some(name) = &selector.local_name {
        if *name != elem.tag_name {
            return false;
        }
    }
    if let Some(id) = &selector.id {
        match elem.id() {
            Some(elem_id) => {
                if *elem_id != *id {
                    return false;
                }
            },
            None => {
                return false;
            },
        }
    }
    let elem_classes = elem.classes();
    let mut i: usize = 0;
    while i < selector.class.len()
        invariant
            i <= selector.class.len(),
            string_views(elem_classes@).to_set() == elem.class_set(),
            forall|k: int| 0 <= k < i ==> elem.class_set().contains(#[trigger] selector.class@[k]@),
        decreases selector.class.len() - i,
    {
        if !contains_string(&elem_classes, &selector.class[i]) {
            assert(!elem.class_set().contains(selector.class@[i as int]@));
            return false;
        }
        i = i + 1;
    }
    true
}

/// Whether `v` holds a string equal to `s`.
fn contains_string(v: &Vec<String>, s: &String) -> (r: bool)
    ensures
        r == string_views(v@).contains(s@),
{
    let mut i: usize = 0;
    while i < v.len()
        invariant
            i <= v.len(),
            forall|k: int| 0 <= k < i ==> string_views(v@)[k] != s@,
        decreases v.len() - i,
    {
        if v[i] == *s {
            assert(string_views(v@)[i as int] == s@);
            return true;
        }
        i = i + 1;
    }
    false
}

} // verus!
