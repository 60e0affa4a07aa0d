use robinson::css::{Declaration, Rule, Selector, SimpleSelector, Stylesheet};
use robinson::dom::{comment, elem, text, AttrMap, ElementData, NodeType};
use robinson::style::{matches_selector, matches_simple_selector, matching_rules};

fn element(tag: &str, attrs: &[(&str, &str)]) -> ElementData {
    let mut map = AttrMap::new();
    for (k, v) in attrs {
        map.insert(k.to_string(), v.to_string());
    }
    ElementData { tag_name: tag.to_string(), attributes: map }
}

fn simple(local_name: Option<&str>, id: Option<&str>, class: &[&str]) -> SimpleSelector {
    SimpleSelector {
        local_name: local_name.map(|s| s.to_string()),
        id: id.map(|s| s.to_string()),
        class: class.iter().map(|s| s.to_string()).collect(),
    }
}

fn rule(name: &str, selectors: Vec<SimpleSelector>) -> Rule {
    Rule {
        selectors: selectors.into_iter().map(Selector::Simple).collect(),
        declarations: vec![Declaration { name: name.to_string(), value: "x".to_string() }],
    }
}

fn names(rules: &[&Rule]) -> Vec<String> {
    rules.iter().map(|r| r.declarations[0].name.clone()).collect()
}

fn sorted_classes(e: &ElementData) -> Vec<String> {
    let mut c = e.classes();
    c.sort();
    c
}

#[test]
fn empty_selector_matches_any_element() {
    let s = simple(None, None, &[]);
    assert!(matches_simple_selector(&element("div", &[]), &s));
    assert!(matches_simple_selector(&element("p", &[("id", "x"), ("class", "a b")]), &s));
    assert!(matches_simple_selector(&element("", &[]), &s));
}

#[test]
fn matching_rules_keeps_stylesheet_order() {
    let sheet = Stylesheet {
        rules: vec![
            rule("first", vec![simple(Some("div"), None, &[])]),
            rule("skipped", vec![simple(Some("span"), None, &[])]),
            rule("second", vec![simple(None, None, &["a"])]),
            rule("also_skipped", vec![simple(None, Some("other"), &[])]),
            rule("third", vec![simple(Some("em"), None, &[]), simple(None, Some("main"), &[])]),
        ],
    };
    let e = element("div", &[("id", "main"), ("class", "a")]);
    let r = matching_rules(&e, &sheet);
    assert_eq!(names(&r), vec!["first", "second", "third"]);
}

#[test]
fn matching_rules_twice_gives_same_result() {
    let sheet = Stylesheet {
        rules: vec![
            rule("one", vec![simple(Some("p"), None, &[])]),
            rule("two", vec![simple(None, None, &["b"])]),
        ],
    };
    let e = element("p", &[("class", "b c")]);
    let first = names(&matching_rules(&e, &sheet));
    let second = names(&matching_rules(&e, &sheet));
    assert_eq!(first, second);
    assert_eq!(first, vec!["one", "two"]);
}

#[test]
fn classes_collapse_duplicates() {
    let e = element("div", &[("class", "a a b")]);
    assert_eq!(sorted_classes(&e), vec!["a", "b"]);
}

#[test]
fn classes_skip_empty_tokens() {
    let e = element("div", &[("class", "  x  y ")]);
    assert_eq!(sorted_classes(&e), vec!["x", "y"]);
    let e = element("div", &[("class", "")]);
    assert!(e.classes().is_empty());
}

#[test]
fn classes_without_class_attribute_is_empty() {
    let e = element("div", &[("id", "a b")]);
    assert!(e.classes().is_empty());
}

#[test]
fn id_and_tag_must_both_match() {
    let e = element("div", &[("id", "main")]);
    assert!(!matches_simple_selector(&e, &simple(Some("span"), Some("main"), &[])));
    assert!(matches_simple_selector(&e, &simple(Some("div"), Some("main"), &[])));
}

#[test]
fn id_selector_needs_id_attribute() {
    let e = element("div", &[]);
    assert!(!matches_simple_selector(&e, &simple(None, Some("main"), &[])));
    let e = element("div", &[("id", "Main")]);
    assert!(!matches_simple_selector(&e, &simple(None, Some("main"), &[])));
}

#[test]
fn tag_name_is_case_sensitive() {
    let e = element("DIV", &[]);
    assert!(!matches_simple_selector(&e, &simple(Some("div"), None, &[])));
}

#[test]
fn required_classes_are_a_subset() {
    let s = simple(None, None, &["warning", "active"]);
    assert!(matches_simple_selector(&element("p", &[("class", "active warning extra")]), &s));
    assert!(!matches_simple_selector(&element("p", &[("class", "active")]), &s));
    assert!(!matches_simple_selector(&element("p", &[]), &s));
}

#[test]
fn matches_selector_dispatches_to_simple() {
    let e = element("p", &[]);
    assert!(matches_selector(&e, &Selector::Simple(simple(Some("p"), None, &[]))));
    assert!(!matches_selector(&e, &Selector::Simple(simple(Some("a"), None, &[]))));
}

#[test]
fn end_to_end_paragraph_with_id() {
    let sheet = Stylesheet {
        rules: vec![
            rule("by_tag", vec![simple(Some("p"), None, &[])]),
            rule("by_id", vec![simple(None, Some("foo"), &[])]),
        ],
    };
    let e = element("p", &[("id", "foo")]);
    assert_eq!(names(&matching_rules(&e, &sheet)), vec!["by_tag", "by_id"]);
}

#[test]
fn no_rule_matches_gives_empty() {
    let sheet = Stylesheet { rules: vec![rule("r", vec![simple(Some("a"), None, &[])])] };
    assert!(matching_rules(&element("p", &[]), &sheet).is_empty());
    let empty = Stylesheet { rules: vec![] };
    assert!(matching_rules(&element("p", &[]), &empty).is_empty());
}

#[test]
fn text_and_comment_have_no_children() {
    let t = text("hello".to_string());
    assert!(t.children.is_empty());
    assert!(matches!(&t.node_type, NodeType::Text(s) if s == "hello"));
    let c = comment("note".to_string());
    assert!(c.children.is_empty());
    assert!(matches!(&c.node_type, NodeType::Comment(s) if s == "note"));
    let parent = elem("div".to_string(), AttrMap::new(), vec![text("a".to_string())]);
    assert_eq!(parent.children.len(), 1);
    assert!(parent.children[0].children.is_empty());
}
