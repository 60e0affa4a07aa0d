use vstd::prelude::*;

verus! {

/// A selector made only of tag-name, id and class constraints.
pub struct SimpleSelector {
    pub local_name: Option<String>,
    pub id: Option<String>,
    pub class: Vec<String>,
}

/// A selector; more variants (combinators) may be added later.
pub enum Selector {
    Simple(SimpleSelector),
}

/// One property declaration; opaque to matching.
pub struct Declaration {
    pub name: String,
    pub value: String,
}

/// A selector list paired with its declarations.
pub struct Rule {
    pub selectors: Vec<Selector>,
    pub declarations: Vec<Declaration>,
}

/// An ordered list of rules, in source order.
pub struct Stylesheet {
    pub rules: Vec<Rule>,
}

} // verus!
