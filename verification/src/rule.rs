//! Core types: rules, their identities and modifiers.
use vstd::prelude::*;

verus! {

broadcast use vstd::string::group_string_axioms;

/// Uniquely identifies a rule by its normalized identity.
/// Modifiers are part of the key: `(start)A=B` and `A=B` are different rules.
#[derive(Clone, Debug, PartialEq, Eq, Hash)]
pub struct RuleKey {
    /// LHS text (without modifiers), in escaped source form.
    pub lhs: String,
    /// `(start)` prefix present.
    pub has_start: bool,
    /// `(end)` suffix present.
    pub has_end: bool,
    /// `(once)` prefix present.
    pub has_once: bool,
}

/// The mathematical content of a [`RuleKey`].
pub struct KeyView {
    pub lhs: Seq<char>,
    pub has_start: bool,
    pub has_end: bool,
    pub has_once: bool,
}

impl View for RuleKey {
    type V = KeyView;

    open spec fn view(&self) -> KeyView {
        KeyView {
            lhs: self.lhs@,
            has_start: self.has_start,
            has_end: self.has_end,
            has_once: self.has_once,
        }
    }
}

/// Prefix that controls where the RHS is inserted on match.
#[derive(Clone, Copy, Debug, PartialEq, Eq, Structural)]
pub enum RhsPrefix {
    /// Insert RHS where the matched LHS was (default).
    Normal,
    /// Insert RHS at the start of the tape.
    Start,
    /// Insert RHS at the end of the tape.
    End,
    /// Insert RHS and then halt execution.
    Halt,
}

/// A single rewrite rule.
#[derive(Clone, Debug)]
pub struct Rule {
    pub key: RuleKey,
    /// RHS text (without prefix), in escaped source form.
    pub rhs: String,
    /// RHS prefix modifier.
    pub rhs_prefix: RhsPrefix,
    /// Tracks whether this `(once)` rule has already fired.
    pub used: bool,
}

/// The mathematical content of a [`Rule`].
pub struct RuleView {
    pub key: KeyView,
    pub rhs: Seq<char>,
    pub rhs_prefix: RhsPrefix,
    pub used: bool,
}

impl View for Rule {
    type V = RuleView;

    open spec fn view(&self) -> RuleView {
        RuleView { key: self.key@, rhs: self.rhs@, rhs_prefix: self.rhs_prefix, used: self.used }
    }
}

/// The views of a sequence of rules.
pub open spec fn rules_view(rules: Seq<Rule>) -> Seq<RuleView> {
    rules.map_values(|r: Rule| r@)
}

/// Whether two keys denote the same rule identity.
pub fn same_key(a: &RuleKey, b: &RuleKey) -> (r: bool)
    ensures
        r == (a@ == b@),
{
    a.has_start == b.has_start && a.has_end == b.has_end && a.has_once == b.has_once && a.lhs
        == b.lhs
}

impl RuleKey {
    /// A key with the given LHS and no modifiers.
    pub fn new(lhs: &str) -> (k: Self)
        ensures
            k@ == (KeyView { lhs: lhs@, has_start: false, has_end: false, has_once: false }),
    {
        RuleKey { lhs: lhs.to_string(), has_start: false, has_end: false, has_once: false }
    }

    /// The same key with the `(start)` modifier.
    pub fn with_start(self) -> (k: Self)
        ensures
            k@ == (KeyView { has_start: true, ..self@ }),
    {
        let mut s = self;
        s.has_start = true;
        s
    }

    /// The same key with the `(end)` modifier.
    pub fn with_end(self) -> (k: Self)
        ensures
            k@ == (KeyView { has_end: true, ..self@ }),
    {
        let mut s = self;
        s.has_end = true;
        s
    }

    /// The same key with the `(once)` modifier.
    pub fn with_once(self) -> (k: Self)
        ensures
            k@ == (KeyView { has_once: true, ..self@ }),
    {
        let mut s = self;
        s.has_once = true;
        s
    }
}

impl Rule {
    /// An unused rule with the given key, RHS text and no RHS prefix.
    pub fn new(key: RuleKey, rhs: &str) -> (r: Self)
        ensures
            r@ == (RuleView { key: key@, rhs: rhs@, rhs_prefix: RhsPrefix::Normal, used: false }),
    {
        Rule { key, rhs: rhs.to_string(), rhs_prefix: RhsPrefix::Normal, used: false }
    }

    /// The same rule with the given RHS prefix.
    pub fn with_rhs_prefix(self, prefix: RhsPrefix) -> (r: Self)
        ensures
            r@ == (RuleView { rhs_prefix: prefix, ..self@ }),
    {
        let mut s = self;
        s.rhs_prefix = prefix;
        s
    }
}

} // verus!
