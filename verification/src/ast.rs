//! The abstract syntax of a grammar.

use crate::program::{Assoc, Fixity};
use vstd::prelude::*;

verus! {

/// An expression of a grammar.
pub enum Expr {
    /// The items one after the other.
    Sequence(Vec<Expr>),
    /// The alternatives, tried from the left; the first that matches wins.
    OrderedChoice(Vec<Expr>),
    /// `inner` at least `min` and, where `max` is given, at most `max` times.
    Repetition { inner: Box<Expr>, min: usize, max: Option<usize> },
    /// `inner` or nothing.
    Optional(Box<Expr>),
    /// Succeeds where `inner` matches, without consuming.
    PositiveLookahead(Box<Expr>),
    /// Succeeds where `inner` does not match, without consuming.
    NegativeLookahead(Box<Expr>),
    /// Literal text.
    Literal(String),
    /// One element whose code lies (or, when negated, does not lie) in one of
    /// the inclusive ranges; `label` is how the class is named in errors.
    ElementClass { ranges: Vec<(u32, u32)>, negated: bool, label: String },
    /// A reference to a rule, or to a parameter of the rule it stands in.
    RuleRef { name: String, args: Vec<Expr> },
    /// `inner`, whose value a host action turns into the value of the match;
    /// `code` is the number of the action.
    Action { inner: Box<Expr>, code: usize },
    /// `inner`, of which the stretch of input that it covered is the value.
    Capture(Box<Expr>),
    /// `inner`, whose value is kept under a name for the action of the
    /// sequence that it stands in.
    Labeled { name: String, inner: Box<Expr> },
    /// Yields the current position and consumes nothing.
    PositionMarker,
    /// Operands and operators by levels, weakest first.
    PrecedenceBlock(Vec<Level>),
}

/// One level of a precedence block.
pub struct Level {
    pub assoc: Assoc,
    pub operators: Vec<Template>,
}

/// One operator template, or one kind of operand, of a precedence block.
pub struct Template {
    pub fixity: Fixity,
    /// What stands beside the operands; for an atom, the operand itself.
    pub pattern: Expr,
    /// The number of the action that folds the operands.
    pub code: usize,
}

/// A rule of a grammar.
pub struct Rule {
    pub name: String,
    /// The names of the rule's parameters; a rule with parameters is a
    /// template that is expanded where it is used.
    pub params: Vec<String>,
    pub body: Expr,
    /// Whether outcomes of the rule are remembered per position.
    pub memoized: bool,
    /// Whether a parse may start at the rule.
    pub public: bool,
    /// Where the rule begins in the text of the grammar, as the index of its
    /// first token; problems of the rule are reported there.
    pub at: usize,
}

/// A grammar: its rules, in the order in which they were declared.
pub struct Grammar {
    pub rules: Vec<Rule>,
}

impl Expr {
    /// The number of direct parts.
    pub open spec fn width(&self) -> nat {
        match self {
            Expr::Sequence(items) => items@.len(),
            Expr::OrderedChoice(alts) => alts@.len(),
            Expr::RuleRef { name, args } => args@.len(),
            Expr::PrecedenceBlock(levels) => levels@.len(),
            _ => 0,
        }
    }
}

impl Grammar {
    /// The number of rules.
    pub open spec fn size(&self) -> nat {
        self.rules@.len()
    }
}

} // verus!
