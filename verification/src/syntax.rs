//! The mathematical form of a grammar's syntax, in which reading a grammar
//! from tokens is stated.

use crate::ast::{Expr, Grammar, Level, Rule, Template};
use crate::model::texts;
use crate::program::{Assoc, Fixity};
use vstd::prelude::*;

verus! {

/// The mathematical form of an [`Expr`].
pub ghost enum ExprModel {
    Sequence(Seq<ExprModel>),
    OrderedChoice(Seq<ExprModel>),
    Repetition { inner: Box<ExprModel>, min: usize, max: Option<usize> },
    Optional(Box<ExprModel>),
    PositiveLookahead(Box<ExprModel>),
    NegativeLookahead(Box<ExprModel>),
    Literal(Seq<char>),
    ElementClass { ranges: Seq<(u32, u32)>, negated: bool, label: Seq<char> },
    RuleRef { name: Seq<char>, args: Seq<ExprModel> },
    Action { inner: Box<ExprModel>, code: usize },
    Capture(Box<ExprModel>),
    Labeled { name: Seq<char>, inner: Box<ExprModel> },
    PositionMarker,
    PrecedenceBlock(Seq<LevelModel>),
}

/// The mathematical form of a [`Level`].
pub ghost struct LevelModel {
    pub assoc: Assoc,
    pub operators: Seq<TemplateModel>,
}

/// The mathematical form of a [`Template`].
pub ghost struct TemplateModel {
    pub fixity: Fixity,
    pub pattern: ExprModel,
    pub code: usize,
}

/// The mathematical form of a [`Rule`].
pub ghost struct RuleModel {
    pub name: Seq<char>,
    pub params: Seq<Seq<char>>,
    pub body: ExprModel,
    pub memoized: bool,
    pub public: bool,
    pub at: usize,
}

/// The mathematical form of an expression.
pub open spec fn expr_model(e: &Expr) -> ExprModel
    decreases e,
{
    match e {
        Expr::Sequence(items) => ExprModel::Sequence(expr_models(items@)),
        Expr::OrderedChoice(alts) => ExprModel::OrderedChoice(expr_models(alts@)),
        Expr::Repetition { inner, min, max } => ExprModel::Repetition {
            inner: Box::new(expr_model(inner)),
            min: *min,
            max: *max,
        },
        Expr::Optional(inner) => ExprModel::Optional(Box::new(expr_model(inner))),
        Expr::PositiveLookahead(inner) => ExprModel::PositiveLookahead(
            Box::new(expr_model(inner)),
        ),
        Expr::NegativeLookahead(inner) => ExprModel::NegativeLookahead(
            Box::new(expr_model(inner)),
        ),
        Expr::Literal(text) => ExprModel::Literal(text@),
        Expr::ElementClass { ranges, negated, label } => ExprModel::ElementClass {
            ranges: ranges@,
            negated: *negated,
            label: label@,
        },
        Expr::RuleRef { name, args } => ExprModel::RuleRef {
            name: name@,
            args: expr_models(args@),
        },
        Expr::Action { inner, code } => ExprModel::Action {
            inner: Box::new(expr_model(inner)),
            code: *code,
        },
        Expr::Capture(inner) => ExprModel::Capture(Box::new(expr_model(inner))),
        Expr::Labeled { name, inner } => ExprModel::Labeled {
            name: name@,
            inner: Box::new(expr_model(inner)),
        },
        Expr::PositionMarker => ExprModel::PositionMarker,
        Expr::PrecedenceBlock(levels) => ExprModel::PrecedenceBlock(level_models(levels@)),
    }
}

/// The mathematical forms of a sequence of expressions.
pub open spec fn expr_models(es: Seq<Expr>) -> Seq<ExprModel>
    decreases es, 1nat,
{
    Seq::new(es.len(), |i: int| expr_model_at(es, i))
}

/// The form of the expression at index `i`.
pub open spec fn expr_model_at(es: Seq<Expr>, i: int) -> ExprModel
    decreases es, 0nat,
{
    if 0 <= i < es.len() {
        expr_model(&es[i])
    } else {
        ExprModel::PositionMarker
    }
}

/// The mathematical forms of a sequence of levels.
pub open spec fn level_models(levels: Seq<Level>) -> Seq<LevelModel>
    decreases levels, 1nat,
{
    Seq::new(levels.len(), |i: int| level_model_at(levels, i))
}

/// The form of the level at index `i`.
pub open spec fn level_model_at(levels: Seq<Level>, i: int) -> LevelModel
    decreases levels, 0nat,
{
    if 0 <= i < levels.len() {
        LevelModel {
            assoc: levels[i].assoc,
            operators: template_models(levels[i].operators@),
        }
    } else {
        LevelModel { assoc: Assoc::Left, operators: Seq::empty() }
    }
}

/// The mathematical forms of a sequence of templates.
pub open spec fn template_models(templates: Seq<Template>) -> Seq<TemplateModel>
    decreases templates, 1nat,
{
    Seq::new(templates.len(), |i: int| template_model_at(templates, i))
}

/// The form of the template at index `i`.
pub open spec fn template_model_at(templates: Seq<Template>, i: int) -> TemplateModel
    decreases templates, 0nat,
{
    if 0 <= i < templates.len() {
        TemplateModel {
            fixity: templates[i].fixity,
            pattern: expr_model(&templates[i].pattern),
            code: templates[i].code,
        }
    } else {
        TemplateModel { fixity: Fixity::Atom, pattern: ExprModel::PositionMarker, code: 0 }
    }
}

/// The mathematical form of a rule.
pub open spec fn rule_model(rule: &Rule) -> RuleModel {
    RuleModel {
        name: rule.name@,
        params: texts(rule.params@),
        body: expr_model(&rule.body),
        memoized: rule.memoized,
        public: rule.public,
        at: rule.at,
    }
}

/// The mathematical forms of a sequence of rules.
pub open spec fn rule_models(rules: Seq<Rule>) -> Seq<RuleModel> {
    Seq::new(rules.len(), |i: int| rule_model(&rules[i]))
}

impl View for Grammar {
    type V = Seq<RuleModel>;

    open spec fn view(&self) -> Seq<RuleModel> {
        rule_models(self.rules@)
    }
}

/// The forms of a list with one more expression.
pub proof fn lemma_expr_models_push(es: Seq<Expr>, e: Expr)
    ensures
        expr_models(es.push(e)) == expr_models(es).push(expr_model(&e)),
{
    assert(expr_models(es.push(e)) =~= expr_models(es).push(expr_model(&e)));
}

/// No expressions have no forms.
pub proof fn lemma_expr_models_empty()
    ensures
        expr_models(Seq::<Expr>::empty()) == Seq::<ExprModel>::empty(),
{
    assert(expr_models(Seq::<Expr>::empty()) =~= Seq::<ExprModel>::empty());
}

/// The forms of a list with one more template.
pub proof fn lemma_template_models_push(ts: Seq<Template>, t: Template)
    ensures
        template_models(ts.push(t)) == template_models(ts).push(
            TemplateModel { fixity: t.fixity, pattern: expr_model(&t.pattern), code: t.code },
        ),
{
    assert(template_models(ts.push(t)) =~= template_models(ts).push(
        TemplateModel { fixity: t.fixity, pattern: expr_model(&t.pattern), code: t.code },
    ));
}

/// The forms of a list with one more level.
pub proof fn lemma_level_models_push(ls: Seq<Level>, l: Level)
    ensures
        level_models(ls.push(l)) == level_models(ls).push(
            LevelModel { assoc: l.assoc, operators: template_models(l.operators@) },
        ),
{
    assert(level_models(ls.push(l)) =~= level_models(ls).push(
        LevelModel { assoc: l.assoc, operators: template_models(l.operators@) },
    ));
}

/// The forms of a list with one more rule.
pub proof fn lemma_rule_models_push(rs: Seq<Rule>, r: Rule)
    ensures
        rule_models(rs.push(r)) == rule_models(rs).push(rule_model(&r)),
{
    assert(rule_models(rs.push(r)) =~= rule_models(rs).push(rule_model(&r)));
}

/// The texts of a list with one more string.
pub proof fn lemma_texts_push(ss: Seq<String>, s: String)
    ensures
        texts(ss.push(s)) == texts(ss).push(s@),
{
    assert(texts(ss.push(s)) =~= texts(ss).push(s@));
}

} // verus!
