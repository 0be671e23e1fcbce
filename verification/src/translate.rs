//! Lowering: from the expressions of a grammar to matching operations.
//!
//! References are resolved to rule numbers, rules with parameters are
//! expanded where they are used, literals are cut into pieces with their
//! labels, and precedence levels are laid out as one list of operators.

use crate::ast::{Expr, Grammar, Level, Rule, Template};
use crate::matcher::{all_idle, copy_flags};
use crate::model::{
    as_sound, copy_op, copy_ranges, lemma_sound_parts, op_model, op_models, operator_models, part,
    same_operator, step_models, texts, OpModel, OperatorModel, StepModel,
};
use crate::program::{struct_ok, Fixity, Op, Operator, Program, Routine, RuleKind, Step};
use crate::semantics::{idle, lemma_idle_update};
use vstd::prelude::*;
use vstd::string::{StrSliceExecFns, StringExecFns};

verus! {

/// Why a grammar cannot be compiled.  Each problem names the rule, by its
/// number in the grammar, in which it was found.
#[derive(Clone, Copy, PartialEq, Eq, Debug, Structural)]
pub enum CompileError {
    /// The rule has the name of an earlier rule.
    DuplicateRule { rule: usize },
    /// A reference names neither a rule nor a parameter in scope.
    UnresolvedReference { rule: usize },
    /// A reference gives another number of arguments than the rule takes.
    WrongArity { rule: usize },
    /// Expanding a rule with parameters leads back into the same rule.
    CyclicExpansion { rule: usize },
    /// A choice has no alternative.
    EmptyChoice { rule: usize },
    /// A repetition asks for more matches at least than it allows at most.
    RepetitionBounds { rule: usize },
    /// A repetition has a body that can match without consuming input, so
    /// that it would never end.
    EmptyRepetition { rule: usize },
    /// A precedence block has no operand, or an operator that can match
    /// without consuming input.
    InvalidPrecedence { rule: usize },
    /// The rule can call itself before any input is consumed, and no
    /// memoized rule stands in between.
    LeftRecursion { rule: usize },
}

impl CompileError {
    /// The number of the rule in which the problem was found.
    pub open spec fn rule_of(self) -> usize {
        match self {
            CompileError::DuplicateRule { rule } => rule,
            CompileError::UnresolvedReference { rule } => rule,
            CompileError::WrongArity { rule } => rule,
            CompileError::CyclicExpansion { rule } => rule,
            CompileError::EmptyChoice { rule } => rule,
            CompileError::RepetitionBounds { rule } => rule,
            CompileError::EmptyRepetition { rule } => rule,
            CompileError::InvalidPrecedence { rule } => rule,
            CompileError::LeftRecursion { rule } => rule,
        }
    }
}

/// The parameters in scope and what they stand for.
pub ghost struct Scope {
    pub params: Seq<Seq<char>>,
    pub args: Seq<OpModel>,
}

/// The first index from `k` on at which `name` stands in `names`.
pub open spec fn first_from(names: Seq<Seq<char>>, name: Seq<char>, k: int) -> Option<int>
    decreases names.len() - k,
{
    if 0 <= k < names.len() {
        if names[k] == name {
            Some(k)
        } else {
            first_from(names, name, k + 1)
        }
    } else {
        None
    }
}

/// The first index at which `name` stands in `names`.
pub open spec fn first_index(names: Seq<Seq<char>>, name: Seq<char>) -> Option<int> {
    first_from(names, name, 0)
}

/// The names of the rules of a grammar.
pub open spec fn rule_names(g: &Grammar) -> Seq<Seq<char>> {
    Seq::new(g.size(), |i: int| g.rules@[i].name@)
}

/// A text between double quotes: the label of a piece of a literal.
pub open spec fn quoted(text: Seq<char>) -> Seq<char> {
    "\""@ + text + "\""@
}

/// The pieces of a literal: one for each character.
pub open spec fn literal_pieces(text: Seq<char>) -> Seq<Seq<char>> {
    Seq::new(text.len(), |i: int| seq![text[i]])
}

/// The labels of the pieces of a literal.
pub open spec fn literal_labels(text: Seq<char>) -> Seq<Seq<char>> {
    Seq::new(text.len(), |i: int| quoted(seq![text[i]]))
}

/// Whether one of the operators is an operand.
pub open spec fn has_atom(operators: Seq<OperatorModel>) -> bool {
    exists|k: int| 0 <= k < operators.len() && (#[trigger] operators[k]).fixity == Fixity::Atom
}

/// What `e`, which stands in rule number `at`, lowers to.
pub open spec fn lowered(
    g: &Grammar,
    at: usize,
    e: &Expr,
    scope: Scope,
    expanding: Seq<bool>,
) -> Result<OpModel, CompileError>
    decreases idle(expanding), e, e.width() + 1, 0nat,
{
    match e {
        Expr::Sequence(items) => match lowered_items(g, at, e, 0, scope, expanding, Seq::empty()) {
            Ok(steps) => Ok(OpModel::Sequence(steps)),
            Err(problem) => Err(problem),
        },
        Expr::OrderedChoice(alts) => {
            if alts@.len() == 0 {
                Err(CompileError::EmptyChoice { rule: at })
            } else {
                match lowered_alts(g, at, e, 0, scope, expanding, Seq::empty()) {
                    Ok(ops) => Ok(OpModel::Choice(ops)),
                    Err(problem) => Err(problem),
                }
            }
        },
        Expr::Repetition { inner, min, max } => {
            if *max matches Some(m) && *min > m {
                Err(CompileError::RepetitionBounds { rule: at })
            } else {
                match lowered(g, at, inner, scope, expanding) {
                    Ok(body) => Ok(OpModel::Repeat { inner: Box::new(body), min: *min, max: *max }),
                    Err(problem) => Err(problem),
                }
            }
        },
        Expr::Optional(inner) => match lowered(g, at, inner, scope, expanding) {
            Ok(body) => Ok(OpModel::Optional(Box::new(body))),
            Err(problem) => Err(problem),
        },
        Expr::PositiveLookahead(inner) => match lowered(g, at, inner, scope, expanding) {
            Ok(body) => Ok(OpModel::Ahead(Box::new(body))),
            Err(problem) => Err(problem),
        },
        Expr::NegativeLookahead(inner) => match lowered(g, at, inner, scope, expanding) {
            Ok(body) => Ok(OpModel::NotAhead(Box::new(body))),
            Err(problem) => Err(problem),
        },
        Expr::Literal(text) => Ok(
            OpModel::Literal { pieces: literal_pieces(text@), labels: literal_labels(text@) },
        ),
        Expr::ElementClass { ranges, negated, label } => Ok(
            OpModel::Class { ranges: ranges@, negated: *negated, label: label@ },
        ),
        Expr::RuleRef { name, args } => {
            if args@.len() == 0 && first_index(scope.params, name@) is Some {
                let k = first_index(scope.params, name@)->Some_0;
                if k < scope.args.len() {
                    Ok(scope.args[k])
                } else {
                    Err(CompileError::UnresolvedReference { rule: at })
                }
            } else {
                match first_index(rule_names(g), name@) {
                    None => Err(CompileError::UnresolvedReference { rule: at }),
                    Some(i) => {
                        if !(0 <= i < g.size()) {
                            Err(CompileError::UnresolvedReference { rule: at })
                        } else if g.rules@[i].params@.len() != args@.len() {
                            Err(CompileError::WrongArity { rule: at })
                        } else if args@.len() == 0 {
                            Ok(OpModel::Call(i as usize))
                        } else if !(expanding.len() == g.size() && !expanding[i]) {
                            Err(CompileError::CyclicExpansion { rule: at })
                        } else {
                            match lowered_args(g, at, e, 0, scope, expanding, Seq::empty()) {
                                Err(problem) => Err(problem),
                                Ok(bound) => {
                                    proof {
                                        lemma_idle_update(expanding, i);
                                    }
                                    lowered(
                                        g,
                                        at,
                                        &g.rules@[i].body,
                                        Scope { params: texts(g.rules@[i].params@), args: bound },
                                        expanding.update(i, true),
                                    )
                                },
                            }
                        }
                    },
                }
            }
        },
        Expr::Action { inner, code } => match lowered(g, at, inner, scope, expanding) {
            Ok(body) => Ok(OpModel::Action { inner: Box::new(body), action: *code }),
            Err(problem) => Err(problem),
        },
        Expr::Capture(inner) => match lowered(g, at, inner, scope, expanding) {
            Ok(body) => Ok(OpModel::Capture(Box::new(body))),
            Err(problem) => Err(problem),
        },
        Expr::Labeled { name, inner } => lowered(g, at, inner, scope, expanding),
        Expr::PositionMarker => Ok(OpModel::Position),
        Expr::PrecedenceBlock(levels) => match lowered_levels(
            g,
            at,
            e,
            0,
            scope,
            expanding,
            Seq::empty(),
        ) {
            Ok(operators) => {
                if has_atom(operators) {
                    Ok(OpModel::Precedence(operators))
                } else {
                    Err(CompileError::InvalidPrecedence { rule: at })
                }
            },
            Err(problem) => Err(problem),
        },
    }
}

/// The steps that the items of the sequence `e` from index `k` on lower to,
/// behind the steps in `done`.  An item with a label is a step whose value
/// is kept.
pub open spec fn lowered_items(
    g: &Grammar,
    at: usize,
    e: &Expr,
    k: int,
    scope: Scope,
    expanding: Seq<bool>,
    done: Seq<StepModel>,
) -> Result<Seq<StepModel>, CompileError>
    decreases idle(expanding), e, e.width() - k, 0nat,
{
    match e {
        Expr::Sequence(items) => {
            if 0 <= k < items@.len() {
                match lowered(g, at, &items@[k], scope, expanding) {
                    Ok(op) => lowered_items(
                        g,
                        at,
                        e,
                        k + 1,
                        scope,
                        expanding,
                        done.push(StepModel { op, keep: items@[k] is Labeled }),
                    ),
                    Err(problem) => Err(problem),
                }
            } else {
                Ok(done)
            }
        },
        _ => Ok(done),
    }
}

/// What the alternatives of the choice `e` from index `k` on lower to, behind
/// the operations in `done`.
pub open spec fn lowered_alts(
    g: &Grammar,
    at: usize,
    e: &Expr,
    k: int,
    scope: Scope,
    expanding: Seq<bool>,
    done: Seq<OpModel>,
) -> Result<Seq<OpModel>, CompileError>
    decreases idle(expanding), e, e.width() - k, 0nat,
{
    match e {
        Expr::OrderedChoice(alts) => {
            if 0 <= k < alts@.len() {
                match lowered(g, at, &alts@[k], scope, expanding) {
                    Ok(op) => lowered_alts(g, at, e, k + 1, scope, expanding, done.push(op)),
                    Err(problem) => Err(problem),
                }
            } else {
                Ok(done)
            }
        },
        _ => Ok(done),
    }
}

/// What the arguments of the reference `e` from index `k` on lower to, behind
/// the operations in `done`.
pub open spec fn lowered_args(
    g: &Grammar,
    at: usize,
    e: &Expr,
    k: int,
    scope: Scope,
    expanding: Seq<bool>,
    done: Seq<OpModel>,
) -> Result<Seq<OpModel>, CompileError>
    decreases idle(expanding), e, e.width() - k, 0nat,
{
    match e {
        Expr::RuleRef { name, args } => {
            if 0 <= k < args@.len() {
                match lowered(g, at, &args@[k], scope, expanding) {
                    Ok(op) => lowered_args(g, at, e, k + 1, scope, expanding, done.push(op)),
                    Err(problem) => Err(problem),
                }
            } else {
                Ok(done)
            }
        },
        _ => Ok(done),
    }
}

/// The operators that the levels of the precedence block `e` from index
/// `level` on lower to, behind the operators in `done`.
pub open spec fn lowered_levels(
    g: &Grammar,
    at: usize,
    e: &Expr,
    level: int,
    scope: Scope,
    expanding: Seq<bool>,
    done: Seq<OperatorModel>,
) -> Result<Seq<OperatorModel>, CompileError>
    decreases
            idle(expanding),
            e,
            e.width() - level,
            (if e is PrecedenceBlock && 0 <= level < e.width() {
                e->PrecedenceBlock_0@[level].operators@.len() + 1
            } else {
                0
            }),
{
    match e {
        Expr::PrecedenceBlock(levels) => {
            if 0 <= level < levels@.len() {
                lowered_templates(g, at, e, level, 0, scope, expanding, done)
            } else {
                Ok(done)
            }
        },
        _ => Ok(done),
    }
}

/// The operators that the templates from index `k` on of level number
/// `level` of the precedence block `e`, and the levels behind it, lower to,
/// behind the operators in `done`.
pub open spec fn lowered_templates(
    g: &Grammar,
    at: usize,
    e: &Expr,
    level: int,
    k: int,
    scope: Scope,
    expanding: Seq<bool>,
    done: Seq<OperatorModel>,
) -> Result<Seq<OperatorModel>, CompileError>
    decreases
            idle(expanding),
            e,
            e.width() - level,
            (if e is PrecedenceBlock && 0 <= level < e.width() {
                e->PrecedenceBlock_0@[level].operators@.len() - k
            } else {
                0
            }),
{
    match e {
        Expr::PrecedenceBlock(levels) => {
            if 0 <= level < levels@.len() {
                let templates = levels@[level].operators@;
                if 0 <= k < templates.len() {
                    match lowered(g, at, &templates[k].pattern, scope, expanding) {
                        Ok(pattern) => lowered_templates(
                            g,
                            at,
                            e,
                            level,
                            k + 1,
                            scope,
                            expanding,
                            done.push(
                                OperatorModel {
                                    level: level as usize,
                                    assoc: levels@[level].assoc,
                                    fixity: templates[k].fixity,
                                    pattern,
                                    action: templates[k].code,
                                },
                            ),
                        ),
                        Err(problem) => Err(problem),
                    }
                } else {
                    lowered_levels(g, at, e, level + 1, scope, expanding, done)
                }
            } else {
                Ok(done)
            }
        },
        _ => Ok(done),
    }
}

/// Whether every operation of the list is sound in itself for `n` rules.
pub open spec fn all_sound(n: nat, ops: Seq<Op>) -> bool {
    forall|k: int| 0 <= k < ops.len() ==> struct_ok(n, #[trigger] &ops[k])
}

/// Whether a lowering came out as `lowered` lays down.
pub open spec fn lower_post(spec: Result<OpModel, CompileError>, r: Result<Op, CompileError>) -> bool {
    match spec {
        Ok(model) => r matches Ok(op) && op_model(&op) == model,
        Err(problem) => r == Err::<Op, CompileError>(problem),
    }
}

/// The first index at which `name` stands in `names`.
fn find_name(names: &Vec<String>, name: &String) -> (r: Option<usize>)
    ensures
        match r {
            Some(k) => k < names@.len() && first_index(texts(names@), name@) == Some(k as int),
            None => first_index(texts(names@), name@) is None,
        },
{
    let mut k: usize = 0;
    while k < names.len()
        invariant
            k <= names@.len(),
            first_index(texts(names@), name@) == first_from(texts(names@), name@, k as int),
        decreases names@.len() - k,
    {
        if names[k] == *name {
            return Some(k);
        }
        k += 1;
    }
    None
}

/// The number of the first rule called `name`.
fn find_rule(g: &Grammar, name: &String) -> (r: Option<usize>)
    ensures
        match r {
            Some(k) => k < g.size() && first_index(rule_names(g), name@) == Some(k as int),
            None => first_index(rule_names(g), name@) is None,
        },
{
    let mut k: usize = 0;
    while k < g.rules.len()
        invariant
            k <= g.rules@.len(),
            first_index(rule_names(g), name@) == first_from(rule_names(g), name@, k as int),
        decreases g.rules@.len() - k,
    {
        if g.rules[k].name == *name {
            return Some(k);
        }
        k += 1;
    }
    None
}

/// Cuts a literal into its pieces and makes the label of each.
fn split_literal(text: &String) -> (r: (Vec<String>, Vec<String>))
    ensures
        texts(r.0@) == literal_pieces(text@),
        texts(r.1@) == literal_labels(text@),
{
    let s = text.as_str();
    let n = s.unicode_len();
    let mut pieces: Vec<String> = Vec::new();
    let mut labels: Vec<String> = Vec::new();
    let mut i: usize = 0;
    while i < n
        invariant
            i <= n,
            n == text@.len(),
            s@ == text@,
            pieces@.len() == i,
            labels@.len() == i,
            forall|k: int| 0 <= k < i ==> pieces@[k]@ == seq![text@[k]],
            forall|k: int| 0 <= k < i ==> labels@[k]@ == quoted(seq![text@[k]]),
        decreases n - i,
    {
        let piece = s.substring_char(i, i + 1);
        assert(piece@ =~= seq![text@[i as int]]);
        pieces.push(String::from_str(piece));
        labels.push(String::from_str("\"").concat(piece).concat("\""));
        i += 1;
    }
    assert(texts(pieces@) =~= literal_pieces(text@));
    assert(texts(labels@) =~= literal_labels(text@));
    (pieces, labels)
}

/// Lowers `e`, which stands in rule number `at`.  `params` and `args` are
/// the parameters in scope and what they stand for; `expanding` marks the
/// rules with parameters that are being expanded.
pub fn lower(
    g: &Grammar,
    at: usize,
    e: &Expr,
    params: &Vec<String>,
    args: &Vec<Op>,
    expanding: &Vec<bool>,
) -> (r: Result<Op, CompileError>)
    requires
        all_sound(g.size(), args@),
    ensures
        lower_post(
            lowered(
                g,
                at,
                e,
                Scope { params: texts(params@), args: op_models(args@) },
                expanding@,
            ),
            r,
        ),
        r matches Ok(op) ==> struct_ok(g.size(), &op),
        r matches Err(problem) ==> problem.rule_of() == at,
    decreases idle(expanding@), e, e.width() + 1, 0nat,
{
    let ghost scope = Scope { params: texts(params@), args: op_models(args@) };
    let ghost n = g.size();
    match e {
        Expr::Sequence(items) => {
            assert(step_models(Seq::<Step>::empty()) =~= Seq::<StepModel>::empty());
            match lower_items(g, at, e, 0, params, args, expanding, Vec::new()) {
                Ok(steps) => {
                    let r = Op::Sequence(steps);
                    proof {
                        assert forall|j: int| 0 <= j < r.width() implies struct_ok(
                            n,
                            #[trigger] part(&r, j),
                        ) by {
                            assert(struct_ok(n, &steps@[j].op));
                        }
                        lemma_sound_parts(n, &r, 0);
                    }
                    Ok(r)
                },
                Err(problem) => Err(problem),
            }
        },
        Expr::OrderedChoice(alts) => {
            if alts.len() == 0 {
                Err(CompileError::EmptyChoice { rule: at })
            } else {
                assert(op_models(Seq::<Op>::empty()) =~= Seq::<OpModel>::empty());
                match lower_alts(g, at, e, 0, params, args, expanding, Vec::new()) {
                    Ok(ops) => {
                        let r = Op::Choice(ops);
                        proof {
                            assert(op_models(ops@).len() == ops@.len());
                            assert forall|j: int| 0 <= j < r.width() implies struct_ok(
                                n,
                                #[trigger] part(&r, j),
                            ) by {
                                assert(struct_ok(n, &ops@[j]));
                            }
                            lemma_sound_parts(n, &r, 0);
                            lemma_alts_count(
                                g,
                                at,
                                e,
                                0,
                                scope,
                                expanding@,
                                Seq::<OpModel>::empty(),
                            );
                        }
                        Ok(r)
                    },
                    Err(problem) => Err(problem),
                }
            }
        },
        Expr::Repetition { inner, min, max } => {
            let bad = match max {
                Some(m) => *min > *m,
                None => false,
            };
            if bad {
                Err(CompileError::RepetitionBounds { rule: at })
            } else {
                match lower(g, at, inner, params, args, expanding) {
                    Ok(body) => Ok(Op::Repeat { inner: Box::new(body), min: *min, max: *max }),
                    Err(problem) => Err(problem),
                }
            }
        },
        Expr::Optional(inner) => match lower(g, at, inner, params, args, expanding) {
            Ok(body) => Ok(Op::Optional(Box::new(body))),
            Err(problem) => Err(problem),
        },
        Expr::PositiveLookahead(inner) => match lower(g, at, inner, params, args, expanding) {
            Ok(body) => Ok(Op::Ahead(Box::new(body))),
            Err(problem) => Err(problem),
        },
        Expr::NegativeLookahead(inner) => match lower(g, at, inner, params, args, expanding) {
            Ok(body) => Ok(Op::NotAhead(Box::new(body))),
            Err(problem) => Err(problem),
        },
        Expr::Literal(text) => {
            let (pieces, labels) = split_literal(text);
            proof {
                assert(texts(pieces@).len() == texts(labels@).len());
                assert forall|k: int| 0 <= k < pieces@.len() implies (#[trigger] pieces@[k])@.len()
                    > 0 by {
                    assert(texts(pieces@)[k] == literal_pieces(text@)[k]);
                }
            }
            Ok(Op::Literal { pieces, labels })
        },
        Expr::ElementClass { ranges, negated, label } => Ok(
            Op::Class { ranges: copy_ranges(ranges), negated: *negated, label: label.clone() },
        ),
        Expr::RuleRef { name, args: given } => {
            let param = if given.len() == 0 {
                find_name(params, name)
            } else {
                None
            };
            match param {
                Some(k) => {
                    if k < args.len() {
                        assert(op_models(args@)[k as int] == op_model(&args@[k as int]));
                        assert(scope.args.len() == args@.len());
                        let copy = copy_op(&args[k]);
                        assert(struct_ok(n, &args@[k as int]));
                        assert(struct_ok(n, &copy));
                        Ok(copy)
                    } else {
                        assert(scope.args.len() == args@.len());
                        Err(CompileError::UnresolvedReference { rule: at })
                    }
                },
                None => {
                    match find_rule(g, name) {
                        None => Err(CompileError::UnresolvedReference { rule: at }),
                        Some(i) => {
                            if g.rules[i].params.len() != given.len() {
                                Err(CompileError::WrongArity { rule: at })
                            } else if given.len() == 0 {
                                Ok(Op::Call(i))
                            } else if !(expanding.len() == g.rules.len() && !expanding[i]) {
                                Err(CompileError::CyclicExpansion { rule: at })
                            } else {
                                assert(op_models(Seq::<Op>::empty()) =~= Seq::<OpModel>::empty());
                                match lower_args(
                                    g,
                                    at,
                                    e,
                                    0,
                                    params,
                                    args,
                                    expanding,
                                    Vec::new(),
                                ) {
                                    Err(problem) => Err(problem),
                                    Ok(bound) => {
                                        let mut flags = copy_flags(expanding);
                                        flags[i] = true;
                                        proof {
                                            lemma_idle_update(expanding@, i as int);
                                        }
                                        lower(
                                            g,
                                            at,
                                            &g.rules[i].body,
                                            &g.rules[i].params,
                                            &bound,
                                            &flags,
                                        )
                                    },
                                }
                            }
                        },
                    }
                },
            }
        },
        Expr::Action { inner, code } => match lower(g, at, inner, params, args, expanding) {
            Ok(body) => Ok(Op::Action { inner: Box::new(body), action: *code }),
            Err(problem) => Err(problem),
        },
        Expr::Capture(inner) => match lower(g, at, inner, params, args, expanding) {
            Ok(body) => Ok(Op::Capture(Box::new(body))),
            Err(problem) => Err(problem),
        },
        Expr::Labeled { name, inner } => lower(g, at, inner, params, args, expanding),
        Expr::PositionMarker => Ok(Op::Position),
        Expr::PrecedenceBlock(levels) => {
            assert(operator_models(Seq::<Operator>::empty()) =~= Seq::<OperatorModel>::empty());
            match lower_levels(g, at, e, 0, params, args, expanding, Vec::new()) {
                Ok(operators) => {
                    if any_atom(&operators) {
                        let r = Op::Precedence(operators);
                        proof {
                            assert forall|j: int| 0 <= j < r.width() implies struct_ok(
                                n,
                                #[trigger] part(&r, j),
                            ) by {
                                assert(struct_ok(n, &operators@[j].pattern));
                            }
                            lemma_sound_parts(n, &r, 0);
                        }
                        Ok(r)
                    } else {
                        Err(CompileError::InvalidPrecedence { rule: at })
                    }
                },
                Err(problem) => Err(problem),
            }
        },
    }
}

/// Whether one of the operators is an operand.
fn any_atom(operators: &Vec<Operator>) -> (r: bool)
    ensures
        r == has_atom(operator_models(operators@)),
{
    let mut k: usize = 0;
    while k < operators.len()
        invariant
            k <= operators@.len(),
            forall|j: int| 0 <= j < k ==> operators@[j].fixity != Fixity::Atom,
        decreases operators@.len() - k,
    {
        let atom = match operators[k].fixity {
            Fixity::Atom => true,
            _ => false,
        };
        if atom {
            assert(operator_models(operators@)[k as int].fixity == Fixity::Atom);
            return true;
        }
        k += 1;
    }
    proof {
        let models = operator_models(operators@);
        assert forall|j: int| 0 <= j < models.len() implies (#[trigger] models[j]).fixity
            != Fixity::Atom by {
            assert(models[j].fixity == operators@[j].fixity);
        }
    }
    false
}

/// Whether every operator of the list has a pattern that is sound in itself
/// and a level that leaves room above it.
pub open spec fn operators_sound(n: nat, operators: Seq<Operator>) -> bool {
    forall|j: int|
        0 <= j < operators.len() ==> struct_ok(n, &(#[trigger] operators[j]).pattern)
            && operators[j].level < usize::MAX
}

/// A choice lowers to as many operations as it has alternatives behind
/// those already done.
pub proof fn lemma_alts_count(
    g: &Grammar,
    at: usize,
    e: &Expr,
    k: int,
    scope: Scope,
    expanding: Seq<bool>,
    done: Seq<OpModel>,
)
    requires
        e is OrderedChoice,
        0 <= k <= e.width(),
    ensures
        lowered_alts(g, at, e, k, scope, expanding, done) matches Ok(ops) ==> ops.len()
            == done.len() + e.width() - k,
    decreases e.width() - k,
{
    if k < e.width() {
        match lowered(g, at, &e->OrderedChoice_0@[k], scope, expanding) {
            Ok(op) => lemma_alts_count(g, at, e, k + 1, scope, expanding, done.push(op)),
            Err(_) => {},
        }
    }
}

/// Whether a lowering of several parts came out as laid down.
pub open spec fn lower_steps_post(
    spec: Result<Seq<StepModel>, CompileError>,
    r: Result<Vec<Step>, CompileError>,
) -> bool {
    match spec {
        Ok(models) => r matches Ok(steps) && step_models(steps@) == models,
        Err(problem) => r == Err::<Vec<Step>, CompileError>(problem),
    }
}

/// Whether a lowering of several operations came out as laid down.
pub open spec fn lower_ops_post(
    spec: Result<Seq<OpModel>, CompileError>,
    r: Result<Vec<Op>, CompileError>,
) -> bool {
    match spec {
        Ok(models) => r matches Ok(ops) && op_models(ops@) == models,
        Err(problem) => r == Err::<Vec<Op>, CompileError>(problem),
    }
}

/// Whether a lowering of several operators came out as laid down.
pub open spec fn lower_operators_post(
    spec: Result<Seq<OperatorModel>, CompileError>,
    r: Result<Vec<Operator>, CompileError>,
) -> bool {
    match spec {
        Ok(models) => r matches Ok(operators) && operator_models(operators@) == models,
        Err(problem) => r == Err::<Vec<Operator>, CompileError>(problem),
    }
}

fn lower_items(
    g: &Grammar,
    at: usize,
    e: &Expr,
    k: usize,
    params: &Vec<String>,
    args: &Vec<Op>,
    expanding: &Vec<bool>,
    done: Vec<Step>,
) -> (r: Result<Vec<Step>, CompileError>)
    requires
        e is Sequence,
        k <= e.width(),
        all_sound(g.size(), args@),
        forall|j: int| 0 <= j < done@.len() ==> struct_ok(g.size(), &(#[trigger] done@[j]).op),
    ensures
        r matches Ok(steps) ==> forall|j: int|
            0 <= j < steps@.len() ==> struct_ok(g.size(), &(#[trigger] steps@[j]).op),
        lower_steps_post(
            lowered_items(
                g,
                at,
                e,
                k as int,
                Scope { params: texts(params@), args: op_models(args@) },
                expanding@,
                step_models(done@),
            ),
            r,
        ),
        r matches Err(problem) ==> problem.rule_of() == at,
    decreases idle(expanding@), e, e.width() - k, 0nat,
{
    match e {
        Expr::Sequence(items) => {
            if k < items.len() {
                match lower(g, at, &items[k], params, args, expanding) {
                    Ok(op) => {
                        let keep = match &items[k] {
                            Expr::Labeled { .. } => true,
                            _ => false,
                        };
                        let mut done = done;
                        let ghost before = step_models(done@);
                        let ghost model = op_model(&op);
                        done.push(Step { op, keep });
                        assert(step_models(done@) =~= before.push(StepModel { op: model, keep }));
                        lower_items(g, at, e, k + 1, params, args, expanding, done)
                    },
                    Err(problem) => Err(problem),
                }
            } else {
                Ok(done)
            }
        },
        _ => Ok(done),
    }
}

fn lower_alts(
    g: &Grammar,
    at: usize,
    e: &Expr,
    k: usize,
    params: &Vec<String>,
    args: &Vec<Op>,
    expanding: &Vec<bool>,
    done: Vec<Op>,
) -> (r: Result<Vec<Op>, CompileError>)
    requires
        e is OrderedChoice,
        k <= e.width(),
        all_sound(g.size(), args@),
        all_sound(g.size(), done@),
    ensures
        r matches Ok(ops) ==> all_sound(g.size(), ops@),
        lower_ops_post(
            lowered_alts(
                g,
                at,
                e,
                k as int,
                Scope { params: texts(params@), args: op_models(args@) },
                expanding@,
                op_models(done@),
            ),
            r,
        ),
        r matches Err(problem) ==> problem.rule_of() == at,
    decreases idle(expanding@), e, e.width() - k, 0nat,
{
    match e {
        Expr::OrderedChoice(alts) => {
            if k < alts.len() {
                match lower(g, at, &alts[k], params, args, expanding) {
                    Ok(op) => {
                        let mut done = done;
                        let ghost before = op_models(done@);
                        let ghost model = op_model(&op);
                        done.push(op);
                        assert(op_models(done@) =~= before.push(model));
                        lower_alts(g, at, e, k + 1, params, args, expanding, done)
                    },
                    Err(problem) => Err(problem),
                }
            } else {
                Ok(done)
            }
        },
        _ => Ok(done),
    }
}

fn lower_args(
    g: &Grammar,
    at: usize,
    e: &Expr,
    k: usize,
    params: &Vec<String>,
    args: &Vec<Op>,
    expanding: &Vec<bool>,
    done: Vec<Op>,
) -> (r: Result<Vec<Op>, CompileError>)
    requires
        e is RuleRef,
        k <= e.width(),
        all_sound(g.size(), args@),
        all_sound(g.size(), done@),
    ensures
        r matches Ok(ops) ==> all_sound(g.size(), ops@),
        lower_ops_post(
            lowered_args(
                g,
                at,
                e,
                k as int,
                Scope { params: texts(params@), args: op_models(args@) },
                expanding@,
                op_models(done@),
            ),
            r,
        ),
        r matches Err(problem) ==> problem.rule_of() == at,
    decreases idle(expanding@), e, e.width() - k, 0nat,
{
    match e {
        Expr::RuleRef { name, args: given } => {
            if k < given.len() {
                match lower(g, at, &given[k], params, args, expanding) {
                    Ok(op) => {
                        let mut done = done;
                        let ghost before = op_models(done@);
                        let ghost model = op_model(&op);
                        done.push(op);
                        assert(op_models(done@) =~= before.push(model));
                        lower_args(g, at, e, k + 1, params, args, expanding, done)
                    },
                    Err(problem) => Err(problem),
                }
            } else {
                Ok(done)
            }
        },
        _ => Ok(done),
    }
}

fn lower_levels(
    g: &Grammar,
    at: usize,
    e: &Expr,
    level: usize,
    params: &Vec<String>,
    args: &Vec<Op>,
    expanding: &Vec<bool>,
    done: Vec<Operator>,
) -> (r: Result<Vec<Operator>, CompileError>)
    requires
        e is PrecedenceBlock,
        level <= e.width(),
        all_sound(g.size(), args@),
        operators_sound(g.size(), done@),
    ensures
        r matches Ok(operators) ==> operators_sound(g.size(), operators@),
        lower_operators_post(
            lowered_levels(
                g,
                at,
                e,
                level as int,
                Scope { params: texts(params@), args: op_models(args@) },
                expanding@,
                operator_models(done@),
            ),
            r,
        ),
        r matches Err(problem) ==> problem.rule_of() == at,
    decreases
            idle(expanding@),
            e,
            e.width() - level,
            (if e is PrecedenceBlock && 0 <= level < e.width() {
                e->PrecedenceBlock_0@[level as int].operators@.len() + 1
            } else {
                0
            }),
{
    match e {
        Expr::PrecedenceBlock(levels) => {
            if level < levels.len() {
                lower_templates(g, at, e, level, 0, params, args, expanding, done)
            } else {
                Ok(done)
            }
        },
        _ => Ok(done),
    }
}

fn lower_templates(
    g: &Grammar,
    at: usize,
    e: &Expr,
    level: usize,
    k: usize,
    params: &Vec<String>,
    args: &Vec<Op>,
    expanding: &Vec<bool>,
    done: Vec<Operator>,
) -> (r: Result<Vec<Operator>, CompileError>)
    requires
        e is PrecedenceBlock,
        level < e.width(),
        k <= e->PrecedenceBlock_0@[level as int].operators@.len(),
        all_sound(g.size(), args@),
        operators_sound(g.size(), done@),
    ensures
        r matches Ok(operators) ==> operators_sound(g.size(), operators@),
        lower_operators_post(
            lowered_templates(
                g,
                at,
                e,
                level as int,
                k as int,
                Scope { params: texts(params@), args: op_models(args@) },
                expanding@,
                operator_models(done@),
            ),
            r,
        ),
        r matches Err(problem) ==> problem.rule_of() == at,
    decreases
            idle(expanding@),
            e,
            e.width() - level,
            (if e is PrecedenceBlock && 0 <= level < e.width() {
                e->PrecedenceBlock_0@[level as int].operators@.len() - k
            } else {
                0
            }),
{
    match e {
        Expr::PrecedenceBlock(levels) => {
            let count = levels.len();
            let templates = &levels[level].operators;
            if k < templates.len() {
                match lower(g, at, &templates[k].pattern, params, args, expanding) {
                    Ok(pattern) => {
                        let mut done = done;
                        let ghost before = operator_models(done@);
                        let ghost model = OperatorModel {
                            level,
                            assoc: levels@[level as int].assoc,
                            fixity: templates@[k as int].fixity,
                            pattern: op_model(&pattern),
                            action: templates@[k as int].code,
                        };
                        done.push(
                            Operator {
                                level,
                                assoc: levels[level].assoc,
                                fixity: templates[k].fixity,
                                pattern,
                                action: templates[k].code,
                            },
                        );
                        assert(operator_models(done@) =~= before.push(model));
                        lower_templates(g, at, e, level, k + 1, params, args, expanding, done)
                    },
                    Err(problem) => Err(problem),
                }
            } else {
                lower_levels(g, at, e, level + 1, params, args, expanding, done)
            }
        },
        _ => Ok(done),
    }
}

/// How a rule is run: memoized if it is annotated so, by precedence climbing
/// if its body is a precedence block, and plainly otherwise.
pub open spec fn kind_of(rule: &Rule) -> RuleKind {
    if rule.memoized {
        RuleKind::Memoized
    } else if rule.body is PrecedenceBlock {
        RuleKind::PrecedenceClimbing
    } else {
        RuleKind::Plain
    }
}

/// What stands in the place of a rule with parameters, which has no routine
/// of its own: an operation that never matches.
pub open spec fn template_slot() -> OpModel {
    OpModel::NotAhead(Box::new(OpModel::Position))
}

/// What the body of rule number `i` lowers to.
pub open spec fn lowered_rule(g: &Grammar, i: int) -> Result<OpModel, CompileError> {
    if g.rules@[i].params@.len() > 0 {
        Ok(template_slot())
    } else {
        lowered(
            g,
            i as usize,
            &g.rules@[i].body,
            Scope { params: Seq::empty(), args: Seq::empty() },
            Seq::new(g.size(), |k: int| false),
        )
    }
}

/// The first problem that translating the rules from number `k` on meets:
/// a rule that has the name of an earlier one, or a body that does not
/// lower.
pub open spec fn first_problem(g: &Grammar, k: int) -> Option<CompileError>
    decreases g.size() - k,
{
    if 0 <= k < g.size() {
        if first_index(rule_names(g), g.rules@[k].name@) != Some(k) {
            Some(CompileError::DuplicateRule { rule: k as usize })
        } else {
            match lowered_rule(g, k) {
                Err(problem) => Some(problem),
                Ok(_) => first_problem(g, k + 1),
            }
        }
    } else {
        None
    }
}

/// Whether routine number `i` of `prog` is rule number `i` of `g`, lowered.
pub open spec fn rule_compiled(g: &Grammar, prog: &Program, i: int) -> bool {
    let routine = prog.rules@[i];
    let rule = g.rules@[i];
    &&& routine.name@ == rule.name@
    &&& routine.public == rule.public
    &&& routine.kind == kind_of(&rule)
    &&& lowered_rule(g, i) == Ok::<OpModel, CompileError>(op_model(&routine.body))
    &&& struct_ok(g.size(), &routine.body)
}

/// Whether `prog` holds the rules of `g`, lowered, in the same order.
pub open spec fn compiled(g: &Grammar, prog: &Program) -> bool {
    &&& prog.size() == g.size()
    &&& forall|i: int| 0 <= i < g.size() ==> #[trigger] rule_compiled(g, prog, i)
}

/// Translates a grammar into a program whose rules are not yet annotated.
pub fn translate(g: &Grammar) -> (r: Result<Program, CompileError>)
    ensures
        match first_problem(g, 0) {
            Some(problem) => r == Err::<Program, CompileError>(problem),
            None => r matches Ok(prog) && compiled(g, &prog),
        },
        r matches Err(problem) ==> problem.rule_of() < g.size(),
{
    let n = g.rules.len();
    let mut rules: Vec<Routine> = Vec::new();
    let no_params: Vec<String> = Vec::new();
    let no_args: Vec<Op> = Vec::new();
    let none_expanding = all_idle(n);
    let mut k: usize = 0;
    proof {
        assert(texts(no_params@) =~= Seq::<Seq<char>>::empty());
        assert(op_models(no_args@) =~= Seq::<OpModel>::empty());
    }
    while k < n
        invariant
            k <= n,
            n == g.rules@.len(),
            rules@.len() == k,
            first_problem(g, 0) == first_problem(g, k as int),
            texts(no_params@) == Seq::<Seq<char>>::empty(),
            op_models(no_args@) == Seq::<OpModel>::empty(),
            no_args@.len() == 0,
            none_expanding@ == Seq::new(n as nat, |i: int| false),
            forall|i: int|
                0 <= i < k ==> #[trigger] rule_compiled(g, &Program { rules }, i),
        decreases n - k,
    {
        let rule = &g.rules[k];
        match find_rule(g, &rule.name) {
            Some(first) => {
                if first != k {
                    return Err(CompileError::DuplicateRule { rule: k });
                }
            },
            None => {
                return Err(CompileError::DuplicateRule { rule: k });
            },
        }
        let body = if rule.params.len() > 0 {
            let slot = Op::NotAhead(Box::new(Op::Position));
            proof {
                reveal_with_fuel(op_model, 3);
                reveal_with_fuel(struct_ok, 3);
                assert(op_model(&slot) == template_slot());
                assert(struct_ok(g.size(), &slot));
            }
            slot
        } else {
            match lower(g, k, &rule.body, &no_params, &no_args, &none_expanding) {
                Ok(op) => op,
                Err(problem) => {
                    return Err(problem);
                },
            }
        };
        let precedence = match &rule.body {
            Expr::PrecedenceBlock(_) => true,
            _ => false,
        };
        let kind = if rule.memoized {
            RuleKind::Memoized
        } else if precedence {
            RuleKind::PrecedenceClimbing
        } else {
            RuleKind::Plain
        };
        let ghost before = rules;
        assert(lowered_rule(g, k as int) == Ok::<OpModel, CompileError>(op_model(&body)));
        assert(struct_ok(g.size(), &body));
        rules.push(
            Routine {
                name: rule.name.clone(),
                public: rule.public,
                kind,
                body,
                nullable: false,
                left_recursive: false,
                rank: 0,
                infallible: false,
            },
        );
        proof {
            assert forall|i: int| 0 <= i < k + 1 implies #[trigger] rule_compiled(
                g,
                &Program { rules },
                i,
            ) by {
                if i < k {
                    assert(rule_compiled(g, &Program { rules: before }, i));
                    assert(rules@[i] == before@[i]);
                } else {
                    assert(rules@[i].kind == kind_of(&g.rules@[i]));
                }
            }
        }
        k += 1;
    }
    Ok(Program { rules })
}

} // verus!
