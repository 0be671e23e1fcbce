//! What a program means: the outcome of every operation on every input, as
//! mathematical functions.  The executable matcher is proved against these.

use crate::error::Furthest;
use crate::input::{ParseElem, ParseLiteral, Symbol};
use crate::program::{class_selects, Fixity, Op, Program};
use crate::result::RuleResult;
use crate::value::{option_view, trees, Tree, Value};
use vstd::prelude::*;

verus! {

/// Host actions: caller-supplied logic that turns the values bound by a match
/// into the value of the match, or refuses it.
///
/// An implementation says what `outcome` is and proves that `run` computes
/// it.  An implementation that proves nothing may leave `outcome` as it
/// stands; what is proved of a parse then tells nothing of its actions.
pub trait Actions {
    /// What action number `action` makes of `args`, matched between `start`
    /// and `end`; `None` refuses the match.
    open spec fn outcome(&self, action: usize, args: Seq<Tree>, start: usize, end: usize) -> Option<
        Tree,
    > {
        arbitrary()
    }

    fn run(&self, action: usize, args: &Vec<Value>, start: usize, end: usize) -> (r: Option<Value>)
        ensures
            option_view(r) == self.outcome(action, trees(args@), start, end),
    ;
}

/// Where an evaluation stands with respect to the rules entered at the
/// current position.
pub ghost struct Ctx {
    /// Only rules ranked below this may be entered afresh.
    pub bound: nat,
    /// For each rule, whether it is a left-recursive rule that is running at
    /// this position.
    pub active: Seq<bool>,
}

/// The outcome of an evaluation: the match result, and the furthest failure
/// met on the way.
pub ghost struct Outcome {
    pub result: RuleResult<Tree>,
    pub furthest: Furthest,
}

/// The number of entries that are not set.
pub open spec fn idle(active: Seq<bool>) -> nat
    decreases active.len(),
{
    if active.len() == 0 {
        0
    } else {
        idle(active.drop_last()) + (if active.last() {
            0nat
        } else {
            1nat
        })
    }
}

/// Setting an entry that was not set leaves one entry fewer unset.
pub proof fn lemma_idle_update(active: Seq<bool>, i: int)
    requires
        0 <= i < active.len(),
        !active[i],
    ensures
        idle(active.update(i, true)) + 1 == idle(active),
    decreases active.len(),
{
    let updated = active.update(i, true);
    if i == active.len() - 1 {
        assert(updated.drop_last() =~= active.drop_last());
    } else {
        lemma_idle_update(active.drop_last(), i);
        assert(updated.drop_last() =~= active.drop_last().update(i, true));
    }
}

/// No failure.
pub open spec fn no_failure() -> Furthest {
    Furthest::none_yet(0)
}

/// A failed outcome with the given failures.
pub open spec fn failed(furthest: Furthest) -> Outcome {
    Outcome { result: RuleResult::Failed, furthest }
}

/// A match that met no failure.
pub open spec fn clean(pos: usize, value: Tree) -> Outcome {
    Outcome { result: RuleResult::Matched(pos, value), furthest: no_failure() }
}

/// The arguments that an action receives for the value of its inner match:
/// the kept values of a sequence, or the one value of anything else.
pub open spec fn action_args(value: Tree) -> Seq<Tree> {
    match value {
        Tree::List(items) => items,
        _ => seq![value],
    }
}

impl Ctx {
    /// The context in which nothing is running: any rule may be entered.
    pub open spec fn top(prog: &Program) -> Ctx {
        Ctx { bound: prog.size(), active: Seq::new(prog.size(), |i: int| false) }
    }

    /// The context behind a match from `pos` to `q`: once input has been
    /// consumed, nothing is running at the new position.
    pub open spec fn after(self, prog: &Program, pos: usize, q: usize) -> Ctx {
        if q > pos {
            Ctx::top(prog)
        } else {
            self
        }
    }
}

/// The outcome of matching the pieces of a literal from index `k` on.
pub open spec fn eval_literal<I: ParseLiteral + ?Sized>(
    input: &I,
    pieces: Seq<String>,
    labels: Seq<String>,
    k: int,
    pos: usize,
) -> Outcome
    decreases pieces.len() - k,
{
    if 0 <= k < pieces.len() && k < labels.len() {
        match input.literal_at(pos, pieces[k]@) {
            RuleResult::Matched(q, _) => {
                if pos <= q <= input.end_pos() {
                    eval_literal(input, pieces, labels, k + 1, q)
                } else {
                    failed(Furthest::single(pos, labels[k]@))
                }
            },
            RuleResult::Failed => failed(Furthest::single(pos, labels[k]@)),
        }
    } else {
        clean(pos, Tree::Unit)
    }
}

/// The outcome of running `op` at `pos`.
pub open spec fn eval<I, H>(
    prog: &Program,
    input: &I,
    host: &H,
    op: &Op,
    pos: usize,
    ctx: Ctx,
) -> Outcome where I: ParseElem + ParseLiteral + ?Sized, I::Element: Symbol, H: Actions
    decreases input.end_pos() - pos, idle(ctx.active), ctx.bound, op, 2 * op.width() + 3,
{
    match op {
        Op::Literal { pieces, labels } => eval_literal(input, pieces@, labels@, 0, pos),
        Op::Class { ranges, negated, label } => {
            match input.elem_at(pos) {
                RuleResult::Matched(q, elem) => {
                    if pos <= q <= input.end_pos() && class_selects(
                        ranges@,
                        *negated,
                        elem.code_of(),
                    ) {
                        clean(q, Tree::Elem(elem.code_of()))
                    } else {
                        failed(Furthest::single(pos, label@))
                    }
                },
                RuleResult::Failed => failed(Furthest::single(pos, label@)),
            }
        },
        Op::Position => clean(pos, Tree::Position(pos)),
        Op::Call(rule) => {
            if *rule < prog.size() {
                let r = prog.rules@[*rule as int];
                if r.left_recursive {
                    if ctx.active.len() == prog.size() && !ctx.active[*rule as int] {
                        proof {
                            lemma_idle_update(ctx.active, *rule as int);
                        }
                        eval(
                            prog,
                            input,
                            host,
                            &r.body,
                            pos,
                            Ctx { bound: prog.size(), active: ctx.active.update(*rule as int, true) },
                        )
                    } else {
                        failed(no_failure())
                    }
                } else if r.rank < ctx.bound {
                    eval(
                        prog,
                        input,
                        host,
                        &r.body,
                        pos,
                        Ctx { bound: r.rank as nat, active: ctx.active },
                    )
                } else {
                    failed(no_failure())
                }
            } else {
                failed(no_failure())
            }
        },
        Op::Sequence(steps) => eval_steps(prog, input, host, op, 0, pos, ctx, Seq::empty()),
        Op::Choice(alts) => eval_alts(prog, input, host, op, 0, pos, ctx),
        Op::Repeat { inner, min, max } => eval_repeat(prog, input, host, op, pos, ctx, Seq::empty()),
        Op::Optional(inner) => {
            let first = eval(prog, input, host, inner, pos, ctx);
            match first.result {
                RuleResult::Matched(q, value) => Outcome {
                    result: RuleResult::Matched(q, Tree::Present(Box::new(value))),
                    furthest: first.furthest,
                },
                RuleResult::Failed => Outcome {
                    result: RuleResult::Matched(pos, Tree::Absent),
                    furthest: first.furthest,
                },
            }
        },
        Op::Ahead(inner) => {
            let first = eval(prog, input, host, inner, pos, ctx);
            match first.result {
                RuleResult::Matched(q, value) => Outcome {
                    result: RuleResult::Matched(pos, Tree::Unit),
                    furthest: first.furthest,
                },
                RuleResult::Failed => failed(first.furthest),
            }
        },
        Op::NotAhead(inner) => {
            let first = eval(prog, input, host, inner, pos, ctx);
            match first.result {
                RuleResult::Matched(q, value) => failed(first.furthest),
                RuleResult::Failed => Outcome {
                    result: RuleResult::Matched(pos, Tree::Unit),
                    furthest: first.furthest,
                },
            }
        },
        Op::Action { inner, action } => {
            let first = eval(prog, input, host, inner, pos, ctx);
            match first.result {
                RuleResult::Matched(q, value) => {
                    match host.outcome(*action, action_args(value), pos, q) {
                        Some(made) => Outcome {
                            result: RuleResult::Matched(q, made),
                            furthest: first.furthest,
                        },
                        None => failed(first.furthest),
                    }
                },
                RuleResult::Failed => failed(first.furthest),
            }
        },
        Op::Capture(inner) => {
            let first = eval(prog, input, host, inner, pos, ctx);
            match first.result {
                RuleResult::Matched(q, value) => Outcome {
                    result: RuleResult::Matched(q, Tree::Span(pos, q)),
                    furthest: first.furthest,
                },
                RuleResult::Failed => failed(first.furthest),
            }
        },
        Op::Precedence(operators) => eval_climb(prog, input, host, op, 0, pos, ctx),
    }
}

/// What a host action makes of a match, or the failure of the match.
pub open spec fn folded<H: Actions>(
    host: &H,
    action: usize,
    args: Seq<Tree>,
    start: usize,
    end: usize,
    furthest: Furthest,
) -> Outcome {
    match host.outcome(action, args, start, end) {
        Some(made) => Outcome { result: RuleResult::Matched(end, made), furthest },
        None => failed(furthest),
    }
}

/// The outcome of the precedence block `op` for operators of level `min` and
/// above: one operand, then as many operators as follow.
pub open spec fn eval_climb<I, H>(
    prog: &Program,
    input: &I,
    host: &H,
    op: &Op,
    min: usize,
    pos: usize,
    ctx: Ctx,
) -> Outcome where I: ParseElem + ParseLiteral + ?Sized, I::Element: Symbol, H: Actions
    decreases input.end_pos() - pos, idle(ctx.active), ctx.bound, op, 2 * op.width() + 2,
{
    match op {
        Op::Precedence(operators) => {
            let lhs = eval_primary(prog, input, host, op, 0, pos, ctx);
            match lhs.result {
                RuleResult::Matched(q, value) => {
                    if pos <= q <= input.end_pos() {
                        let rest = eval_ops(
                            prog,
                            input,
                            host,
                            op,
                            min,
                            None,
                            0,
                            q,
                            ctx.after(prog, pos, q),
                            value,
                            pos,
                        );
                        Outcome { result: rest.result, furthest: lhs.furthest.join(rest.furthest) }
                    } else {
                        failed(lhs.furthest)
                    }
                },
                RuleResult::Failed => failed(lhs.furthest),
            }
        },
        _ => failed(no_failure()),
    }
}

/// The outcome of the `k`-th operator of the precedence block `op` as the
/// start of an operand: an atom, or a prefix operator and its operand.
pub open spec fn eval_head<I, H>(
    prog: &Program,
    input: &I,
    host: &H,
    op: &Op,
    k: int,
    pos: usize,
    ctx: Ctx,
) -> Outcome where I: ParseElem + ParseLiteral + ?Sized, I::Element: Symbol, H: Actions
    decreases input.end_pos() - pos, idle(ctx.active), ctx.bound, op, 0nat,
{
    match op {
        Op::Precedence(operators) => {
            if 0 <= k < operators@.len() {
                let o = operators@[k];
                match o.fixity {
                    Fixity::Atom => {
                        let first = eval(prog, input, host, &o.pattern, pos, ctx);
                        match first.result {
                            RuleResult::Matched(q, value) => folded(
                                host,
                                o.action,
                                action_args(value),
                                pos,
                                q,
                                first.furthest,
                            ),
                            RuleResult::Failed => failed(first.furthest),
                        }
                    },
                    Fixity::Prefix => {
                        let first = eval(prog, input, host, &o.pattern, pos, ctx);
                        match first.result {
                            RuleResult::Matched(q1, value) => {
                                if pos < q1 <= input.end_pos() {
                                    let operand = eval_climb(
                                        prog,
                                        input,
                                        host,
                                        op,
                                        o.operand_level(),
                                        q1,
                                        Ctx::top(prog),
                                    );
                                    let seen = first.furthest.join(operand.furthest);
                                    match operand.result {
                                        RuleResult::Matched(q2, inner) => folded(
                                            host,
                                            o.action,
                                            seq![inner],
                                            pos,
                                            q2,
                                            seen,
                                        ),
                                        RuleResult::Failed => failed(seen),
                                    }
                                } else {
                                    failed(first.furthest)
                                }
                            },
                            RuleResult::Failed => failed(first.furthest),
                        }
                    },
                    _ => failed(no_failure()),
                }
            } else {
                failed(no_failure())
            }
        },
        _ => failed(no_failure()),
    }
}

/// The outcome of an operand of the precedence block `op`: the first of the
/// operators from index `k` on that can start one.
pub open spec fn eval_primary<I, H>(
    prog: &Program,
    input: &I,
    host: &H,
    op: &Op,
    k: int,
    pos: usize,
    ctx: Ctx,
) -> Outcome where I: ParseElem + ParseLiteral + ?Sized, I::Element: Symbol, H: Actions
    decreases input.end_pos() - pos, idle(ctx.active), ctx.bound, op, 2 * op.width() + 1 - k,
{
    match op {
        Op::Precedence(operators) => {
            if 0 <= k < operators@.len() {
                let attempt = eval_head(prog, input, host, op, k, pos, ctx);
                match attempt.result {
                    RuleResult::Matched(q, value) => attempt,
                    RuleResult::Failed => {
                        let rest = eval_primary(prog, input, host, op, k + 1, pos, ctx);
                        Outcome {
                            result: rest.result,
                            furthest: attempt.furthest.join(rest.furthest),
                        }
                    },
                }
            } else {
                failed(no_failure())
            }
        },
        _ => failed(no_failure()),
    }
}

/// The outcome of the `k`-th operator of the precedence block `op` behind the
/// operand `lhs`, which began at `start`: an infix operator and its right
/// operand, or a postfix operator, folded with `lhs`.
pub open spec fn eval_join<I, H>(
    prog: &Program,
    input: &I,
    host: &H,
    op: &Op,
    min: usize,
    limit: Option<usize>,
    k: int,
    pos: usize,
    ctx: Ctx,
    lhs: Tree,
    start: usize,
) -> Outcome where I: ParseElem + ParseLiteral + ?Sized, I::Element: Symbol, H: Actions
    decreases input.end_pos() - pos, idle(ctx.active), ctx.bound, op, 0nat,
{
    match op {
        Op::Precedence(operators) => {
            if 0 <= k < operators@.len() && operators@[k].joins(min, limit) {
                let o = operators@[k];
                let first = eval(prog, input, host, &o.pattern, pos, ctx);
                match first.result {
                    RuleResult::Matched(q1, value) => {
                        if pos < q1 <= input.end_pos() {
                            if o.fixity == Fixity::Infix {
                                let rhs = eval_climb(
                                    prog,
                                    input,
                                    host,
                                    op,
                                    o.operand_level(),
                                    q1,
                                    Ctx::top(prog),
                                );
                                let seen = first.furthest.join(rhs.furthest);
                                match rhs.result {
                                    RuleResult::Matched(q2, right) => folded(
                                        host,
                                        o.action,
                                        seq![lhs, right],
                                        start,
                                        q2,
                                        seen,
                                    ),
                                    RuleResult::Failed => failed(seen),
                                }
                            } else {
                                folded(host, o.action, seq![lhs], start, q1, first.furthest)
                            }
                        } else {
                            failed(first.furthest)
                        }
                    },
                    RuleResult::Failed => failed(first.furthest),
                }
            } else {
                failed(no_failure())
            }
        },
        _ => failed(no_failure()),
    }
}

/// The outcome of climbing on from the operand `lhs`, which began at `start`
/// and ended at `pos`: the first operator from index `k` on that joins is
/// folded in and the climb goes on behind it; where none joins, the operand
/// stands.
pub open spec fn eval_ops<I, H>(
    prog: &Program,
    input: &I,
    host: &H,
    op: &Op,
    min: usize,
    limit: Option<usize>,
    k: int,
    pos: usize,
    ctx: Ctx,
    lhs: Tree,
    start: usize,
) -> Outcome where I: ParseElem + ParseLiteral + ?Sized, I::Element: Symbol, H: Actions
    decreases input.end_pos() - pos, idle(ctx.active), ctx.bound, op, op.width() - k + 1,
{
    match op {
        Op::Precedence(operators) => {
            if 0 <= k < operators@.len() {
                let attempt = eval_join(prog, input, host, op, min, limit, k, pos, ctx, lhs, start);
                let more = match attempt.result {
                    RuleResult::Matched(q2, value) => pos < q2 <= input.end_pos(),
                    RuleResult::Failed => false,
                };
                if more {
                    let rest = eval_ops(
                        prog,
                        input,
                        host,
                        op,
                        min,
                        operators@[k].next_limit(limit),
                        0,
                        attempt.result->Matched_0,
                        Ctx::top(prog),
                        attempt.result->Matched_1,
                        start,
                    );
                    Outcome { result: rest.result, furthest: attempt.furthest.join(rest.furthest) }
                } else {
                    let rest = eval_ops(
                        prog,
                        input,
                        host,
                        op,
                        min,
                        limit,
                        k + 1,
                        pos,
                        ctx,
                        lhs,
                        start,
                    );
                    Outcome { result: rest.result, furthest: attempt.furthest.join(rest.furthest) }
                }
            } else {
                clean(pos, lhs)
            }
        },
        _ => failed(no_failure()),
    }
}

/// The outcome of the steps of the sequence `op` from index `k` on, with the
/// values kept so far in `acc`.
pub open spec fn eval_steps<I, H>(
    prog: &Program,
    input: &I,
    host: &H,
    op: &Op,
    k: int,
    pos: usize,
    ctx: Ctx,
    acc: Seq<Tree>,
) -> Outcome where I: ParseElem + ParseLiteral + ?Sized, I::Element: Symbol, H: Actions
    decreases input.end_pos() - pos, idle(ctx.active), ctx.bound, op, op.width() - k,
{
    match op {
        Op::Sequence(steps) => {
            if 0 <= k < steps@.len() {
                let first = eval(prog, input, host, &steps@[k].op, pos, ctx);
                match first.result {
                    RuleResult::Matched(q, value) => {
                        if pos <= q <= input.end_pos() {
                            let rest = eval_steps(
                                prog,
                                input,
                                host,
                                op,
                                k + 1,
                                q,
                                ctx.after(prog, pos, q),
                                if steps@[k].keep {
                                    acc.push(value)
                                } else {
                                    acc
                                },
                            );
                            Outcome {
                                result: rest.result,
                                furthest: first.furthest.join(rest.furthest),
                            }
                        } else {
                            failed(first.furthest)
                        }
                    },
                    RuleResult::Failed => failed(first.furthest),
                }
            } else {
                clean(pos, Tree::List(acc))
            }
        },
        _ => failed(no_failure()),
    }
}

/// The outcome of the alternatives of the choice `op` from index `k` on.
pub open spec fn eval_alts<I, H>(
    prog: &Program,
    input: &I,
    host: &H,
    op: &Op,
    k: int,
    pos: usize,
    ctx: Ctx,
) -> Outcome where I: ParseElem + ParseLiteral + ?Sized, I::Element: Symbol, H: Actions
    decreases input.end_pos() - pos, idle(ctx.active), ctx.bound, op, op.width() - k,
{
    match op {
        Op::Choice(alts) => {
            if 0 <= k < alts@.len() {
                let first = eval(prog, input, host, &alts@[k], pos, ctx);
                match first.result {
                    RuleResult::Matched(q, value) => first,
                    RuleResult::Failed => {
                        let rest = eval_alts(prog, input, host, op, k + 1, pos, ctx);
                        Outcome {
                            result: rest.result,
                            furthest: first.furthest.join(rest.furthest),
                        }
                    },
                }
            } else {
                failed(no_failure())
            }
        },
        _ => failed(no_failure()),
    }
}

/// The outcome of the repetition `op` after the matches whose values are in
/// `acc`.
pub open spec fn eval_repeat<I, H>(
    prog: &Program,
    input: &I,
    host: &H,
    op: &Op,
    pos: usize,
    ctx: Ctx,
    acc: Seq<Tree>,
) -> Outcome where I: ParseElem + ParseLiteral + ?Sized, I::Element: Symbol, H: Actions
    decreases input.end_pos() - pos, idle(ctx.active), ctx.bound, op, 0nat,
{
    match op {
        Op::Repeat { inner, min, max } => {
            if *max matches Some(m) && acc.len() >= m {
                clean(pos, Tree::List(acc))
            } else {
                let first = eval(prog, input, host, inner, pos, ctx);
                let more = match first.result {
                    RuleResult::Matched(q, value) => pos < q <= input.end_pos(),
                    RuleResult::Failed => false,
                };
                if more {
                    let rest = eval_repeat(
                        prog,
                        input,
                        host,
                        op,
                        first.result->Matched_0,
                        Ctx::top(prog),
                        acc.push(first.result->Matched_1),
                    );
                    Outcome { result: rest.result, furthest: first.furthest.join(rest.furthest) }
                } else if acc.len() >= *min {
                    Outcome {
                        result: RuleResult::Matched(pos, Tree::List(acc)),
                        furthest: first.furthest,
                    }
                } else {
                    failed(first.furthest)
                }
            }
        },
        _ => failed(no_failure()),
    }
}

/// The outcome of running rule number `rule` at `pos` with nothing else
/// running there.
pub open spec fn eval_rule<I, H>(
    prog: &Program,
    input: &I,
    host: &H,
    rule: usize,
    pos: usize,
) -> Outcome where I: ParseElem + ParseLiteral + ?Sized, I::Element: Symbol, H: Actions {
    eval(prog, input, host, &Op::Call(rule), pos, Ctx::top(prog))
}

} // verus!
