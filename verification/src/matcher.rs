//! The executable matcher: runs the operations of a program against an input
//! and is proved to return exactly what the semantics says.

use crate::error::{ErrorState, Furthest};
use crate::input::{ParseElem, ParseLiteral, Symbol};
use crate::memo::Memo;
use crate::program::{
    always_parts, alts_ok, class_selects, in_range, nullable, nullable_alts, nullable_atoms,
    nullable_steps, op_ok, operators_ok, steps_ok, Assoc, Fixity, Notes, Op, Program, RuleKind,
};
use crate::result::RuleResult;
use crate::semantics::{
    action_args, eval, eval_alts, eval_climb, eval_head, eval_join, eval_literal, eval_ops,
    eval_primary, eval_repeat, eval_rule, eval_steps, idle, lemma_idle_update, no_failure, Actions,
    Ctx, Outcome,
};
use crate::value::{duplicate_result, lemma_trees_push, result_view, trees, Tree, Value};
use vstd::prelude::*;

verus! {

/// What one parse carries along: the furthest failure and the remembered
/// outcomes.
pub struct ParseState {
    pub tracker: ErrorState,
    pub memo: Memo,
}

/// Whether a parse state belongs to a parse of `input` by `prog`: every
/// remembered outcome is the outcome of its rule at its position, and its
/// failures are already part of the furthest failure.
pub open spec fn state_ok<I, H>(st: &ParseState, prog: &Program, input: &I, host: &H) -> bool where
    I: ParseElem + ParseLiteral + ?Sized,
    I::Element: Symbol,
    H: Actions,
 {
    &&& st.tracker.wf()
    &&& st.memo.rules() == prog.size()
    &&& forall|rule: int, pos: usize| #[trigger]
        st.memo.has(rule, pos) ==> entry_ok(st, prog, input, host, rule, pos)
}

/// Whether what is remembered for `rule` at `pos` is right.
pub open spec fn entry_ok<I, H>(
    st: &ParseState,
    prog: &Program,
    input: &I,
    host: &H,
    rule: int,
    pos: usize,
) -> bool where I: ParseElem + ParseLiteral + ?Sized, I::Element: Symbol, H: Actions {
    let o = eval_rule(prog, input, host, rule as usize, pos);
    &&& st.memo.at(rule, pos) == o.result
    &&& st.tracker@.absorbs(o.furthest)
    &&& (o.result matches RuleResult::Matched(q, _) ==> pos <= q <= input.end_pos() && (
    !prog.rules@[rule].nullable ==> pos < q))
    &&& (prog.rules@[rule].infallible ==> o.result is Matched)
}

/// The evaluation context that the matcher's arguments stand for.
pub open spec fn ctx_of(prog: &Program, bound: usize, active: Option<&Vec<bool>>) -> Ctx {
    Ctx {
        bound: bound as nat,
        active: match active {
            Some(flags) => flags@,
            None => Ctx::top(prog).active,
        },
    }
}

/// What every matching routine promises: the result is the one the semantics
/// gives, the furthest failure has taken in the failures met, the state is
/// still in order, and a match ends inside the input, not before its start,
/// and past its start where the operation cannot match the empty input.
pub open spec fn run_post<I, H>(
    prog: &Program,
    input: &I,
    host: &H,
    o: Outcome,
    pos: usize,
    nullable: bool,
    before: &ParseState,
    after: &ParseState,
    r: RuleResult<Value>,
) -> bool where I: ParseElem + ParseLiteral + ?Sized, I::Element: Symbol, H: Actions {
    &&& result_view(r) == o.result
    &&& after.tracker@ == before.tracker@.join(o.furthest)
    &&& state_ok(after, prog, input, host)
    &&& (r matches RuleResult::Matched(q, _) ==> pos <= q <= input.end_pos() && (!nullable ==> pos
        < q))
}

/// A well-formed operation stays well formed under a larger bound.
pub proof fn lemma_op_ok_mono(notes: Notes, op: &Op, small: nat, large: nat)
    requires
        op_ok(notes, op, small),
        small <= large,
    ensures
        op_ok(notes, op, large),
    decreases op, 0nat,
{
    match op {
        Op::Sequence(steps) => lemma_steps_ok_mono(notes, op, 0, small, large),
        Op::Choice(alts) => lemma_alts_ok_mono(notes, op, 0, small, large),
        Op::Repeat { inner, min, max } => lemma_op_ok_mono(notes, inner, small, large),
        Op::Optional(inner) => lemma_op_ok_mono(notes, inner, small, large),
        Op::Ahead(inner) => lemma_op_ok_mono(notes, inner, small, large),
        Op::NotAhead(inner) => lemma_op_ok_mono(notes, inner, small, large),
        Op::Action { inner, action } => lemma_op_ok_mono(notes, inner, small, large),
        Op::Capture(inner) => lemma_op_ok_mono(notes, inner, small, large),
        Op::Precedence(operators) => lemma_operators_ok_mono(notes, op, 0, small, large),
        _ => {},
    }
}

/// Well-formed operators stay well formed under a larger bound.
pub proof fn lemma_operators_ok_mono(notes: Notes, op: &Op, k: int, small: nat, large: nat)
    requires
        operators_ok(notes, op, k, small),
        small <= large,
    ensures
        operators_ok(notes, op, k, large),
    decreases op, 0nat, op.width() - k,
{
    match op {
        Op::Precedence(operators) => {
            if 0 <= k < operators@.len() {
                lemma_op_ok_mono(notes, &operators@[k].pattern, small, large);
                lemma_operators_ok_mono(notes, op, k + 1, small, large);
            }
        },
        _ => {},
    }
}

/// What being well formed says of one operator of a precedence block.
pub proof fn lemma_operator_at(notes: Notes, op: &Op, j: int, k: int, bound: nat)
    requires
        op is Precedence,
        operators_ok(notes, op, j, bound),
        0 <= j <= k < op.width(),
    ensures
        op_ok(notes, &op->Precedence_0@[k].pattern, bound),
        op->Precedence_0@[k].level < usize::MAX,
        op->Precedence_0@[k].fixity != Fixity::Atom ==> !nullable(
            notes.nullable,
            &op->Precedence_0@[k].pattern,
        ),
    decreases k - j,
{
    if j < k {
        lemma_operator_at(notes, op, j + 1, k, bound);
    }
}

/// Well-formed steps stay well formed under a larger bound.
pub proof fn lemma_steps_ok_mono(notes: Notes, op: &Op, k: int, small: nat, large: nat)
    requires
        steps_ok(notes, op, k, small),
        small <= large,
    ensures
        steps_ok(notes, op, k, large),
    decreases op, 0nat, op.width() - k,
{
    match op {
        Op::Sequence(steps) => {
            if 0 <= k < steps@.len() {
                lemma_op_ok_mono(notes, &steps@[k].op, small, large);
                if nullable(notes.nullable, &steps@[k].op) {
                    lemma_steps_ok_mono(notes, op, k + 1, small, large);
                }
            }
        },
        _ => {},
    }
}

/// Well-formed alternatives stay well formed under a larger bound.
pub proof fn lemma_alts_ok_mono(notes: Notes, op: &Op, k: int, small: nat, large: nat)
    requires
        alts_ok(notes, op, k, small),
        small <= large,
    ensures
        alts_ok(notes, op, k, large),
    decreases op, 0nat, op.width() - k,
{
    match op {
        Op::Choice(alts) => {
            if 0 <= k < alts@.len() {
                lemma_op_ok_mono(notes, &alts@[k], small, large);
                lemma_alts_ok_mono(notes, op, k + 1, small, large);
            }
        },
        _ => {},
    }
}

/// A state stays in order when its furthest failure takes in more failures.
pub proof fn lemma_state_grows<I, H>(
    before: &ParseState,
    after: &ParseState,
    prog: &Program,
    input: &I,
    host: &H,
    more: Furthest,
) where I: ParseElem + ParseLiteral + ?Sized, I::Element: Symbol, H: Actions
    requires
        state_ok(before, prog, input, host),
        after.memo == before.memo,
        after.tracker.wf(),
        after.tracker@ == before.tracker@.join(more),
    ensures
        state_ok(after, prog, input, host),
{
    assert forall|rule: int, pos: usize| #[trigger] after.memo.has(rule, pos) implies entry_ok(
        after,
        prog,
        input,
        host,
        rule,
        pos,
    ) by {
        assert(entry_ok(before, prog, input, host, rule, pos));
        let o = eval_rule(prog, input, host, rule as usize, pos);
        Furthest::lemma_absorbs_grows(before.tracker@, o.furthest, more);
    }
}

/// Whether `code` is selected by the class.
fn class_check(ranges: &Vec<(u32, u32)>, negated: bool, code: u32) -> (r: bool)
    ensures
        r == class_selects(ranges@, negated, code),
{
    let mut k: usize = 0;
    while k < ranges.len()
        invariant
            k <= ranges@.len(),
            forall|j: int| 0 <= j < k ==> !in_range(#[trigger] ranges@[j], code),
        decreases ranges@.len() - k,
    {
        let range = ranges[k];
        if range.0 <= code && code <= range.1 {
            assert(in_range(ranges@[k as int], code));
            return !negated;
        }
        k += 1;
    }
    negated
}

/// A flag for each of `n` rules, none of them set.
pub fn all_idle(n: usize) -> (r: Vec<bool>)
    ensures
        r@ == Seq::new(n as nat, |i: int| false),
{
    let mut flags: Vec<bool> = Vec::new();
    while flags.len() < n
        invariant
            flags@.len() <= n,
            forall|i: int| 0 <= i < flags@.len() ==> !flags@[i],
        decreases n - flags@.len(),
    {
        flags.push(false);
    }
    assert(flags@ =~= Seq::new(n as nat, |i: int| false));
    flags
}

/// A copy of the flags.
pub fn copy_flags(flags: &Vec<bool>) -> (r: Vec<bool>)
    ensures
        r@ == flags@,
{
    let mut copy: Vec<bool> = Vec::new();
    while copy.len() < flags.len()
        invariant
            copy@.len() <= flags@.len(),
            forall|i: int| 0 <= i < copy@.len() ==> copy@[i] == flags@[i],
        decreases flags@.len() - copy@.len(),
    {
        copy.push(flags[copy.len()]);
    }
    assert(copy@ =~= flags@);
    copy
}

/// Matches the pieces of a literal from `pos` on.
fn run_literal<I, H>(
    prog: &Program,
    input: &I,
    host: &H,
    pieces: &Vec<String>,
    labels: &Vec<String>,
    pos: usize,
    st: &mut ParseState,
) -> (r: RuleResult<Value>) where I: ParseElem + ParseLiteral + ?Sized, I::Element: Symbol, H: Actions
    requires
        pieces@.len() == labels@.len(),
        forall|k: int| 0 <= k < pieces@.len() ==> (#[trigger] pieces@[k])@.len() > 0,
        pos <= input.end_pos(),
        state_ok(old(st), prog, input, host),
    ensures
        run_post(
            prog,
            input,
            host,
            eval_literal(input, pieces@, labels@, 0, pos),
            pos,
            pieces@.len() == 0,
            old(st),
            final(st),
            r,
        ),
        pieces@.len() == 0 ==> r is Matched,
{
    let mut k: usize = 0;
    let mut cur: usize = pos;
    while k < pieces.len()
        invariant
            k <= pieces@.len(),
            pieces@.len() == labels@.len(),
            forall|j: int| 0 <= j < pieces@.len() ==> (#[trigger] pieces@[j])@.len() > 0,
            pos <= cur <= input.end_pos(),
            k > 0 ==> pos < cur,
            eval_literal(input, pieces@, labels@, 0, pos) == eval_literal(
                input,
                pieces@,
                labels@,
                k as int,
                cur,
            ),
            *st == *old(st),
            state_ok(st, prog, input, host),
        decreases pieces@.len() - k,
    {
        match input.parse_string_literal(cur, pieces[k].as_str()) {
            RuleResult::Matched(q, _) => {
                cur = q;
                k += 1;
            },
            RuleResult::Failed => {
                let ghost before = *st;
                st.tracker.mark_failure(cur, labels[k].as_str());
                proof {
                    lemma_state_grows(
                        &before,
                        st,
                        prog,
                        input,
                        host,
                        Furthest::single(cur, labels@[k as int]@),
                    );
                }
                return RuleResult::Failed;
            },
        }
    }
    proof {
        Furthest::lemma_join_none(st.tracker@);
    }
    RuleResult::Matched(cur, Value::Unit)
}

/// Runs `op` at `pos`.
///
/// `bound` and `active` say which rules are already running at this
/// position; with `None` for `active`, none is.
pub fn run_op<I, H>(
    prog: &Program,
    input: &I,
    host: &H,
    op: &Op,
    pos: usize,
    bound: usize,
    active: Option<&Vec<bool>>,
    st: &mut ParseState,
) -> (r: RuleResult<Value>) where I: ParseElem + ParseLiteral + ?Sized, I::Element: Symbol, H: Actions
    requires
        prog.wf(),
        prog.op_ok(op, bound as nat),
        bound <= prog.size(),
        active matches Some(flags) ==> flags@.len() == prog.size(),
        pos <= input.end_pos(),
        state_ok(old(st), prog, input, host),
    ensures
        run_post(
            prog,
            input,
            host,
            eval(prog, input, host, op, pos, ctx_of(prog, bound, active)),
            pos,
            prog.nullable(op),
            old(st),
            final(st),
            r,
        ),
        prog.sure(op) ==> r is Matched,
    decreases
            input.end_pos() - pos,
            idle(ctx_of(prog, bound, active).active),
            bound,
            op,
            2 * op.width() + 3,
{
    let ghost ctx = ctx_of(prog, bound, active);
    match op {
        Op::Literal { pieces, labels } => run_literal(prog, input, host, pieces, labels, pos, st),
        Op::Class { ranges, negated, label } => {
            let ghost before = *st;
            match input.parse_elem(pos) {
                RuleResult::Matched(q, elem) => {
                    let code = elem.code();
                    if class_check(ranges, *negated, code) {
                        proof {
                            Furthest::lemma_join_none(st.tracker@);
                        }
                        RuleResult::Matched(q, Value::Elem(code))
                    } else {
                        st.tracker.mark_failure(pos, label.as_str());
                        proof {
                            lemma_state_grows(
                                &before,
                                st,
                                prog,
                                input,
                                host,
                                Furthest::single(pos, label@),
                            );
                        }
                        RuleResult::Failed
                    }
                },
                RuleResult::Failed => {
                    st.tracker.mark_failure(pos, label.as_str());
                    proof {
                        lemma_state_grows(
                            &before,
                            st,
                            prog,
                            input,
                            host,
                            Furthest::single(pos, label@),
                        );
                    }
                    RuleResult::Failed
                },
            }
        },
        Op::Position => {
            proof {
                Furthest::lemma_join_none(st.tracker@);
            }
            RuleResult::Matched(pos, Value::Position(pos))
        },
        Op::Call(rule) => run_call(prog, input, host, *rule, pos, bound, active, st),
        Op::Sequence(steps) => {
            proof {
                crate::value::lemma_trees_empty();
            }
            run_steps(prog, input, host, op, 0, pos, bound, active, st, Vec::new())
        },
        Op::Choice(alts) => run_alts(prog, input, host, op, 0, pos, bound, active, st),
        Op::Repeat { inner, min, max } => {
            proof {
                crate::value::lemma_trees_empty();
            }
            run_repeat(prog, input, host, op, pos, bound, active, st, Vec::new())
        },
        Op::Optional(inner) => {
            match run_op(prog, input, host, inner, pos, bound, active, st) {
                RuleResult::Matched(q, value) => RuleResult::Matched(
                    q,
                    Value::Present(Box::new(value)),
                ),
                RuleResult::Failed => RuleResult::Matched(pos, Value::Absent),
            }
        },
        Op::Ahead(inner) => {
            match run_op(prog, input, host, inner, pos, bound, active, st) {
                RuleResult::Matched(q, value) => RuleResult::Matched(pos, Value::Unit),
                RuleResult::Failed => RuleResult::Failed,
            }
        },
        Op::NotAhead(inner) => {
            match run_op(prog, input, host, inner, pos, bound, active, st) {
                RuleResult::Matched(q, value) => RuleResult::Failed,
                RuleResult::Failed => RuleResult::Matched(pos, Value::Unit),
            }
        },
        Op::Action { inner, action } => {
            match run_op(prog, input, host, inner, pos, bound, active, st) {
                RuleResult::Matched(q, value) => {
                    let args = match value {
                        Value::List(items) => items,
                        other => {
                            let mut one: Vec<Value> = Vec::new();
                            one.push(other);
                            proof {
                                assert(trees(one@) =~= seq![other@]);
                            }
                            one
                        },
                    };
                    assert(trees(args@) == action_args(value@));
                    match host.run(*action, &args, pos, q) {
                        Some(made) => RuleResult::Matched(q, made),
                        None => RuleResult::Failed,
                    }
                },
                RuleResult::Failed => RuleResult::Failed,
            }
        },
        Op::Capture(inner) => {
            match run_op(prog, input, host, inner, pos, bound, active, st) {
                RuleResult::Matched(q, value) => RuleResult::Matched(q, Value::Span(pos, q)),
                RuleResult::Failed => RuleResult::Failed,
            }
        },
        Op::Precedence(operators) => run_climb(prog, input, host, op, 0, pos, bound, active, st),
    }
}

/// Runs the precedence block `op` for operators of level `min` and above.
pub fn run_climb<I, H>(
    prog: &Program,
    input: &I,
    host: &H,
    op: &Op,
    min: usize,
    pos: usize,
    bound: usize,
    active: Option<&Vec<bool>>,
    st: &mut ParseState,
) -> (r: RuleResult<Value>) where I: ParseElem + ParseLiteral + ?Sized, I::Element: Symbol, H: Actions
    requires
        prog.wf(),
        op is Precedence,
        operators_ok(prog.notes(), op, 0, bound as nat),
        bound <= prog.size(),
        active matches Some(flags) ==> flags@.len() == prog.size(),
        pos <= input.end_pos(),
        state_ok(old(st), prog, input, host),
    ensures
        run_post(
            prog,
            input,
            host,
            eval_climb(prog, input, host, op, min, pos, ctx_of(prog, bound, active)),
            pos,
            nullable_atoms(prog.notes().nullable, op, 0),
            old(st),
            final(st),
            r,
        ),
    decreases
            input.end_pos() - pos,
            idle(ctx_of(prog, bound, active).active),
            bound,
            op,
            2 * op.width() + 2,
{
    let ghost ctx = ctx_of(prog, bound, active);
    let ghost t0 = st.tracker@;
    match run_primary(prog, input, host, op, 0, pos, bound, active, st) {
        RuleResult::Matched(q, value) => {
            let ghost lhs = eval_primary(prog, input, host, op, 0, pos, ctx);
            let r = if q > pos {
                proof {
                    lemma_operators_ok_mono(prog.notes(), op, 0, bound as nat, prog.size());
                }
                run_ops(
                    prog,
                    input,
                    host,
                    op,
                    min,
                    None,
                    0,
                    q,
                    prog.rules.len(),
                    None,
                    st,
                    value,
                    pos,
                )
            } else {
                run_ops(prog, input, host, op, min, None, 0, q, bound, active, st, value, pos)
            };
            proof {
                let rest = eval_ops(
                    prog,
                    input,
                    host,
                    op,
                    min,
                    None,
                    0,
                    q,
                    ctx.after(prog, pos, q),
                    value@,
                    pos,
                );
                Furthest::lemma_join_assoc(t0, lhs.furthest, rest.furthest);
            }
            r
        },
        RuleResult::Failed => RuleResult::Failed,
    }
}

/// Runs the `k`-th operator of the precedence block `op` as the start of an
/// operand.
pub fn run_head<I, H>(
    prog: &Program,
    input: &I,
    host: &H,
    op: &Op,
    k: usize,
    pos: usize,
    bound: usize,
    active: Option<&Vec<bool>>,
    st: &mut ParseState,
) -> (r: RuleResult<Value>) where I: ParseElem + ParseLiteral + ?Sized, I::Element: Symbol, H: Actions
    requires
        prog.wf(),
        op is Precedence,
        k < op.width(),
        operators_ok(prog.notes(), op, 0, bound as nat),
        bound <= prog.size(),
        active matches Some(flags) ==> flags@.len() == prog.size(),
        pos <= input.end_pos(),
        state_ok(old(st), prog, input, host),
    ensures
        run_post(
            prog,
            input,
            host,
            eval_head(prog, input, host, op, k as int, pos, ctx_of(prog, bound, active)),
            pos,
            op->Precedence_0@[k as int].fixity == Fixity::Atom && nullable(
                prog.notes().nullable,
                &op->Precedence_0@[k as int].pattern,
            ),
            old(st),
            final(st),
            r,
        ),
    decreases input.end_pos() - pos, idle(ctx_of(prog, bound, active).active), bound, op, 0nat,
{
    let ghost ctx = ctx_of(prog, bound, active);
    let ghost t0 = st.tracker@;
    proof {
        lemma_operator_at(prog.notes(), op, 0, k as int, bound as nat);
    }
    match op {
        Op::Precedence(operators) => {
            let o = &operators[k];
            match o.fixity {
                Fixity::Atom => {
                    match run_op(prog, input, host, &o.pattern, pos, bound, active, st) {
                        RuleResult::Matched(q, value) => {
                            let args = match value {
                                Value::List(items) => items,
                                other => {
                                    let mut one: Vec<Value> = Vec::new();
                                    one.push(other);
                                    proof {
                                        assert(trees(one@) =~= seq![other@]);
                                    }
                                    one
                                },
                            };
                            assert(trees(args@) == action_args(value@));
                            match host.run(o.action, &args, pos, q) {
                                Some(made) => RuleResult::Matched(q, made),
                                None => RuleResult::Failed,
                            }
                        },
                        RuleResult::Failed => RuleResult::Failed,
                    }
                },
                Fixity::Prefix => {
                    match run_op(prog, input, host, &o.pattern, pos, bound, active, st) {
                        RuleResult::Matched(q1, value) => {
                            let ghost first = eval(prog, input, host, &o.pattern, pos, ctx);
                            proof {
                                lemma_operators_ok_mono(
                                    prog.notes(),
                                    op,
                                    0,
                                    bound as nat,
                                    prog.size(),
                                );
                            }
                            let r = run_climb(
                                prog,
                                input,
                                host,
                                op,
                                o.level,
                                q1,
                                prog.rules.len(),
                                None,
                                st,
                            );
                            proof {
                                let operand = eval_climb(
                                    prog,
                                    input,
                                    host,
                                    op,
                                    o.level,
                                    q1,
                                    Ctx::top(prog),
                                );
                                Furthest::lemma_join_assoc(t0, first.furthest, operand.furthest);
                            }
                            match r {
                                RuleResult::Matched(q2, inner) => {
                                    let mut args: Vec<Value> = Vec::new();
                                    args.push(inner);
                                    proof {
                                        assert(trees(args@) =~= seq![inner@]);
                                    }
                                    match host.run(o.action, &args, pos, q2) {
                                        Some(made) => RuleResult::Matched(q2, made),
                                        None => RuleResult::Failed,
                                    }
                                },
                                RuleResult::Failed => RuleResult::Failed,
                            }
                        },
                        RuleResult::Failed => RuleResult::Failed,
                    }
                },
                _ => {
                    proof {
                        Furthest::lemma_join_none(st.tracker@);
                    }
                    RuleResult::Failed
                },
            }
        },
        _ => {
            proof {
                Furthest::lemma_join_none(st.tracker@);
            }
            RuleResult::Failed
        },
    }
}

/// Runs an operand of the precedence block `op`: the first of the operators
/// from index `k` on that can start one.
pub fn run_primary<I, H>(
    prog: &Program,
    input: &I,
    host: &H,
    op: &Op,
    k: usize,
    pos: usize,
    bound: usize,
    active: Option<&Vec<bool>>,
    st: &mut ParseState,
) -> (r: RuleResult<Value>) where I: ParseElem + ParseLiteral + ?Sized, I::Element: Symbol, H: Actions
    requires
        prog.wf(),
        op is Precedence,
        k <= op.width(),
        operators_ok(prog.notes(), op, 0, bound as nat),
        bound <= prog.size(),
        active matches Some(flags) ==> flags@.len() == prog.size(),
        pos <= input.end_pos(),
        state_ok(old(st), prog, input, host),
    ensures
        run_post(
            prog,
            input,
            host,
            eval_primary(prog, input, host, op, k as int, pos, ctx_of(prog, bound, active)),
            pos,
            nullable_atoms(prog.notes().nullable, op, k as int),
            old(st),
            final(st),
            r,
        ),
    decreases
            input.end_pos() - pos,
            idle(ctx_of(prog, bound, active).active),
            bound,
            op,
            2 * op.width() + 1 - k,
{
    let ghost ctx = ctx_of(prog, bound, active);
    let ghost t0 = st.tracker@;
    match op {
        Op::Precedence(operators) => {
            if k < operators.len() {
                match run_head(prog, input, host, op, k, pos, bound, active, st) {
                    RuleResult::Matched(q, value) => RuleResult::Matched(q, value),
                    RuleResult::Failed => {
                        let r = run_primary(prog, input, host, op, k + 1, pos, bound, active, st);
                        proof {
                            let attempt = eval_head(prog, input, host, op, k as int, pos, ctx);
                            let rest = eval_primary(prog, input, host, op, k + 1, pos, ctx);
                            Furthest::lemma_join_assoc(t0, attempt.furthest, rest.furthest);
                        }
                        r
                    },
                }
            } else {
                proof {
                    Furthest::lemma_join_none(st.tracker@);
                }
                RuleResult::Failed
            }
        },
        _ => {
            proof {
                Furthest::lemma_join_none(st.tracker@);
            }
            RuleResult::Failed
        },
    }
}

/// Runs the `k`-th operator of the precedence block `op` behind the operand
/// `lhs`.  Where the operator does not join, the operand is handed back.
pub fn run_join<I, H>(
    prog: &Program,
    input: &I,
    host: &H,
    op: &Op,
    min: usize,
    limit: Option<usize>,
    k: usize,
    pos: usize,
    bound: usize,
    active: Option<&Vec<bool>>,
    st: &mut ParseState,
    lhs: Value,
    start: usize,
) -> (r: Result<(usize, Value), Value>) where
    I: ParseElem + ParseLiteral + ?Sized,
    I::Element: Symbol,
    H: Actions,

    requires
        prog.wf(),
        op is Precedence,
        k < op.width(),
        operators_ok(prog.notes(), op, 0, bound as nat),
        bound <= prog.size(),
        active matches Some(flags) ==> flags@.len() == prog.size(),
        pos <= input.end_pos(),
        state_ok(old(st), prog, input, host),
    ensures
        ({
            let o = eval_join(
                prog,
                input,
                host,
                op,
                min,
                limit,
                k as int,
                pos,
                ctx_of(prog, bound, active),
                lhs@,
                start,
            );
            &&& match r {
                Ok((q, value)) => o.result == RuleResult::Matched(q, value@) && pos < q
                    <= input.end_pos(),
                Err(back) => o.result is Failed && back@ == lhs@,
            }
            &&& final(st).tracker@ == old(st).tracker@.join(o.furthest)
            &&& state_ok(final(st), prog, input, host)
        }),
    decreases input.end_pos() - pos, idle(ctx_of(prog, bound, active).active), bound, op, 0nat,
{
    let ghost ctx = ctx_of(prog, bound, active);
    let ghost t0 = st.tracker@;
    proof {
        lemma_operator_at(prog.notes(), op, 0, k as int, bound as nat);
    }
    match op {
        Op::Precedence(operators) => {
            let o = &operators[k];
            let infix = match o.fixity {
                Fixity::Infix => true,
                _ => false,
            };
            let postfix = match o.fixity {
                Fixity::Postfix => true,
                _ => false,
            };
            let open = match limit {
                Some(l) => o.level < l,
                None => true,
            };
            if !((infix || postfix) && min <= o.level && open) {
                proof {
                    Furthest::lemma_join_none(st.tracker@);
                }
                return Err(lhs);
            }
            match run_op(prog, input, host, &o.pattern, pos, bound, active, st) {
                RuleResult::Matched(q1, value) => {
                    let ghost first = eval(prog, input, host, &o.pattern, pos, ctx);
                    if infix {
                        let right_assoc = match o.assoc {
                            Assoc::Right => true,
                            _ => false,
                        };
                        let level = if right_assoc {
                            o.level
                        } else {
                            o.level + 1
                        };
                        proof {
                            lemma_operators_ok_mono(
                                prog.notes(),
                                op,
                                0,
                                bound as nat,
                                prog.size(),
                            );
                        }
                        let r = run_climb(
                            prog,
                            input,
                            host,
                            op,
                            level,
                            q1,
                            prog.rules.len(),
                            None,
                            st,
                        );
                        proof {
                            let rhs = eval_climb(
                                prog,
                                input,
                                host,
                                op,
                                level,
                                q1,
                                Ctx::top(prog),
                            );
                            Furthest::lemma_join_assoc(t0, first.furthest, rhs.furthest);
                        }
                        match r {
                            RuleResult::Matched(q2, right) => {
                                let mut args: Vec<Value> = Vec::new();
                                args.push(lhs);
                                args.push(right);
                                proof {
                                    assert(trees(args@) =~= seq![lhs@, right@]);
                                }
                                match host.run(o.action, &args, start, q2) {
                                    Some(made) => Ok((q2, made)),
                                    None => {
                                        args.pop();
                                        let back = args.pop();
                                        Err(back.unwrap())
                                    },
                                }
                            },
                            RuleResult::Failed => Err(lhs),
                        }
                    } else {
                        let mut args: Vec<Value> = Vec::new();
                        args.push(lhs);
                        proof {
                            assert(trees(args@) =~= seq![lhs@]);
                        }
                        match host.run(o.action, &args, start, q1) {
                            Some(made) => Ok((q1, made)),
                            None => {
                                let back = args.pop();
                                Err(back.unwrap())
                            },
                        }
                    }
                },
                RuleResult::Failed => Err(lhs),
            }
        },
        _ => {
            proof {
                Furthest::lemma_join_none(st.tracker@);
            }
            Err(lhs)
        },
    }
}

/// Climbs on from the operand `lhs`, which began at `start` and ended at
/// `pos`, trying the operators from index `k` on.
pub fn run_ops<I, H>(
    prog: &Program,
    input: &I,
    host: &H,
    op: &Op,
    min: usize,
    limit: Option<usize>,
    k: usize,
    pos: usize,
    bound: usize,
    active: Option<&Vec<bool>>,
    st: &mut ParseState,
    lhs: Value,
    start: usize,
) -> (r: RuleResult<Value>) where I: ParseElem + ParseLiteral + ?Sized, I::Element: Symbol, H: Actions
    requires
        prog.wf(),
        op is Precedence,
        k <= op.width(),
        operators_ok(prog.notes(), op, 0, bound as nat),
        bound <= prog.size(),
        active matches Some(flags) ==> flags@.len() == prog.size(),
        pos <= input.end_pos(),
        state_ok(old(st), prog, input, host),
    ensures
        run_post(
            prog,
            input,
            host,
            eval_ops(
                prog,
                input,
                host,
                op,
                min,
                limit,
                k as int,
                pos,
                ctx_of(prog, bound, active),
                lhs@,
                start,
            ),
            pos,
            true,
            old(st),
            final(st),
            r,
        ),
    decreases
            input.end_pos() - pos,
            idle(ctx_of(prog, bound, active).active),
            bound,
            op,
            op.width() - k + 1,
{
    let ghost ctx = ctx_of(prog, bound, active);
    let ghost t0 = st.tracker@;
    match op {
        Op::Precedence(operators) => {
            if k < operators.len() {
                let ghost attempt = eval_join(
                    prog,
                    input,
                    host,
                    op,
                    min,
                    limit,
                    k as int,
                    pos,
                    ctx,
                    lhs@,
                    start,
                );
                match run_join(
                    prog,
                    input,
                    host,
                    op,
                    min,
                    limit,
                    k,
                    pos,
                    bound,
                    active,
                    st,
                    lhs,
                    start,
                ) {
                    Ok((q2, folded)) => {
                        let non_assoc = match operators[k].assoc {
                            Assoc::NonAssoc => true,
                            _ => false,
                        };
                        let next = if non_assoc {
                            Some(operators[k].level)
                        } else {
                            limit
                        };
                        proof {
                            lemma_operators_ok_mono(
                                prog.notes(),
                                op,
                                0,
                                bound as nat,
                                prog.size(),
                            );
                        }
                        let r = run_ops(
                            prog,
                            input,
                            host,
                            op,
                            min,
                            next,
                            0,
                            q2,
                            prog.rules.len(),
                            None,
                            st,
                            folded,
                            start,
                        );
                        proof {
                            let rest = eval_ops(
                                prog,
                                input,
                                host,
                                op,
                                min,
                                next,
                                0,
                                q2,
                                Ctx::top(prog),
                                folded@,
                                start,
                            );
                            Furthest::lemma_join_assoc(t0, attempt.furthest, rest.furthest);
                        }
                        r
                    },
                    Err(back) => {
                        let r = run_ops(
                            prog,
                            input,
                            host,
                            op,
                            min,
                            limit,
                            k + 1,
                            pos,
                            bound,
                            active,
                            st,
                            back,
                            start,
                        );
                        proof {
                            let rest = eval_ops(
                                prog,
                                input,
                                host,
                                op,
                                min,
                                limit,
                                k + 1,
                                pos,
                                ctx,
                                lhs@,
                                start,
                            );
                            Furthest::lemma_join_assoc(t0, attempt.furthest, rest.furthest);
                        }
                        r
                    },
                }
            } else {
                proof {
                    Furthest::lemma_join_none(st.tracker@);
                }
                RuleResult::Matched(pos, lhs)
            }
        },
        _ => {
            proof {
                Furthest::lemma_join_none(st.tracker@);
            }
            RuleResult::Failed
        },
    }
}

/// Runs rule number `rule` at `pos`, looking up and remembering the outcome
/// where the rule is memoized and nothing is running at `pos`.
pub fn run_call<I, H>(
    prog: &Program,
    input: &I,
    host: &H,
    rule: usize,
    pos: usize,
    bound: usize,
    active: Option<&Vec<bool>>,
    st: &mut ParseState,
) -> (r: RuleResult<Value>) where I: ParseElem + ParseLiteral + ?Sized, I::Element: Symbol, H: Actions
    requires
        prog.wf(),
        prog.notes().call_ok(rule, bound as nat),
        bound <= prog.size(),
        active matches Some(flags) ==> flags@.len() == prog.size(),
        pos <= input.end_pos(),
        state_ok(old(st), prog, input, host),
    ensures
        run_post(
            prog,
            input,
            host,
            eval(prog, input, host, &Op::Call(rule), pos, ctx_of(prog, bound, active)),
            pos,
            prog.rules@[rule as int].nullable,
            old(st),
            final(st),
            r,
        ),
        prog.rules@[rule as int].infallible ==> r is Matched,
    decreases
            input.end_pos() - pos,
            idle(ctx_of(prog, bound, active).active),
            bound,
            Op::Call(rule),
            0nat,
{
    let routine = &prog.rules[rule];
    let ghost ctx = ctx_of(prog, bound, active);
    let ghost call = Op::Call(rule);
    assert(prog.rule_ok(rule as int));
    let memoized = active.is_none() && (match routine.kind {
        RuleKind::Memoized => true,
        _ => false,
    });
    proof {
        if active.is_none() {
            assert(eval(prog, input, host, &call, pos, ctx) == eval_rule(
                prog,
                input,
                host,
                rule,
                pos,
            ));
        }
    }
    if memoized {
        match st.memo.lookup(rule, pos) {
            Some(found) => {
                assert(entry_ok(st, prog, input, host, rule as int, pos));
                return found;
            },
            None => {},
        }
    }
    let r = if routine.left_recursive {
        let running = match active {
            Some(flags) => flags[rule],
            None => false,
        };
        if running {
            proof {
                Furthest::lemma_join_none(st.tracker@);
            }
            return RuleResult::Failed;
        }
        let mut flags = match active {
            Some(flags) => copy_flags(flags),
            None => all_idle(prog.rules.len()),
        };
        flags[rule] = true;
        proof {
            lemma_idle_update(ctx.active, rule as int);
            assert(flags@ == ctx.active.update(rule as int, true));
        }
        run_op(prog, input, host, &routine.body, pos, prog.rules.len(), Some(&flags), st)
    } else {
        run_op(prog, input, host, &routine.body, pos, routine.rank, active, st)
    };
    if memoized {
        let ghost before = *st;
        let ghost o = eval_rule(prog, input, host, rule, pos);
        st.memo.store(rule, pos, duplicate_result(&r));
        proof {
            Furthest::lemma_join_absorbs(old(st).tracker@, o.furthest);
            assert forall|r2: int, p2: usize| #[trigger] st.memo.has(r2, p2) implies entry_ok(
                st,
                prog,
                input,
                host,
                r2,
                p2,
            ) by {
                if r2 == rule && p2 == pos {
                } else {
                    assert(before.memo.has(r2, p2));
                    assert(entry_ok(&before, prog, input, host, r2, p2));
                }
            }
        }
    }
    r
}

/// Runs the steps of the sequence `op` from index `k` on.
pub fn run_steps<I, H>(
    prog: &Program,
    input: &I,
    host: &H,
    op: &Op,
    k: usize,
    pos: usize,
    bound: usize,
    active: Option<&Vec<bool>>,
    st: &mut ParseState,
    acc: Vec<Value>,
) -> (r: RuleResult<Value>) where I: ParseElem + ParseLiteral + ?Sized, I::Element: Symbol, H: Actions
    requires
        prog.wf(),
        op is Sequence,
        k <= op.width(),
        steps_ok(prog.notes(), op, k as int, bound as nat),
        bound <= prog.size(),
        active matches Some(flags) ==> flags@.len() == prog.size(),
        pos <= input.end_pos(),
        state_ok(old(st), prog, input, host),
    ensures
        run_post(
            prog,
            input,
            host,
            eval_steps(
                prog,
                input,
                host,
                op,
                k as int,
                pos,
                ctx_of(prog, bound, active),
                trees(acc@),
            ),
            pos,
            nullable_steps(prog.notes().nullable, op, k as int),
            old(st),
            final(st),
            r,
        ),
        always_parts(prog.notes().left_recursive, prog.marks(), op, k as int) ==> r is Matched,
    decreases
            input.end_pos() - pos,
            idle(ctx_of(prog, bound, active).active),
            bound,
            op,
            op.width() - k,
{
    let ghost ctx = ctx_of(prog, bound, active);
    match op {
        Op::Sequence(steps) => {
            if k < steps.len() {
                let step = &steps[k];
                let ghost t0 = st.tracker@;
                match run_op(prog, input, host, &step.op, pos, bound, active, st) {
                    RuleResult::Matched(q, value) => {
                        let ghost first = eval(prog, input, host, &step.op, pos, ctx);
                        let ghost kept = if step.keep {
                            trees(acc@).push(value@)
                        } else {
                            trees(acc@)
                        };
                        let mut acc = acc;
                        if step.keep {
                            proof {
                                lemma_trees_push(acc@, value);
                            }
                            acc.push(value);
                        }
                        let r = if q > pos {
                            proof {
                                if prog.nullable(&step.op) {
                                    lemma_steps_ok_mono(
                                        prog.notes(),
                                        op,
                                        k + 1,
                                        bound as nat,
                                        prog.size(),
                                    );
                                }
                            }
                            run_steps(
                                prog,
                                input,
                                host,
                                op,
                                k + 1,
                                q,
                                prog.rules.len(),
                                None,
                                st,
                                acc,
                            )
                        } else {
                            run_steps(prog, input, host, op, k + 1, q, bound, active, st, acc)
                        };
                        proof {
                            let rest = eval_steps(
                                prog,
                                input,
                                host,
                                op,
                                k + 1,
                                q,
                                ctx.after(prog, pos, q),
                                kept,
                            );
                            Furthest::lemma_join_assoc(t0, first.furthest, rest.furthest);
                        }
                        r
                    },
                    RuleResult::Failed => RuleResult::Failed,
                }
            } else {
                proof {
                    Furthest::lemma_join_none(st.tracker@);
                }
                RuleResult::Matched(pos, Value::List(acc))
            }
        },
        _ => {
            proof {
                Furthest::lemma_join_none(st.tracker@);
            }
            RuleResult::Failed
        },
    }
}

/// Runs the alternatives of the choice `op` from index `k` on.
pub fn run_alts<I, H>(
    prog: &Program,
    input: &I,
    host: &H,
    op: &Op,
    k: usize,
    pos: usize,
    bound: usize,
    active: Option<&Vec<bool>>,
    st: &mut ParseState,
) -> (r: RuleResult<Value>) where I: ParseElem + ParseLiteral + ?Sized, I::Element: Symbol, H: Actions
    requires
        prog.wf(),
        op is Choice,
        k <= op.width(),
        alts_ok(prog.notes(), op, k as int, bound as nat),
        bound <= prog.size(),
        active matches Some(flags) ==> flags@.len() == prog.size(),
        pos <= input.end_pos(),
        state_ok(old(st), prog, input, host),
    ensures
        run_post(
            prog,
            input,
            host,
            eval_alts(prog, input, host, op, k as int, pos, ctx_of(prog, bound, active)),
            pos,
            nullable_alts(prog.notes().nullable, op, k as int),
            old(st),
            final(st),
            r,
        ),
        always_parts(prog.notes().left_recursive, prog.marks(), op, k as int) ==> r is Matched,
    decreases
            input.end_pos() - pos,
            idle(ctx_of(prog, bound, active).active),
            bound,
            op,
            op.width() - k,
{
    let ghost ctx = ctx_of(prog, bound, active);
    match op {
        Op::Choice(alts) => {
            if k < alts.len() {
                let ghost t0 = st.tracker@;
                match run_op(prog, input, host, &alts[k], pos, bound, active, st) {
                    RuleResult::Matched(q, value) => RuleResult::Matched(q, value),
                    RuleResult::Failed => {
                        let r = run_alts(prog, input, host, op, k + 1, pos, bound, active, st);
                        proof {
                            let first = eval(prog, input, host, &alts@[k as int], pos, ctx);
                            let rest = eval_alts(prog, input, host, op, k + 1, pos, ctx);
                            Furthest::lemma_join_assoc(t0, first.furthest, rest.furthest);
                        }
                        r
                    },
                }
            } else {
                proof {
                    Furthest::lemma_join_none(st.tracker@);
                }
                RuleResult::Failed
            }
        },
        _ => {
            proof {
                Furthest::lemma_join_none(st.tracker@);
            }
            RuleResult::Failed
        },
    }
}

/// Runs the repetition `op` on from `pos`, behind the matches whose values
/// are in `acc`.
pub fn run_repeat<I, H>(
    prog: &Program,
    input: &I,
    host: &H,
    op: &Op,
    pos: usize,
    bound: usize,
    active: Option<&Vec<bool>>,
    st: &mut ParseState,
    acc: Vec<Value>,
) -> (r: RuleResult<Value>) where I: ParseElem + ParseLiteral + ?Sized, I::Element: Symbol, H: Actions
    requires
        prog.wf(),
        op is Repeat,
        prog.op_ok(op, bound as nat),
        bound <= prog.size(),
        active matches Some(flags) ==> flags@.len() == prog.size(),
        pos <= input.end_pos(),
        state_ok(old(st), prog, input, host),
    ensures
        run_post(
            prog,
            input,
            host,
            eval_repeat(prog, input, host, op, pos, ctx_of(prog, bound, active), trees(acc@)),
            pos,
            true,
            old(st),
            final(st),
            r,
        ),
        r matches RuleResult::Matched(q, _) ==> (q == pos ==> acc@.len() >= op->min),
        acc@.len() >= op->Repeat_min ==> r is Matched,
    decreases
            input.end_pos() - pos,
            idle(ctx_of(prog, bound, active).active),
            bound,
            op,
            0nat,
{
    let ghost ctx = ctx_of(prog, bound, active);
    match op {
        Op::Repeat { inner, min, max } => {
            let full = match max {
                Some(m) => acc.len() >= *m,
                None => false,
            };
            if full {
                proof {
                    Furthest::lemma_join_none(st.tracker@);
                }
                return RuleResult::Matched(pos, Value::List(acc));
            }
            let ghost t0 = st.tracker@;
            match run_op(prog, input, host, inner, pos, bound, active, st) {
                RuleResult::Matched(q, value) => {
                    let ghost first = eval(prog, input, host, inner, pos, ctx);
                    let mut acc = acc;
                    proof {
                        lemma_trees_push(acc@, value);
                        lemma_op_ok_mono(prog.notes(), op, bound as nat, prog.size());
                    }
                    acc.push(value);
                    let r = run_repeat(prog, input, host, op, q, prog.rules.len(), None, st, acc);
                    proof {
                        let rest = eval_repeat(
                            prog,
                            input,
                            host,
                            op,
                            q,
                            Ctx::top(prog),
                            trees(acc@),
                        );
                        Furthest::lemma_join_assoc(t0, first.furthest, rest.furthest);
                    }
                    r
                },
                RuleResult::Failed => {
                    if acc.len() >= *min {
                        RuleResult::Matched(pos, Value::List(acc))
                    } else {
                        RuleResult::Failed
                    }
                },
            }
        },
        _ => {
            proof {
                Furthest::lemma_join_none(st.tracker@);
            }
            RuleResult::Failed
        },
    }
}

} // verus!
