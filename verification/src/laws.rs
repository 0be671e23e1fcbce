//! Laws of matching, proved from the semantics.

use crate::input::{ParseElem, ParseLiteral, Symbol};
use crate::matcher::{entry_ok, state_ok, ParseState};
use crate::program::{Op, Program};
use crate::result::RuleResult;
use crate::semantics::{
    eval, eval_alts, eval_climb, eval_join, eval_literal, eval_ops, eval_primary,
    eval_repeat, eval_rule, eval_steps, idle, lemma_idle_update, Actions, Ctx, Outcome,
};
use crate::value::Tree;
use vstd::prelude::*;

verus! {

/// Whatever a parse state remembers for a rule at a position is the outcome
/// of that rule at that position: looking an outcome up and working it out
/// afresh give the same result.
pub proof fn law_remembered_is_outcome<I, H>(
    st: &ParseState,
    prog: &Program,
    input: &I,
    host: &H,
    rule: usize,
    pos: usize,
) where I: ParseElem + ParseLiteral + ?Sized, I::Element: Symbol, H: Actions
    requires
        state_ok(st, prog, input, host),
        st.memo.has(rule as int, pos),
    ensures
        st.memo.at(rule as int, pos) == eval_rule(prog, input, host, rule, pos).result,
        st.memo.at(rule as int, pos) matches RuleResult::Matched(q, _) ==> pos <= q,
{
    assert(entry_ok(st, prog, input, host, rule as int, pos));
}

/// Ordered choice is left-biased: the result of a choice is the result of
/// its first alternative that matches, whatever later alternatives would do.
pub proof fn law_choice_takes_first_match<I, H>(
    prog: &Program,
    input: &I,
    host: &H,
    op: &Op,
    winner: int,
    pos: usize,
    ctx: Ctx,
) where I: ParseElem + ParseLiteral + ?Sized, I::Element: Symbol, H: Actions
    requires
        op is Choice,
        0 <= winner < op.width(),
        forall|j: int|
            0 <= j < winner ==> (#[trigger] eval(
                prog,
                input,
                host,
                &op->Choice_0@[j],
                pos,
                ctx,
            )).result is Failed,
        eval(prog, input, host, &op->Choice_0@[winner], pos, ctx).result is Matched,
    ensures
        eval(prog, input, host, op, pos, ctx).result == eval(
            prog,
            input,
            host,
            &op->Choice_0@[winner],
            pos,
            ctx,
        ).result,
{
    lemma_alts_take_first_match(prog, input, host, op, 0, winner, pos, ctx);
}

proof fn lemma_alts_take_first_match<I, H>(
    prog: &Program,
    input: &I,
    host: &H,
    op: &Op,
    k: int,
    winner: int,
    pos: usize,
    ctx: Ctx,
) where I: ParseElem + ParseLiteral + ?Sized, I::Element: Symbol, H: Actions
    requires
        op is Choice,
        0 <= k <= winner < op.width(),
        forall|j: int|
            k <= j < winner ==> (#[trigger] eval(
                prog,
                input,
                host,
                &op->Choice_0@[j],
                pos,
                ctx,
            )).result is Failed,
        eval(prog, input, host, &op->Choice_0@[winner], pos, ctx).result is Matched,
    ensures
        eval_alts(prog, input, host, op, k, pos, ctx).result == eval(
            prog,
            input,
            host,
            &op->Choice_0@[winner],
            pos,
            ctx,
        ).result,
    decreases winner - k,
{
    if k < winner {
        assert(eval(prog, input, host, &op->Choice_0@[k], pos, ctx).result is Failed);
        lemma_alts_take_first_match(prog, input, host, op, k + 1, winner, pos, ctx);
    }
}

/// A choice none of whose alternatives matches fails.
pub proof fn law_choice_fails_when_all_fail<I, H>(
    prog: &Program,
    input: &I,
    host: &H,
    op: &Op,
    pos: usize,
    ctx: Ctx,
) where I: ParseElem + ParseLiteral + ?Sized, I::Element: Symbol, H: Actions
    requires
        op is Choice,
        forall|j: int|
            0 <= j < op.width() ==> (#[trigger] eval(
                prog,
                input,
                host,
                &op->Choice_0@[j],
                pos,
                ctx,
            )).result is Failed,
    ensures
        eval(prog, input, host, op, pos, ctx).result is Failed,
{
    lemma_alts_fail_when_all_fail(prog, input, host, op, 0, pos, ctx);
}

proof fn lemma_alts_fail_when_all_fail<I, H>(
    prog: &Program,
    input: &I,
    host: &H,
    op: &Op,
    k: int,
    pos: usize,
    ctx: Ctx,
) where I: ParseElem + ParseLiteral + ?Sized, I::Element: Symbol, H: Actions
    requires
        op is Choice,
        0 <= k <= op.width(),
        forall|j: int|
            k <= j < op.width() ==> (#[trigger] eval(
                prog,
                input,
                host,
                &op->Choice_0@[j],
                pos,
                ctx,
            )).result is Failed,
    ensures
        eval_alts(prog, input, host, op, k, pos, ctx).result is Failed,
    decreases op.width() - k,
{
    if k < op.width() {
        assert(eval(prog, input, host, &op->Choice_0@[k], pos, ctx).result is Failed);
        lemma_alts_fail_when_all_fail(prog, input, host, op, k + 1, pos, ctx);
    }
}

/// A repetition that asks for no match at least always succeeds.
pub proof fn law_star_always_matches<I, H>(
    prog: &Program,
    input: &I,
    host: &H,
    op: &Op,
    pos: usize,
    ctx: Ctx,
) where I: ParseElem + ParseLiteral + ?Sized, I::Element: Symbol, H: Actions
    requires
        op is Repeat && op->Repeat_min == 0,
    ensures
        eval(prog, input, host, op, pos, ctx).result is Matched,
{
    lemma_repeat_matches_with_enough(prog, input, host, op, pos, ctx, Seq::empty());
}

proof fn lemma_repeat_matches_with_enough<I, H>(
    prog: &Program,
    input: &I,
    host: &H,
    op: &Op,
    pos: usize,
    ctx: Ctx,
    acc: Seq<Tree>,
) where I: ParseElem + ParseLiteral + ?Sized, I::Element: Symbol, H: Actions
    requires
        op is Repeat && acc.len() >= op->Repeat_min,
    ensures
        eval_repeat(prog, input, host, op, pos, ctx, acc).result is Matched,
    decreases input.end_pos() - pos,
{
    let inner = op->Repeat_inner;
    let max = op->Repeat_max;
    if max matches Some(m) && acc.len() >= m {
    } else {
        let first = eval(prog, input, host, &*inner, pos, ctx);
        if let RuleResult::Matched(q, value) = first.result {
            if pos < q <= input.end_pos() {
                lemma_repeat_matches_with_enough(
                    prog,
                    input,
                    host,
                    op,
                    q,
                    Ctx::top(prog),
                    acc.push(value),
                );
            }
        }
    }
}

/// A repetition that asks for one match at least fails exactly where its
/// body fails at the starting position.  (The body of a repetition in a
/// well-formed program consumes input whenever it matches, which is what the
/// second premise says of this one.)
pub proof fn law_plus_fails_iff_body_fails<I, H>(
    prog: &Program,
    input: &I,
    host: &H,
    op: &Op,
    pos: usize,
    ctx: Ctx,
) where I: ParseElem + ParseLiteral + ?Sized, I::Element: Symbol, H: Actions
    requires
        op is Repeat && op->Repeat_min == 1 && (op->Repeat_max matches Some(m) ==> m >= 1),
        eval(prog, input, host, &*op->Repeat_inner, pos, ctx).result matches RuleResult::Matched(
            q,
            _,
        ) ==> pos < q <= input.end_pos(),
    ensures
        eval(prog, input, host, op, pos, ctx).result is Failed <==> eval(
            prog,
            input,
            host,
            &*op->Repeat_inner,
            pos,
            ctx,
        ).result is Failed,
{
    let first = eval(prog, input, host, &*op->Repeat_inner, pos, ctx);
    let whole = eval_repeat(prog, input, host, op, pos, ctx, Seq::empty());
    assert(eval(prog, input, host, op, pos, ctx) == whole);
    if let RuleResult::Matched(q, value) = first.result {
        lemma_repeat_matches_with_enough(
            prog,
            input,
            host,
            op,
            q,
            Ctx::top(prog),
            Seq::<Tree>::empty().push(value),
        );
        assert(whole.result is Matched);
    } else {
        assert(whole.result is Failed);
    }
}

/// A repetition that matches holds at least its minimum and at most its
/// maximum of matches: with bounds two and four it fails on fewer than two
/// and never makes a fifth.
pub proof fn law_repeat_count_in_bounds<I, H>(
    prog: &Program,
    input: &I,
    host: &H,
    op: &Op,
    pos: usize,
    ctx: Ctx,
) where I: ParseElem + ParseLiteral + ?Sized, I::Element: Symbol, H: Actions
    requires
        op is Repeat,
        op->Repeat_max matches Some(m) ==> op->Repeat_min <= m,
    ensures
        eval(prog, input, host, op, pos, ctx).result matches RuleResult::Matched(q, value) ==> (
        value matches Tree::List(items) && items.len() >= op->Repeat_min && (
        op->Repeat_max matches Some(m) ==> items.len() <= m)),
{
    lemma_repeat_count(prog, input, host, op, pos, ctx, Seq::empty());
}

proof fn lemma_repeat_count<I, H>(
    prog: &Program,
    input: &I,
    host: &H,
    op: &Op,
    pos: usize,
    ctx: Ctx,
    acc: Seq<Tree>,
) where I: ParseElem + ParseLiteral + ?Sized, I::Element: Symbol, H: Actions
    requires
        op is Repeat,
        op->Repeat_max matches Some(m) ==> op->Repeat_min <= m,
    ensures
        eval_repeat(prog, input, host, op, pos, ctx, acc).result matches RuleResult::Matched(
            q,
            value,
        ) ==> (value matches Tree::List(items) && items.len() >= op->Repeat_min && items.len()
            >= acc.len() && (op->Repeat_max matches Some(m) ==> items.len() <= m || items.len()
            == acc.len())),
    decreases input.end_pos() - pos,
{
    let inner = op->Repeat_inner;
    let max = op->Repeat_max;
    if max matches Some(m) && acc.len() >= m {
    } else {
        let first = eval(prog, input, host, &*inner, pos, ctx);
        if let RuleResult::Matched(q, value) = first.result {
            if pos < q <= input.end_pos() {
                lemma_repeat_count(prog, input, host, op, q, Ctx::top(prog), acc.push(value));
            }
        }
    }
}

/// Lookahead never advances: a positive or negative lookahead that matches
/// ends where it began.
pub proof fn law_lookahead_stays<I, H>(
    prog: &Program,
    input: &I,
    host: &H,
    op: &Op,
    pos: usize,
    ctx: Ctx,
) where I: ParseElem + ParseLiteral + ?Sized, I::Element: Symbol, H: Actions
    requires
        op is Ahead || op is NotAhead,
    ensures
        eval(prog, input, host, op, pos, ctx).result matches RuleResult::Matched(q, _) ==> q == pos,
        op is Ahead ==> (eval(prog, input, host, op, pos, ctx).result is Matched <==> eval(
            prog,
            input,
            host,
            &*op->Ahead_0,
            pos,
            ctx,
        ).result is Matched),
        op is NotAhead ==> (eval(prog, input, host, op, pos, ctx).result is Matched <==> eval(
            prog,
            input,
            host,
            &*op->NotAhead_0,
            pos,
            ctx,
        ).result is Failed),
{
}

/// Whether a match, if the outcome is one, ends at or behind `pos` and
/// inside the input.
pub open spec fn within<I: crate::input::Parse + ?Sized>(input: &I, o: Outcome, pos: usize) -> bool {
    o.result matches RuleResult::Matched(q, _) ==> pos <= q <= input.end_pos()
}

/// A match never ends before it began nor beyond the input: whatever the
/// program, the rule and the input, a rule that matches from `pos` ends at
/// a position that is not before `pos`.
pub proof fn law_match_moves_forward<I, H>(
    prog: &Program,
    input: &I,
    host: &H,
    rule: usize,
    pos: usize,
) where I: ParseElem + ParseLiteral + ?Sized, I::Element: Symbol, H: Actions
    requires
        pos <= input.end_pos(),
    ensures
        within(input, eval_rule(prog, input, host, rule, pos), pos),
{
    lemma_within(prog, input, host, &Op::Call(rule), pos, Ctx::top(prog));
}

proof fn lemma_literal_within<I: ParseLiteral + ?Sized>(
    input: &I,
    pieces: Seq<String>,
    labels: Seq<String>,
    k: int,
    pos: usize,
)
    requires
        pos <= input.end_pos(),
    ensures
        within(input, eval_literal(input, pieces, labels, k, pos), pos),
    decreases pieces.len() - k,
{
    if 0 <= k < pieces.len() && k < labels.len() {
        if let RuleResult::Matched(q, _) = input.literal_at(pos, pieces[k]@) {
            if pos <= q <= input.end_pos() {
                lemma_literal_within(input, pieces, labels, k + 1, q);
            }
        }
    }
}

proof fn lemma_within<I, H>(prog: &Program, input: &I, host: &H, op: &Op, pos: usize, ctx: Ctx) where I: ParseElem + ParseLiteral + ?Sized, I::Element: Symbol, H: Actions
    requires
        pos <= input.end_pos(),
    ensures
        within(input, eval(prog, input, host, op, pos, ctx), pos),
    decreases input.end_pos() - pos, idle(ctx.active), ctx.bound, op, 2 * op.width() + 3,
{
    match op {
        Op::Literal { pieces, labels } => lemma_literal_within(input, pieces@, labels@, 0, pos),
        Op::Call(rule) => {
            if *rule < prog.size() {
                let r = prog.rules@[*rule as int];
                if r.left_recursive {
                    if ctx.active.len() == prog.size() && !ctx.active[*rule as int] {
                        lemma_idle_update(ctx.active, *rule as int);
                        lemma_within(
                            prog,
                            input,
                            host,
                            &r.body,
                            pos,
                            Ctx { bound: prog.size(), active: ctx.active.update(*rule as int, true) },
                        );
                    }
                } else if r.rank < ctx.bound {
                    lemma_within(
                        prog,
                        input,
                        host,
                        &r.body,
                        pos,
                        Ctx { bound: r.rank as nat, active: ctx.active },
                    );
                }
            }
        },
        Op::Sequence(steps) => lemma_steps_within(prog, input, host, op, 0, pos, ctx, Seq::empty()),
        Op::Choice(alts) => lemma_alts_within(prog, input, host, op, 0, pos, ctx),
        Op::Repeat { inner, min, max } => lemma_repeat_within(
            prog,
            input,
            host,
            op,
            pos,
            ctx,
            Seq::empty(),
        ),
        Op::Optional(inner) => lemma_within(prog, input, host, inner, pos, ctx),
        Op::Action { inner, action } => lemma_within(prog, input, host, inner, pos, ctx),
        Op::Capture(inner) => lemma_within(prog, input, host, inner, pos, ctx),
        Op::Precedence(operators) => lemma_climb_within(prog, input, host, op, 0, pos, ctx),
        _ => {},
    }
}

proof fn lemma_steps_within<I, H>(
    prog: &Program,
    input: &I,
    host: &H,
    op: &Op,
    k: int,
    pos: usize,
    ctx: Ctx,
    acc: Seq<Tree>,
) where I: ParseElem + ParseLiteral + ?Sized, I::Element: Symbol, H: Actions
    requires
        pos <= input.end_pos(),
    ensures
        within(input, eval_steps(prog, input, host, op, k, pos, ctx, acc), pos),
    decreases input.end_pos() - pos, idle(ctx.active), ctx.bound, op, op.width() - k,
{
    if let Op::Sequence(steps) = op {
        if 0 <= k < steps@.len() {
            let first = eval(prog, input, host, &steps@[k].op, pos, ctx);
            if let RuleResult::Matched(q, value) = first.result {
                if pos <= q <= input.end_pos() {
                    lemma_steps_within(
                        prog,
                        input,
                        host,
                        op,
                        k + 1,
                        q,
                        ctx.after(prog, pos, q),
                        if steps@[k].keep {
                            acc.push(value)
                        } else {
                            acc
                        },
                    );
                }
            }
        }
    }
}

proof fn lemma_alts_within<I, H>(
    prog: &Program,
    input: &I,
    host: &H,
    op: &Op,
    k: int,
    pos: usize,
    ctx: Ctx,
) where I: ParseElem + ParseLiteral + ?Sized, I::Element: Symbol, H: Actions
    requires
        pos <= input.end_pos(),
    ensures
        within(input, eval_alts(prog, input, host, op, k, pos, ctx), pos),
    decreases input.end_pos() - pos, idle(ctx.active), ctx.bound, op, op.width() - k,
{
    if let Op::Choice(alts) = op {
        if 0 <= k < alts@.len() {
            lemma_within(prog, input, host, &alts@[k], pos, ctx);
            lemma_alts_within(prog, input, host, op, k + 1, pos, ctx);
        }
    }
}

proof fn lemma_repeat_within<I, H>(
    prog: &Program,
    input: &I,
    host: &H,
    op: &Op,
    pos: usize,
    ctx: Ctx,
    acc: Seq<Tree>,
) where I: ParseElem + ParseLiteral + ?Sized, I::Element: Symbol, H: Actions
    requires
        pos <= input.end_pos(),
    ensures
        within(input, eval_repeat(prog, input, host, op, pos, ctx, acc), pos),
    decreases input.end_pos() - pos, idle(ctx.active), ctx.bound, op, 0nat,
{
    if let Op::Repeat { inner, min, max } = op {
        if *max matches Some(m) && acc.len() >= m {
        } else {
            let first = eval(prog, input, host, inner, pos, ctx);
            if let RuleResult::Matched(q, value) = first.result {
                if pos < q <= input.end_pos() {
                    lemma_repeat_within(
                        prog,
                        input,
                        host,
                        op,
                        q,
                        Ctx::top(prog),
                        acc.push(value),
                    );
                }
            }
        }
    }
}

proof fn lemma_climb_within<I, H>(
    prog: &Program,
    input: &I,
    host: &H,
    op: &Op,
    min: usize,
    pos: usize,
    ctx: Ctx,
) where I: ParseElem + ParseLiteral + ?Sized, I::Element: Symbol, H: Actions
    requires
        pos <= input.end_pos(),
    ensures
        within(input, eval_climb(prog, input, host, op, min, pos, ctx), pos),
    decreases input.end_pos() - pos, idle(ctx.active), ctx.bound, op, 2 * op.width() + 2,
{
    if let Op::Precedence(operators) = op {
        let lhs = eval_primary(prog, input, host, op, 0, pos, ctx);
        if let RuleResult::Matched(q, value) = lhs.result {
            if pos <= q <= input.end_pos() {
                lemma_ops_within(
                    prog,
                    input,
                    host,
                    op,
                    min,
                    None,
                    0,
                    q,
                    ctx.after(prog, pos, q),
                    value,
                    pos,
                );
            }
        }
    }
}

proof fn lemma_join_within<I, H>(
    prog: &Program,
    input: &I,
    host: &H,
    op: &Op,
    min: usize,
    limit: Option<usize>,
    k: int,
    pos: usize,
    ctx: Ctx,
    lhs: Tree,
    start: usize,
) where I: ParseElem + ParseLiteral + ?Sized, I::Element: Symbol, H: Actions
    requires
        pos <= input.end_pos(),
    ensures
        within(
            input,
            eval_join(prog, input, host, op, min, limit, k, pos, ctx, lhs, start),
            pos,
        ),
    decreases input.end_pos() - pos, idle(ctx.active), ctx.bound, op, 0nat,
{
    if let Op::Precedence(operators) = op {
        if 0 <= k < operators@.len() && operators@[k].joins(min, limit) {
            let o = operators@[k];
            let first = eval(prog, input, host, &o.pattern, pos, ctx);
            if let RuleResult::Matched(q1, value) = first.result {
                if pos < q1 <= input.end_pos() {
                    lemma_climb_within(
                        prog,
                        input,
                        host,
                        op,
                        o.operand_level(),
                        q1,
                        Ctx::top(prog),
                    );
                }
            }
        }
    }
}

proof fn lemma_ops_within<I, H>(
    prog: &Program,
    input: &I,
    host: &H,
    op: &Op,
    min: usize,
    limit: Option<usize>,
    k: int,
    pos: usize,
    ctx: Ctx,
    lhs: Tree,
    start: usize,
) where I: ParseElem + ParseLiteral + ?Sized, I::Element: Symbol, H: Actions
    requires
        pos <= input.end_pos(),
    ensures
        within(input, eval_ops(prog, input, host, op, min, limit, k, pos, ctx, lhs, start), pos),
    decreases input.end_pos() - pos, idle(ctx.active), ctx.bound, op, op.width() - k + 1,
{
    if let Op::Precedence(operators) = op {
        if 0 <= k < operators@.len() {
            let attempt = eval_join(prog, input, host, op, min, limit, k, pos, ctx, lhs, start);
            let more = match attempt.result {
                RuleResult::Matched(q2, value) => pos < q2 <= input.end_pos(),
                RuleResult::Failed => false,
            };
            if more {
                lemma_ops_within(
                    prog,
                    input,
                    host,
                    op,
                    min,
                    operators@[k].next_limit(limit),
                    0,
                    attempt.result->Matched_0,
                    Ctx::top(prog),
                    attempt.result->Matched_1,
                    start,
                );
            } else {
                lemma_ops_within(prog, input, host, op, min, limit, k + 1, pos, ctx, lhs, start);
            }
        }
    }
}

} // verus!
