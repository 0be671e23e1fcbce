//! Laws of the static predicates: how soundness, stalling, first calls and
//! well-formedness under a bound hang together.

use crate::model::{op_model, op_models, operator_models, step_models};
use crate::program::{
    alts_ok, head_calls, head_calls_parts, nullable, nullable_alts, nullable_atoms, nullable_steps,
    op_ok, operators_ok, stalls, stalls_parts, steps_ok, struct_ok, struct_ok_parts, Fixity, Notes,
    Op,
};
use vstd::prelude::*;

verus! {

/// Whether every flag set in `low` is set in `high`.
pub open spec fn below(low: Seq<bool>, high: Seq<bool>) -> bool {
    &&& low.len() == high.len()
    &&& forall|i: int| 0 <= i < low.len() ==> (#[trigger] low[i] ==> high[i])
}

/// What can match the empty input when fewer rules can, still can when more
/// rules can.
pub proof fn lemma_nullable_mono(low: Seq<bool>, high: Seq<bool>, op: &Op)
    requires
        below(low, high),
        nullable(low, op),
    ensures
        nullable(high, op),
    decreases op, 0nat,
{
    match op {
        Op::Sequence(steps) => lemma_nullable_steps_mono(low, high, op, 0),
        Op::Choice(alts) => lemma_nullable_alts_mono(low, high, op, 0),
        Op::Repeat { inner, min, max } => {
            if *min != 0 {
                lemma_nullable_mono(low, high, inner);
            }
        },
        Op::Action { inner, action } => lemma_nullable_mono(low, high, inner),
        Op::Capture(inner) => lemma_nullable_mono(low, high, inner),
        Op::Precedence(operators) => lemma_nullable_atoms_mono(low, high, op, 0),
        _ => {},
    }
}

proof fn lemma_nullable_steps_mono(low: Seq<bool>, high: Seq<bool>, op: &Op, k: int)
    requires
        below(low, high),
        nullable_steps(low, op, k),
    ensures
        nullable_steps(high, op, k),
    decreases op, 0nat, op.width() - k,
{
    match op {
        Op::Sequence(steps) => {
            if 0 <= k < steps@.len() {
                lemma_nullable_mono(low, high, &steps@[k].op);
                lemma_nullable_steps_mono(low, high, op, k + 1);
            }
        },
        _ => {},
    }
}

proof fn lemma_nullable_alts_mono(low: Seq<bool>, high: Seq<bool>, op: &Op, k: int)
    requires
        below(low, high),
        nullable_alts(low, op, k),
    ensures
        nullable_alts(high, op, k),
    decreases op, 0nat, op.width() - k,
{
    match op {
        Op::Choice(alts) => {
            if 0 <= k < alts@.len() {
                if nullable(low, &alts@[k]) {
                    lemma_nullable_mono(low, high, &alts@[k]);
                } else {
                    lemma_nullable_alts_mono(low, high, op, k + 1);
                }
            }
        },
        _ => {},
    }
}

proof fn lemma_nullable_atoms_mono(low: Seq<bool>, high: Seq<bool>, op: &Op, k: int)
    requires
        below(low, high),
        nullable_atoms(low, op, k),
    ensures
        nullable_atoms(high, op, k),
    decreases op, 0nat, op.width() - k,
{
    match op {
        Op::Precedence(operators) => {
            if 0 <= k < operators@.len() {
                if operators@[k].fixity == Fixity::Atom && nullable(low, &operators@[k].pattern) {
                    lemma_nullable_mono(low, high, &operators@[k].pattern);
                } else {
                    lemma_nullable_atoms_mono(low, high, op, k + 1);
                }
            }
        },
        _ => {},
    }
}

/// Whether every rule may be called under the bound `n`.
pub open spec fn all_callable(notes: Notes, n: nat) -> bool {
    forall|u: usize| u < notes.size() ==> #[trigger] notes.call_ok(u, n)
}

/// What is sound in itself and does not stall is well formed where every
/// rule may be called.
pub proof fn lemma_sound_is_ok(notes: Notes, op: &Op)
    requires
        struct_ok(notes.size(), op),
        !stalls(notes.nullable, op),
        all_callable(notes, notes.size()),
    ensures
        op_ok(notes, op, notes.size()),
    decreases op, 0nat,
{
    match op {
        Op::Call(rule) => {
            assert(notes.call_ok(*rule, notes.size()));
        },
        Op::Sequence(steps) => lemma_sound_parts_ok(notes, op, 0),
        Op::Choice(alts) => lemma_sound_parts_ok(notes, op, 0),
        Op::Repeat { inner, min, max } => lemma_sound_is_ok(notes, inner),
        Op::Optional(inner) => lemma_sound_is_ok(notes, inner),
        Op::Ahead(inner) => lemma_sound_is_ok(notes, inner),
        Op::NotAhead(inner) => lemma_sound_is_ok(notes, inner),
        Op::Action { inner, action } => lemma_sound_is_ok(notes, inner),
        Op::Capture(inner) => lemma_sound_is_ok(notes, inner),
        Op::Precedence(operators) => lemma_sound_parts_ok(notes, op, 0),
        _ => {},
    }
}

proof fn lemma_sound_parts_ok(notes: Notes, op: &Op, k: int)
    requires
        struct_ok_parts(notes.size(), op, k),
        !stalls_parts(notes.nullable, op, k),
        all_callable(notes, notes.size()),
        0 <= k,
    ensures
        op is Sequence ==> steps_ok(notes, op, k, notes.size()),
        op is Choice ==> alts_ok(notes, op, k, notes.size()),
        op is Precedence ==> operators_ok(notes, op, k, notes.size()),
    decreases op, 0nat, op.width() - k,
{
    if k < op.width() {
        match op {
            Op::Sequence(steps) => {
                lemma_sound_is_ok(notes, &steps@[k].op);
                lemma_sound_parts_ok(notes, op, k + 1);
            },
            Op::Choice(alts) => {
                lemma_sound_is_ok(notes, &alts@[k]);
                lemma_sound_parts_ok(notes, op, k + 1);
            },
            Op::Precedence(operators) => {
                lemma_sound_is_ok(notes, &operators@[k].pattern);
                lemma_sound_parts_ok(notes, op, k + 1);
            },
            _ => {},
        }
    }
}

/// What is well formed under some bound is sound in itself and does not
/// stall.
pub proof fn lemma_ok_is_sound(notes: Notes, op: &Op, bound: nat)
    requires
        op_ok(notes, op, bound),
    ensures
        struct_ok(notes.size(), op),
        !stalls(notes.nullable, op),
    decreases op, 0nat,
{
    match op {
        Op::Sequence(steps) => lemma_ok_parts_sound(notes, op, 0, bound),
        Op::Choice(alts) => lemma_ok_parts_sound(notes, op, 0, bound),
        Op::Repeat { inner, min, max } => lemma_ok_is_sound(notes, inner, bound),
        Op::Optional(inner) => lemma_ok_is_sound(notes, inner, bound),
        Op::Ahead(inner) => lemma_ok_is_sound(notes, inner, bound),
        Op::NotAhead(inner) => lemma_ok_is_sound(notes, inner, bound),
        Op::Action { inner, action } => lemma_ok_is_sound(notes, inner, bound),
        Op::Capture(inner) => lemma_ok_is_sound(notes, inner, bound),
        Op::Precedence(operators) => lemma_ok_parts_sound(notes, op, 0, bound),
        _ => {},
    }
}

proof fn lemma_ok_parts_sound(notes: Notes, op: &Op, k: int, bound: nat)
    requires
        0 <= k,
        op is Sequence ==> steps_ok(notes, op, k, bound),
        op is Choice ==> alts_ok(notes, op, k, bound),
        op is Precedence ==> operators_ok(notes, op, k, bound),
    ensures
        struct_ok_parts(notes.size(), op, k),
        !stalls_parts(notes.nullable, op, k),
    decreases op, 0nat, op.width() - k,
{
    if k < op.width() {
        match op {
            Op::Sequence(steps) => {
                lemma_ok_is_sound(notes, &steps@[k].op, bound);
                lemma_ok_parts_sound(
                    notes,
                    op,
                    k + 1,
                    if nullable(notes.nullable, &steps@[k].op) {
                        bound
                    } else {
                        notes.size()
                    },
                );
            },
            Op::Choice(alts) => {
                lemma_ok_is_sound(notes, &alts@[k], bound);
                lemma_ok_parts_sound(notes, op, k + 1, bound);
            },
            Op::Precedence(operators) => {
                lemma_ok_is_sound(notes, &operators@[k].pattern, bound);
                lemma_ok_parts_sound(notes, op, k + 1, bound);
            },
            _ => {},
        }
    }
}

/// Whether every rule that `op` can call first may be called under `bound`.
pub open spec fn heads_callable(notes: Notes, op: &Op, bound: nat) -> bool {
    forall|u: usize| head_calls(notes.nullable, op, u) ==> #[trigger] notes.call_ok(u, bound)
}

/// Whether every rule that the parts of `op` from `k` on can call first may
/// be called under `bound`.
pub open spec fn part_heads_callable(notes: Notes, op: &Op, k: int, bound: nat) -> bool {
    forall|u: usize|
        head_calls_parts(notes.nullable, op, k, u) ==> #[trigger] notes.call_ok(u, bound)
}

/// What is well formed where every rule may be called is well formed under
/// a bound under which all that it can call first may be called.
pub proof fn lemma_heads_decide(notes: Notes, op: &Op, bound: nat)
    requires
        op_ok(notes, op, notes.size()),
        heads_callable(notes, op, bound),
    ensures
        op_ok(notes, op, bound),
    decreases op, 0nat,
{
    match op {
        Op::Call(rule) => {
            assert(head_calls(notes.nullable, op, *rule));
        },
        Op::Sequence(steps) => {
            assert(part_heads_callable(notes, op, 0, bound));
            lemma_part_heads_decide(notes, op, 0, bound);
        },
        Op::Choice(alts) => {
            assert(part_heads_callable(notes, op, 0, bound));
            lemma_part_heads_decide(notes, op, 0, bound);
        },
        Op::Repeat { inner, min, max } => {
            assert(heads_callable(notes, inner, bound));
            lemma_heads_decide(notes, inner, bound);
        },
        Op::Optional(inner) => {
            assert(heads_callable(notes, inner, bound));
            lemma_heads_decide(notes, inner, bound);
        },
        Op::Ahead(inner) => {
            assert(heads_callable(notes, inner, bound));
            lemma_heads_decide(notes, inner, bound);
        },
        Op::NotAhead(inner) => {
            assert(heads_callable(notes, inner, bound));
            lemma_heads_decide(notes, inner, bound);
        },
        Op::Action { inner, action } => {
            assert(heads_callable(notes, inner, bound));
            lemma_heads_decide(notes, inner, bound);
        },
        Op::Capture(inner) => {
            assert(heads_callable(notes, inner, bound));
            lemma_heads_decide(notes, inner, bound);
        },
        Op::Precedence(operators) => {
            assert(part_heads_callable(notes, op, 0, bound));
            lemma_part_heads_decide(notes, op, 0, bound);
        },
        _ => {},
    }
}

proof fn lemma_part_heads_decide(notes: Notes, op: &Op, k: int, bound: nat)
    requires
        0 <= k,
        op is Sequence ==> steps_ok(notes, op, k, notes.size()),
        op is Choice ==> alts_ok(notes, op, k, notes.size()),
        op is Precedence ==> operators_ok(notes, op, k, notes.size()),
        part_heads_callable(notes, op, k, bound),
    ensures
        op is Sequence ==> steps_ok(notes, op, k, bound),
        op is Choice ==> alts_ok(notes, op, k, bound),
        op is Precedence ==> operators_ok(notes, op, k, bound),
    decreases op, 0nat, op.width() - k,
{
    if k < op.width() {
        match op {
            Op::Sequence(steps) => {
                assert(heads_callable(notes, &steps@[k].op, bound));
                lemma_heads_decide(notes, &steps@[k].op, bound);
                if nullable(notes.nullable, &steps@[k].op) {
                    assert(part_heads_callable(notes, op, k + 1, bound));
                    lemma_part_heads_decide(notes, op, k + 1, bound);
                }
            },
            Op::Choice(alts) => {
                assert(heads_callable(notes, &alts@[k], bound));
                lemma_heads_decide(notes, &alts@[k], bound);
                assert(part_heads_callable(notes, op, k + 1, bound));
                lemma_part_heads_decide(notes, op, k + 1, bound);
            },
            Op::Precedence(operators) => {
                assert(heads_callable(notes, &operators@[k].pattern, bound));
                lemma_heads_decide(notes, &operators@[k].pattern, bound);
                assert(part_heads_callable(notes, op, k + 1, bound));
                lemma_part_heads_decide(notes, op, k + 1, bound);
            },
            _ => {},
        }
    }
}

/// Under a bound under which `op` is well formed, every rule that `op` can
/// call first may be called.
pub proof fn lemma_ok_heads(notes: Notes, op: &Op, bound: nat, rule: usize)
    requires
        op_ok(notes, op, bound),
        head_calls(notes.nullable, op, rule),
    ensures
        notes.call_ok(rule, bound),
    decreases op, 0nat,
{
    match op {
        Op::Sequence(steps) => lemma_ok_part_heads(notes, op, 0, bound, rule),
        Op::Choice(alts) => lemma_ok_part_heads(notes, op, 0, bound, rule),
        Op::Repeat { inner, min, max } => lemma_ok_heads(notes, inner, bound, rule),
        Op::Optional(inner) => lemma_ok_heads(notes, inner, bound, rule),
        Op::Ahead(inner) => lemma_ok_heads(notes, inner, bound, rule),
        Op::NotAhead(inner) => lemma_ok_heads(notes, inner, bound, rule),
        Op::Action { inner, action } => lemma_ok_heads(notes, inner, bound, rule),
        Op::Capture(inner) => lemma_ok_heads(notes, inner, bound, rule),
        Op::Precedence(operators) => lemma_ok_part_heads(notes, op, 0, bound, rule),
        _ => {},
    }
}

proof fn lemma_ok_part_heads(notes: Notes, op: &Op, k: int, bound: nat, rule: usize)
    requires
        0 <= k,
        op is Sequence ==> steps_ok(notes, op, k, bound),
        op is Choice ==> alts_ok(notes, op, k, bound),
        op is Precedence ==> operators_ok(notes, op, k, bound),
        head_calls_parts(notes.nullable, op, k, rule),
    ensures
        notes.call_ok(rule, bound),
    decreases op, 0nat, op.width() - k,
{
    if k < op.width() {
        match op {
            Op::Sequence(steps) => {
                if head_calls(notes.nullable, &steps@[k].op, rule) {
                    lemma_ok_heads(notes, &steps@[k].op, bound, rule);
                } else {
                    lemma_ok_part_heads(notes, op, k + 1, bound, rule);
                }
            },
            Op::Choice(alts) => {
                if head_calls(notes.nullable, &alts@[k], rule) {
                    lemma_ok_heads(notes, &alts@[k], bound, rule);
                } else {
                    lemma_ok_part_heads(notes, op, k + 1, bound, rule);
                }
            },
            Op::Precedence(operators) => {
                if head_calls(notes.nullable, &operators@[k].pattern, rule) {
                    lemma_ok_heads(notes, &operators@[k].pattern, bound, rule);
                } else {
                    lemma_ok_part_heads(notes, op, k + 1, bound, rule);
                }
            },
            _ => {},
        }
    }
}

/// Whether two operations agree in all that the analysis asks of them.
pub open spec fn alike(flags: Seq<bool>, a: &Op, b: &Op) -> bool {
    &&& nullable(flags, a) == nullable(flags, b)
    &&& stalls(flags, a) == stalls(flags, b)
    &&& forall|u: usize|
        #![trigger head_calls(flags, a, u)]
        #![trigger head_calls(flags, b, u)]
        head_calls(flags, a, u) == head_calls(flags, b, u)
}

/// Whether two operations with parts agree, from part `k` on, in all that
/// the analysis asks of their parts.
pub open spec fn parts_alike(flags: Seq<bool>, a: &Op, b: &Op, k: int) -> bool {
    &&& nullable_steps(flags, a, k) == nullable_steps(flags, b, k)
    &&& nullable_alts(flags, a, k) == nullable_alts(flags, b, k)
    &&& nullable_atoms(flags, a, k) == nullable_atoms(flags, b, k)
    &&& stalls_parts(flags, a, k) == stalls_parts(flags, b, k)
    &&& forall|u: usize|
        #![trigger head_calls_parts(flags, a, k, u)]
        #![trigger head_calls_parts(flags, b, k, u)]
        head_calls_parts(flags, a, k, u) == head_calls_parts(flags, b, k, u)
}

/// Operations of the same mathematical form agree in all that the analysis
/// asks of them: the analysis depends on what an operation is, not on how
/// it is held.
pub proof fn lemma_same_form_alike(flags: Seq<bool>, a: &Op, b: &Op)
    requires
        op_model(a) == op_model(b),
    ensures
        alike(flags, a, b),
    decreases a, 1nat, 0nat,
{
    match a {
        Op::Sequence(sa) => {
            assert(b is Sequence);
            lemma_same_form_parts_alike(flags, a, b, 0);
            assert forall|u: usize| head_calls(flags, a, u) == head_calls(flags, b, u) by {
                assert(head_calls_parts(flags, a, 0, u) == head_calls_parts(flags, b, 0, u));
            }
        },
        Op::Choice(aa) => {
            assert(b is Choice);
            lemma_same_form_parts_alike(flags, a, b, 0);
            assert forall|u: usize| head_calls(flags, a, u) == head_calls(flags, b, u) by {
                assert(head_calls_parts(flags, a, 0, u) == head_calls_parts(flags, b, 0, u));
            }
        },
        Op::Precedence(oa) => {
            assert(b is Precedence);
            lemma_same_form_parts_alike(flags, a, b, 0);
            assert forall|u: usize| head_calls(flags, a, u) == head_calls(flags, b, u) by {
                assert(head_calls_parts(flags, a, 0, u) == head_calls_parts(flags, b, 0, u));
            }
        },
        Op::Repeat { inner, min, max } => {
            assert(b is Repeat);
            let other = &*b->Repeat_inner;
            lemma_same_form_alike(flags, inner, other);
            assert forall|u: usize| head_calls(flags, a, u) == head_calls(flags, b, u) by {
                assert(head_calls(flags, inner, u) == head_calls(flags, other, u));
            }
        },
        Op::Optional(inner) => {
            assert(b is Optional);
            let other = &*b->Optional_0;
            lemma_same_form_alike(flags, inner, other);
            assert forall|u: usize| head_calls(flags, a, u) == head_calls(flags, b, u) by {
                assert(head_calls(flags, inner, u) == head_calls(flags, other, u));
            }
        },
        Op::Ahead(inner) => {
            assert(b is Ahead);
            let other = &*b->Ahead_0;
            lemma_same_form_alike(flags, inner, other);
            assert forall|u: usize| head_calls(flags, a, u) == head_calls(flags, b, u) by {
                assert(head_calls(flags, inner, u) == head_calls(flags, other, u));
            }
        },
        Op::NotAhead(inner) => {
            assert(b is NotAhead);
            let other = &*b->NotAhead_0;
            lemma_same_form_alike(flags, inner, other);
            assert forall|u: usize| head_calls(flags, a, u) == head_calls(flags, b, u) by {
                assert(head_calls(flags, inner, u) == head_calls(flags, other, u));
            }
        },
        Op::Action { inner, action } => {
            assert(b is Action);
            let other = &*b->Action_inner;
            lemma_same_form_alike(flags, inner, other);
            assert forall|u: usize| head_calls(flags, a, u) == head_calls(flags, b, u) by {
                assert(head_calls(flags, inner, u) == head_calls(flags, other, u));
            }
        },
        Op::Capture(inner) => {
            assert(b is Capture);
            let other = &*b->Capture_0;
            lemma_same_form_alike(flags, inner, other);
            assert forall|u: usize| head_calls(flags, a, u) == head_calls(flags, b, u) by {
                assert(head_calls(flags, inner, u) == head_calls(flags, other, u));
            }
        },
        Op::Literal { pieces, labels } => {
            assert(b is Literal);
            assert(crate::model::texts(pieces@).len() == crate::model::texts(
                b->Literal_pieces@,
            ).len());
        },
        Op::Class { .. } => {
            assert(b is Class);
        },
        Op::Position => {
            assert(b is Position);
        },
        Op::Call(rule) => {
            assert(b is Call);
            assert(b->Call_0 == *rule);
        },
    }
}

proof fn lemma_same_form_parts_alike(flags: Seq<bool>, a: &Op, b: &Op, k: int)
    requires
        op_model(a) == op_model(b),
        a is Sequence || a is Choice || a is Precedence,
        0 <= k,
    ensures
        parts_alike(flags, a, b, k),
        a.width() == b.width(),
    decreases a, 0nat, a.width() - k,
{
    match a {
        Op::Sequence(sa) => {
            assert(b is Sequence);
            let sb = b->Sequence_0;
            assert(step_models(sa@).len() == step_models(sb@).len());
            if k < sa@.len() {
                assert(step_models(sa@)[k] == step_models(sb@)[k]);
                lemma_same_form_alike(flags, &sa@[k].op, &sb@[k].op);
                lemma_same_form_parts_alike(flags, a, b, k + 1);
                assert forall|u: usize|
                    head_calls_parts(flags, a, k, u) == head_calls_parts(flags, b, k, u) by {
                    assert(head_calls(flags, &sa@[k].op, u) == head_calls(flags, &sb@[k].op, u));
                    assert(head_calls_parts(flags, a, k + 1, u) == head_calls_parts(
                        flags,
                        b,
                        k + 1,
                        u,
                    ));
                }
            }
        },
        Op::Choice(aa) => {
            assert(b is Choice);
            let ab = b->Choice_0;
            assert(op_models(aa@).len() == op_models(ab@).len());
            if k < aa@.len() {
                assert(op_models(aa@)[k] == op_models(ab@)[k]);
                lemma_same_form_alike(flags, &aa@[k], &ab@[k]);
                lemma_same_form_parts_alike(flags, a, b, k + 1);
                assert forall|u: usize|
                    head_calls_parts(flags, a, k, u) == head_calls_parts(flags, b, k, u) by {
                    assert(head_calls(flags, &aa@[k], u) == head_calls(flags, &ab@[k], u));
                    assert(head_calls_parts(flags, a, k + 1, u) == head_calls_parts(
                        flags,
                        b,
                        k + 1,
                        u,
                    ));
                }
            }
        },
        Op::Precedence(oa) => {
            assert(b is Precedence);
            let ob = b->Precedence_0;
            assert(operator_models(oa@).len() == operator_models(ob@).len());
            if k < oa@.len() {
                assert(operator_models(oa@)[k] == operator_models(ob@)[k]);
                assert(oa@[k].fixity == ob@[k].fixity);
                lemma_same_form_alike(flags, &oa@[k].pattern, &ob@[k].pattern);
                lemma_same_form_parts_alike(flags, a, b, k + 1);
                assert forall|u: usize|
                    head_calls_parts(flags, a, k, u) == head_calls_parts(flags, b, k, u) by {
                    assert(head_calls(flags, &oa@[k].pattern, u) == head_calls(
                        flags,
                        &ob@[k].pattern,
                        u,
                    ));
                    assert(head_calls_parts(flags, a, k + 1, u) == head_calls_parts(
                        flags,
                        b,
                        k + 1,
                        u,
                    ));
                }
            }
        },
        _ => {},
    }
}

} // verus!
