//! The mathematical form of operations, in which the lowering of a grammar
//! is stated, and copies of operations that keep it.

use crate::program::{struct_ok, struct_ok_parts, Assoc, Fixity, Op, Operator, Step};
use vstd::prelude::*;

verus! {

/// The mathematical form of an [`Op`].
pub ghost enum OpModel {
    Literal { pieces: Seq<Seq<char>>, labels: Seq<Seq<char>> },
    Class { ranges: Seq<(u32, u32)>, negated: bool, label: Seq<char> },
    Position,
    Call(usize),
    Sequence(Seq<StepModel>),
    Choice(Seq<OpModel>),
    Repeat { inner: Box<OpModel>, min: usize, max: Option<usize> },
    Optional(Box<OpModel>),
    Ahead(Box<OpModel>),
    NotAhead(Box<OpModel>),
    Action { inner: Box<OpModel>, action: usize },
    Capture(Box<OpModel>),
    Precedence(Seq<OperatorModel>),
}

/// The mathematical form of a [`Step`].
pub ghost struct StepModel {
    pub op: OpModel,
    pub keep: bool,
}

/// The mathematical form of an [`Operator`].
pub ghost struct OperatorModel {
    pub level: usize,
    pub assoc: Assoc,
    pub fixity: Fixity,
    pub pattern: OpModel,
    pub action: usize,
}

/// The texts of a sequence of strings.
pub open spec fn texts(strings: Seq<String>) -> Seq<Seq<char>> {
    Seq::new(strings.len(), |i: int| strings[i]@)
}

/// The mathematical form of an operation.
pub open spec fn op_model(op: &Op) -> OpModel
    decreases op,
{
    match op {
        Op::Literal { pieces, labels } => OpModel::Literal {
            pieces: texts(pieces@),
            labels: texts(labels@),
        },
        Op::Class { ranges, negated, label } => OpModel::Class {
            ranges: ranges@,
            negated: *negated,
            label: label@,
        },
        Op::Position => OpModel::Position,
        Op::Call(rule) => OpModel::Call(*rule),
        Op::Sequence(steps) => OpModel::Sequence(step_models(steps@)),
        Op::Choice(alts) => OpModel::Choice(op_models(alts@)),
        Op::Repeat { inner, min, max } => OpModel::Repeat {
            inner: Box::new(op_model(inner)),
            min: *min,
            max: *max,
        },
        Op::Optional(inner) => OpModel::Optional(Box::new(op_model(inner))),
        Op::Ahead(inner) => OpModel::Ahead(Box::new(op_model(inner))),
        Op::NotAhead(inner) => OpModel::NotAhead(Box::new(op_model(inner))),
        Op::Action { inner, action } => OpModel::Action {
            inner: Box::new(op_model(inner)),
            action: *action,
        },
        Op::Capture(inner) => OpModel::Capture(Box::new(op_model(inner))),
        Op::Precedence(operators) => OpModel::Precedence(operator_models(operators@)),
    }
}

/// The mathematical forms of a sequence of operations.
pub open spec fn op_models(ops: Seq<Op>) -> Seq<OpModel>
    decreases ops, 1nat,
{
    Seq::new(ops.len(), |i: int| op_model_at(ops, i))
}

/// The form of the operation at index `i`.
pub open spec fn op_model_at(ops: Seq<Op>, i: int) -> OpModel
    decreases ops, 0nat,
{
    if 0 <= i < ops.len() {
        op_model(&ops[i])
    } else {
        OpModel::Position
    }
}

/// The mathematical forms of a sequence of steps.
pub open spec fn step_models(steps: Seq<Step>) -> Seq<StepModel>
    decreases steps, 1nat,
{
    Seq::new(steps.len(), |i: int| step_model_at(steps, i))
}

/// The form of the step at index `i`.
pub open spec fn step_model_at(steps: Seq<Step>, i: int) -> StepModel
    decreases steps, 0nat,
{
    if 0 <= i < steps.len() {
        StepModel { op: op_model(&steps[i].op), keep: steps[i].keep }
    } else {
        StepModel { op: OpModel::Position, keep: false }
    }
}

/// The mathematical forms of a sequence of operators.
pub open spec fn operator_models(operators: Seq<Operator>) -> Seq<OperatorModel>
    decreases operators, 1nat,
{
    Seq::new(operators.len(), |i: int| operator_model_at(operators, i))
}

/// The form of the operator at index `i`.
pub open spec fn operator_model_at(operators: Seq<Operator>, i: int) -> OperatorModel
    decreases operators, 0nat,
{
    if 0 <= i < operators.len() {
        OperatorModel {
            level: operators[i].level,
            assoc: operators[i].assoc,
            fixity: operators[i].fixity,
            pattern: op_model(&operators[i].pattern),
            action: operators[i].action,
        }
    } else {
        OperatorModel {
            level: 0,
            assoc: Assoc::Left,
            fixity: Fixity::Atom,
            pattern: OpModel::Position,
            action: 0,
        }
    }
}

/// Whether two operators have the same mathematical form.
pub open spec fn same_operator(a: &Operator, b: &Operator) -> bool {
    &&& a.level == b.level
    &&& a.assoc == b.assoc
    &&& a.fixity == b.fixity
    &&& op_model(&a.pattern) == op_model(&b.pattern)
    &&& a.action == b.action
}

/// A copy of a list of strings with the same texts.
pub fn copy_strings(strings: &Vec<String>) -> (r: Vec<String>)
    ensures
        texts(r@) == texts(strings@),
{
    let mut out: Vec<String> = Vec::new();
    let mut i: usize = 0;
    while i < strings.len()
        invariant
            i <= strings@.len(),
            out@.len() == i,
            forall|k: int| 0 <= k < i ==> out@[k]@ == strings@[k]@,
        decreases strings@.len() - i,
    {
        out.push(strings[i].clone());
        i += 1;
    }
    assert(texts(out@) =~= texts(strings@));
    out
}

/// A copy of a list of ranges.
pub fn copy_ranges(ranges: &Vec<(u32, u32)>) -> (r: Vec<(u32, u32)>)
    ensures
        r@ == ranges@,
{
    let mut out: Vec<(u32, u32)> = Vec::new();
    let mut i: usize = 0;
    while i < ranges.len()
        invariant
            i <= ranges@.len(),
            out@.len() == i,
            forall|k: int| 0 <= k < i ==> out@[k] == ranges@[k],
        decreases ranges@.len() - i,
    {
        out.push(ranges[i]);
        i += 1;
    }
    assert(out@ =~= ranges@);
    out
}

/// The direct part number `k` of an operation that has parts.
pub open spec fn part(op: &Op, k: int) -> &Op {
    match op {
        Op::Sequence(steps) => &steps@[k].op,
        Op::Choice(alts) => &alts@[k],
        Op::Precedence(operators) => &operators@[k].pattern,
        _ => op,
    }
}

/// An operation whose parts from `k` on are sound in themselves has sound
/// parts from `k` on.
pub proof fn lemma_sound_parts(n: nat, op: &Op, k: int)
    requires
        0 <= k,
        forall|j: int| k <= j < op.width() ==> struct_ok(n, #[trigger] part(op, j)),
        op matches Op::Precedence(operators) ==> forall|j: int|
            k <= j < op.width() ==> (#[trigger] operators@[j]).level < usize::MAX,
    ensures
        struct_ok_parts(n, op, k),
    decreases op.width() - k,
{
    if k < op.width() {
        assert(struct_ok(n, part(op, k)));
        lemma_sound_parts(n, op, k + 1);
    }
}

/// The parts of an operation with sound parts are sound in themselves.
pub proof fn lemma_parts_sound(n: nat, op: &Op, k: int, j: int)
    requires
        0 <= k <= j < op.width(),
        struct_ok_parts(n, op, k),
        op is Sequence || op is Choice || op is Precedence,
    ensures
        struct_ok(n, part(op, j)),
        op matches Op::Precedence(operators) ==> operators@[j].level < usize::MAX,
    decreases j - k,
{
    if k < j {
        lemma_parts_sound(n, op, k + 1, j);
    }
}

/// Whether `copy` is as sound in itself as `op`, whatever the number of
/// rules.
pub open spec fn as_sound(op: &Op, copy: &Op) -> bool {
    forall|n: nat| struct_ok(n, op) ==> #[trigger] struct_ok(n, copy)
}

/// A copy of an operation with the same mathematical form.
pub fn copy_op(op: &Op) -> (r: Op)
    ensures
        op_model(&r) == op_model(op),
        as_sound(op, &r),
    decreases op, 0nat,
{
    match op {
        Op::Literal { pieces, labels } => {
            let r = Op::Literal { pieces: copy_strings(pieces), labels: copy_strings(labels) };
            proof {
                let copied = r->Literal_pieces;
                assert(texts(copied@).len() == texts(pieces@).len());
                assert(texts(r->Literal_labels@).len() == texts(labels@).len());
                assert forall|k: int| 0 <= k < copied@.len() implies (#[trigger] copied@[k])@.len()
                    == pieces@[k]@.len() by {
                    assert(texts(copied@)[k] == texts(pieces@)[k]);
                }
                assert forall|n: nat| struct_ok(n, op) implies #[trigger] struct_ok(n, &r) by {
                    assert(copied@.len() == r->Literal_labels@.len());
                    assert forall|k: int| 0 <= k < copied@.len() implies (
                    #[trigger] copied@[k])@.len() > 0 by {
                        assert(pieces@[k]@.len() > 0);
                    }
                }
            }
            r
        },
        Op::Class { ranges, negated, label } => Op::Class {
            ranges: copy_ranges(ranges),
            negated: *negated,
            label: label.clone(),
        },
        Op::Position => Op::Position,
        Op::Call(rule) => Op::Call(*rule),
        Op::Sequence(steps) => {
            let copy = copy_steps(steps, 0, Vec::new());
            assert(step_models(copy@) =~= step_models(steps@));
            let r = Op::Sequence(copy);
            proof {
                assert forall|n: nat| struct_ok(n, op) implies #[trigger] struct_ok(n, &r) by {
                    assert forall|j: int| 0 <= j < r.width() implies struct_ok(
                        n,
                        #[trigger] part(&r, j),
                    ) by {
                        lemma_parts_sound(n, op, 0, j);
                        assert(as_sound(&steps@[j].op, &copy@[j].op));
                    }
                    lemma_sound_parts(n, &r, 0);
                }
            }
            r
        },
        Op::Choice(alts) => {
            let copy = copy_ops(alts, 0, Vec::new());
            assert(op_models(copy@) =~= op_models(alts@));
            let r = Op::Choice(copy);
            proof {
                assert forall|n: nat| struct_ok(n, op) implies #[trigger] struct_ok(n, &r) by {
                    assert forall|j: int| 0 <= j < r.width() implies struct_ok(
                        n,
                        #[trigger] part(&r, j),
                    ) by {
                        lemma_parts_sound(n, op, 0, j);
                        assert(as_sound(&alts@[j], &copy@[j]));
                    }
                    lemma_sound_parts(n, &r, 0);
                }
            }
            r
        },
        Op::Repeat { inner, min, max } => {
            let c = copy_op(inner);
            let ghost cc = c;
            let r = Op::Repeat { inner: Box::new(c), min: *min, max: *max };
            proof {
                assert forall|n: nat| struct_ok(n, op) implies #[trigger] struct_ok(n, &r) by {
                    assert(struct_ok(n, inner));
                    assert(struct_ok(n, &cc));
                }
            }
            r
        },
        Op::Optional(inner) => {
            let c = copy_op(inner);
            let ghost cc = c;
            let r = Op::Optional(Box::new(c));
            proof {
                assert forall|n: nat| struct_ok(n, op) implies #[trigger] struct_ok(n, &r) by {
                    assert(struct_ok(n, inner));
                    assert(struct_ok(n, &cc));
                }
            }
            r
        },
        Op::Ahead(inner) => {
            let c = copy_op(inner);
            let ghost cc = c;
            let r = Op::Ahead(Box::new(c));
            proof {
                assert forall|n: nat| struct_ok(n, op) implies #[trigger] struct_ok(n, &r) by {
                    assert(struct_ok(n, inner));
                    assert(struct_ok(n, &cc));
                }
            }
            r
        },
        Op::NotAhead(inner) => {
            let c = copy_op(inner);
            let ghost cc = c;
            let r = Op::NotAhead(Box::new(c));
            proof {
                assert forall|n: nat| struct_ok(n, op) implies #[trigger] struct_ok(n, &r) by {
                    assert(struct_ok(n, inner));
                    assert(struct_ok(n, &cc));
                }
            }
            r
        },
        Op::Action { inner, action } => {
            let c = copy_op(inner);
            let ghost cc = c;
            let r = Op::Action { inner: Box::new(c), action: *action };
            proof {
                assert forall|n: nat| struct_ok(n, op) implies #[trigger] struct_ok(n, &r) by {
                    assert(struct_ok(n, inner));
                    assert(struct_ok(n, &cc));
                }
            }
            r
        },
        Op::Capture(inner) => {
            let c = copy_op(inner);
            let ghost cc = c;
            let r = Op::Capture(Box::new(c));
            proof {
                assert forall|n: nat| struct_ok(n, op) implies #[trigger] struct_ok(n, &r) by {
                    assert(struct_ok(n, inner));
                    assert(struct_ok(n, &cc));
                }
            }
            r
        },
        Op::Precedence(operators) => {
            let copy = copy_operators(operators, 0, Vec::new());
            assert(operator_models(copy@) =~= operator_models(operators@));
            let r = Op::Precedence(copy);
            proof {
                assert forall|n: nat| struct_ok(n, op) implies #[trigger] struct_ok(n, &r) by {
                    assert forall|j: int| 0 <= j < r.width() implies struct_ok(
                        n,
                        #[trigger] part(&r, j),
                    ) by {
                        lemma_parts_sound(n, op, 0, j);
                        assert(as_sound(&operators@[j].pattern, &copy@[j].pattern));
                    }
                    assert forall|j: int| 0 <= j < r.width() implies (#[trigger] copy@[j]).level
                        < usize::MAX by {
                        lemma_parts_sound(n, op, 0, j);
                        assert(same_operator(&copy@[j], &operators@[j]));
                    }
                    lemma_sound_parts(n, &r, 0);
                }
            }
            r
        },
    }
}

fn copy_ops(ops: &Vec<Op>, k: usize, done: Vec<Op>) -> (r: Vec<Op>)
    requires
        k <= ops@.len(),
        done@.len() == k,
        forall|i: int|
            0 <= i < k ==> op_model(&done@[i]) == op_model(&ops@[i]) && as_sound(
                &ops@[i],
                &done@[i],
            ),
    ensures
        r@.len() == ops@.len(),
        forall|i: int|
            0 <= i < r@.len() ==> op_model(&r@[i]) == op_model(&ops@[i]) && as_sound(
                &ops@[i],
                &r@[i],
            ),
    decreases ops, ops@.len() - k,
{
    if k < ops.len() {
        let mut done = done;
        done.push(copy_op(&ops[k]));
        copy_ops(ops, k + 1, done)
    } else {
        done
    }
}

fn copy_steps(steps: &Vec<Step>, k: usize, done: Vec<Step>) -> (r: Vec<Step>)
    requires
        k <= steps@.len(),
        done@.len() == k,
        forall|i: int|
            0 <= i < k ==> op_model(&done@[i].op) == op_model(&steps@[i].op) && done@[i].keep
                == steps@[i].keep && as_sound(&steps@[i].op, &done@[i].op),
    ensures
        r@.len() == steps@.len(),
        forall|i: int|
            0 <= i < r@.len() ==> op_model(&r@[i].op) == op_model(&steps@[i].op) && r@[i].keep
                == steps@[i].keep && as_sound(&steps@[i].op, &r@[i].op),
    decreases steps, steps@.len() - k,
{
    if k < steps.len() {
        let mut done = done;
        done.push(Step { op: copy_op(&steps[k].op), keep: steps[k].keep });
        copy_steps(steps, k + 1, done)
    } else {
        done
    }
}

fn copy_operators(operators: &Vec<Operator>, k: usize, done: Vec<Operator>) -> (r: Vec<Operator>)
    requires
        k <= operators@.len(),
        done@.len() == k,
        forall|i: int|
            0 <= i < k ==> same_operator(&done@[i], &operators@[i]) && as_sound(
                &operators@[i].pattern,
                &done@[i].pattern,
            ),
    ensures
        r@.len() == operators@.len(),
        forall|i: int|
            0 <= i < r@.len() ==> same_operator(&r@[i], &operators@[i]) && as_sound(
                &operators@[i].pattern,
                &r@[i].pattern,
            ),
    decreases operators, operators@.len() - k,
{
    if k < operators.len() {
        let mut done = done;
        let o = &operators[k];
        done.push(
            Operator {
                level: o.level,
                assoc: o.assoc,
                fixity: o.fixity,
                pattern: copy_op(&o.pattern),
                action: o.action,
            },
        );
        copy_operators(operators, k + 1, done)
    } else {
        done
    }
}

} // verus!
