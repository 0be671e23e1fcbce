//! Matching programs: the lowered form of a grammar, with the annotations
//! that the analysis attached to it, and what it means for the two to agree.

use vstd::prelude::*;

verus! {

/// One matching operation.  Rule references are indices into the program's
/// rule table.
pub enum Op {
    /// Literal text, matched piece by piece; each piece has the label that is
    /// reported when it is missing.
    Literal { pieces: Vec<String>, labels: Vec<String> },
    /// One element whose code lies (or, when negated, does not lie) in one of
    /// the inclusive ranges.
    Class { ranges: Vec<(u32, u32)>, negated: bool, label: String },
    /// Matches nothing and yields the current position.
    Position,
    /// Runs another rule.
    Call(usize),
    /// Each step in order, every one starting where the one before it ended.
    Sequence(Vec<Step>),
    /// The first alternative that matches.
    Choice(Vec<Op>),
    /// As many matches of `inner` as there are, up to `max`; at least `min`.
    Repeat { inner: Box<Op>, min: usize, max: Option<usize> },
    /// `inner`, or nothing.
    Optional(Box<Op>),
    /// Succeeds where `inner` matches, consuming nothing.
    Ahead(Box<Op>),
    /// Succeeds where `inner` fails, consuming nothing.
    NotAhead(Box<Op>),
    /// `inner`, whose value is handed to a host action that decides the value.
    Action { inner: Box<Op>, action: usize },
    /// `inner`, whose value is replaced by the stretch of input it covered.
    Capture(Box<Op>),
    /// Operands joined by operators, parsed by precedence climbing.  The
    /// operators stand in the order in which they are tried: weakest level
    /// first, and within a level as declared.
    Precedence(Vec<Operator>),
}

/// One step of a sequence; `keep` says whether its value is part of the
/// sequence's value.
pub struct Step {
    pub op: Op,
    pub keep: bool,
}

/// Where an operator stands with respect to its operands.
#[derive(Clone, Copy, PartialEq, Eq, Debug, Structural)]
pub enum Fixity {
    /// No operand: an operand itself.
    Atom,
    /// Before its operand.
    Prefix,
    /// Between two operands.
    Infix,
    /// Behind its operand.
    Postfix,
}

/// How operators of one level group.
#[derive(Clone, Copy, PartialEq, Eq, Debug, Structural)]
pub enum Assoc {
    /// `a + b + c` is `(a + b) + c`.
    Left,
    /// `a ^ b ^ c` is `a ^ (b ^ c)`.
    Right,
    /// `a < b < c` is not accepted.
    NonAssoc,
}

/// One operator template of a precedence block.
pub struct Operator {
    /// The binding power: the index of the operator's level, weakest first.
    pub level: usize,
    pub assoc: Assoc,
    pub fixity: Fixity,
    /// What the operator itself (or, for an atom, the operand) looks like.
    pub pattern: Op,
    /// The host action that folds the operands.
    pub action: usize,
}

/// How a rule is run.
#[derive(Clone, Copy, PartialEq, Eq, Debug, Structural)]
pub enum RuleKind {
    /// Run the body.
    Plain,
    /// Run the body once per position and remember the outcome.
    Memoized,
    /// The body is a precedence block.
    PrecedenceClimbing,
}

/// One rule of a program with its annotations.
pub struct Routine {
    pub name: String,
    /// Whether callers outside the grammar may start a parse at this rule.
    pub public: bool,
    pub kind: RuleKind,
    pub body: Op,
    /// Whether the rule can match without consuming input.
    pub nullable: bool,
    /// Whether the rule may be entered again before any input is consumed.
    /// Such a rule fails where it is re-entered at the position at which it
    /// is already running.
    pub left_recursive: bool,
    /// A number that falls along every call that can happen before input is
    /// consumed, between rules that are not left-recursive.
    pub rank: usize,
    /// Whether the rule matches wherever it is tried.
    pub infallible: bool,
}

/// A compiled grammar.
pub struct Program {
    pub rules: Vec<Routine>,
}

/// The annotations of all rules, side by side.
pub ghost struct Notes {
    pub nullable: Seq<bool>,
    pub left_recursive: Seq<bool>,
    pub rank: Seq<nat>,
}

/// Whether `code` is selected by a class.
pub open spec fn class_selects(ranges: Seq<(u32, u32)>, negated: bool, code: u32) -> bool {
    negated != (exists|k: int| 0 <= k < ranges.len() && in_range(#[trigger] ranges[k], code))
}

/// Whether `code` lies in the inclusive range.
pub open spec fn in_range(range: (u32, u32), code: u32) -> bool {
    range.0 <= code <= range.1
}

impl Operator {
    /// The weakest level that the operand to the right may have: the
    /// operator's own level where it groups to the right (and for a prefix
    /// operator), the next level otherwise.
    pub open spec fn operand_level(&self) -> usize {
        if self.fixity == Fixity::Prefix || self.assoc == Assoc::Right {
            self.level
        } else {
            (self.level + 1) as usize
        }
    }

    /// The levels that may follow this operator are those below `limit`:
    /// behind an operator that does not associate, its own level is closed.
    pub open spec fn next_limit(&self, limit: Option<usize>) -> Option<usize> {
        if self.assoc == Assoc::NonAssoc {
            Some(self.level)
        } else {
            limit
        }
    }

    /// Whether the operator may be tried between operands when levels from
    /// `min` up to, but not including, `limit` are open.
    pub open spec fn joins(&self, min: usize, limit: Option<usize>) -> bool {
        &&& (self.fixity == Fixity::Infix || self.fixity == Fixity::Postfix)
        &&& min <= self.level
        &&& (limit matches Some(l) ==> self.level < l)
    }
}

impl Op {
    /// The number of direct parts, used to order the evaluation.
    pub open spec fn width(&self) -> nat {
        match self {
            Op::Sequence(steps) => steps@.len(),
            Op::Choice(alts) => alts@.len(),
            Op::Precedence(operators) => operators@.len(),
            _ => 0,
        }
    }
}

impl Notes {
    /// The number of rules annotated.
    pub open spec fn size(self) -> nat {
        self.nullable.len()
    }

    /// Whether there is one annotation of each kind for every rule.
    pub open spec fn aligned(self) -> bool {
        self.left_recursive.len() == self.size() && self.rank.len() == self.size()
    }

    /// Whether a call of `rule` is in order where only rules ranked below
    /// `bound` may be entered afresh.
    pub open spec fn call_ok(self, rule: usize, bound: nat) -> bool {
        &&& rule < self.size()
        &&& (self.left_recursive[rule as int] || self.rank[rule as int] < bound)
    }
}

/// Whether `op` can match without consuming input, given which rules can.
pub open spec fn nullable(flags: Seq<bool>, op: &Op) -> bool
    decreases op, 0nat,
{
    match op {
        Op::Literal { pieces, labels } => pieces@.len() == 0,
        Op::Class { .. } => false,
        Op::Position => true,
        Op::Call(rule) => *rule < flags.len() ==> flags[*rule as int],
        Op::Sequence(steps) => nullable_steps(flags, op, 0),
        Op::Choice(alts) => nullable_alts(flags, op, 0),
        Op::Repeat { inner, min, max } => *min == 0 || nullable(flags, inner),
        Op::Optional(inner) => true,
        Op::Ahead(inner) => true,
        Op::NotAhead(inner) => true,
        Op::Action { inner, action } => nullable(flags, inner),
        Op::Capture(inner) => nullable(flags, inner),
        Op::Precedence(operators) => nullable_atoms(flags, op, 0),
    }
}

/// Whether every step of the sequence `op` from index `k` on is nullable.
pub open spec fn nullable_steps(flags: Seq<bool>, op: &Op, k: int) -> bool
    decreases op, 0nat, op.width() - k,
{
    match op {
        Op::Sequence(steps) => {
            if 0 <= k < steps@.len() {
                nullable(flags, &steps@[k].op) && nullable_steps(flags, op, k + 1)
            } else {
                true
            }
        },
        _ => true,
    }
}

/// Whether some alternative of the choice `op` from index `k` on is nullable.
pub open spec fn nullable_alts(flags: Seq<bool>, op: &Op, k: int) -> bool
    decreases op, 0nat, op.width() - k,
{
    match op {
        Op::Choice(alts) => {
            if 0 <= k < alts@.len() {
                nullable(flags, &alts@[k]) || nullable_alts(flags, op, k + 1)
            } else {
                false
            }
        },
        _ => false,
    }
}

/// Whether some atom of the precedence block `op` from index `k` on is
/// nullable.
pub open spec fn nullable_atoms(flags: Seq<bool>, op: &Op, k: int) -> bool
    decreases op, 0nat, op.width() - k,
{
    match op {
        Op::Precedence(operators) => {
            if 0 <= k < operators@.len() {
                (operators@[k].fixity == Fixity::Atom && nullable(flags, &operators@[k].pattern))
                    || nullable_atoms(flags, op, k + 1)
            } else {
                false
            }
        },
        _ => false,
    }
}

/// Whether `op` is well formed where it may run before any input has been
/// consumed since a rule ranked `bound` was entered: rule references exist,
/// calls that can happen first respect the ranks, repetitions and operators
/// have a body that consumes, and bounds and labels are consistent.
pub open spec fn op_ok(notes: Notes, op: &Op, bound: nat) -> bool
    decreases op, 0nat,
{
    match op {
        Op::Literal { pieces, labels } => {
            &&& pieces@.len() == labels@.len()
            &&& forall|k: int| 0 <= k < pieces@.len() ==> (#[trigger] pieces@[k])@.len() > 0
        },
        Op::Class { .. } => true,
        Op::Position => true,
        Op::Call(rule) => notes.call_ok(*rule, bound),
        Op::Sequence(steps) => steps_ok(notes, op, 0, bound),
        Op::Choice(alts) => alts@.len() > 0 && alts_ok(notes, op, 0, bound),
        Op::Repeat { inner, min, max } => {
            &&& op_ok(notes, inner, bound)
            &&& !nullable(notes.nullable, inner)
            &&& (*max matches Some(m) ==> *min <= m)
        },
        Op::Optional(inner) => op_ok(notes, inner, bound),
        Op::Ahead(inner) => op_ok(notes, inner, bound),
        Op::NotAhead(inner) => op_ok(notes, inner, bound),
        Op::Action { inner, action } => op_ok(notes, inner, bound),
        Op::Capture(inner) => op_ok(notes, inner, bound),
        Op::Precedence(operators) => operators_ok(notes, op, 0, bound),
    }
}

/// Whether the steps of the sequence `op` from index `k` on are well formed.
/// Behind a step that must consume, any rule may be called.
pub open spec fn steps_ok(notes: Notes, op: &Op, k: int, bound: nat) -> bool
    decreases op, 0nat, op.width() - k,
{
    match op {
        Op::Sequence(steps) => {
            if 0 <= k < steps@.len() {
                &&& op_ok(notes, &steps@[k].op, bound)
                &&& steps_ok(
                    notes,
                    op,
                    k + 1,
                    if nullable(notes.nullable, &steps@[k].op) {
                        bound
                    } else {
                        notes.size()
                    },
                )
            } else {
                true
            }
        },
        _ => true,
    }
}

/// Whether the alternatives of the choice `op` from index `k` on are well
/// formed.
pub open spec fn alts_ok(notes: Notes, op: &Op, k: int, bound: nat) -> bool
    decreases op, 0nat, op.width() - k,
{
    match op {
        Op::Choice(alts) => {
            if 0 <= k < alts@.len() {
                op_ok(notes, &alts@[k], bound) && alts_ok(notes, op, k + 1, bound)
            } else {
                true
            }
        },
        _ => true,
    }
}

/// Whether the operators of the precedence block `op` from index `k` on are
/// well formed: every pattern is, and what is not an atom consumes.
pub open spec fn operators_ok(notes: Notes, op: &Op, k: int, bound: nat) -> bool
    decreases op, 0nat, op.width() - k,
{
    match op {
        Op::Precedence(operators) => {
            if 0 <= k < operators@.len() {
                &&& op_ok(notes, &operators@[k].pattern, bound)
                &&& operators@[k].level < usize::MAX
                &&& (operators@[k].fixity != Fixity::Atom ==> !nullable(
                    notes.nullable,
                    &operators@[k].pattern,
                ))
                &&& operators_ok(notes, op, k + 1, bound)
            } else {
                true
            }
        },
        _ => true,
    }
}

/// Whether `op` is sound in itself for a program of `n` rules: rule
/// references exist, literals have a label for each piece and no empty
/// piece, choices have an alternative, and the bounds of repetitions are in
/// order.
pub open spec fn struct_ok(n: nat, op: &Op) -> bool
    decreases op, 0nat,
{
    match op {
        Op::Literal { pieces, labels } => {
            &&& pieces@.len() == labels@.len()
            &&& forall|k: int| 0 <= k < pieces@.len() ==> (#[trigger] pieces@[k])@.len() > 0
        },
        Op::Class { .. } => true,
        Op::Position => true,
        Op::Call(rule) => *rule < n,
        Op::Sequence(steps) => struct_ok_parts(n, op, 0),
        Op::Choice(alts) => alts@.len() > 0 && struct_ok_parts(n, op, 0),
        Op::Repeat { inner, min, max } => struct_ok(n, inner) && (*max matches Some(m) ==> *min
            <= m),
        Op::Optional(inner) => struct_ok(n, inner),
        Op::Ahead(inner) => struct_ok(n, inner),
        Op::NotAhead(inner) => struct_ok(n, inner),
        Op::Action { inner, action } => struct_ok(n, inner),
        Op::Capture(inner) => struct_ok(n, inner),
        Op::Precedence(operators) => struct_ok_parts(n, op, 0),
    }
}

/// Whether the direct parts of `op` from index `k` on are sound in
/// themselves.
pub open spec fn struct_ok_parts(n: nat, op: &Op, k: int) -> bool
    decreases op, 0nat, op.width() - k,
{
    if 0 <= k < op.width() {
        match op {
            Op::Sequence(steps) => struct_ok(n, &steps@[k].op) && struct_ok_parts(n, op, k + 1),
            Op::Choice(alts) => struct_ok(n, &alts@[k]) && struct_ok_parts(n, op, k + 1),
            Op::Precedence(operators) => {
                &&& struct_ok(n, &operators@[k].pattern)
                &&& operators@[k].level < usize::MAX
                &&& struct_ok_parts(n, op, k + 1)
            },
            _ => true,
        }
    } else {
        true
    }
}

/// Whether `op` holds a repetition whose body can match without consuming
/// input, or an operator of a precedence block that can: matching either
/// again and again would never end.
pub open spec fn stalls(flags: Seq<bool>, op: &Op) -> bool
    decreases op, 0nat,
{
    match op {
        Op::Sequence(steps) => stalls_parts(flags, op, 0),
        Op::Choice(alts) => stalls_parts(flags, op, 0),
        Op::Repeat { inner, min, max } => nullable(flags, inner) || stalls(flags, inner),
        Op::Optional(inner) => stalls(flags, inner),
        Op::Ahead(inner) => stalls(flags, inner),
        Op::NotAhead(inner) => stalls(flags, inner),
        Op::Action { inner, action } => stalls(flags, inner),
        Op::Capture(inner) => stalls(flags, inner),
        Op::Precedence(operators) => stalls_parts(flags, op, 0),
        _ => false,
    }
}

/// Whether one of the direct parts of `op` from index `k` on stalls.
pub open spec fn stalls_parts(flags: Seq<bool>, op: &Op, k: int) -> bool
    decreases op, 0nat, op.width() - k,
{
    if 0 <= k < op.width() {
        match op {
            Op::Sequence(steps) => stalls(flags, &steps@[k].op) || stalls_parts(flags, op, k + 1),
            Op::Choice(alts) => stalls(flags, &alts@[k]) || stalls_parts(flags, op, k + 1),
            Op::Precedence(operators) => {
                ||| stalls(flags, &operators@[k].pattern)
                ||| (operators@[k].fixity != Fixity::Atom && nullable(
                    flags,
                    &operators@[k].pattern,
                ))
                ||| stalls_parts(flags, op, k + 1)
            },
            _ => false,
        }
    } else {
        false
    }
}

/// Whether `op` can call rule number `rule` before it has consumed any
/// input.
pub open spec fn head_calls(flags: Seq<bool>, op: &Op, rule: usize) -> bool
    decreases op, 0nat,
{
    match op {
        Op::Call(callee) => *callee == rule,
        Op::Sequence(steps) => head_calls_parts(flags, op, 0, rule),
        Op::Choice(alts) => head_calls_parts(flags, op, 0, rule),
        Op::Repeat { inner, min, max } => head_calls(flags, inner, rule),
        Op::Optional(inner) => head_calls(flags, inner, rule),
        Op::Ahead(inner) => head_calls(flags, inner, rule),
        Op::NotAhead(inner) => head_calls(flags, inner, rule),
        Op::Action { inner, action } => head_calls(flags, inner, rule),
        Op::Capture(inner) => head_calls(flags, inner, rule),
        Op::Precedence(operators) => head_calls_parts(flags, op, 0, rule),
        _ => false,
    }
}

/// Whether the direct parts of `op` from index `k` on can call rule number
/// `rule` before `op` has consumed any input.  A step of a sequence can do
/// so only if all steps before it can match without consuming.
pub open spec fn head_calls_parts(flags: Seq<bool>, op: &Op, k: int, rule: usize) -> bool
    decreases op, 0nat, op.width() - k,
{
    if 0 <= k < op.width() {
        match op {
            Op::Sequence(steps) => {
                ||| head_calls(flags, &steps@[k].op, rule)
                ||| (nullable(flags, &steps@[k].op) && head_calls_parts(flags, op, k + 1, rule))
            },
            Op::Choice(alts) => {
                ||| head_calls(flags, &alts@[k], rule)
                ||| head_calls_parts(flags, op, k + 1, rule)
            },
            Op::Precedence(operators) => {
                ||| head_calls(flags, &operators@[k].pattern, rule)
                ||| head_calls_parts(flags, op, k + 1, rule)
            },
            _ => false,
        }
    } else {
        false
    }
}

/// Whether `op` matches wherever it is tried, given which rules are
/// left-recursive and which are marked as matching always.  An optional
/// part and a repetition that asks for nothing always match; a sequence
/// does if all its steps do, a choice if one of its alternatives does.
pub open spec fn always_matches(left: Seq<bool>, marks: Seq<bool>, op: &Op) -> bool
    decreases op, 0nat,
{
    match op {
        Op::Literal { pieces, labels } => pieces@.len() == 0,
        Op::Position => true,
        Op::Call(rule) => *rule < marks.len() && *rule < left.len() && marks[*rule as int]
            && !left[*rule as int],
        Op::Sequence(steps) => always_parts(left, marks, op, 0),
        Op::Choice(alts) => always_parts(left, marks, op, 0),
        Op::Repeat { inner, min, max } => *min == 0,
        Op::Optional(inner) => true,
        Op::Ahead(inner) => always_matches(left, marks, inner),
        Op::Capture(inner) => always_matches(left, marks, inner),
        _ => false,
    }
}

/// For a sequence, whether all steps from index `k` on always match; for a
/// choice, whether an alternative from `k` on does.
pub open spec fn always_parts(left: Seq<bool>, marks: Seq<bool>, op: &Op, k: int) -> bool
    decreases op, 0nat, op.width() - k,
{
    match op {
        Op::Sequence(steps) => {
            if 0 <= k < steps@.len() {
                always_matches(left, marks, &steps@[k].op) && always_parts(left, marks, op, k + 1)
            } else {
                true
            }
        },
        Op::Choice(alts) => {
            if 0 <= k < alts@.len() {
                always_matches(left, marks, &alts@[k]) || always_parts(left, marks, op, k + 1)
            } else {
                false
            }
        },
        _ => false,
    }
}

impl Program {
    /// The number of rules.
    pub open spec fn size(&self) -> nat {
        self.rules@.len()
    }

    /// The annotations of the rules.
    pub open spec fn notes(&self) -> Notes {
        Notes {
            nullable: Seq::new(self.size(), |i: int| self.rules@[i].nullable),
            left_recursive: Seq::new(self.size(), |i: int| self.rules@[i].left_recursive),
            rank: Seq::new(self.size(), |i: int| self.rules@[i].rank as nat),
        }
    }

    /// Whether `op` can match without consuming input, as far as the rules'
    /// annotations say.
    pub open spec fn nullable(&self, op: &Op) -> bool {
        nullable(self.notes().nullable, op)
    }

    /// Which rules are marked as matching wherever they are tried.
    pub open spec fn marks(&self) -> Seq<bool> {
        Seq::new(self.size(), |i: int| self.rules@[i].infallible)
    }

    /// Whether `op` matches wherever it is tried, as far as the rules'
    /// annotations say.
    pub open spec fn sure(&self, op: &Op) -> bool {
        always_matches(self.notes().left_recursive, self.marks(), op)
    }

    /// Whether `op` is well formed under `bound` with the rules' annotations.
    pub open spec fn op_ok(&self, op: &Op, bound: nat) -> bool {
        op_ok(self.notes(), op, bound)
    }

    /// The bound under which the body of `rule` runs.
    pub open spec fn body_bound(&self, rule: int) -> nat {
        if self.rules@[rule].left_recursive {
            self.size()
        } else {
            self.rules@[rule].rank as nat
        }
    }

    /// Whether one rule and its annotations are consistent.
    pub open spec fn rule_ok(&self, rule: int) -> bool {
        let r = self.rules@[rule];
        &&& r.rank < self.size()
        &&& self.op_ok(&r.body, self.body_bound(rule))
        &&& (self.nullable(&r.body) ==> r.nullable)
        &&& (r.left_recursive ==> r.kind == RuleKind::Memoized)
        &&& (r.infallible ==> !r.left_recursive && self.sure(&r.body))
    }

    /// Whether the program can be run: every rule is consistent with its
    /// annotations.
    pub open spec fn wf(&self) -> bool {
        forall|rule: int| 0 <= rule < self.size() ==> #[trigger] self.rule_ok(rule)
    }
}

} // verus!
