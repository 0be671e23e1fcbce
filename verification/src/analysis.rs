//! Static analysis: which rules can match the empty input, which loops
//! would never end, and in which order rules may call each other before
//! input is consumed.

use crate::matcher::all_idle;
use crate::program::{
    always_matches, always_parts, alts_ok, head_calls, nullable, nullable_alts, nullable_atoms, nullable_steps, op_ok,
    operators_ok, stalls, stalls_parts, steps_ok, struct_ok, Fixity, Notes, Op, Program, Routine,
    RuleKind,
};
use crate::semantics::{idle, lemma_idle_update};
use crate::static_laws::{
    all_callable, below, heads_callable, lemma_heads_decide, lemma_nullable_mono, lemma_ok_heads,
    lemma_ok_is_sound, lemma_sound_is_ok,
};
use crate::translate::CompileError;
use vstd::prelude::*;

verus! {

/// Whether `op` can match without consuming input, given which rules can.
pub fn is_nullable(flags: &Vec<bool>, op: &Op) -> (r: bool)
    ensures
        r == nullable(flags@, op),
    decreases op, 1nat, 0nat,
{
    match op {
        Op::Literal { pieces, labels } => pieces.len() == 0,
        Op::Class { .. } => false,
        Op::Position => true,
        Op::Call(rule) => {
            if *rule < flags.len() {
                flags[*rule]
            } else {
                true
            }
        },
        Op::Sequence(steps) => is_nullable_from(flags, op, 0),
        Op::Choice(alts) => is_nullable_from(flags, op, 0),
        Op::Repeat { inner, min, max } => *min == 0 || is_nullable(flags, inner),
        Op::Optional(inner) => true,
        Op::Ahead(inner) => true,
        Op::NotAhead(inner) => true,
        Op::Action { inner, action } => is_nullable(flags, inner),
        Op::Capture(inner) => is_nullable(flags, inner),
        Op::Precedence(operators) => is_nullable_from(flags, op, 0),
    }
}

/// For a sequence, whether all steps from index `k` on are nullable; for a
/// choice, whether an alternative from `k` on is; for a precedence block,
/// whether an atom from `k` on is.
fn is_nullable_from(flags: &Vec<bool>, op: &Op, k: usize) -> (r: bool)
    requires
        k <= op.width(),
    ensures
        op is Sequence ==> r == nullable_steps(flags@, op, k as int),
        op is Choice ==> r == nullable_alts(flags@, op, k as int),
        op is Precedence ==> r == nullable_atoms(flags@, op, k as int),
    decreases op, 0nat, op.width() - k,
{
    match op {
        Op::Sequence(steps) => {
            if k < steps.len() {
                is_nullable(flags, &steps[k].op) && is_nullable_from(flags, op, k + 1)
            } else {
                true
            }
        },
        Op::Choice(alts) => {
            if k < alts.len() {
                is_nullable(flags, &alts[k]) || is_nullable_from(flags, op, k + 1)
            } else {
                false
            }
        },
        Op::Precedence(operators) => {
            if k < operators.len() {
                let atom = match operators[k].fixity {
                    Fixity::Atom => true,
                    _ => false,
                };
                (atom && is_nullable(flags, &operators[k].pattern)) || is_nullable_from(
                    flags,
                    op,
                    k + 1,
                )
            } else {
                false
            }
        },
        _ => false,
    }
}

/// Whether `op` holds a repetition or an operator that could be matched
/// for ever.
pub fn finds_stall(flags: &Vec<bool>, op: &Op) -> (r: bool)
    ensures
        r == stalls(flags@, op),
    decreases op, 1nat, 0nat,
{
    match op {
        Op::Sequence(steps) => finds_stall_from(flags, op, 0),
        Op::Choice(alts) => finds_stall_from(flags, op, 0),
        Op::Repeat { inner, min, max } => is_nullable(flags, inner) || finds_stall(flags, inner),
        Op::Optional(inner) => finds_stall(flags, inner),
        Op::Ahead(inner) => finds_stall(flags, inner),
        Op::NotAhead(inner) => finds_stall(flags, inner),
        Op::Action { inner, action } => finds_stall(flags, inner),
        Op::Capture(inner) => finds_stall(flags, inner),
        Op::Precedence(operators) => finds_stall_from(flags, op, 0),
        _ => false,
    }
}

fn finds_stall_from(flags: &Vec<bool>, op: &Op, k: usize) -> (r: bool)
    requires
        k <= op.width(),
    ensures
        r == stalls_parts(flags@, op, k as int),
    decreases op, 0nat, op.width() - k,
{
    match op {
        Op::Sequence(steps) => {
            if k < steps.len() {
                finds_stall(flags, &steps[k].op) || finds_stall_from(flags, op, k + 1)
            } else {
                false
            }
        },
        Op::Choice(alts) => {
            if k < alts.len() {
                finds_stall(flags, &alts[k]) || finds_stall_from(flags, op, k + 1)
            } else {
                false
            }
        },
        Op::Precedence(operators) => {
            if k < operators.len() {
                let atom = match operators[k].fixity {
                    Fixity::Atom => true,
                    _ => false,
                };
                finds_stall(flags, &operators[k].pattern) || (!atom && is_nullable(
                    flags,
                    &operators[k].pattern,
                )) || finds_stall_from(flags, op, k + 1)
            } else {
                false
            }
        },
        _ => false,
    }
}

/// Whether no string of the list is empty.
fn none_empty(strings: &Vec<String>) -> (r: bool)
    ensures
        r == (forall|k: int| 0 <= k < strings@.len() ==> (#[trigger] strings@[k])@.len() > 0),
{
    let mut k: usize = 0;
    while k < strings.len()
        invariant
            k <= strings@.len(),
            forall|j: int| 0 <= j < k ==> (#[trigger] strings@[j])@.len() > 0,
        decreases strings@.len() - k,
    {
        if strings[k].as_str().is_empty() {
            assert(strings@[k as int]@.len() == 0);
            return false;
        }
        k += 1;
    }
    true
}

/// The annotations that three tables stand for.
pub open spec fn notes_of(flags: Seq<bool>, left: Seq<bool>, rank: Seq<usize>) -> Notes {
    Notes {
        nullable: flags,
        left_recursive: left,
        rank: Seq::new(rank.len(), |i: int| rank[i] as nat),
    }
}

/// Whether `op` is well formed under `bound` with the given annotations.
pub fn check_op(
    flags: &Vec<bool>,
    left: &Vec<bool>,
    rank: &Vec<usize>,
    op: &Op,
    bound: usize,
) -> (r: bool)
    requires
        left@.len() == flags@.len(),
        rank@.len() == flags@.len(),
    ensures
        r == op_ok(notes_of(flags@, left@, rank@), op, bound as nat),
    decreases op, 1nat, 0nat,
{
    let ghost notes = notes_of(flags@, left@, rank@);
    match op {
        Op::Literal { pieces, labels } => {
            pieces.len() == labels.len() && none_empty(pieces)
        },
        Op::Class { .. } => true,
        Op::Position => true,
        Op::Call(rule) => *rule < flags.len() && (left[*rule] || rank[*rule] < bound),
        Op::Sequence(steps) => check_parts(flags, left, rank, op, 0, bound),
        Op::Choice(alts) => alts.len() > 0 && check_parts(flags, left, rank, op, 0, bound),
        Op::Repeat { inner, min, max } => {
            let bounds = match max {
                Some(m) => *min <= *m,
                None => true,
            };
            check_op(flags, left, rank, inner, bound) && !is_nullable(flags, inner) && bounds
        },
        Op::Optional(inner) => check_op(flags, left, rank, inner, bound),
        Op::Ahead(inner) => check_op(flags, left, rank, inner, bound),
        Op::NotAhead(inner) => check_op(flags, left, rank, inner, bound),
        Op::Action { inner, action } => check_op(flags, left, rank, inner, bound),
        Op::Capture(inner) => check_op(flags, left, rank, inner, bound),
        Op::Precedence(operators) => check_parts(flags, left, rank, op, 0, bound),
    }
}

fn check_parts(
    flags: &Vec<bool>,
    left: &Vec<bool>,
    rank: &Vec<usize>,
    op: &Op,
    k: usize,
    bound: usize,
) -> (r: bool)
    requires
        left@.len() == flags@.len(),
        rank@.len() == flags@.len(),
        k <= op.width(),
    ensures
        op is Sequence ==> r == steps_ok(notes_of(flags@, left@, rank@), op, k as int, bound as nat),
        op is Choice ==> r == alts_ok(notes_of(flags@, left@, rank@), op, k as int, bound as nat),
        op is Precedence ==> r == operators_ok(
            notes_of(flags@, left@, rank@),
            op,
            k as int,
            bound as nat,
        ),
    decreases op, 0nat, op.width() - k,
{
    match op {
        Op::Sequence(steps) => {
            if k < steps.len() {
                let next = if is_nullable(flags, &steps[k].op) {
                    bound
                } else {
                    flags.len()
                };
                check_op(flags, left, rank, &steps[k].op, bound) && check_parts(
                    flags,
                    left,
                    rank,
                    op,
                    k + 1,
                    next,
                )
            } else {
                true
            }
        },
        Op::Choice(alts) => {
            if k < alts.len() {
                check_op(flags, left, rank, &alts[k], bound) && check_parts(
                    flags,
                    left,
                    rank,
                    op,
                    k + 1,
                    bound,
                )
            } else {
                true
            }
        },
        Op::Precedence(operators) => {
            if k < operators.len() {
                let atom = match operators[k].fixity {
                    Fixity::Atom => true,
                    _ => false,
                };
                check_op(flags, left, rank, &operators[k].pattern, bound) && operators[k].level
                    < usize::MAX && (atom || !is_nullable(flags, &operators[k].pattern))
                    && check_parts(flags, left, rank, op, k + 1, bound)
            } else {
                true
            }
        },
        _ => true,
    }
}

/// Whether `flags` marks every rule whose body can match without consuming
/// input when the marked rules can.
pub open spec fn consistent(rules: Seq<Routine>, flags: Seq<bool>) -> bool {
    &&& flags.len() == rules.len()
    &&& forall|i: int|
        0 <= i < rules.len() ==> (nullable(flags, &rules[i].body) ==> #[trigger] flags[i])
}

/// Whether `flags` marks exactly the rules that can match without consuming
/// input: it is consistent, and marks no rule that some consistent marking
/// leaves out.
pub open spec fn least_nullable(rules: Seq<Routine>, flags: Seq<bool>) -> bool {
    &&& consistent(rules, flags)
    &&& forall|other: Seq<bool>| #[trigger] consistent(rules, other) ==> below(flags, other)
}

/// Works out which rules can match without consuming input.
pub fn nullable_rules(prog: &Program) -> (flags: Vec<bool>)
    ensures
        least_nullable(prog.rules@, flags@),
{
    let n = prog.rules.len();
    let mut flags = all_idle(n);
    let mut go = true;
    while go
        invariant
            n == prog.rules@.len(),
            flags@.len() == n,
            forall|other: Seq<bool>| #[trigger]
                consistent(prog.rules@, other) ==> below(flags@, other),
            !go ==> consistent(prog.rules@, flags@),
        decreases
                idle(flags@) + (if go {
                    1nat
                } else {
                    0nat
                }),
    {
        go = false;
        let ghost start = flags@;
        let mut i: usize = 0;
        while i < n
            invariant
                i <= n,
                n == prog.rules@.len(),
                flags@.len() == n,
                forall|other: Seq<bool>| #[trigger]
                    consistent(prog.rules@, other) ==> below(flags@, other),
                !go ==> flags@ == start && forall|j: int|
                    0 <= j < i ==> (nullable(flags@, &prog.rules@[j].body) ==> #[trigger] flags@[j]),
                go ==> idle(flags@) < idle(start),
                idle(flags@) <= idle(start),
            decreases n - i,
        {
            if !flags[i] && is_nullable(&flags, &prog.rules[i].body) {
                let ghost before = flags@;
                proof {
                    lemma_idle_update(flags@, i as int);
                }
                flags[i] = true;
                go = true;
                proof {
                    assert forall|other: Seq<bool>| #[trigger]
                        consistent(prog.rules@, other) implies below(flags@, other) by {
                        assert(below(before, other));
                        lemma_nullable_mono(before, other, &prog.rules@[i as int].body);
                        assert(other[i as int]);
                    }
                }
            }
            i += 1;
        }
    }
    flags
}

/// Whether rule number `r` is a link of `chain`: it is not memoized and can
/// call a rule of `chain` before it has consumed any input.
#[verifier::opaque]
pub open spec fn link(rules: Seq<Routine>, flags: Seq<bool>, chain: Set<int>, r: int) -> bool {
    &&& 0 <= r < rules.len()
    &&& rules[r].kind != RuleKind::Memoized
    &&& exists|u: int|
        0 <= u < rules.len() && #[trigger] chain.contains(u) && head_calls(
            flags,
            &rules[r].body,
            u as usize,
        )
}

/// Whether every rule in `chain` is a link of it: from each such rule an
/// endless chain of first calls starts that no memoized rule interrupts.
pub open spec fn endless(rules: Seq<Routine>, flags: Seq<bool>, chain: Set<int>) -> bool {
    forall|r: int| #[trigger] chain.contains(r) ==> link(rules, flags, chain, r)
}

/// Whether rule number `rule` is left-recursive beyond repair: it is part of
/// an endless chain of first calls among rules that are not memoized.
pub open spec fn left_recursion(rules: Seq<Routine>, flags: Seq<bool>, rule: usize) -> bool {
    exists|chain: Set<int>| #[trigger] endless(rules, flags, chain) && chain.contains(rule as int)
}

/// Whether every body is sound in itself and free of stalls.
pub open spec fn bodies_sound(rules: Seq<Routine>, flags: Seq<bool>) -> bool {
    forall|i: int|
        0 <= i < rules.len() ==> struct_ok(rules.len(), &(#[trigger] rules[i]).body) && !stalls(
            flags,
            &rules[i].body,
        )
}

/// Annotations that are at least as permissive: the same rules are nullable,
/// every rule that was left-recursive still is, and no rank has grown.
pub open spec fn improves(old_notes: Notes, new_notes: Notes) -> bool {
    &&& old_notes.nullable == new_notes.nullable
    &&& old_notes.aligned()
    &&& new_notes.aligned()
    &&& forall|u: int|
        0 <= u < old_notes.size() ==> (old_notes.left_recursive[u] ==> #[trigger] new_notes.left_recursive[u])
            && new_notes.rank[u] <= old_notes.rank[u]
}

/// What is well formed stays well formed under annotations that are at
/// least as permissive.
pub proof fn lemma_improved_notes(old_notes: Notes, new_notes: Notes, op: &Op, bound: nat)
    requires
        improves(old_notes, new_notes),
        all_callable(new_notes, new_notes.size()),
        op_ok(old_notes, op, bound),
    ensures
        op_ok(new_notes, op, bound),
{
    lemma_ok_is_sound(old_notes, op, bound);
    lemma_sound_is_ok(new_notes, op);
    assert forall|u: usize| head_calls(new_notes.nullable, op, u) implies #[trigger]
        new_notes.call_ok(u, bound) by {
        lemma_ok_heads(old_notes, op, bound, u);
        assert(new_notes.left_recursive[u as int] || new_notes.rank[u as int] <= old_notes.rank[u as int]);
    }
    lemma_heads_decide(new_notes, op, bound);
}

/// Whether rule number `i` has neither a rank nor the mark of a
/// left-recursive rule.
pub open spec fn waits(ranked: Seq<bool>, left: Seq<bool>, i: int) -> bool {
    !ranked[i] && !left[i]
}

/// The state of the ranking of the rules.
pub struct Ranking {
    pub rank: Vec<usize>,
    pub ranked: Vec<bool>,
    pub left: Vec<bool>,
    pub count: usize,
}

impl Ranking {
    /// The annotations that the state stands for.
    pub open spec fn notes(&self, flags: Seq<bool>) -> Notes {
        notes_of(flags, self.left@, self.rank@)
    }

    /// Whether rule number `i` still waits for a rank.
    pub open spec fn waiting(&self, i: int) -> bool {
        waits(self.ranked@, self.left@, i)
    }

    /// What holds of the state throughout.
    pub open spec fn inv(&self, rules: Seq<Routine>, flags: Seq<bool>) -> bool {
        let n = rules.len();
        &&& n > 0
        &&& flags.len() == n
        &&& self.rank@.len() == n
        &&& self.ranked@.len() == n
        &&& self.left@.len() == n
        &&& idle(self.ranked@) + self.count == n
        &&& bodies_sound(rules, flags)
        &&& forall|i: int|
            0 <= i < n ==> (if #[trigger] self.ranked@[i] {
                &&& self.rank@[i] < self.count
                &&& !self.left@[i]
                &&& op_ok(self.notes(flags), &rules[i].body, self.rank@[i] as nat)
            } else {
                self.rank@[i] == n - 1
            })
        &&& forall|i: int|
            0 <= i < n ==> (#[trigger] self.left@[i] ==> rules[i].kind == RuleKind::Memoized)
    }
}

/// With a rule that waits, fewer rules have a rank than there are rules.
proof fn lemma_waiting_leaves_room(ranked: Seq<bool>, i: int)
    requires
        0 <= i < ranked.len(),
        !ranked[i],
    ensures
        idle(ranked) >= 1,
{
    lemma_idle_update(ranked, i);
}

/// Under the invariant every rule may be called where any may be.
proof fn lemma_inv_callable(st: &Ranking, rules: Seq<Routine>, flags: Seq<bool>)
    requires
        st.inv(rules, flags),
    ensures
        all_callable(st.notes(flags), st.notes(flags).size()),
        st.notes(flags).aligned(),
        st.notes(flags).size() == rules.len(),
        st.count <= rules.len(),
{
    let notes = st.notes(flags);
    assert forall|u: usize| u < notes.size() implies #[trigger] notes.call_ok(u, notes.size()) by {
        lemma_rank_in_range(st, rules, flags, u as int);
    }
}

/// Under the invariant every rank is below the number of rules.
proof fn lemma_rank_in_range(st: &Ranking, rules: Seq<Routine>, flags: Seq<bool>, u: int)
    requires
        st.inv(rules, flags),
        0 <= u < rules.len(),
    ensures
        st.rank@[u] < rules.len(),
        st.notes(flags).rank[u] == st.rank@[u] as nat,
        st.notes(flags).rank[u] < rules.len(),
        st.notes(flags).size() == rules.len(),
{
    if st.ranked@[u] {
        assert(st.rank@[u] < st.count);
    } else {
        assert(st.rank@[u] == rules.len() - 1);
    }
}

/// Gives a rank to every waiting rule whose first calls all have one.
/// Returns whether any rule got a rank.
fn rank_pass(prog: &Program, flags: &Vec<bool>, st: &mut Ranking) -> (progress: bool)
    requires
        old(st).inv(prog.rules@, flags@),
    ensures
        final(st).inv(prog.rules@, flags@),
        final(st).left@ == old(st).left@,
        forall|j: int|
            0 <= j < prog.rules@.len() && old(st).ranked@[j] ==> #[trigger] final(st).ranked@[j],
        progress ==> idle(final(st).ranked@) < idle(old(st).ranked@),
        !progress ==> final(st).rank@ == old(st).rank@ && final(st).ranked@ == old(st).ranked@
            && final(st).count == old(st).count && forall|j: int|
            0 <= j < prog.rules@.len() && #[trigger] waits(final(st).ranked@, final(st).left@, j) ==> !op_ok(
                final(st).notes(flags@),
                &prog.rules@[j].body,
                final(st).count as nat,
            ),
{
    let n = prog.rules.len();
    let mut progress = false;
    let mut r: usize = 0;
    while r < n
        invariant
            r <= n,
            n == prog.rules@.len(),
            st.inv(prog.rules@, flags@),
            st.left@ == old(st).left@,
            forall|j: int| 0 <= j < n && old(st).ranked@[j] ==> #[trigger] st.ranked@[j],
            progress ==> idle(st.ranked@) < idle(old(st).ranked@),
            !progress ==> st.rank@ == old(st).rank@ && st.ranked@ == old(st).ranked@ && st.count
                == old(st).count && forall|j: int|
                0 <= j < r && #[trigger] waits(st.ranked@, st.left@, j) ==> !op_ok(
                    st.notes(flags@),
                    &prog.rules@[j].body,
                    st.count as nat,
                ),
        decreases n - r,
    {
        if !st.ranked[r] && !st.left[r] && check_op(
            flags,
            &st.left,
            &st.rank,
            &prog.rules[r].body,
            st.count,
        ) {
            let ghost before = *st;
            let ghost old_notes = st.notes(flags@);
            proof {
                lemma_waiting_leaves_room(st.ranked@, r as int);
                lemma_idle_update(st.ranked@, r as int);
            }
            st.rank[r] = st.count;
            st.ranked[r] = true;
            st.count = st.count + 1;
            progress = true;
            proof {
                let new_notes = st.notes(flags@);
                assert forall|u: usize| u < new_notes.size() implies #[trigger] new_notes.call_ok(
                    u,
                    new_notes.size(),
                ) by {
                    lemma_rank_in_range(&before, prog.rules@, flags@, u as int);
                    assert(new_notes.rank[u as int] == st.rank@[u as int] as nat);
                }
                assert forall|u: int| 0 <= u < old_notes.size() implies (
                old_notes.left_recursive[u] ==> #[trigger] new_notes.left_recursive[u])
                    && new_notes.rank[u] <= old_notes.rank[u] by {
                    lemma_rank_in_range(&before, prog.rules@, flags@, u);
                    assert(new_notes.rank[u] == st.rank@[u] as nat);
                }
                assert(improves(old_notes, new_notes));
                assert forall|i: int| 0 <= i < n implies (if #[trigger] st.ranked@[i] {
                    &&& st.rank@[i] < st.count
                    &&& !st.left@[i]
                    &&& op_ok(st.notes(flags@), &prog.rules@[i].body, st.rank@[i] as nat)
                } else {
                    st.rank@[i] == n - 1
                }) by {
                    if i == r {
                        lemma_improved_notes(
                            old_notes,
                            new_notes,
                            &prog.rules@[i].body,
                            before.count as nat,
                        );
                    } else if st.ranked@[i] {
                        assert(before.ranked@[i]);
                        lemma_improved_notes(
                            old_notes,
                            new_notes,
                            &prog.rules@[i].body,
                            before.rank@[i] as nat,
                        );
                    } else {
                        assert(!before.ranked@[i]);
                    }
                }
            }
        }
        r += 1;
    }
    progress
}

/// The first rule that still waits for a rank.
fn first_waiting(st: &Ranking) -> (r: Option<usize>)
    requires
        st.ranked@.len() == st.left@.len(),
    ensures
        match r {
            Some(i) => i < st.ranked@.len() && waits(st.ranked@, st.left@, i as int),
            None => forall|j: int| 0 <= j < st.ranked@.len() ==> !#[trigger] waits(st.ranked@, st.left@, j),
        },
{
    let mut i: usize = 0;
    while i < st.ranked.len()
        invariant
            i <= st.ranked@.len(),
            st.ranked@.len() == st.left@.len(),
            forall|j: int| 0 <= j < i ==> !#[trigger] waits(st.ranked@, st.left@, j),
        decreases st.ranked@.len() - i,
    {
        if !st.ranked[i] && !st.left[i] {
            return Some(i);
        }
        i += 1;
    }
    None
}

/// Marks every memoized rule that still waits as left-recursive.
fn mark_memoized(prog: &Program, flags: &Vec<bool>, st: &mut Ranking)
    requires
        old(st).inv(prog.rules@, flags@),
    ensures
        final(st).inv(prog.rules@, flags@),
        final(st).rank@ == old(st).rank@,
        final(st).ranked@ == old(st).ranked@,
        final(st).count == old(st).count,
        forall|j: int|
            0 <= j < prog.rules@.len() && #[trigger] waits(final(st).ranked@, final(st).left@, j) ==> prog.rules@[j].kind
                != RuleKind::Memoized,
{
    let n = prog.rules.len();
    let ghost old_notes = st.notes(flags@);
    let mut i: usize = 0;
    proof {
        lemma_inv_callable(st, prog.rules@, flags@);
    }
    while i < n
        invariant
            i <= n,
            n == prog.rules@.len(),
            n > 0,
            flags@.len() == n,
            st.rank@ == old(st).rank@,
            st.ranked@ == old(st).ranked@,
            st.count == old(st).count,
            st.left@.len() == n,
            old(st).inv(prog.rules@, flags@),
            forall|j: int|
                0 <= j < n ==> (old(st).left@[j] ==> #[trigger] st.left@[j]) && (st.left@[j]
                    ==> prog.rules@[j].kind == RuleKind::Memoized && !st.ranked@[j]),
            forall|j: int|
                0 <= j < i && #[trigger] waits(st.ranked@, st.left@, j) ==> prog.rules@[j].kind
                    != RuleKind::Memoized,
        decreases n - i,
    {
        let memoized = match prog.rules[i].kind {
            RuleKind::Memoized => true,
            _ => false,
        };
        let ghost prev = st.left@;
        if !st.ranked[i] && memoized {
            st.left[i] = true;
        }
        proof {
            assert forall|j: int| 0 <= j < i + 1 && #[trigger] waits(
                st.ranked@,
                st.left@,
                j,
            ) implies prog.rules@[j].kind != RuleKind::Memoized by {
                if j < i {
                    assert(waits(st.ranked@, prev, j));
                }
            }
        }
        i += 1;
    }
    proof {
        let new_notes = st.notes(flags@);
        assert forall|u: usize| u < new_notes.size() implies #[trigger] new_notes.call_ok(
            u,
            new_notes.size(),
        ) by {
            lemma_rank_in_range(old(st), prog.rules@, flags@, u as int);
            assert(new_notes.rank[u as int] == st.rank@[u as int] as nat);
        }
        assert forall|u: int| 0 <= u < old_notes.size() implies (old_notes.left_recursive[u]
            ==> #[trigger] new_notes.left_recursive[u]) && new_notes.rank[u]
            <= old_notes.rank[u] by {
            assert(new_notes.rank[u] == st.rank@[u] as nat);
            assert(old_notes.rank[u] == st.rank@[u] as nat);
        }
        assert(improves(old_notes, new_notes));
        assert forall|i: int| 0 <= i < n implies (if #[trigger] st.ranked@[i] {
            &&& st.rank@[i] < st.count
            &&& !st.left@[i]
            &&& op_ok(st.notes(flags@), &prog.rules@[i].body, st.rank@[i] as nat)
        } else {
            st.rank@[i] == n - 1
        }) by {
            if st.ranked@[i] {
                assert(old(st).ranked@[i]);
                lemma_improved_notes(
                    old_notes,
                    new_notes,
                    &prog.rules@[i].body,
                    st.rank@[i] as nat,
                );
            } else {
                assert(!old(st).ranked@[i]);
            }
        }
    }
}

/// A table of `n` entries that all hold `value`.
fn filled(n: usize, value: usize) -> (r: Vec<usize>)
    ensures
        r@.len() == n,
        forall|i: int| 0 <= i < n ==> r@[i] == value,
{
    let mut out: Vec<usize> = Vec::new();
    while out.len() < n
        invariant
            out@.len() <= n,
            forall|i: int| 0 <= i < out@.len() ==> out@[i] == value,
        decreases n - out@.len(),
    {
        out.push(value);
    }
    out
}

/// The number of entries of an all-idle table that are idle.
proof fn lemma_idle_all(n: nat)
    ensures
        idle(Seq::new(n, |i: int| false)) == n,
    decreases n,
{
    let s = Seq::new(n, |i: int| false);
    if n > 0 {
        lemma_idle_all((n - 1) as nat);
        assert(s.drop_last() =~= Seq::new((n - 1) as nat, |i: int| false));
    }
}

/// The waiting rules of a state that is stuck form an endless chain.
proof fn lemma_stuck_is_endless(st: &Ranking, rules: Seq<Routine>, flags: Seq<bool>, rule: usize)
    requires
        st.inv(rules, flags),
        rule < rules.len(),
        st.waiting(rule as int),
        forall|j: int|
            0 <= j < rules.len() && #[trigger] waits(st.ranked@, st.left@, j) ==> rules[j].kind
                != RuleKind::Memoized,
        forall|j: int|
            0 <= j < rules.len() && #[trigger] waits(st.ranked@, st.left@, j) ==> !op_ok(
                st.notes(flags),
                &rules[j].body,
                st.count as nat,
            ),
    ensures
        left_recursion(rules, flags, rule),
{
    let n = rules.len();
    let notes = st.notes(flags);
    let chain = Set::new(|i: int| 0 <= i < n && waits(st.ranked@, st.left@, i));
    lemma_inv_callable(st, rules, flags);
    assert forall|r: int| #[trigger] chain.contains(r) implies link(rules, flags, chain, r) by {
        reveal(link);
        assert(waits(st.ranked@, st.left@, r));
        let body = &rules[r].body;
        lemma_sound_is_ok(notes, body);
        if heads_callable(notes, body, st.count as nat) {
            lemma_heads_decide(notes, body, st.count as nat);
        }
        let u = choose|u: usize|
            head_calls(notes.nullable, body, u) && !notes.call_ok(u, st.count as nat);
        lemma_ok_heads(notes, body, notes.size(), u);
        lemma_rank_in_range(st, rules, flags, u as int);
        assert(!st.ranked@[u as int]);
        assert(waits(st.ranked@, st.left@, u as int));
        assert(chain.contains(u as int));
    }
    assert(endless(rules, flags, chain));
    assert(chain.contains(rule as int));
}

/// What a ranking that came to an end says of each rule.
pub open spec fn ranking_ok(
    rules: Seq<Routine>,
    flags: Seq<bool>,
    rank: Seq<usize>,
    left: Seq<bool>,
) -> bool {
    let n = rules.len();
    let notes = notes_of(flags, left, rank);
    &&& rank.len() == n
    &&& left.len() == n
    &&& forall|i: int|
        0 <= i < n ==> {
            &&& #[trigger] rank[i] < n
            &&& (left[i] ==> rules[i].kind == RuleKind::Memoized)
            &&& op_ok(
                notes,
                &rules[i].body,
                if left[i] {
                    n
                } else {
                    rank[i] as nat
                },
            )
        }
}

/// Gives every rule a rank, or finds a rule that is left-recursive beyond
/// repair.
pub fn rank_rules(prog: &Program, flags: &Vec<bool>) -> (r: Result<(Vec<usize>, Vec<bool>), usize>)
    requires
        flags@.len() == prog.rules@.len(),
        bodies_sound(prog.rules@, flags@),
    ensures
        match r {
            Ok((rank, left)) => ranking_ok(prog.rules@, flags@, rank@, left@),
            Err(rule) => rule < prog.rules@.len() && left_recursion(prog.rules@, flags@, rule),
        },
{
    let n = prog.rules.len();
    if n == 0 {
        return Ok((Vec::new(), Vec::new()));
    }
    let mut st = Ranking {
        rank: filled(n, n - 1),
        ranked: all_idle(n),
        left: all_idle(n),
        count: 0,
    };
    proof {
        lemma_idle_all(n as nat);
    }
    let mut marked = false;
    loop
        invariant
            n == prog.rules@.len(),
            st.inv(prog.rules@, flags@),
            marked ==> forall|j: int|
                0 <= j < n && #[trigger] waits(st.ranked@, st.left@, j) ==> prog.rules@[j].kind
                    != RuleKind::Memoized,
        ensures
            true,
        decreases
                2 * idle(st.ranked@) + (if marked {
                    0nat
                } else {
                    1nat
                }),
    {
        let ghost before = st;
        let progress = rank_pass(prog, flags, &mut st);
        proof {
            if marked {
                assert forall|j: int| 0 <= j < n && #[trigger] waits(
                    st.ranked@,
                    st.left@,
                    j,
                ) implies prog.rules@[j].kind != RuleKind::Memoized by {
                    assert(waits(before.ranked@, before.left@, j));
                }
            }
        }
        if !progress {
            match first_waiting(&st) {
                None => {
                    proof {
                        lemma_inv_callable(&st, prog.rules@, flags@);
                        let notes = st.notes(flags@);
                        assert forall|i: int| 0 <= i < n implies {
                            &&& #[trigger] st.rank@[i] < n
                            &&& (st.left@[i] ==> prog.rules@[i].kind == RuleKind::Memoized)
                            &&& op_ok(
                                notes,
                                &prog.rules@[i].body,
                                if st.left@[i] {
                                    n as nat
                                } else {
                                    st.rank@[i] as nat
                                },
                            )
                        } by {
                            assert(!waits(st.ranked@, st.left@, i));
                            lemma_rank_in_range(&st, prog.rules@, flags@, i);
                            if st.left@[i] {
                                lemma_sound_is_ok(notes, &prog.rules@[i].body);
                            } else {
                                assert(st.ranked@[i]);
                            }
                        }
                    }
                    return Ok((st.rank, st.left));
                },
                Some(rule) => {
                    if marked {
                        proof {
                            lemma_stuck_is_endless(&st, prog.rules@, flags@, rule);
                        }
                        return Err(rule);
                    }
                    mark_memoized(prog, flags, &mut st);
                    marked = true;
                },
            }
        }
    }
}

/// Whether `op` matches wherever it is tried, given which rules are
/// left-recursive and which are marked as matching always.
pub fn is_sure(left: &Vec<bool>, marks: &Vec<bool>, op: &Op) -> (r: bool)
    ensures
        r == always_matches(left@, marks@, op),
    decreases op, 1nat, 0nat,
{
    match op {
        Op::Literal { pieces, labels } => pieces.len() == 0,
        Op::Position => true,
        Op::Call(rule) => *rule < marks.len() && *rule < left.len() && marks[*rule] && !left[*rule],
        Op::Sequence(steps) => is_sure_from(left, marks, op, 0),
        Op::Choice(alts) => is_sure_from(left, marks, op, 0),
        Op::Repeat { inner, min, max } => *min == 0,
        Op::Optional(inner) => true,
        Op::Ahead(inner) => is_sure(left, marks, inner),
        Op::Capture(inner) => is_sure(left, marks, inner),
        _ => false,
    }
}

fn is_sure_from(left: &Vec<bool>, marks: &Vec<bool>, op: &Op, k: usize) -> (r: bool)
    requires
        k <= op.width(),
    ensures
        r == always_parts(left@, marks@, op, k as int),
    decreases op, 0nat, op.width() - k,
{
    match op {
        Op::Sequence(steps) => {
            if k < steps.len() {
                is_sure(left, marks, &steps[k].op) && is_sure_from(left, marks, op, k + 1)
            } else {
                true
            }
        },
        Op::Choice(alts) => {
            if k < alts.len() {
                is_sure(left, marks, &alts[k]) || is_sure_from(left, marks, op, k + 1)
            } else {
                false
            }
        },
        _ => false,
    }
}

/// What always matches when fewer rules are marked, still does when more
/// are.
pub proof fn lemma_always_mono(left: Seq<bool>, low: Seq<bool>, high: Seq<bool>, op: &Op)
    requires
        below(low, high),
        always_matches(left, low, op),
    ensures
        always_matches(left, high, op),
    decreases op, 1nat, 0nat,
{
    match op {
        Op::Sequence(steps) => lemma_always_parts_mono(left, low, high, op, 0),
        Op::Choice(alts) => lemma_always_parts_mono(left, low, high, op, 0),
        Op::Ahead(inner) => lemma_always_mono(left, low, high, inner),
        Op::Capture(inner) => lemma_always_mono(left, low, high, inner),
        _ => {},
    }
}

proof fn lemma_always_parts_mono(
    left: Seq<bool>,
    low: Seq<bool>,
    high: Seq<bool>,
    op: &Op,
    k: int,
)
    requires
        below(low, high),
        always_parts(left, low, op, k),
    ensures
        always_parts(left, high, op, k),
    decreases op, 0nat, op.width() - k,
{
    match op {
        Op::Sequence(steps) => {
            if 0 <= k < steps@.len() {
                lemma_always_mono(left, low, high, &steps@[k].op);
                lemma_always_parts_mono(left, low, high, op, k + 1);
            }
        },
        Op::Choice(alts) => {
            if 0 <= k < alts@.len() {
                if always_matches(left, low, &alts@[k]) {
                    lemma_always_mono(left, low, high, &alts@[k]);
                } else {
                    lemma_always_parts_mono(left, low, high, op, k + 1);
                }
            }
        },
        _ => {},
    }
}

/// Whether `marks` marks every rule that is not left-recursive and whose
/// body always matches when the marked rules do.
pub open spec fn sure_consistent(rules: Seq<Routine>, left: Seq<bool>, marks: Seq<bool>) -> bool {
    &&& marks.len() == rules.len()
    &&& forall|i: int|
        0 <= i < rules.len() ==> (always_matches(left, marks, &rules[i].body) && !left[i]
            ==> #[trigger] marks[i])
}

/// Whether every mark is borne out: a marked rule is not left-recursive and
/// has a body that always matches when the marked rules do.
pub open spec fn sure_supported(rules: Seq<Routine>, left: Seq<bool>, marks: Seq<bool>) -> bool {
    &&& marks.len() == rules.len()
    &&& forall|i: int|
        0 <= i < rules.len() ==> (#[trigger] marks[i] ==> !left[i] && always_matches(
            left,
            marks,
            &rules[i].body,
        ))
}

/// Whether `marks` marks exactly the rules that are found to match always:
/// every mark is borne out, and the marking is the least consistent one.
pub open spec fn least_sure(rules: Seq<Routine>, left: Seq<bool>, marks: Seq<bool>) -> bool {
    &&& sure_supported(rules, left, marks)
    &&& sure_consistent(rules, left, marks)
    &&& forall|other: Seq<bool>| #[trigger]
        sure_consistent(rules, left, other) ==> below(marks, other)
}

/// Works out which rules match wherever they are tried.
pub fn sure_rules(prog: &Program, left: &Vec<bool>) -> (marks: Vec<bool>)
    requires
        left@.len() == prog.rules@.len(),
    ensures
        least_sure(prog.rules@, left@, marks@),
{
    let n = prog.rules.len();
    let mut marks = all_idle(n);
    let mut go = true;
    while go
        invariant
            n == prog.rules@.len(),
            left@.len() == n,
            marks@.len() == n,
            sure_supported(prog.rules@, left@, marks@),
            forall|other: Seq<bool>| #[trigger]
                sure_consistent(prog.rules@, left@, other) ==> below(marks@, other),
            !go ==> sure_consistent(prog.rules@, left@, marks@),
        decreases
                idle(marks@) + (if go {
                    1nat
                } else {
                    0nat
                }),
    {
        go = false;
        let ghost start = marks@;
        let mut i: usize = 0;
        while i < n
            invariant
                i <= n,
                n == prog.rules@.len(),
                left@.len() == n,
                marks@.len() == n,
                sure_supported(prog.rules@, left@, marks@),
                forall|other: Seq<bool>| #[trigger]
                    sure_consistent(prog.rules@, left@, other) ==> below(marks@, other),
                !go ==> marks@ == start && forall|j: int|
                    0 <= j < i ==> (always_matches(left@, marks@, &prog.rules@[j].body) && !left@[j]
                        ==> #[trigger] marks@[j]),
                go ==> idle(marks@) < idle(start),
                idle(marks@) <= idle(start),
            decreases n - i,
        {
            if !marks[i] && !left[i] && is_sure(left, &marks, &prog.rules[i].body) {
                let ghost before = marks@;
                proof {
                    lemma_idle_update(marks@, i as int);
                }
                marks[i] = true;
                go = true;
                proof {
                    assert(below(before, marks@));
                    assert forall|other: Seq<bool>| #[trigger]
                        sure_consistent(prog.rules@, left@, other) implies below(marks@, other) by {
                        assert(below(before, other));
                        lemma_always_mono(left@, before, other, &prog.rules@[i as int].body);
                        assert(other[i as int]);
                    }
                    assert forall|j: int| 0 <= j < n && #[trigger] marks@[j] implies !left@[j]
                        && always_matches(left@, marks@, &prog.rules@[j].body) by {
                        if j != i {
                            assert(before[j]);
                        }
                        lemma_always_mono(left@, before, marks@, &prog.rules@[j].body);
                    }
                }
            }
            i += 1;
        }
    }
    marks
}

/// Whether two programs hold the same rules, whatever their annotations.
pub open spec fn same_rules(a: &Program, b: &Program) -> bool {
    &&& a.size() == b.size()
    &&& forall|i: int|
        0 <= i < a.size() ==> {
            &&& (#[trigger] b.rules@[i]).name == a.rules@[i].name
            &&& b.rules@[i].public == a.rules@[i].public
            &&& b.rules@[i].kind == a.rules@[i].kind
            &&& b.rules@[i].body == a.rules@[i].body
        }
}

/// Whether `problem` is a problem of `prog` that the analysis reports: a
/// rule that holds a repetition or an operator that could be matched for
/// ever, or a rule that is left-recursive beyond repair.  Which rules can
/// match the empty input is taken from the least marking.
pub open spec fn analysis_problem(prog: &Program, problem: CompileError) -> bool {
    match problem {
        CompileError::EmptyRepetition { rule } => rule < prog.size() && exists|flags: Seq<bool>| #[trigger]
            least_nullable(prog.rules@, flags) && stalls(flags, &prog.rules@[rule as int].body),
        CompileError::LeftRecursion { rule } => rule < prog.size() && exists|flags: Seq<bool>| #[trigger]
            least_nullable(prog.rules@, flags) && left_recursion(prog.rules@, flags, rule),
        _ => false,
    }
}

/// Whether every body of the program is sound in itself.
pub open spec fn all_struct_ok(prog: &Program) -> bool {
    forall|i: int| 0 <= i < prog.size() ==> struct_ok(prog.size(), &(#[trigger] prog.rules@[i]).body)
}

/// The first rule from number `k` on whose body stalls.
fn first_stall(prog: &Program, flags: &Vec<bool>) -> (r: Option<usize>)
    ensures
        match r {
            Some(rule) => rule < prog.size() && stalls(flags@, &prog.rules@[rule as int].body),
            None => forall|i: int|
                0 <= i < prog.size() ==> !stalls(flags@, &(#[trigger] prog.rules@[i]).body),
        },
{
    let mut i: usize = 0;
    while i < prog.rules.len()
        invariant
            i <= prog.rules@.len(),
            forall|j: int| 0 <= j < i ==> !stalls(flags@, &(#[trigger] prog.rules@[j]).body),
        decreases prog.rules@.len() - i,
    {
        if finds_stall(flags, &prog.rules[i].body) {
            return Some(i);
        }
        i += 1;
    }
    None
}

/// The static analysis: works out the annotations of the rules of `prog`,
/// or finds why the program cannot be run.
pub fn analyze(prog: Program) -> (r: Result<Program, CompileError>)
    requires
        all_struct_ok(&prog),
    ensures
        match r {
            Ok(out) => same_rules(&prog, &out) && out.wf() && least_nullable(
                out.rules@,
                out.notes().nullable,
            ) && least_sure(out.rules@, out.notes().left_recursive, out.marks()),
            Err(problem) => analysis_problem(&prog, problem),
        },
{
    let flags = nullable_rules(&prog);
    match first_stall(&prog, &flags) {
        Some(rule) => {
            return Err(CompileError::EmptyRepetition { rule });
        },
        None => {},
    }
    match rank_rules(&prog, &flags) {
        Err(rule) => Err(CompileError::LeftRecursion { rule }),
        Ok((rank, left)) => {
            let marks = sure_rules(&prog, &left);
            let mut out = prog;
            let n = out.rules.len();
            let mut i: usize = 0;
            while i < n
                invariant
                    i <= n,
                    n == prog.rules@.len(),
                    out.rules@.len() == n,
                    flags@.len() == n,
                    rank@.len() == n,
                    left@.len() == n,
                    marks@.len() == n,
                    forall|j: int|
                        0 <= j < n ==> {
                            &&& (#[trigger] out.rules@[j]).name == prog.rules@[j].name
                            &&& out.rules@[j].public == prog.rules@[j].public
                            &&& out.rules@[j].kind == prog.rules@[j].kind
                            &&& out.rules@[j].body == prog.rules@[j].body
                        },
                    forall|j: int|
                        0 <= j < i ==> {
                            &&& (#[trigger] out.rules@[j]).nullable == flags@[j]
                            &&& out.rules@[j].left_recursive == left@[j]
                            &&& out.rules@[j].rank == rank@[j]
                            &&& out.rules@[j].infallible == marks@[j]
                        },
                decreases n - i,
            {
                out.rules[i].nullable = flags[i];
                out.rules[i].left_recursive = left[i];
                out.rules[i].rank = rank[i];
                out.rules[i].infallible = marks[i];
                i += 1;
            }
            proof {
                let notes = out.notes();
                assert(notes.nullable =~= flags@);
                assert(notes.left_recursive =~= left@);
                assert(notes.rank =~= notes_of(flags@, left@, rank@).rank);
                assert(notes == notes_of(flags@, left@, rank@));
                assert(out.marks() =~= marks@);
                assert forall|rule: int| 0 <= rule < out.size() implies #[trigger] out.rule_ok(
                    rule,
                ) by {
                    assert(rank@[rule] < n);
                    assert(out.rules@[rule].body == prog.rules@[rule].body);
                    assert(marks@[rule] ==> !left@[rule] && always_matches(
                        left@,
                        marks@,
                        &prog.rules@[rule].body,
                    ));
                }
                lemma_sure_same_bodies(prog.rules@, out.rules@, left@, marks@);
                assert forall|other: Seq<bool>| #[trigger]
                    consistent(out.rules@, other) implies below(flags@, other) by {
                    assert forall|j: int|
                        0 <= j < prog.rules@.len() && nullable(
                            other,
                            &prog.rules@[j].body,
                        ) implies #[trigger] other[j] by {
                        assert(out.rules@[j].body == prog.rules@[j].body);
                    }
                    assert(consistent(prog.rules@, other));
                }
                assert forall|j: int|
                    0 <= j < out.rules@.len() && nullable(
                        flags@,
                        &out.rules@[j].body,
                    ) implies #[trigger] flags@[j] by {
                    assert(out.rules@[j].body == prog.rules@[j].body);
                }
            }
            Ok(out)
        },
    }
}

/// Which rules always match depends on the bodies of the rules alone.
proof fn lemma_sure_same_bodies(
    a: Seq<Routine>,
    b: Seq<Routine>,
    left: Seq<bool>,
    marks: Seq<bool>,
)
    requires
        a.len() == b.len(),
        forall|i: int| 0 <= i < a.len() ==> (#[trigger] a[i]).body == b[i].body,
        least_sure(a, left, marks),
    ensures
        least_sure(b, left, marks),
{
    assert forall|i: int| 0 <= i < b.len() implies (#[trigger] marks[i] ==> !left[i]
        && always_matches(left, marks, &b[i].body)) by {
        assert(a[i].body == b[i].body);
    }
    assert forall|i: int| 0 <= i < b.len() implies (always_matches(left, marks, &b[i].body)
        && !left[i] ==> #[trigger] marks[i]) by {
        assert(a[i].body == b[i].body);
    }
    assert forall|other: Seq<bool>| #[trigger] sure_consistent(b, left, other) implies below(
        marks,
        other,
    ) by {
        assert forall|i: int| 0 <= i < a.len() implies (always_matches(left, other, &a[i].body)
            && !left[i] ==> #[trigger] other[i]) by {
            assert(a[i].body == b[i].body);
        }
        assert(sure_consistent(a, left, other));
    }
}

impl Program {
    /// Whether the program can be run.  A program that `analyze` returned
    /// can; one that was put together by hand is tested here before it is
    /// run.
    pub fn check(&self) -> (r: bool)
        ensures
            r == self.wf(),
    {
        let n = self.rules.len();
        let mut flags: Vec<bool> = Vec::new();
        let mut left: Vec<bool> = Vec::new();
        let mut rank: Vec<usize> = Vec::new();
        let mut marks: Vec<bool> = Vec::new();
        let mut i: usize = 0;
        while i < n
            invariant
                i <= n,
                n == self.rules@.len(),
                flags@.len() == i,
                left@.len() == i,
                rank@.len() == i,
                marks@.len() == i,
                forall|j: int|
                    0 <= j < i ==> flags@[j] == self.rules@[j].nullable && left@[j]
                        == self.rules@[j].left_recursive && rank@[j] == self.rules@[j].rank
                        && marks@[j] == self.rules@[j].infallible,
            decreases n - i,
        {
            flags.push(self.rules[i].nullable);
            left.push(self.rules[i].left_recursive);
            rank.push(self.rules[i].rank);
            marks.push(self.rules[i].infallible);
            i += 1;
        }
        proof {
            let notes = self.notes();
            assert(notes.nullable =~= flags@);
            assert(notes.left_recursive =~= left@);
            assert(notes.rank =~= notes_of(flags@, left@, rank@).rank);
            assert(notes == notes_of(flags@, left@, rank@));
            assert(self.marks() =~= marks@);
        }
        let mut k: usize = 0;
        while k < n
            invariant
                k <= n,
                n == self.rules@.len(),
                flags@.len() == n,
                left@.len() == n,
                rank@.len() == n,
                marks@.len() == n,
                self.marks() == marks@,
                self.notes().left_recursive == left@,
                self.notes() == notes_of(flags@, left@, rank@),
                forall|j: int| 0 <= j < k ==> #[trigger] self.rule_ok(j),
            decreases n - k,
        {
            let routine = &self.rules[k];
            let bound = if routine.left_recursive {
                n
            } else {
                routine.rank
            };
            let memoized = match routine.kind {
                RuleKind::Memoized => true,
                _ => false,
            };
            let ok = routine.rank < n && check_op(&flags, &left, &rank, &routine.body, bound) && (
            routine.nullable || !is_nullable(&flags, &routine.body)) && (memoized
                || !routine.left_recursive) && (!routine.infallible || (!routine.left_recursive
                && is_sure(&left, &marks, &routine.body)));
            if !ok {
                assert(!self.rule_ok(k as int));
                return false;
            }
            k += 1;
        }
        true
    }
}

} // verus!
