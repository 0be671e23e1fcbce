//! The compiler: from a grammar to a program that can be run.

use crate::analysis::{
    analysis_problem, analyze, consistent, endless, least_nullable, least_sure, left_recursion,
    link, same_rules,
};
use crate::ast::Grammar;
use crate::program::{head_calls, stalls, Program, RuleKind};
use crate::model::op_model;
use crate::static_laws::{alike, below, lemma_ok_heads, lemma_ok_is_sound, lemma_same_form_alike};
use crate::translate::{compiled, first_problem, rule_compiled, translate, CompileError};
use vstd::prelude::*;

verus! {

/// Compiles a grammar: translates its rules and analyses the result.
///
/// A problem of the translation is reported as the translation finds it.
/// Otherwise the result is the translated program with its annotations,
/// ready to run, or a problem that the analysis found in the translated
/// program.
pub fn compile(g: &Grammar) -> (r: Result<Program, CompileError>)
    ensures
        match first_problem(g, 0) {
            Some(problem) => r == Err::<Program, CompileError>(problem),
            None => match r {
                Ok(prog) => compiled(g, &prog) && prog.wf() && least_nullable(
                    prog.rules@,
                    prog.notes().nullable,
                ) && least_sure(prog.rules@, prog.notes().left_recursive, prog.marks()),
                Err(problem) => exists|plain: Program| #[trigger]
                    compiled(g, &plain) && analysis_problem(&plain, problem),
            },
        },
        r matches Err(problem) ==> problem.rule_of() < g.size(),
{
    match translate(g) {
        Err(problem) => Err(problem),
        Ok(plain) => {
            proof {
                assert forall|i: int| 0 <= i < plain.size() implies crate::program::struct_ok(
                    plain.size(),
                    &(#[trigger] plain.rules@[i]).body,
                ) by {
                    assert(rule_compiled(g, &plain, i));
                }
            }
            let ghost witness = plain;
            match analyze(plain) {
                Ok(prog) => {
                    proof {
                        assert forall|i: int| 0 <= i < g.size() implies #[trigger] rule_compiled(
                            g,
                            &prog,
                            i,
                        ) by {
                            assert(rule_compiled(g, &witness, i));
                            assert(prog.rules@[i].body == witness.rules@[i].body);
                        }
                    }
                    Ok(prog)
                },
                Err(problem) => {
                    assert(compiled(g, &witness) && analysis_problem(&witness, problem));
                    Err(problem)
                },
            }
        },
    }
}

/// In a program that can be run, no chain of first calls among rules that
/// are not memoized goes on for ever.
proof fn lemma_no_endless_chain(prog: &Program, chain: Set<int>, r: int)
    requires
        prog.wf(),
        endless(prog.rules@, prog.notes().nullable, chain),
    ensures
        !chain.contains(r),
    decreases prog.rules@[r].rank,
{
    if chain.contains(r) {
        let notes = prog.notes();
        assert(link(prog.rules@, notes.nullable, chain, r));
        reveal(link);
        assert(prog.rule_ok(r));
        let u = choose|u: int|
            0 <= u < prog.rules@.len() && #[trigger] chain.contains(u) && head_calls(
                notes.nullable,
                &prog.rules@[r].body,
                u as usize,
            );
        assert(prog.rules.len() == prog.rules@.len());
        lemma_ok_heads(notes, &prog.rules@[r].body, prog.body_bound(r), u as usize);
        assert(prog.rule_ok(u));
        assert(chain.contains(u));
        assert(notes.left_recursive[u] == prog.rules@[u].left_recursive);
        assert(notes.rank[u] == prog.rules@[u].rank as nat);
        assert(!prog.rules@[r].left_recursive);
        assert(!prog.rules@[u].left_recursive);
        assert(prog.rules@[u].rank < prog.rules@[r].rank);
        lemma_no_endless_chain(prog, chain, u);
    }
}

/// A program that can be run has none of the problems that the analysis
/// reports: what is accepted and what is refused never overlap.
pub proof fn law_runnable_has_no_problem(prog: &Program, problem: CompileError)
    requires
        prog.wf(),
        least_nullable(prog.rules@, prog.notes().nullable),
    ensures
        !analysis_problem(prog, problem),
{
    let own = prog.notes().nullable;
    if analysis_problem(prog, problem) {
        match problem {
            CompileError::EmptyRepetition { rule } => {
                let flags = choose|flags: Seq<bool>| #[trigger]
                    least_nullable(prog.rules@, flags) && stalls(
                        flags,
                        &prog.rules@[rule as int].body,
                    );
                assert(consistent(prog.rules@, own));
                assert(consistent(prog.rules@, flags));
                assert(below(flags, own) && below(own, flags));
                assert(flags =~= own);
                assert(prog.rule_ok(rule as int));
                lemma_ok_is_sound(
                    prog.notes(),
                    &prog.rules@[rule as int].body,
                    prog.body_bound(rule as int),
                );
            },
            CompileError::LeftRecursion { rule } => {
                let flags = choose|flags: Seq<bool>| #[trigger]
                    least_nullable(prog.rules@, flags) && left_recursion(prog.rules@, flags, rule);
                assert(consistent(prog.rules@, own));
                assert(consistent(prog.rules@, flags));
                assert(below(flags, own) && below(own, flags));
                assert(flags =~= own);
                let chain = choose|chain: Set<int>| #[trigger]
                    endless(prog.rules@, flags, chain) && chain.contains(rule as int);
                lemma_no_endless_chain(prog, chain, rule as int);
            },
            _ => {},
        }
    }
}

/// Two programs that hold the rules of the same grammar have bodies of
/// the same form and rules of the same kind.
proof fn lemma_compiled_alike(g: &Grammar, a: &Program, b: &Program, flags: Seq<bool>, i: int)
    requires
        compiled(g, a),
        compiled(g, b),
        0 <= i < g.size(),
    ensures
        alike(flags, &a.rules@[i].body, &b.rules@[i].body),
        a.rules@[i].kind == b.rules@[i].kind,
{
    assert(rule_compiled(g, a, i));
    assert(rule_compiled(g, b, i));
    assert(op_model(&a.rules@[i].body) == op_model(&b.rules@[i].body));
    lemma_same_form_alike(flags, &a.rules@[i].body, &b.rules@[i].body);
}

/// A marking that is consistent for one program of a grammar is consistent
/// for every program of it.
proof fn lemma_consistent_alike(g: &Grammar, a: &Program, b: &Program, flags: Seq<bool>)
    requires
        compiled(g, a),
        compiled(g, b),
        consistent(a.rules@, flags),
    ensures
        consistent(b.rules@, flags),
{
    assert forall|i: int| 0 <= i < b.rules@.len() && crate::program::nullable(
        flags,
        &b.rules@[i].body,
    ) implies #[trigger] flags[i] by {
        lemma_compiled_alike(g, a, b, flags, i);
    }
}

/// The least marking of one program of a grammar is the least marking of
/// every program of it.
proof fn lemma_least_alike(g: &Grammar, a: &Program, b: &Program, flags: Seq<bool>)
    requires
        compiled(g, a),
        compiled(g, b),
        least_nullable(a.rules@, flags),
    ensures
        least_nullable(b.rules@, flags),
{
    lemma_consistent_alike(g, a, b, flags);
    assert forall|other: Seq<bool>| #[trigger] consistent(b.rules@, other) implies below(
        flags,
        other,
    ) by {
        lemma_consistent_alike(g, b, a, other);
    }
}

/// An endless chain in one program of a grammar is an endless chain in
/// every program of it.
proof fn lemma_chain_alike(
    g: &Grammar,
    a: &Program,
    b: &Program,
    flags: Seq<bool>,
    chain: Set<int>,
)
    requires
        compiled(g, a),
        compiled(g, b),
        endless(a.rules@, flags, chain),
    ensures
        endless(b.rules@, flags, chain),
{
    assert forall|r: int| #[trigger] chain.contains(r) implies link(
        b.rules@,
        flags,
        chain,
        r,
    ) by {
        assert(link(a.rules@, flags, chain, r));
        lemma_link_alike(g, a, b, flags, chain, r);
    }
}

/// A link of a chain in one program of a grammar is a link of it in every
/// program of the grammar.
proof fn lemma_link_alike(
    g: &Grammar,
    a: &Program,
    b: &Program,
    flags: Seq<bool>,
    chain: Set<int>,
    r: int,
)
    requires
        compiled(g, a),
        compiled(g, b),
        link(a.rules@, flags, chain, r),
    ensures
        link(b.rules@, flags, chain, r),
{
    reveal(link);
    lemma_compiled_alike(g, a, b, flags, r);
    let u = choose|u: int|
        0 <= u < a.rules@.len() && #[trigger] chain.contains(u) && head_calls(
            flags,
            &a.rules@[r].body,
            u as usize,
        );
    assert(head_calls(flags, &b.rules@[r].body, u as usize));
}

/// A problem that the analysis reports is a problem of the grammar: it is a
/// problem of one program that holds the rules of the grammar exactly if it
/// is a problem of every such program.
pub proof fn law_problem_belongs_to_grammar(g: &Grammar, a: &Program, b: &Program, problem: CompileError)
    requires
        compiled(g, a),
        compiled(g, b),
        analysis_problem(a, problem),
    ensures
        analysis_problem(b, problem),
{
    match problem {
        CompileError::EmptyRepetition { rule } => {
            let flags = choose|flags: Seq<bool>| #[trigger]
                least_nullable(a.rules@, flags) && stalls(flags, &a.rules@[rule as int].body);
            lemma_least_alike(g, a, b, flags);
            lemma_compiled_alike(g, a, b, flags, rule as int);
            assert(least_nullable(b.rules@, flags) && stalls(flags, &b.rules@[rule as int].body));
        },
        CompileError::LeftRecursion { rule } => {
            let flags = choose|flags: Seq<bool>| #[trigger]
                least_nullable(a.rules@, flags) && left_recursion(a.rules@, flags, rule);
            lemma_least_alike(g, a, b, flags);
            let chain = choose|chain: Set<int>| #[trigger]
                endless(a.rules@, flags, chain) && chain.contains(rule as int);
            lemma_chain_alike(g, a, b, flags, chain);
            assert(endless(b.rules@, flags, chain) && chain.contains(rule as int));
            assert(least_nullable(b.rules@, flags) && left_recursion(b.rules@, flags, rule));
        },
        _ => {},
    }
}

/// Whether a grammar is accepted is decided by the grammar: where one
/// program that holds its rules can be run, no program that holds its rules
/// has a problem that the analysis reports.
pub proof fn law_compile_decides(
    g: &Grammar,
    prog: &Program,
    plain: &Program,
    problem: CompileError,
)
    requires
        compiled(g, prog),
        prog.wf(),
        least_nullable(prog.rules@, prog.notes().nullable),
        compiled(g, plain),
    ensures
        !analysis_problem(plain, problem),
{
    law_runnable_has_no_problem(prog, problem);
    if analysis_problem(plain, problem) {
        law_problem_belongs_to_grammar(g, plain, prog, problem);
    }
}

} // verus!
