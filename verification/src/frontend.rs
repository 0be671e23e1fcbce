//! The whole way from the tokens of a grammar to a program that can be run,
//! or to the one diagnostic that says why there is none.

use crate::analysis::{analysis_problem, least_nullable, least_sure};
use crate::ast::Grammar;
use crate::compile::compile;
use crate::error::{diagnostic_message, diagnostic_text, ExpectedSet};
use crate::grammar::{g_grammar, parse_grammar};
use crate::program::Program;
use crate::tokens::Token;
use crate::translate::{compiled, first_problem, CompileError};
use vstd::prelude::*;
use vstd::string::StringExecFns;

verus! {

/// Why there is no program: a position in the text of the grammar, as the
/// index of a token, and what is wrong there.
pub struct Diagnostic {
    pub position: usize,
    pub message: String,
}

impl CompileError {
    /// What the problem is, in words.
    pub open spec fn explanation(self) -> Seq<char> {
        match self {
            CompileError::DuplicateRule { .. } => "rule defined more than once"@,
            CompileError::UnresolvedReference { .. } => "reference to an undefined rule"@,
            CompileError::WrongArity { .. } => "wrong number of arguments for rule"@,
            CompileError::CyclicExpansion { .. } => "rule with parameters expands into itself"@,
            CompileError::EmptyChoice { .. } => "choice without alternatives"@,
            CompileError::RepetitionBounds { .. } => "repetition with a minimum above its maximum"@,
            CompileError::EmptyRepetition { .. } => "repetition of something that may match nothing"@,
            CompileError::InvalidPrecedence { .. } => "precedence block without an operand"@,
            CompileError::LeftRecursion { .. } =>
                "left recursion outside a memoized rule or a precedence block"@,
        }
    }

    /// The number of the rule in which the problem was found.
    pub fn rule(&self) -> (r: usize)
        ensures
            r == self.rule_of(),
    {
        match self {
            CompileError::DuplicateRule { rule } => *rule,
            CompileError::UnresolvedReference { rule } => *rule,
            CompileError::WrongArity { rule } => *rule,
            CompileError::CyclicExpansion { rule } => *rule,
            CompileError::EmptyChoice { rule } => *rule,
            CompileError::RepetitionBounds { rule } => *rule,
            CompileError::EmptyRepetition { rule } => *rule,
            CompileError::InvalidPrecedence { rule } => *rule,
            CompileError::LeftRecursion { rule } => *rule,
        }
    }

    /// What the problem is, in words.
    pub fn explain(&self) -> (r: String)
        ensures
            r@ == self.explanation(),
    {
        match self {
            CompileError::DuplicateRule { .. } => String::from_str("rule defined more than once"),
            CompileError::UnresolvedReference { .. } => String::from_str(
                "reference to an undefined rule",
            ),
            CompileError::WrongArity { .. } => String::from_str(
                "wrong number of arguments for rule",
            ),
            CompileError::CyclicExpansion { .. } => String::from_str(
                "rule with parameters expands into itself",
            ),
            CompileError::EmptyChoice { .. } => String::from_str("choice without alternatives"),
            CompileError::RepetitionBounds { .. } => String::from_str(
                "repetition with a minimum above its maximum",
            ),
            CompileError::EmptyRepetition { .. } => String::from_str(
                "repetition of something that may match nothing",
            ),
            CompileError::InvalidPrecedence { .. } => String::from_str(
                "precedence block without an operand",
            ),
            CompileError::LeftRecursion { .. } => String::from_str(
                "left recursion outside a memoized rule or a precedence block",
            ),
        }
    }
}

/// Whether `d` reports the problem `problem` of the grammar `g`: at the
/// place where the rule with the problem begins, in the words that explain
/// the problem.
pub open spec fn reports(d: &Diagnostic, g: &Grammar, problem: CompileError) -> bool {
    &&& problem.rule_of() < g.size()
    &&& d.position == g.rules@[problem.rule_of() as int].at
    &&& d.message@ == problem.explanation()
}

/// Whether `r` is what compiling the grammar `g` comes to.
pub open spec fn compile_outcome(g: &Grammar, r: Result<Program, Diagnostic>) -> bool {
    match first_problem(g, 0) {
        Some(problem) => r matches Err(d) && reports(&d, g, problem),
        None => match r {
            Ok(prog) => compiled(g, &prog) && prog.wf() && least_nullable(
                prog.rules@,
                prog.notes().nullable,
            ) && least_sure(prog.rules@, prog.notes().left_recursive, prog.marks()),
            Err(d) => exists|plain: Program, problem: CompileError|
                #![trigger analysis_problem(&plain, problem)]
                compiled(g, &plain) && analysis_problem(&plain, problem) && reports(
                    &d,
                    g,
                    problem,
                ),
        },
    }
}

/// Compiles the grammar that the tokens spell.
///
/// Where the tokens do not spell a grammar, the diagnostic stands at the
/// furthest point that reading them reached and says what was expected
/// there, adding that the text ended where it did.  Where they do, the
/// outcome is that of compiling the grammar: the program, or the
/// diagnostic of the problem that was found.
pub fn parser(tokens: &Vec<Token>) -> (r: Result<Program, Diagnostic>)
    ensures
        match g_grammar(tokens@) {
            Err(furthest) => r matches Err(d) && d.position == furthest.pos && d.message@
                == diagnostic_text(
                ExpectedSet::text(furthest.expected),
                furthest.pos >= tokens@.len(),
            ),
            Ok(rules) => exists|g: Grammar| #[trigger] g@ == rules && compile_outcome(&g, r),
        },
{
    match parse_grammar(tokens) {
        Err(e) => {
            let at_end = e.offset >= tokens.len();
            let text = e.expected.render();
            let message = diagnostic_message(text.as_str(), at_end);
            Err(Diagnostic { position: e.offset, message })
        },
        Ok(grammar) => {
            let r = match compile(&grammar) {
                Ok(prog) => Ok(prog),
                Err(problem) => {
                    let rule = problem.rule();
                    Err(Diagnostic { position: grammar.rules[rule].at, message: problem.explain() })
                },
            };
            assert(grammar@ == grammar@ && compile_outcome(&grammar, r));
            r
        },
    }
}

} // verus!
