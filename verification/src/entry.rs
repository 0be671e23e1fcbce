//! Running a program: the routine of each rule, and the entry point that
//! turns its outcome into a value or an error.

use crate::error::{ErrorState, Furthest, ParseError};
use crate::input::{Parse, ParseElem, ParseLiteral, Symbol};
use crate::matcher::{run_call, run_post, state_ok, ParseState};
use crate::memo::Memo;
use crate::program::{Op, Program};
use crate::result::RuleResult;
use crate::semantics::{eval_rule, Actions, Outcome};
use crate::value::{duplicate_values, trees, Tree, Value};
use vstd::prelude::*;
use vstd::string::StringExecFns;

verus! {

/// The host that builds a tree: every action yields a node that holds the
/// action's number and its arguments, and none refuses.
pub struct TreeBuilder;

impl Actions for TreeBuilder {
    open spec fn outcome(&self, action: usize, args: Seq<Tree>, start: usize, end: usize) -> Option<
        Tree,
    > {
        Some(Tree::Node(action, args))
    }

    fn run(&self, action: usize, args: &Vec<Value>, start: usize, end: usize) -> (r: Option<Value>) {
        Some(Value::Node(action, duplicate_values(args)))
    }
}

impl ParseState {
    /// The state at the beginning of a parse that starts at `start`: no
    /// failure has been seen and nothing is remembered.
    pub fn new(prog: &Program, start: usize) -> (st: ParseState)
        ensures
            st.tracker.wf(),
            st.tracker@ == Furthest::none_yet(start),
            st.memo.rules() == prog.size(),
            forall|rule: int, pos: usize| !st.memo.has(rule, pos),
    {
        ParseState { tracker: ErrorState::new(start), memo: Memo::new(prog.rules.len()) }
    }
}

/// Why a parse that was asked for by the name of a rule gave no value.
pub enum EntryError<L> {
    /// The program has no rule of that name at which a parse may start.
    NoEntry,
    /// The input does not match.
    Mismatch(ParseError<L>),
}

/// The label that is expected where a rule matched and input is left over.
pub open spec fn end_label() -> Seq<char> {
    "EOF"@
}

/// What a parse that starts at rule number `rule` comes to: the value of the
/// rule if it matches up to the end of the input, and otherwise the furthest
/// failure, which for a match that stops short includes the missing end.
pub open spec fn parse_outcome<I, H>(prog: &Program, input: &I, host: &H, rule: usize) -> Result<
    Tree,
    Furthest,
> where I: ParseElem + ParseLiteral + ?Sized, I::Element: Symbol, H: Actions {
    let o = eval_rule(prog, input, host, rule, input.start_pos());
    let seen = Furthest::none_yet(input.start_pos()).join(o.furthest);
    match o.result {
        RuleResult::Matched(q, value) => {
            if q >= input.end_pos() {
                Ok(value)
            } else {
                Err(seen.note(q, end_label()))
            }
        },
        RuleResult::Failed => Err(seen),
    }
}

impl Program {
    /// The number of the first rule called `name`.
    pub fn rule_index(&self, name: &str) -> (r: Option<usize>)
        ensures
            match r {
                Some(i) => i < self.size() && self.rules@[i as int].name@ == name@ && forall|j: int|
                    0 <= j < i ==> (#[trigger] self.rules@[j]).name@ != name@,
                None => forall|j: int|
                    0 <= j < self.size() ==> (#[trigger] self.rules@[j]).name@ != name@,
            },
    {
        let wanted = String::from_str(name);
        let mut i: usize = 0;
        while i < self.rules.len()
            invariant
                i <= self.rules@.len(),
                wanted@ == name@,
                forall|j: int| 0 <= j < i ==> (#[trigger] self.rules@[j]).name@ != name@,
            decreases self.rules@.len() - i,
        {
            if self.rules[i].name == wanted {
                return Some(i);
            }
            i += 1;
        }
        None
    }

    /// The number of the rule called `name` at which a parse may start: the
    /// first rule of that name, if it is public.
    pub open spec fn entry(&self, name: Seq<char>) -> Option<usize> {
        if exists|i: int| 0 <= i < self.size() && (#[trigger] self.rules@[i]).name@ == name {
            let first = choose|i: int|
                0 <= i < self.size() && (#[trigger] self.rules@[i]).name@ == name && forall|j: int|
                    0 <= j < i ==> (#[trigger] self.rules@[j]).name@ != name;
            if self.rules@[first].public {
                Some(first as usize)
            } else {
                None
            }
        } else {
            None
        }
    }

    /// Parses the whole of `input` from the public rule called `name`.
    pub fn parse_public<I, H>(&self, input: &I, host: &H, name: &str) -> (r: Result<
        Value,
        EntryError<I::PositionRepr>,
    >) where I: ParseElem + ParseLiteral + ?Sized, I::Element: Symbol, H: Actions
        requires
            self.wf(),
        ensures
            match self.entry(name@) {
                None => r matches Err(EntryError::NoEntry),
                Some(rule) => rule < self.size() && match parse_outcome(self, input, host, rule) {
                    Ok(value) => r matches Ok(got) && got@ == value,
                    Err(furthest) => r matches Err(EntryError::Mismatch(e)) && e.offset
                        == furthest.pos && e.expected@ == furthest.expected,
                },
            },
    {
        match self.rule_index(name) {
            Some(rule) => {
                proof {
                    let first = choose|i: int|
                        0 <= i < self.size() && (#[trigger] self.rules@[i]).name@ == name@
                            && forall|j: int|
                            0 <= j < i ==> (#[trigger] self.rules@[j]).name@ != name@;
                    assert(self.rules@[rule as int].name@ == name@);
                    if first < rule {
                        assert(self.rules@[first].name@ != name@);
                    }
                    if rule < first {
                        assert(self.rules@[rule as int].name@ != name@);
                    }
                }
                if self.rules[rule].public {
                    match self.parse(input, host, rule) {
                        Ok(value) => Ok(value),
                        Err(e) => Err(EntryError::Mismatch(e)),
                    }
                } else {
                    Err(EntryError::NoEntry)
                }
            },
            None => Err(EntryError::NoEntry),
        }
    }

    /// The matching routine of rule number `rule`: runs the rule at `pos`.
    ///
    /// The result is the rule's outcome as the semantics gives it, whatever
    /// the state remembers; a match ends at or behind `pos` and inside the
    /// input; the furthest failure takes in every failure met.
    pub fn match_rule<I, H>(
        &self,
        input: &I,
        host: &H,
        rule: usize,
        pos: usize,
        st: &mut ParseState,
    ) -> (r: RuleResult<Value>) where
        I: ParseElem + ParseLiteral + ?Sized,
        I::Element: Symbol,
        H: Actions,

        requires
            self.wf(),
            rule < self.size(),
            pos <= input.end_pos(),
            state_ok(old(st), self, input, host),
        ensures
            run_post(
                self,
                input,
                host,
                eval_rule(self, input, host, rule, pos),
                pos,
                self.rules@[rule as int].nullable,
                old(st),
                final(st),
                r,
            ),
            self.rules@[rule as int].infallible ==> r is Matched,
    {
        assert(self.rule_ok(rule as int));
        run_call(self, input, host, rule, pos, self.rules.len(), None, st)
    }

    /// Parses the whole of `input` from rule number `rule`.
    pub fn parse<I, H>(&self, input: &I, host: &H, rule: usize) -> (r: Result<
        Value,
        ParseError<I::PositionRepr>,
    >) where I: ParseElem + ParseLiteral + ?Sized, I::Element: Symbol, H: Actions
        requires
            self.wf(),
            rule < self.size(),
        ensures
            match parse_outcome(self, input, host, rule) {
                Ok(value) => r matches Ok(got) && got@ == value,
                Err(furthest) => r matches Err(e) && e.offset == furthest.pos && e.expected@
                    == furthest.expected,
            },
            r matches Err(e) ==> e.expected.wf(),
    {
        let start = input.start();
        let mut st = ParseState::new(self, start);
        match self.match_rule(input, host, rule, start, &mut st) {
            RuleResult::Matched(q, value) => {
                if input.is_eof(q) {
                    Ok(value)
                } else {
                    proof {
                        reveal_strlit("EOF");
                    }
                    st.tracker.mark_failure(q, "EOF");
                    Err(st.tracker.into_parse_error(input))
                }
            },
            RuleResult::Failed => Err(st.tracker.into_parse_error(input)),
        }
    }
}

} // verus!
