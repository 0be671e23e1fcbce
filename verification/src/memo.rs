//! The per-parse store of remembered rule outcomes.

use crate::result::RuleResult;
use crate::value::{duplicate_result, result_view, Tree, Value};
use std::collections::HashMap;
use vstd::prelude::*;

verus! {

broadcast use vstd::std_specs::hash::group_hash_axioms;

/// Remembered outcomes, one table per rule, keyed by start position.
pub struct Memo {
    tables: Vec<HashMap<usize, RuleResult<Value>>>,
}

impl Memo {
    /// The number of rules that the store has a table for.
    pub closed spec fn rules(&self) -> nat {
        self.tables@.len()
    }

    /// Whether an outcome is remembered for `rule` at `pos`.
    pub closed spec fn has(&self, rule: int, pos: usize) -> bool {
        0 <= rule < self.tables@.len() && self.tables@[rule]@.contains_key(pos)
    }

    /// The outcome remembered for `rule` at `pos`.
    pub closed spec fn at(&self, rule: int, pos: usize) -> RuleResult<Tree> {
        result_view(self.tables@[rule]@[pos])
    }

    /// A store for `rules` rules that remembers nothing.
    pub fn new(rules: usize) -> (r: Memo)
        ensures
            r.rules() == rules,
            forall|rule: int, pos: usize| !r.has(rule, pos),
    {
        let mut tables: Vec<HashMap<usize, RuleResult<Value>>> = Vec::new();
        let mut i: usize = 0;
        while i < rules
            invariant
                i <= rules,
                tables@.len() == i,
                forall|rule: int, pos: usize|
                    0 <= rule < i ==> !(#[trigger] tables@[rule]@.contains_key(pos)),
            decreases rules - i,
        {
            tables.push(HashMap::new());
            i += 1;
        }
        Memo { tables }
    }

    /// A copy of the outcome remembered for `rule` at `pos`, if there is one.
    pub fn lookup(&self, rule: usize, pos: usize) -> (r: Option<RuleResult<Value>>)
        requires
            rule < self.rules(),
        ensures
            match r {
                Some(found) => self.has(rule as int, pos) && result_view(found) == self.at(
                    rule as int,
                    pos,
                ),
                None => !self.has(rule as int, pos),
            },
    {
        match self.tables[rule].get(&pos) {
            Some(found) => Some(duplicate_result(found)),
            None => None,
        }
    }

    /// Remembers `outcome` for `rule` at `pos`.
    pub fn store(&mut self, rule: usize, pos: usize, outcome: RuleResult<Value>)
        requires
            rule < old(self).rules(),
        ensures
            final(self).rules() == old(self).rules(),
            forall|r2: int, p2: usize|
                #[trigger] final(self).has(r2, p2) == (old(self).has(r2, p2) || (r2 == rule && p2
                    == pos)),
            forall|r2: int, p2: usize|
                final(self).has(r2, p2) ==> #[trigger] final(self).at(r2, p2) == (if r2 == rule
                    && p2 == pos {
                    result_view(outcome)
                } else {
                    old(self).at(r2, p2)
                }),
    {
        self.tables[rule].insert(pos, outcome);
    }
}

} // verus!
