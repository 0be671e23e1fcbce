//! Semantic values: what a successful match hands back.

use crate::result::RuleResult;
use vstd::prelude::*;

verus! {

/// The value of a match, as a tree.
#[derive(PartialEq, Eq, Debug)]
pub enum Value {
    /// A match that carries no information of its own.
    Unit,
    /// One input element, by its code.
    Elem(u32),
    /// The stretch of input between two positions.
    Span(usize, usize),
    /// A position in the input.
    Position(usize),
    /// The values of a repetition, or the kept values of a sequence, in order.
    List(Vec<Value>),
    /// An optional part that was not there.
    Absent,
    /// An optional part that was there.
    Present(Box<Value>),
    /// What an action built: the action's number and its arguments.
    Node(usize, Vec<Value>),
}

/// The mathematical form of a [`Value`].
pub ghost enum Tree {
    Unit,
    Elem(u32),
    Span(usize, usize),
    Position(usize),
    List(Seq<Tree>),
    Absent,
    Present(Box<Tree>),
    Node(usize, Seq<Tree>),
}

/// The trees of a sequence of values.
pub open spec fn trees(values: Seq<Value>) -> Seq<Tree>
    decreases values, 1nat,
{
    Seq::new(values.len(), |i: int| tree_at(values, i))
}

/// The tree of the value at index `i`, or a unit outside the sequence.
pub open spec fn tree_at(values: Seq<Value>, i: int) -> Tree
    decreases values, 0nat,
{
    if 0 <= i < values.len() {
        tree_of(values[i])
    } else {
        Tree::Unit
    }
}

/// The tree of a value.
pub open spec fn tree_of(value: Value) -> Tree
    decreases value,
{
    match value {
        Value::Unit => Tree::Unit,
        Value::Elem(code) => Tree::Elem(code),
        Value::Span(from, to) => Tree::Span(from, to),
        Value::Position(pos) => Tree::Position(pos),
        Value::List(items) => Tree::List(trees(items@)),
        Value::Absent => Tree::Absent,
        Value::Present(inner) => Tree::Present(Box::new(tree_of(*inner))),
        Value::Node(action, args) => Tree::Node(action, trees(args@)),
    }
}

impl View for Value {
    type V = Tree;

    open spec fn view(&self) -> Tree {
        tree_of(*self)
    }
}

/// The mathematical form of a match result over values.
pub open spec fn result_view(r: RuleResult<Value>) -> RuleResult<Tree> {
    match r {
        RuleResult::Matched(pos, value) => RuleResult::Matched(pos, value@),
        RuleResult::Failed => RuleResult::Failed,
    }
}

/// The mathematical form of an optional value.
pub open spec fn option_view(r: Option<Value>) -> Option<Tree> {
    match r {
        Some(value) => Some(value@),
        None => None,
    }
}

/// The trees of a list with one more value.
pub proof fn lemma_trees_push(values: Seq<Value>, value: Value)
    ensures
        trees(values.push(value)) == trees(values).push(value@),
{
    assert(trees(values.push(value)) =~= trees(values).push(value@));
}

/// No values have no trees.
pub proof fn lemma_trees_empty()
    ensures
        trees(Seq::<Value>::empty()) == Seq::<Tree>::empty(),
{
    assert(trees(Seq::<Value>::empty()) =~= Seq::<Tree>::empty());
}

impl Value {
    /// A copy with the same tree.
    pub fn duplicate(&self) -> (r: Value)
        ensures
            r@ == self@,
        decreases self, 0nat,
    {
        match self {
            Value::Unit => Value::Unit,
            Value::Elem(code) => Value::Elem(*code),
            Value::Span(from, to) => Value::Span(*from, *to),
            Value::Position(pos) => Value::Position(*pos),
            Value::List(items) => {
                let copy = duplicate_all(items, 0, Vec::new());
                proof {
                    assert(trees(copy@) =~= trees(items@));
                }
                Value::List(copy)
            },
            Value::Absent => Value::Absent,
            Value::Present(inner) => Value::Present(Box::new(inner.duplicate())),
            Value::Node(action, args) => {
                let copy = duplicate_all(args, 0, Vec::new());
                proof {
                    assert(trees(copy@) =~= trees(args@));
                }
                Value::Node(*action, copy)
            },
        }
    }
}

/// Copies the values from index `k` on behind `done`.
fn duplicate_all(values: &Vec<Value>, k: usize, done: Vec<Value>) -> (r: Vec<Value>)
    requires
        k <= values@.len(),
        done@.len() == k,
        forall|i: int| 0 <= i < k ==> done@[i]@ == values@[i]@,
    ensures
        r@.len() == values@.len(),
        forall|i: int| 0 <= i < r@.len() ==> r@[i]@ == values@[i]@,
    decreases values, values@.len() - k,
{
    if k < values.len() {
        let mut done = done;
        done.push(values[k].duplicate());
        duplicate_all(values, k + 1, done)
    } else {
        done
    }
}

/// A copy of a list of values with the same trees.
pub fn duplicate_values(values: &Vec<Value>) -> (r: Vec<Value>)
    ensures
        trees(r@) == trees(values@),
{
    let copy = duplicate_all(values, 0, Vec::new());
    proof {
        assert(trees(copy@) =~= trees(values@));
    }
    copy
}

/// A copy of a match result with the same view.
pub fn duplicate_result(r: &RuleResult<Value>) -> (copy: RuleResult<Value>)
    ensures
        result_view(copy) == result_view(*r),
{
    match r {
        RuleResult::Matched(pos, value) => RuleResult::Matched(*pos, value.duplicate()),
        RuleResult::Failed => RuleResult::Failed,
    }
}

} // verus!
