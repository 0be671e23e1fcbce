//! Furthest-failure tracking and the errors built from it.
//!
//! Backtracking throws failures away, but a useful report names the deepest
//! point that any attempt reached and everything that would have been
//! accepted there.  The tracker keeps exactly that: one position and the set
//! of labels expected at it.

use crate::input::Parse;
use crate::order::{
    before, comes_before, in_order, lemma_chain, lemma_not_both, lemma_one_of, lemma_one_order, ordered,
};
use crate::result::RuleResult;
use vstd::prelude::*;
use vstd::string::StringExecFns;

verus! {

/// The best known failure: a position and the labels expected there.
pub struct Furthest {
    pub pos: usize,
    pub expected: Set<Seq<char>>,
}

impl Furthest {
    /// Nothing has failed yet, as seen from position `pos`.
    pub open spec fn none_yet(pos: usize) -> Furthest {
        Furthest { pos, expected: Set::empty() }
    }

    /// A single failure at `pos`, where `label` was expected.
    pub open spec fn single(pos: usize, label: Seq<char>) -> Furthest {
        Furthest { pos, expected: Set::empty().insert(label) }
    }

    /// The deeper of two summaries; at equal depth the labels accumulate.
    pub open spec fn join(self, other: Furthest) -> Furthest {
        if self.pos > other.pos {
            self
        } else if self.pos < other.pos {
            other
        } else {
            Furthest { pos: self.pos, expected: self.expected.union(other.expected) }
        }
    }

    /// The summary after one more failure at `pos`, where `label` was expected.
    pub open spec fn note(self, pos: usize, label: Seq<char>) -> Furthest {
        self.join(Furthest::single(pos, label))
    }

    /// Whether joining `other` into `self` changes nothing.
    pub open spec fn absorbs(self, other: Furthest) -> bool {
        self.join(other) == self
    }

    /// Joining is associative.
    pub proof fn lemma_join_assoc(a: Furthest, b: Furthest, c: Furthest)
        ensures
            a.join(b).join(c) == a.join(b.join(c)),
    {
        assert(a.expected.union(b.expected).union(c.expected) =~= a.expected.union(
            b.expected.union(c.expected),
        ));
    }

    /// Joining is commutative.
    pub proof fn lemma_join_comm(a: Furthest, b: Furthest)
        ensures
            a.join(b) == b.join(a),
    {
        assert(a.expected.union(b.expected) =~= b.expected.union(a.expected));
    }

    /// Joining a summary to itself changes nothing.
    pub proof fn lemma_join_idem(a: Furthest)
        ensures
            a.join(a) == a,
    {
        assert(a.expected.union(a.expected) =~= a.expected);
    }

    /// The empty summary at position zero changes nothing when joined in.
    pub proof fn lemma_join_none(a: Furthest)
        ensures
            a.join(Furthest::none_yet(0)) == a,
            Furthest::none_yet(0).join(a) == a,
    {
        assert(a.expected.union(Set::empty()) =~= a.expected);
        assert(Set::<Seq<char>>::empty().union(a.expected) =~= a.expected);
    }

    /// What has been absorbed stays absorbed when more is joined in.
    pub proof fn lemma_absorbs_grows(a: Furthest, b: Furthest, more: Furthest)
        requires
            a.absorbs(b),
        ensures
            a.join(more).absorbs(b),
    {
        Furthest::lemma_join_assoc(a, more, b);
        Furthest::lemma_join_comm(more, b);
        Furthest::lemma_join_assoc(a, b, more);
    }

    /// A join absorbs both of its halves.
    pub proof fn lemma_join_absorbs(a: Furthest, b: Furthest)
        ensures
            a.join(b).absorbs(a),
            a.join(b).absorbs(b),
    {
        Furthest::lemma_join_assoc(a, b, b);
        Furthest::lemma_join_idem(b);
        Furthest::lemma_join_comm(a, b);
        Furthest::lemma_join_assoc(b, a, a);
        Furthest::lemma_join_idem(a);
    }

}

/// A set of labels for what a parser expected to find.  The labels are
/// kept in order, so that a set has one text only.
pub struct ExpectedSet {
    labels: Vec<String>,
}

impl View for ExpectedSet {
    type V = Set<Seq<char>>;

    closed spec fn view(&self) -> Set<Seq<char>> {
        self.labels().to_set()
    }
}

impl ExpectedSet {
    /// The labels, in order.
    pub closed spec fn labels(&self) -> Seq<Seq<char>> {
        Seq::new(self.labels@.len(), |i: int| self.labels@[i]@)
    }

    /// The labels stand in order.
    pub closed spec fn wf(&self) -> bool {
        ordered(self.labels())
    }

    /// The labels are the members of the set, in order.
    pub proof fn lemma_in_order(&self)
        requires
            self.wf(),
        ensures
            self.labels() == in_order(self@),
    {
        let witness = self.labels();
        assert(ordered(witness) && witness.to_set() == self@);
        lemma_one_order(self.labels(), in_order(self@));
    }

    /// The empty set of labels.
    pub fn new() -> (r: ExpectedSet)
        ensures
            r.wf(),
            r@ == Set::<Seq<char>>::empty(),
    {
        let r = ExpectedSet { labels: Vec::new() };
        proof {
            assert(r.labels() =~= Seq::<Seq<char>>::empty());
            assert(r@ =~= Set::<Seq<char>>::empty());
        }
        r
    }

    /// The number of labels.
    pub fn len(&self) -> (n: usize)
        requires
            self.wf(),
        ensures
            n == self@.len(),
            self@.finite(),
    {
        proof {
            self.lemma_distinct();
            self.labels().unique_seq_to_set();
        }
        self.labels.len()
    }

    /// Whether no label is held.
    pub fn is_empty(&self) -> (r: bool)
        ensures
            r == (self@ == Set::<Seq<char>>::empty()),
    {
        proof {
            if self.labels@.len() > 0 {
                assert(self.labels()[0] == self.labels@[0]@);
                assert(self@.contains(self.labels()[0]));
            } else {
                assert(self@ =~= Set::<Seq<char>>::empty());
            }
        }
        self.labels.len() == 0
    }

    /// No label is held twice.
    proof fn lemma_distinct(&self)
        requires
            self.wf(),
        ensures
            self.labels().no_duplicates(),
    {
        let labels = self.labels();
        assert forall|i: int, j: int| 0 <= i < labels.len() && 0 <= j < labels.len() && i
            != j implies labels[i] != labels[j] by {
            lemma_not_both(labels[i], labels[j]);
            if i < j {
                assert(before(labels[i], labels[j]));
            } else {
                assert(before(labels[j], labels[i]));
            }
        }
    }

    /// Whether `label` is held.
    pub fn contains(&self, label: &String) -> (r: bool)
        ensures
            r == self@.contains(label@),
    {
        let mut i: usize = 0;
        while i < self.labels.len()
            invariant
                i <= self.labels@.len(),
                forall|k: int| 0 <= k < i ==> self.labels@[k]@ != label@,
            decreases self.labels@.len() - i,
        {
            if self.labels[i] == *label {
                proof {
                    assert(self.labels()[i as int] == label@);
                }
                return true;
            }
            i += 1;
        }
        proof {
            if self@.contains(label@) {
                let k = choose|k: int| 0 <= k < self.labels().len() && self.labels()[k] == label@;
                assert(self.labels@[k]@ == label@);
            }
        }
        false
    }

    /// Adds a label; one that is already held is not added again.
    pub fn insert(&mut self, label: String)
        requires
            old(self).wf(),
        ensures
            final(self).wf(),
            final(self)@ == old(self)@.insert(label@),
    {
        let n = self.labels.len();
        let mut p: usize = 0;
        while p < n && comes_before(&self.labels[p], &label)
            invariant
                p <= n,
                n == self.labels@.len(),
                *self == *old(self),
                forall|k: int| 0 <= k < p ==> before(self.labels@[k]@, label@),
            decreases n - p,
        {
            p += 1;
        }
        let ghost before_labels = self.labels();
        let ghost before_set = self@;
        if p < n && self.labels[p] == label {
            proof {
                assert(before_labels[p as int] == label@);
                assert(before_set.contains(label@));
                assert(before_set.insert(label@) =~= before_set);
            }
            return;
        }
        self.labels.insert(p, label);
        proof {
            let after = self.labels();
            assert(after =~= before_labels.insert(p as int, label@));
            assert forall|i: int, j: int| 0 <= i < j < after.len() implies before(
                after[i],
                after[j],
            ) by {
                if j < p {
                    assert(before(before_labels[i], before_labels[j]));
                } else if j == p {
                    assert(before_labels[i] == old(self).labels@[i]@);
                } else if i == p as int {
                    let next = before_labels[p as int];
                    assert(next == old(self).labels@[p as int]@);
                    lemma_one_of(next, label@);
                    if j - 1 > p {
                        assert(before(before_labels[p as int], before_labels[j - 1]));
                        lemma_chain(label@, next, before_labels[j - 1]);
                    }
                } else if i < p {
                    assert(before(before_labels[i], before_labels[j - 1]));
                } else {
                    assert(before(before_labels[i - 1], before_labels[j - 1]));
                }
            }
            assert forall|l: Seq<char>| self@.contains(l) <==> before_set.insert(
                label@,
            ).contains(l) by {
                if self@.contains(l) {
                    let k = choose|k: int| 0 <= k < after.len() && after[k] == l;
                    if k < p {
                        assert(before_labels[k] == l);
                    } else if k > p {
                        assert(before_labels[k - 1] == l);
                    }
                }
                if before_set.contains(l) {
                    let k = choose|k: int| 0 <= k < before_labels.len() && before_labels[k] == l;
                    if k < p {
                        assert(after[k] == l);
                    } else {
                        assert(after[k + 1] == l);
                    }
                }
                if l == label@ {
                    assert(after[p as int] == l);
                }
            }
            assert(self@ =~= before_set.insert(label@));
        }
    }

    /// Removes every label.
    pub fn clear(&mut self)
        ensures
            final(self).wf(),
            final(self)@ == Set::<Seq<char>>::empty(),
    {
        self.labels = Vec::new();
        proof {
            assert(self.labels() =~= Seq::<Seq<char>>::empty());
            assert(self@ =~= Set::<Seq<char>>::empty());
        }
    }

    /// The labels, in order.
    pub fn tokens(&self) -> (r: Vec<String>)
        requires
            self.wf(),
        ensures
            r@.len() == in_order(self@).len(),
            forall|i: int| 0 <= i < r@.len() ==> r@[i]@ == in_order(self@)[i],
    {
        proof {
            self.lemma_in_order();
        }
        let mut out: Vec<String> = Vec::new();
        let mut i: usize = 0;
        while i < self.labels.len()
            invariant
                i <= self.labels@.len(),
                out@.len() == i,
                forall|k: int| 0 <= k < i ==> out@[k]@ == self.labels@[k]@,
            decreases self.labels@.len() - i,
        {
            out.push(self.labels[i].clone());
            i += 1;
        }
        out
    }

    /// The text of a list of labels: nothing reported, the one label, or
    /// `one of` and the labels separated by commas.
    pub open spec fn rendering(labels: Seq<Seq<char>>) -> Seq<char> {
        if labels.len() == 0 {
            "<unreported>"@
        } else if labels.len() == 1 {
            labels[0]
        } else {
            "one of "@ + ExpectedSet::joined(labels, labels.len() as int)
        }
    }

    /// The first `n` labels, separated by a comma and a space.
    pub open spec fn joined(labels: Seq<Seq<char>>, n: int) -> Seq<char>
        decreases n,
    {
        if n <= 0 {
            Seq::empty()
        } else if n == 1 {
            labels[0]
        } else {
            ExpectedSet::joined(labels, n - 1) + ", "@ + labels[n - 1]
        }
    }

    /// The text of a set of labels: that of its members in order.
    pub open spec fn text(set: Set<Seq<char>>) -> Seq<char> {
        ExpectedSet::rendering(in_order(set))
    }

    /// The labels as one line of text.
    pub fn render(&self) -> (r: String)
        requires
            self.wf(),
        ensures
            r@ == ExpectedSet::text(self@),
    {
        proof {
            self.lemma_in_order();
        }
        let n = self.labels.len();
        if n == 0 {
            String::from_str("<unreported>")
        } else if n == 1 {
            self.labels[0].clone()
        } else {
            let mut out = String::from_str("one of ");
            let mut i: usize = 0;
            proof {
                assert(out@ =~= "one of "@ + ExpectedSet::joined(self.labels(), 0));
            }
            while i < n
                invariant
                    i <= n,
                    n == self.labels@.len(),
                    n == self.labels().len(),
                    out@ == "one of "@ + ExpectedSet::joined(self.labels(), i as int),
                decreases n - i,
            {
                let ghost prev = out@;
                if i > 0 {
                    out.append(", ");
                }
                out.append(self.labels[i].as_str());
                i += 1;
                proof {
                    let labels = self.labels();
                    assert(labels[i - 1] == self.labels@[i - 1]@);
                    if i == 1 {
                        assert(ExpectedSet::joined(labels, 0) =~= Seq::<char>::empty());
                        assert(out@ =~= "one of "@ + ExpectedSet::joined(labels, 1));
                    } else {
                        assert(out@ =~= "one of "@ + (ExpectedSet::joined(labels, i - 1) + ", "@
                            + labels[i - 1]));
                    }
                }
            }
            out
        }
    }
}

/// A parse error: where the furthest failure happened, and what was expected
/// there.
pub struct ParseError<L> {
    /// The furthest position the parser reached in the input.
    pub offset: usize,
    /// That position in the form the input chooses for its readers.
    pub location: L,
    /// The set of labels that would have let the parser go on.
    pub expected: ExpectedSet,
}

/// The running best-known failure of one parse.
pub struct ErrorState {
    /// Furthest failure seen so far.
    pub max_err_pos: usize,
    /// What was expected at that position.
    pub expected: ExpectedSet,
}

impl View for ErrorState {
    type V = Furthest;

    open spec fn view(&self) -> Furthest {
        Furthest { pos: self.max_err_pos, expected: self.expected@ }
    }
}

impl ErrorState {
    /// The expected labels are in order.
    pub open spec fn wf(&self) -> bool {
        self.expected.wf()
    }

    /// A tracker that has seen no failure, starting at `initial_pos`.
    pub fn new(initial_pos: usize) -> (r: ErrorState)
        ensures
            r.wf(),
            r@ == Furthest::none_yet(initial_pos),
    {
        ErrorState { max_err_pos: initial_pos, expected: ExpectedSet::new() }
    }

    /// Records a failure at `pos` where `expected` would have been accepted,
    /// and returns the failure for the caller to pass on.
    ///
    /// A deeper failure replaces what was known; one at the same depth adds
    /// its label; a shallower one changes nothing.
    pub fn mark_failure(&mut self, pos: usize, expected: &str) -> (r: RuleResult<()>)
        requires
            old(self).wf(),
        ensures
            final(self).wf(),
            final(self)@ == old(self)@.note(pos, expected@),
            r is Failed,
    {
        if pos > self.max_err_pos {
            self.max_err_pos = pos;
            self.expected.clear();
            self.expected.insert(String::from_str(expected));
        } else if pos == self.max_err_pos {
            self.expected.insert(String::from_str(expected));
            proof {
                assert(old(self).expected@.union(Set::empty().insert(expected@)) =~= old(
                    self,
                ).expected@.insert(expected@));
            }
        }
        RuleResult::Failed
    }

    /// Turns the tracker into the error to report for `input`.
    pub fn into_parse_error<I: Parse + ?Sized>(self, input: &I) -> (r: ParseError<I::PositionRepr>)
        ensures
            r.offset == self.max_err_pos,
            r.expected == self.expected,
            self.wf() ==> r.expected.wf(),
    {
        let location = input.position_repr(self.max_err_pos);
        ParseError { offset: self.max_err_pos, location, expected: self.expected }
    }
}

/// The text of a diagnostic: what was expected, and whether the failure lies
/// at the end of the input.
pub open spec fn diagnostic_text(expected: Seq<char>, at_end: bool) -> Seq<char> {
    if at_end {
        "expected "@ + expected + " at end of input"@
    } else {
        "expected "@ + expected
    }
}

/// Renders a diagnostic from the text of an expected set.
pub fn diagnostic_message(expected: &str, at_end: bool) -> (r: String)
    ensures
        r@ == diagnostic_text(expected@, at_end),
{
    let mut out = String::from_str("expected ");
    out.append(expected);
    if at_end {
        out.append(" at end of input");
    }
    out
}

} // verus!
