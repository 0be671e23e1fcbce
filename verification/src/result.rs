//! The match-result algebra shared by every matching routine.

use vstd::prelude::*;

verus! {

/// Outcome of one matching attempt.
///
/// A match carries the position at which matching left off together with the
/// matched value.  A failure carries nothing: the furthest failure is tracked
/// separately, because backtracking discards intermediate failures.
#[derive(Clone, PartialEq, PartialOrd, Eq, Ord, Debug, Hash)]
pub enum RuleResult<T> {
    /// Success, with the position reached and the value.
    Matched(usize, T),
    /// Failure.
    Failed,
}

impl<T> RuleResult<T> {
    /// The end position of a match, when there is one.
    pub open spec fn end(self) -> Option<usize> {
        match self {
            RuleResult::Matched(pos, _) => Some(pos),
            RuleResult::Failed => None,
        }
    }

    /// Wraps a position and a value as a match.
    pub fn from_output(output: (usize, T)) -> (r: Self)
        ensures
            r == RuleResult::Matched(output.0, output.1),
    {
        RuleResult::Matched(output.0, output.1)
    }

    /// Splits the outcome for short-circuiting composition: a match continues
    /// with its position and value, a failure breaks out.
    pub fn branch(self) -> (r: Result<(usize, T), ()>)
        ensures
            r == (match self {
                RuleResult::Matched(pos, value) => Ok::<(usize, T), ()>((pos, value)),
                RuleResult::Failed => Err::<(usize, T), ()>(()),
            }),
    {
        match self {
            RuleResult::Matched(pos, value) => Ok((pos, value)),
            RuleResult::Failed => Err(()),
        }
    }

    /// Turns the break half of [`RuleResult::branch`] back into a failure of
    /// any value type.
    pub fn from_residual(residual: ()) -> (r: Self)
        ensures
            r == RuleResult::<T>::Failed,
    {
        RuleResult::Failed
    }

    /// Whether this is a match.
    pub fn is_matched(&self) -> (r: bool)
        ensures
            r == (*self is Matched),
    {
        match self {
            RuleResult::Matched(_, _) => true,
            RuleResult::Failed => false,
        }
    }

    /// Whether this is a match whose position and value satisfy `f`.
    pub fn is_matched_and<F>(self, f: F) -> (r: bool) where F: FnOnce(usize, T) -> bool
        requires
            self matches RuleResult::Matched(pos, val) ==> f.requires((pos, val)),
        ensures
            self is Failed ==> !r,
            self matches RuleResult::Matched(pos, val) ==> f.ensures((pos, val), r),
    {
        match self {
            RuleResult::Failed => false,
            RuleResult::Matched(pos, val) => f(pos, val),
        }
    }

    /// Whether this is a failure.
    pub fn is_failed(&self) -> (r: bool)
        ensures
            r == (*self is Failed),
    {
        !self.is_matched()
    }

    /// Whether this is a failure, or a match whose position and value
    /// satisfy `f`.
    pub fn is_failed_or<F>(self, f: F) -> (r: bool) where F: FnOnce(usize, T) -> bool
        requires
            self matches RuleResult::Matched(pos, val) ==> f.requires((pos, val)),
        ensures
            self is Failed ==> r,
            self matches RuleResult::Matched(pos, val) ==> f.ensures((pos, val), r),
    {
        match self {
            RuleResult::Failed => true,
            RuleResult::Matched(pos, val) => f(pos, val),
        }
    }

    /// The same outcome over a shared reference to the value.
    pub fn as_ref(&self) -> (r: RuleResult<&T>)
        ensures
            r == (match *self {
                RuleResult::Failed => RuleResult::<&T>::Failed,
                RuleResult::Matched(pos, val) => RuleResult::<&T>::Matched(pos, &val),
            }),
    {
        match self {
            RuleResult::Failed => RuleResult::Failed,
            RuleResult::Matched(pos, val) => RuleResult::Matched(*pos, val),
        }
    }

    /// The same outcome over a mutable reference to the value: whatever the
    /// caller writes through the reference becomes the value of `self`, and
    /// the position stays.
    pub fn as_mut(&mut self) -> (r: RuleResult<&mut T>)
        ensures
            *old(self) is Failed ==> r is Failed && *final(self) is Failed,
            *old(self) matches RuleResult::Matched(pos, val) ==> (r matches RuleResult::Matched(
                q,
                w,
            ) && q == pos && *w == val && *final(self) == RuleResult::Matched(pos, *final(w))),
    {
        match self {
            RuleResult::Failed => RuleResult::Failed,
            RuleResult::Matched(pos, val) => RuleResult::Matched(*pos, val),
        }
    }

    /// The position and value of a match.
    pub fn unwrap(self) -> (r: (usize, T))
        requires
            self is Matched,
        ensures
            self == RuleResult::Matched(r.0, r.1),
    {
        match self {
            RuleResult::Matched(pos, val) => (pos, val),
            RuleResult::Failed => unreached(),
        }
    }

    /// The position and value of a match, for callers that have made sure
    /// that there is one.
    pub fn unwrap_unchecked(self) -> (r: (usize, T))
        requires
            self is Matched,
        ensures
            self == RuleResult::Matched(r.0, r.1),
    {
        match self {
            RuleResult::Matched(pos, val) => (pos, val),
            RuleResult::Failed => unreached(),
        }
    }

    /// Applies `f` to the position and value of a match; a failure stays a
    /// failure and `f` is not called.
    pub fn map<U, F>(self, f: F) -> (r: RuleResult<U>) where F: FnOnce(usize, T) -> (usize, U)
        requires
            self matches RuleResult::Matched(pos, val) ==> f.requires((pos, val)),
        ensures
            self is Failed ==> r is Failed,
            self matches RuleResult::Matched(pos, val) ==> (r matches RuleResult::Matched(q, u)
                && f.ensures((pos, val), (q, u))),
    {
        match self {
            RuleResult::Matched(pos, val) => {
                let (pos, val) = f(pos, val);
                RuleResult::Matched(pos, val)
            },
            RuleResult::Failed => RuleResult::Failed,
        }
    }
}

/// Calls a caller-supplied matching closure on an input and a position.
pub fn call_custom_closure<I, T, F>(f: F, input: I, pos: usize) -> (r: RuleResult<T>) where
    F: FnOnce(I, usize) -> RuleResult<T>,

    requires
        f.requires((input, pos)),
    ensures
        f.ensures((input, pos), r),
{
    f(input, pos)
}

} // verus!
