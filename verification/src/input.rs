//! Input capabilities: what a matching routine may ask of the data it runs
//! over.  Each capability is a trait of its own, so that a grammar only
//! demands what it uses.
//!
//! Every capability comes with the mathematical function that says what its
//! method returns.  An implementation defines that function and proves its
//! method against it, as the implementations for slices below do; one that
//! proves nothing may leave the function as it stands, and what is proved
//! of a parse then tells nothing of that input.

use crate::result::RuleResult;
use vstd::prelude::*;
use vstd::slice::slice_subrange;
use vstd::utf8::encode_utf8;

verus! {

/// A type that can be used as input to a parser: it has a first position and
/// an end, and can describe a position to a reader.
pub trait Parse {
    /// Human-readable form of a position, used in error reports only.
    type PositionRepr;

    /// The position at which matching starts.
    open spec fn start_pos(&self) -> usize {
        arbitrary()
    }

    /// The position just past the last element.
    open spec fn end_pos(&self) -> usize {
        arbitrary()
    }

    /// The start position, which never lies past the end.
    fn start(&self) -> (r: usize)
        ensures
            r == self.start_pos(),
            r <= self.end_pos(),
    ;

    fn is_eof(&self, p: usize) -> (r: bool)
        ensures
            r == (p >= self.end_pos()),
    ;

    fn position_repr(&self, p: usize) -> (r: Self::PositionRepr);
}

/// An input whose atomic elements can be fetched one at a time.
pub trait ParseElem: Parse {
    /// A single atomic element of the input, for example a byte or a token.
    type Element: Copy;

    /// The element at `pos` and the position after it, or failure past the
    /// end of the input.
    open spec fn elem_at(&self, pos: usize) -> RuleResult<Self::Element> {
        arbitrary()
    }

    /// Get the element at `pos`, or `Failed` if past end of input.  Fetching
    /// an element always moves forward and stays inside the input.
    fn parse_elem(&self, pos: usize) -> (r: RuleResult<Self::Element>)
        ensures
            r == self.elem_at(pos),
            r matches RuleResult::Matched(q, _) ==> pos < q <= self.end_pos(),
    ;
}

/// An input against which literal text can be matched.
pub trait ParseLiteral: Parse {
    /// The outcome of matching `literal` at `pos`.
    open spec fn literal_at(&self, pos: usize, literal: Seq<char>) -> RuleResult<()> {
        arbitrary()
    }

    /// Attempt to match the `literal` string at `pos`, returning whether it
    /// matched or failed.  A matched literal ends inside the input, not
    /// before where it began, and a literal that is not empty consumes
    /// something.
    fn parse_string_literal(&self, pos: usize, literal: &str) -> (r: RuleResult<()>)
        ensures
            r == self.literal_at(pos, literal@),
            r matches RuleResult::Matched(q, _) ==> pos <= q <= self.end_pos() && (literal@.len()
                > 0 ==> pos < q),
    ;
}

/// An input of which a caller-visible view between two positions can be taken.
pub trait ParseSlice<'input>: Parse {
    /// Type of a slice of the input.
    type Slice;

    /// Whether `slice` is the part of the input from `p1` up to `p2`.
    open spec fn is_slice(&self, p1: usize, p2: usize, slice: Self::Slice) -> bool {
        arbitrary()
    }

    /// Get a slice of input.
    fn parse_slice(&'input self, p1: usize, p2: usize) -> (r: Self::Slice)
        requires
            p1 <= p2 <= self.end_pos(),
        ensures
            self.is_slice(p1, p2, r),
    ;
}

/// An element that has a numeric code, by which element classes select it.
pub trait Symbol: Copy {
    open spec fn code_of(self) -> u32 {
        arbitrary()
    }

    fn code(self) -> (c: u32)
        ensures
            c == self.code_of(),
    ;
}

impl Symbol for u8 {
    open spec fn code_of(self) -> u32 {
        self as u32
    }

    fn code(self) -> (c: u32) {
        self as u32
    }
}

impl Symbol for u32 {
    open spec fn code_of(self) -> u32 {
        self
    }

    fn code(self) -> (c: u32) {
        self
    }
}

impl Symbol for char {
    open spec fn code_of(self) -> u32 {
        self as u32
    }

    fn code(self) -> (c: u32) {
        self as u32
    }
}

impl<T> Parse for [T] {
    type PositionRepr = usize;

    open spec fn start_pos(&self) -> usize {
        0
    }

    open spec fn end_pos(&self) -> usize {
        self.len()
    }

    fn start(&self) -> (r: usize) {
        0
    }

    fn is_eof(&self, p: usize) -> (r: bool) {
        p >= self.len()
    }

    fn position_repr(&self, p: usize) -> (r: usize)
        ensures
            r == p,
    {
        p
    }
}

impl<T: Copy> ParseElem for [T] {
    type Element = T;

    open spec fn elem_at(&self, pos: usize) -> RuleResult<T> {
        if pos < self.len() {
            RuleResult::Matched((pos + 1) as usize, self@[pos as int])
        } else {
            RuleResult::Failed
        }
    }

    fn parse_elem(&self, pos: usize) -> (r: RuleResult<T>) {
        if pos < self.len() {
            RuleResult::Matched(pos + 1, self[pos])
        } else {
            RuleResult::Failed
        }
    }
}

/// Whether `part` occurs in `whole` starting at `pos`.
pub open spec fn occurs_at<T>(whole: Seq<T>, pos: int, part: Seq<T>) -> bool {
    &&& 0 <= pos
    &&& pos + part.len() <= whole.len()
    &&& whole.subrange(pos, pos + part.len()) == part
}

/// Compares `part` with the elements of `whole` that start at `pos`.
fn bytes_occur_at(whole: &[u8], pos: usize, part: &[u8]) -> (r: bool)
    ensures
        r == occurs_at(whole@, pos as int, part@),
{
    let n = part.len();
    if pos > whole.len() || n > whole.len() - pos {
        return false;
    }
    let mut i: usize = 0;
    while i < n
        invariant
            i <= n,
            n == part@.len(),
            pos + n <= whole.len(),
            whole.len() == whole@.len(),
            forall|k: int| 0 <= k < i ==> whole@[pos + k] == part@[k],
        decreases n - i,
    {
        if whole[pos + i] != part[i] {
            proof {
                let sub = whole@.subrange(pos as int, pos + n);
                assert(sub[i as int] == whole@[pos + i]);
            }
            return false;
        }
        i += 1;
    }
    proof {
        assert(whole@.subrange(pos as int, pos + n) =~= part@);
    }
    true
}

impl ParseLiteral for [u8] {
    /// A literal matches where its UTF-8 encoding occurs.
    open spec fn literal_at(&self, pos: usize, literal: Seq<char>) -> RuleResult<()> {
        if occurs_at(self@, pos as int, encode_utf8(literal)) {
            RuleResult::Matched((pos + encode_utf8(literal).len()) as usize, ())
        } else {
            RuleResult::Failed
        }
    }

    fn parse_string_literal(&self, pos: usize, literal: &str) -> (r: RuleResult<()>) {
        let bytes = literal.as_bytes();
        proof {
            assert(self.len() == self@.len());
            if literal@.len() > 0 && encode_utf8(literal@).len() == 0 {
                vstd::utf8::encode_utf8_decode_utf8(literal@);
                assert(encode_utf8(literal@) =~= Seq::<u8>::empty());
                assert(vstd::utf8::decode_utf8(Seq::<u8>::empty()).len() == 0) by {
                    reveal_with_fuel(vstd::utf8::decode_utf8, 2);
                }
            }
        }
        if bytes_occur_at(self, pos, bytes) {
            RuleResult::Matched(pos + bytes.len(), ())
        } else {
            RuleResult::Failed
        }
    }
}

impl<'input, T: 'input> ParseSlice<'input> for [T] {
    type Slice = &'input [T];

    open spec fn is_slice(&self, p1: usize, p2: usize, slice: &'input [T]) -> bool {
        slice@ == self@.subrange(p1 as int, p2 as int)
    }

    fn parse_slice(&'input self, p1: usize, p2: usize) -> (r: &'input [T]) {
        slice_subrange(self, p1, p2)
    }
}

} // verus!
