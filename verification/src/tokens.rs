//! The flat token sequence in which a grammar is written.

use vstd::prelude::*;

verus! {

/// The three kinds of brackets.
#[derive(Clone, Copy, PartialEq, Eq, Debug, Structural)]
pub enum Delimiter {
    /// `(` and `)`.
    Paren,
    /// `[` and `]`.
    Bracket,
    /// `{` and `}`.
    Brace,
}

/// One token of a grammar's text.  Groups in brackets are laid out flat, as
/// an opening token, the tokens inside, and a closing token.
#[derive(PartialEq, Eq, Debug)]
pub enum Token {
    /// A name.
    Ident(String),
    /// A string literal, by what it stands for.
    Str(String),
    /// A character literal.
    Char(char),
    /// A whole number.
    Number(usize),
    /// One character of punctuation.
    Punct(char),
    /// An opening bracket.
    Open(Delimiter),
    /// A closing bracket.
    Close(Delimiter),
}

/// Whether the token at `p` is the punctuation character `c`.
pub open spec fn punct_at(t: Seq<Token>, p: int, c: char) -> bool {
    0 <= p < t.len() && t[p] == Token::Punct(c)
}

/// Whether the token at `p` opens a group in brackets of kind `d`.
pub open spec fn open_at(t: Seq<Token>, p: int, d: Delimiter) -> bool {
    0 <= p < t.len() && t[p] == Token::Open(d)
}

/// Whether the token at `p` closes a group in brackets of kind `d`.
pub open spec fn close_at(t: Seq<Token>, p: int, d: Delimiter) -> bool {
    0 <= p < t.len() && t[p] == Token::Close(d)
}

/// Whether the token at `p` is a name.
pub open spec fn ident_at(t: Seq<Token>, p: int) -> bool {
    0 <= p < t.len() && t[p] is Ident
}

/// Whether the token at `p` is the name `word`.
pub open spec fn word_at(t: Seq<Token>, p: int, word: Seq<char>) -> bool {
    ident_at(t, p) && t[p]->Ident_0@ == word
}

/// Whether the token at `p` is a number.
pub open spec fn number_at(t: Seq<Token>, p: int) -> bool {
    0 <= p < t.len() && t[p] is Number
}

/// Whether the token at `p` is a character literal.
pub open spec fn char_at(t: Seq<Token>, p: int) -> bool {
    0 <= p < t.len() && t[p] is Char
}

/// The token `off` places behind `p`, if there is one.
pub fn token_at(tokens: &Vec<Token>, p: usize, off: usize) -> (r: Option<&Token>)
    requires
        p <= tokens@.len(),
    ensures
        match r {
            Some(token) => p + off < tokens@.len() && *token == tokens@[p + off],
            None => p + off >= tokens@.len(),
        },
{
    if off < tokens.len() - p {
        Some(&tokens[p + off])
    } else {
        None
    }
}

/// Whether the punctuation character `c` stands `off` places behind `p`.
pub fn is_punct(tokens: &Vec<Token>, p: usize, off: usize, c: char) -> (r: bool)
    requires
        p <= tokens@.len(),
    ensures
        r == punct_at(tokens@, p + off, c),
{
    match token_at(tokens, p, off) {
        Some(Token::Punct(x)) => *x == c,
        _ => false,
    }
}

/// Whether an opening bracket of kind `d` stands `off` places behind `p`.
pub fn is_open(tokens: &Vec<Token>, p: usize, off: usize, d: Delimiter) -> (r: bool)
    requires
        p <= tokens@.len(),
    ensures
        r == open_at(tokens@, p + off, d),
{
    match token_at(tokens, p, off) {
        Some(Token::Open(x)) => *x == d,
        _ => false,
    }
}

/// Whether a closing bracket of kind `d` stands `off` places behind `p`.
pub fn is_close(tokens: &Vec<Token>, p: usize, off: usize, d: Delimiter) -> (r: bool)
    requires
        p <= tokens@.len(),
    ensures
        r == close_at(tokens@, p + off, d),
{
    match token_at(tokens, p, off) {
        Some(Token::Close(x)) => *x == d,
        _ => false,
    }
}

/// The name that stands `off` places behind `p`, if a name stands there.
pub fn ident(tokens: &Vec<Token>, p: usize, off: usize) -> (r: Option<&String>)
    requires
        p <= tokens@.len(),
    ensures
        r is Some == ident_at(tokens@, p + off),
        r matches Some(name) ==> *name == tokens@[p + off]->Ident_0,
{
    match token_at(tokens, p, off) {
        Some(Token::Ident(name)) => Some(name),
        _ => None,
    }
}

/// Whether the name `word` stands `off` places behind `p`.
pub fn is_word(tokens: &Vec<Token>, p: usize, off: usize, word: &str) -> (r: bool)
    requires
        p <= tokens@.len(),
    ensures
        r == word_at(tokens@, p + off, word@),
{
    match token_at(tokens, p, off) {
        Some(Token::Ident(name)) => *name == word.to_owned(),
        _ => false,
    }
}

/// The number that stands `off` places behind `p`, if a number stands there.
pub fn number(tokens: &Vec<Token>, p: usize, off: usize) -> (r: Option<usize>)
    requires
        p <= tokens@.len(),
    ensures
        r is Some == number_at(tokens@, p + off),
        r matches Some(n) ==> n == tokens@[p + off]->Number_0,
{
    match token_at(tokens, p, off) {
        Some(Token::Number(n)) => Some(*n),
        _ => None,
    }
}

/// The character literal that stands `off` places behind `p`, if one stands
/// there.
pub fn character(tokens: &Vec<Token>, p: usize, off: usize) -> (r: Option<char>)
    requires
        p <= tokens@.len(),
    ensures
        r is Some == char_at(tokens@, p + off),
        r matches Some(c) ==> c == tokens@[p + off]->Char_0,
{
    match token_at(tokens, p, off) {
        Some(Token::Char(c)) => Some(*c),
        _ => None,
    }
}

/// The string literal that stands `off` places behind `p`, if one stands
/// there.
pub fn string(tokens: &Vec<Token>, p: usize, off: usize) -> (r: Option<&String>)
    requires
        p <= tokens@.len(),
    ensures
        r is Some == (p + off < tokens@.len() && tokens@[p + off] is Str),
        r matches Some(text) ==> *text == tokens@[p + off]->Str_0,
{
    match token_at(tokens, p, off) {
        Some(Token::Str(text)) => Some(text),
        _ => None,
    }
}

/// The position behind the group whose opening bracket has just been passed:
/// behind the closing bracket that brings the depth of nesting, now
/// `depth` above the group's own, down below it.  `None` where the group
/// is not closed.
pub open spec fn group_end(t: Seq<Token>, p: int, depth: nat) -> Option<int>
    decreases t.len() - p,
{
    if 0 <= p < t.len() {
        if t[p] is Open {
            group_end(t, p + 1, depth + 1)
        } else if t[p] is Close {
            if depth == 0 {
                Some(p + 1)
            } else {
                group_end(t, p + 1, (depth - 1) as nat)
            }
        } else {
            group_end(t, p + 1, depth)
        }
    } else {
        None
    }
}

/// Finds the position behind the group whose opening bracket stands just
/// before `p`.
pub fn find_group_end(tokens: &Vec<Token>, p: usize) -> (r: Option<usize>)
    requires
        p <= tokens@.len(),
    ensures
        match r {
            Some(end) => group_end(tokens@, p as int, 0) == Some(end as int) && p < end
                <= tokens@.len(),
            None => group_end(tokens@, p as int, 0) is None,
        },
{
    let mut i: usize = p;
    let mut depth: usize = 0;
    while i < tokens.len()
        invariant
            p <= i,
            depth <= i - p,
            group_end(tokens@, p as int, 0) == group_end(tokens@, i as int, depth as nat),
        decreases tokens@.len() - i,
    {
        match &tokens[i] {
            Token::Open(_) => {
                depth += 1;
            },
            Token::Close(_) => {
                if depth == 0 {
                    return Some(i + 1);
                }
                depth -= 1;
            },
            _ => {},
        }
        i += 1;
    }
    None
}

} // verus!
