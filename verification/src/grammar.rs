//! Reading a grammar from its tokens.
//!
//! The reader is a recursive-descent matcher with ordered choice: every
//! production tries its alternatives in order and goes back to where it
//! began when one fails, while the furthest failure of all attempts is
//! kept, so that the error points at the place where the text stopped
//! making sense.  What it accepts is laid down by the functions whose
//! names begin with `g_`; the functions that do the work are proved to
//! compute exactly those.

use crate::ast::{Expr, Grammar, Level, Rule, Template};
use crate::error::{ErrorState, Furthest, ParseError};
use crate::model::texts;
use crate::program::{Assoc, Fixity};
use crate::syntax::{
    expr_model, expr_models, lemma_expr_models_empty, lemma_expr_models_push,
    lemma_level_models_push, lemma_rule_models_push, lemma_template_models_push, lemma_texts_push,
    level_models, rule_model, rule_models, template_models, ExprModel, LevelModel, RuleModel,
    TemplateModel,
};
use crate::tokens::{
    char_at, character, close_at, find_group_end, group_end, ident, ident_at, is_close, is_open,
    is_punct, is_word, number, number_at, open_at, punct_at, string, word_at, Delimiter, Token,
};
use vstd::prelude::*;
use vstd::string::StringExecFns;

verus! {

/// Where the reader stands: the position of the next token, the number of
/// the next action, and the furthest failure so far.
pub ghost struct Cur {
    pub pos: int,
    pub actions: int,
    pub seen: Furthest,
}

/// The reader's state.
pub struct Cursor {
    pub pos: usize,
    pub actions: usize,
    pub tracker: ErrorState,
}

impl View for Cursor {
    type V = Cur;

    open spec fn view(&self) -> Cur {
        Cur { pos: self.pos as int, actions: self.actions as int, seen: self.tracker@ }
    }
}

impl Cur {
    /// The state after a failure to find `label` at the current position.
    #[verifier::opaque]
    pub open spec fn miss(self, label: Seq<char>) -> Cur {
        Cur { seen: self.seen.note(self.pos as usize, label), ..self }
    }

    /// The state `n` tokens further on.
    pub open spec fn step(self, n: int) -> Cur {
        Cur { pos: self.pos + n, ..self }
    }

    /// The state gone back to where `origin` stood, with the failures seen
    /// since kept.
    pub open spec fn back(self, origin: Cur) -> Cur {
        Cur { pos: origin.pos, actions: origin.actions, seen: self.seen }
    }

    /// The state behind a block of host code that ends at `end`: the block
    /// took the next action number.
    pub open spec fn past_code(self, end: int) -> Cur {
        Cur { pos: end, actions: self.actions + 1, seen: self.seen }
    }
}

impl Cursor {
    /// Whether the state fits the tokens: the position lies within them and
    /// no more actions were numbered than tokens were passed.
    pub open spec fn fits(&self, t: Seq<Token>) -> bool {
        &&& t.len() <= usize::MAX
        &&& self.pos <= t.len()
        &&& self.actions <= self.pos
        &&& self.tracker.wf()
    }

    /// Records that `label` was expected at the current position.
    fn miss(&mut self, label: &str)
        requires
            old(self).tracker.wf(),
        ensures
            final(self)@ == old(self)@.miss(label@),
            final(self).tracker.wf(),
            final(self).pos == old(self).pos,
            final(self).actions == old(self).actions,
    {
        reveal(Cur::miss);
        self.tracker.mark_failure(self.pos, label);
    }
}

/// Appends one character to a string.  This is `String::push` of the
/// standard library, of which the contract says what its documentation
/// says: the character is added at the end and nothing else changes.
#[verifier::external_body]
fn push_char(text: &mut String, c: char)
    ensures
        final(text)@ == old(text)@.push(c),
{
    text.push(c);
}

/// The class that any element belongs to.
pub open spec fn any_class() -> ExprModel {
    ExprModel::ElementClass { ranges: Seq::empty(), negated: true, label: "."@ }
}

/// The expression for the items of a sequence: a single item without a
/// label stands for itself.
pub open spec fn seq_expr(items: Seq<ExprModel>) -> ExprModel {
    if items.len() == 1 && !(items[0] is Labeled) {
        items[0]
    } else {
        ExprModel::Sequence(items)
    }
}

/// The expression for the alternatives of a choice: a single alternative
/// stands for itself.
pub open spec fn choice_expr(alts: Seq<ExprModel>) -> ExprModel {
    if alts.len() == 1 {
        alts[0]
    } else {
        ExprModel::OrderedChoice(alts)
    }
}

/// Where an operator stands, by whether an operand mark precedes and
/// follows it.
pub open spec fn fixity_of(before: bool, after: bool) -> Fixity {
    if before && after {
        Fixity::Infix
    } else if after {
        Fixity::Prefix
    } else if before {
        Fixity::Postfix
    } else {
        Fixity::Atom
    }
}

/// The ranges and the closing bracket of an element class.
#[verifier::opaque]
pub open spec fn g_ranges(
    t: Seq<Token>,
    cur: Cur,
    negated: bool,
    ranges: Seq<(u32, u32)>,
    label: Seq<char>,
) -> (Option<ExprModel>, Cur)
    decreases t.len() - cur.pos,
{
    if close_at(t, cur.pos, Delimiter::Bracket) {
        (Some(ExprModel::ElementClass { ranges, negated, label: label.push(']') }), cur.step(1))
    } else if char_at(t, cur.pos) {
        let c = t[cur.pos]->Char_0;
        let (r, c1) = if punct_at(t, cur.pos + 1, '-') && char_at(t, cur.pos + 2) {
            let d = t[cur.pos + 2]->Char_0;
            g_ranges(
                t,
                cur.step(3),
                negated,
                ranges.push((c as u32, d as u32)),
                label.push(c).push('-').push(d),
            )
        } else {
            g_ranges(t, cur.step(1), negated, ranges.push((c as u32, c as u32)), label.push(c))
        };
        match r {
            Some(e) => (Some(e), c1),
            None => (None, c1.back(cur)),
        }
    } else {
        (None, cur.miss("\"]\""@))
    }
}

/// An element class behind its opening bracket: an optional `^` that
/// negates it, then characters and ranges of characters up to the closing
/// bracket.
#[verifier::opaque]
pub open spec fn g_class(t: Seq<Token>, cur: Cur) -> (Option<ExprModel>, Cur) {
    if punct_at(t, cur.pos, '^') {
        let (r, c1) = g_ranges(t, cur.step(1), true, Seq::empty(), "[^"@);
        match r {
            Some(e) => (Some(e), c1),
            None => (None, c1.back(cur)),
        }
    } else {
        g_ranges(t, cur, false, Seq::empty(), "["@)
    }
}

/// A group: a choice in parentheses.
#[verifier::opaque]
pub open spec fn g_group(t: Seq<Token>, cur: Cur) -> (Option<ExprModel>, Cur)
    decreases t.len() - cur.pos, 2nat,
{
    if open_at(t, cur.pos, Delimiter::Paren) {
        let (r, c1) = g_choice(t, cur.step(1));
        match r {
            Some(e) => {
                if close_at(t, c1.pos, Delimiter::Paren) {
                    (Some(e), c1.step(1))
                } else {
                    (None, c1.miss("\")\""@).back(cur))
                }
            },
            None => (None, c1.back(cur)),
        }
    } else {
        (None, cur.miss("expression"@))
    }
}

/// A reference with arguments: a name, and choices in parentheses with
/// commas between them.
#[verifier::opaque]
pub open spec fn g_call(t: Seq<Token>, cur: Cur) -> (Option<ExprModel>, Cur)
    decreases t.len() - cur.pos, 2nat,
{
    if ident_at(t, cur.pos) && open_at(t, cur.pos + 1, Delimiter::Paren) {
        let (r, c1) = g_args(t, cur.step(2), Seq::empty());
        match r {
            Some(args) => {
                if close_at(t, c1.pos, Delimiter::Paren) {
                    (Some(ExprModel::RuleRef { name: t[cur.pos]->Ident_0@, args }), c1.step(1))
                } else {
                    (None, c1.miss("\")\""@).back(cur))
                }
            },
            None => (None, c1.back(cur)),
        }
    } else {
        (None, cur.miss("expression"@))
    }
}

/// A precedence block: the word `precedence` and levels in braces.
#[verifier::opaque]
pub open spec fn g_block(t: Seq<Token>, cur: Cur) -> (Option<ExprModel>, Cur)
    decreases t.len() - cur.pos, 2nat,
{
    if word_at(t, cur.pos, "precedence"@) && open_at(t, cur.pos + 1, Delimiter::Brace) {
        let (r, c1) = g_levels(t, cur.step(2), Seq::empty());
        match r {
            Some(e) => (Some(e), c1),
            None => (None, c1.back(cur)),
        }
    } else {
        (None, cur.miss("expression"@))
    }
}

/// A primary expression: a string literal, `.` for any element, `^` for the
/// position, an element class in brackets, a group in parentheses, a
/// precedence block, or the name of a rule with or without arguments.
#[verifier::opaque]
pub open spec fn g_primary(t: Seq<Token>, cur: Cur) -> (Option<ExprModel>, Cur)
    decreases t.len() - cur.pos, 3nat,
{
    let p = cur.pos;
    if !(0 <= p < t.len()) {
        (None, cur.miss("expression"@))
    } else if t[p] is Str {
        (Some(ExprModel::Literal(t[p]->Str_0@)), cur.step(1))
    } else if punct_at(t, p, '.') {
        (Some(any_class()), cur.step(1))
    } else if punct_at(t, p, '^') {
        (Some(ExprModel::PositionMarker), cur.step(1))
    } else if open_at(t, p, Delimiter::Bracket) {
        let (r, c1) = g_class(t, cur.step(1));
        match r {
            Some(e) => (Some(e), c1),
            None => (None, c1.back(cur)),
        }
    } else if open_at(t, p, Delimiter::Paren) {
        g_group(t, cur)
    } else if word_at(t, p, "precedence"@) && open_at(t, p + 1, Delimiter::Brace) {
        g_block(t, cur)
    } else if ident_at(t, p) && open_at(t, p + 1, Delimiter::Paren) {
        g_call(t, cur)
    } else if ident_at(t, p) {
        (Some(ExprModel::RuleRef { name: t[p]->Ident_0@, args: Seq::empty() }), cur.step(1))
    } else {
        (None, cur.miss("expression"@))
    }
}

/// The suffixes behind a primary expression: `*`, `+`, `?`, and bounds in
/// braces, each applied to what stands before it.
#[verifier::opaque]
pub open spec fn g_suffixes(t: Seq<Token>, cur: Cur, e: ExprModel) -> (ExprModel, Cur)
    decreases t.len() - cur.pos,
{
    let p = cur.pos;
    if punct_at(t, p, '*') {
        g_suffixes(t, cur.step(1), ExprModel::Repetition { inner: Box::new(e), min: 0, max: None })
    } else if punct_at(t, p, '+') {
        g_suffixes(t, cur.step(1), ExprModel::Repetition { inner: Box::new(e), min: 1, max: None })
    } else if punct_at(t, p, '?') {
        g_suffixes(t, cur.step(1), ExprModel::Optional(Box::new(e)))
    } else if open_at(t, p, Delimiter::Brace) && number_at(t, p + 1) {
        let m = t[p + 1]->Number_0;
        if close_at(t, p + 2, Delimiter::Brace) {
            g_suffixes(
                t,
                cur.step(3),
                ExprModel::Repetition { inner: Box::new(e), min: m, max: Some(m) },
            )
        } else if punct_at(t, p + 2, ',') && close_at(t, p + 3, Delimiter::Brace) {
            g_suffixes(
                t,
                cur.step(4),
                ExprModel::Repetition { inner: Box::new(e), min: m, max: None },
            )
        } else if punct_at(t, p + 2, ',') && number_at(t, p + 3) && close_at(
            t,
            p + 4,
            Delimiter::Brace,
        ) {
            g_suffixes(
                t,
                cur.step(5),
                ExprModel::Repetition { inner: Box::new(e), min: m, max: Some(t[p + 3]->Number_0) },
            )
        } else {
            (e, cur)
        }
    } else {
        (e, cur)
    }
}

/// A primary expression with its suffixes.
#[verifier::opaque]
pub open spec fn g_suffixed(t: Seq<Token>, cur: Cur) -> (Option<ExprModel>, Cur)
    decreases t.len() - cur.pos, 4nat,
{
    let (r, c1) = g_primary(t, cur);
    match r {
        Some(e) => {
            let (with, c2) = g_suffixes(t, c1, e);
            (Some(with), c2)
        },
        None => (None, c1),
    }
}

/// A suffixed expression behind an optional prefix: `&` and `!` look ahead,
/// `$` takes the stretch of input that was matched.
#[verifier::opaque]
pub open spec fn g_prefixed(t: Seq<Token>, cur: Cur) -> (Option<ExprModel>, Cur)
    decreases t.len() - cur.pos, 5nat,
{
    let p = cur.pos;
    if punct_at(t, p, '&') || punct_at(t, p, '!') || punct_at(t, p, '$') {
        let (r, c1) = g_suffixed(t, cur.step(1));
        match r {
            Some(e) => (
                Some(
                    if punct_at(t, p, '&') {
                        ExprModel::PositiveLookahead(Box::new(e))
                    } else if punct_at(t, p, '!') {
                        ExprModel::NegativeLookahead(Box::new(e))
                    } else {
                        ExprModel::Capture(Box::new(e))
                    },
                ),
                c1,
            ),
            None => (None, c1.back(cur)),
        }
    } else {
        g_suffixed(t, cur)
    }
}

/// An item of a sequence: a prefixed expression, with or without a label
/// and a colon before it.
#[verifier::opaque]
pub open spec fn g_item(t: Seq<Token>, cur: Cur) -> (Option<ExprModel>, Cur)
    decreases t.len() - cur.pos, 6nat,
{
    let p = cur.pos;
    if ident_at(t, p) && punct_at(t, p + 1, ':') {
        let (r, c1) = g_prefixed(t, cur.step(2));
        match r {
            Some(e) => (Some(ExprModel::Labeled { name: t[p]->Ident_0@, inner: Box::new(e) }), c1),
            None => (None, c1.back(cur)),
        }
    } else {
        g_prefixed(t, cur)
    }
}

/// As many items as follow, behind the items in `acc`.
#[verifier::opaque]
pub open spec fn g_items(t: Seq<Token>, cur: Cur, acc: Seq<ExprModel>) -> (Seq<ExprModel>, Cur)
    decreases t.len() - cur.pos, 7nat,
{
    let (r, c1) = g_item(t, cur);
    match r {
        Some(e) => {
            if cur.pos < c1.pos <= t.len() {
                g_items(t, c1, acc.push(e))
            } else {
                (acc.push(e), c1)
            }
        },
        None => (acc, c1),
    }
}

/// A sequence: items, and behind them an optional block of host code in
/// braces, whose action makes the value of the sequence.
#[verifier::opaque]
pub open spec fn g_sequence(t: Seq<Token>, cur: Cur) -> (Option<ExprModel>, Cur)
    decreases t.len() - cur.pos, 8nat,
{
    let (items, c1) = g_items(t, cur, Seq::empty());
    if open_at(t, c1.pos, Delimiter::Brace) {
        match group_end(t, c1.pos + 1, 0) {
            Some(end) => (
                Some(ExprModel::Action { inner: Box::new(seq_expr(items)), code: c1.actions as usize }),
                c1.past_code(end),
            ),
            None => (None, c1.miss("\"}\""@).back(cur)),
        }
    } else {
        (Some(seq_expr(items)), c1)
    }
}

/// The alternatives that follow, each behind a `/`, behind those in `acc`.
#[verifier::opaque]
pub open spec fn g_alts(t: Seq<Token>, cur: Cur, acc: Seq<ExprModel>) -> (Option<ExprModel>, Cur)
    decreases t.len() - cur.pos, 9nat,
{
    if punct_at(t, cur.pos, '/') {
        let (r, c1) = g_sequence(t, cur.step(1));
        match r {
            Some(e) => {
                if cur.pos < c1.pos <= t.len() {
                    let (all, c2) = g_alts(t, c1, acc.push(e));
                    match all {
                        Some(choice) => (Some(choice), c2),
                        None => (None, c2.back(cur)),
                    }
                } else {
                    (None, c1.back(cur))
                }
            },
            None => (None, c1.back(cur)),
        }
    } else {
        (Some(choice_expr(acc)), cur)
    }
}

/// An ordered choice: sequences with `/` between them.
#[verifier::opaque]
pub open spec fn g_choice(t: Seq<Token>, cur: Cur) -> (Option<ExprModel>, Cur)
    decreases t.len() - cur.pos, 10nat,
{
    let (r, c1) = g_sequence(t, cur);
    match r {
        Some(first) => {
            if cur.pos <= c1.pos <= t.len() {
                let (all, c2) = g_alts(t, c1, seq![first]);
                match all {
                    Some(e) => (Some(e), c2),
                    None => (None, c2.back(cur)),
                }
            } else {
                (None, c1.back(cur))
            }
        },
        None => (None, c1),
    }
}

/// The arguments of a reference, with commas between them, behind those in
/// `acc`.
#[verifier::opaque]
pub open spec fn g_args(t: Seq<Token>, cur: Cur, acc: Seq<ExprModel>) -> (
    Option<Seq<ExprModel>>,
    Cur,
)
    decreases t.len() - cur.pos, 11nat,
{
    let (r, c1) = g_choice(t, cur);
    match r {
        Some(e) => {
            if punct_at(t, c1.pos, ',') && cur.pos <= c1.pos {
                let (rest, c2) = g_args(t, c1.step(1), acc.push(e));
                match rest {
                    Some(all) => (Some(all), c2),
                    None => (None, c2.back(cur)),
                }
            } else {
                (Some(acc.push(e)), c1)
            }
        },
        None => (None, c1),
    }
}

/// One template of a precedence block: items with an operand mark `@`
/// before them, behind them, both or neither, and the block of host code
/// that folds the operands.
#[verifier::opaque]
pub open spec fn g_template(t: Seq<Token>, cur: Cur) -> (Option<TemplateModel>, Cur)
    decreases t.len() - cur.pos, 12nat,
{
    let before = punct_at(t, cur.pos, '@');
    let c0 = if before {
        cur.step(1)
    } else {
        cur
    };
    let (items, c1) = g_items(t, c0, Seq::empty());
    if items.len() == 0 {
        (None, c1.back(cur))
    } else {
        let after = punct_at(t, c1.pos, '@');
        let c2 = if after {
            c1.step(1)
        } else {
            c1
        };
        if open_at(t, c2.pos, Delimiter::Brace) && group_end(t, c2.pos + 1, 0) is Some {
            (
                Some(
                    TemplateModel {
                        fixity: fixity_of(before, after),
                        pattern: seq_expr(items),
                        code: c2.actions as usize,
                    },
                ),
                c2.past_code(group_end(t, c2.pos + 1, 0)->Some_0),
            )
        } else {
            (None, c2.miss("\"{\""@).back(cur))
        }
    }
}

/// As many templates as follow, behind those in `acc`; one at least.
#[verifier::opaque]
pub open spec fn g_templates(t: Seq<Token>, cur: Cur, acc: Seq<TemplateModel>) -> (
    Option<Seq<TemplateModel>>,
    Cur,
)
    decreases t.len() - cur.pos, 13nat,
{
    let (r, c1) = g_template(t, cur);
    match r {
        Some(template) => {
            if cur.pos < c1.pos <= t.len() {
                g_templates(t, c1, acc.push(template))
            } else {
                (Some(acc.push(template)), c1)
            }
        },
        None => {
            if acc.len() > 0 {
                (Some(acc), c1)
            } else {
                (None, c1)
            }
        },
    }
}

/// How the operators of a level group: `#[left]`, `#[right]` or `#[none]`
/// before the level, and to the left where nothing is said.
#[verifier::opaque]
pub open spec fn g_assoc(t: Seq<Token>, cur: Cur) -> (Option<Assoc>, Cur) {
    let p = cur.pos;
    if punct_at(t, p, '#') && open_at(t, p + 1, Delimiter::Bracket) {
        if word_at(t, p + 2, "left"@) && close_at(t, p + 3, Delimiter::Bracket) {
            (Some(Assoc::Left), cur.step(4))
        } else if word_at(t, p + 2, "right"@) && close_at(t, p + 3, Delimiter::Bracket) {
            (Some(Assoc::Right), cur.step(4))
        } else if word_at(t, p + 2, "none"@) && close_at(t, p + 3, Delimiter::Bracket) {
            (Some(Assoc::NonAssoc), cur.step(4))
        } else {
            (None, cur.step(2).miss("associativity"@).back(cur))
        }
    } else {
        (Some(Assoc::Left), cur)
    }
}

/// The levels of a precedence block behind its opening brace, weakest
/// first, with `--` between them, up to the closing brace.
#[verifier::opaque]
pub open spec fn g_levels(t: Seq<Token>, cur: Cur, acc: Seq<LevelModel>) -> (
    Option<ExprModel>,
    Cur,
)
    decreases t.len() - cur.pos, 14nat,
{
    let (assoc, c0) = g_assoc(t, cur);
    match assoc {
        None => (None, c0),
        Some(assoc) => {
            if cur.pos <= c0.pos <= t.len() {
                let (r, c1) = g_templates(t, c0, Seq::empty());
                match r {
                    None => (None, c1.back(cur)),
                    Some(operators) => {
                        let levels = acc.push(LevelModel { assoc, operators });
                        let p = c1.pos;
                        if punct_at(t, p, '-') && punct_at(t, p + 1, '-') && cur.pos <= c1.pos {
                            let (rest, c2) = g_levels(t, c1.step(2), levels);
                            match rest {
                                Some(e) => (Some(e), c2),
                                None => (None, c2.back(cur)),
                            }
                        } else if close_at(t, p, Delimiter::Brace) {
                            (Some(ExprModel::PrecedenceBlock(levels)), c1.step(1))
                        } else {
                            (None, c1.miss("\"}\""@).back(cur))
                        }
                    },
                }
            } else {
                (None, c0.back(cur))
            }
        },
    }
}

/// The parameters of a rule behind the opening parenthesis: names with
/// commas between them, up to the closing parenthesis.
#[verifier::opaque]
pub open spec fn g_params(t: Seq<Token>, cur: Cur, acc: Seq<Seq<char>>) -> (
    Option<Seq<Seq<char>>>,
    Cur,
)
    decreases t.len() - cur.pos,
{
    let p = cur.pos;
    if ident_at(t, p) {
        let names = acc.push(t[p]->Ident_0@);
        if punct_at(t, p + 1, ',') {
            let (rest, c1) = g_params(t, cur.step(2), names);
            match rest {
                Some(all) => (Some(all), c1),
                None => (None, c1.back(cur)),
            }
        } else if close_at(t, p + 1, Delimiter::Paren) {
            (Some(names), cur.step(2))
        } else {
            (None, cur.step(1).miss("\")\""@).back(cur))
        }
    } else {
        (None, cur.miss("identifier"@))
    }
}

/// The head of a rule: `#[cache]` for a rule whose outcomes are remembered,
/// `pub` for a rule at which a parse may start, the name, the parameters
/// in parentheses, and `->`.
#[verifier::opaque]
pub open spec fn g_head(t: Seq<Token>, cur: Cur) -> (Option<RuleModel>, Cur) {
    let p = cur.pos;
    let marked = punct_at(t, p, '#') && open_at(t, p + 1, Delimiter::Bracket);
    if marked && !(word_at(t, p + 2, "cache"@) && close_at(t, p + 3, Delimiter::Bracket)) {
        (None, cur.step(2).miss("\"cache\""@).back(cur))
    } else {
        let c0 = if marked {
            cur.step(4)
        } else {
            cur
        };
        let public = word_at(t, c0.pos, "pub"@);
        let c1 = if public {
            c0.step(1)
        } else {
            c0
        };
        if !ident_at(t, c1.pos) {
            (None, c1.miss("identifier"@).back(cur))
        } else {
            let name = t[c1.pos]->Ident_0@;
            let c2 = c1.step(1);
            let (params, c3) = if open_at(t, c2.pos, Delimiter::Paren) {
                g_params(t, c2.step(1), Seq::empty())
            } else {
                (Some(Seq::empty()), c2)
            };
            match params {
                None => (None, c3.back(cur)),
                Some(params) => {
                    if punct_at(t, c3.pos, '-') && punct_at(t, c3.pos + 1, '>') {
                        (
                            Some(
                                RuleModel {
                                    name,
                                    params,
                                    body: ExprModel::PositionMarker,
                                    memoized: marked,
                                    public,
                                    at: cur.pos as usize,
                                },
                            ),
                            c3.step(2),
                        )
                    } else {
                        (None, c3.miss("\"->\""@).back(cur))
                    }
                },
            }
        }
    }
}

/// A rule: its head, its body, and `;`.
#[verifier::opaque]
pub open spec fn g_rule(t: Seq<Token>, cur: Cur) -> (Option<RuleModel>, Cur) {
    let (head, c1) = g_head(t, cur);
    match head {
        None => (None, c1),
        Some(head) => {
            let (body, c2) = g_choice(t, c1);
            match body {
                None => (None, c2.back(cur)),
                Some(body) => {
                    if punct_at(t, c2.pos, ';') {
                        (Some(RuleModel { body, ..head }), c2.step(1))
                    } else {
                        (None, c2.miss("\";\""@).back(cur))
                    }
                },
            }
        },
    }
}

/// A grammar: rules up to the end of the tokens, behind those in `acc`.
#[verifier::opaque]
pub open spec fn g_rules(t: Seq<Token>, cur: Cur, acc: Seq<RuleModel>) -> (
    Option<Seq<RuleModel>>,
    Cur,
)
    decreases t.len() - cur.pos,
{
    if cur.pos >= t.len() {
        (Some(acc), cur)
    } else {
        let (r, c1) = g_rule(t, cur);
        match r {
            Some(rule) => {
                if cur.pos < c1.pos <= t.len() {
                    g_rules(t, c1, acc.push(rule))
                } else {
                    (None, c1)
                }
            },
            None => (None, c1),
        }
    }
}

/// Where reading begins: at the first token, with no action numbered and no
/// failure seen.
pub open spec fn start_cur() -> Cur {
    Cur { pos: 0, actions: 0, seen: Furthest::none_yet(0) }
}

/// What reading the tokens comes to: the rules of the grammar, or the
/// furthest failure.
#[verifier::opaque]
pub open spec fn g_grammar(t: Seq<Token>) -> Result<Seq<RuleModel>, Furthest> {
    let (r, cur) = g_rules(t, start_cur(), Seq::empty());
    match r {
        Some(rules) => Ok(rules),
        None => Err(cur.seen),
    }
}


/// What every reading function promises of an expression: the result and
/// the state are those that the grammar lays down, the state still fits the
/// tokens, and a failure leaves the position and the action number where
/// they were.
pub open spec fn read_post(
    spec: (Option<ExprModel>, Cur),
    r: Option<Expr>,
    before: Cur,
    after: &Cursor,
    t: Seq<Token>,
) -> bool {
    &&& after@ == spec.1
    &&& after.fits(t)
    &&& match r {
        Some(e) => spec.0 == Some(expr_model(&e)) && before.pos <= after.pos,
        None => spec.0 is None && after.pos == before.pos && after.actions == before.actions,
    }
}

/// The expression for the items of a sequence.
fn make_sequence(items: Vec<Expr>) -> (r: Expr)
    ensures
        expr_model(&r) == seq_expr(expr_models(items@)),
{
    let single = items.len() == 1 && (match &items[0] {
        Expr::Labeled { .. } => false,
        _ => true,
    });
    if single {
        let mut items = items;
        assert(expr_models(items@)[0] == expr_model(&items@[0]));
        let only = items.pop();
        only.unwrap()
    } else {
        proof {
            if items@.len() == 1 {
                assert(expr_models(items@)[0] == expr_model(&items@[0]));
            }
        }
        Expr::Sequence(items)
    }
}

/// The expression for the alternatives of a choice.
fn make_choice(alts: Vec<Expr>) -> (r: Expr)
    ensures
        expr_model(&r) == choice_expr(expr_models(alts@)),
{
    if alts.len() == 1 {
        let mut alts = alts;
        assert(expr_models(alts@)[0] == expr_model(&alts@[0]));
        let only = alts.pop();
        only.unwrap()
    } else {
        Expr::OrderedChoice(alts)
    }
}

fn read_ranges(
    tokens: &Vec<Token>,
    cur: &mut Cursor,
    negated: bool,
    ranges: Vec<(u32, u32)>,
    label: String,
) -> (r: Option<Expr>)
    requires
        old(cur).fits(tokens@),
    ensures
        read_post(
            g_ranges(tokens@, old(cur)@, negated, ranges@, label@),
            r,
            old(cur)@,
            final(cur),
            tokens@,
        ),
    decreases tokens@.len() - old(cur).pos,
{
    reveal(g_ranges);
    let start = cur.pos;
    let mut ranges = ranges;
    let mut label = label;
    if is_close(tokens, start, 0, Delimiter::Bracket) {
        push_char(&mut label, ']');
        cur.pos = start + 1;
        return Some(Expr::ElementClass { ranges, negated, label });
    }
    match character(tokens, start, 0) {
        Some(c) => {
            let upper = if is_punct(tokens, start, 1, '-') {
                character(tokens, start, 2)
            } else {
                None
            };
            match upper {
                Some(d) => {
                    ranges.push((c as u32, d as u32));
                    push_char(&mut label, c);
                    push_char(&mut label, '-');
                    push_char(&mut label, d);
                    cur.pos = start + 3;
                },
                None => {
                    ranges.push((c as u32, c as u32));
                    push_char(&mut label, c);
                    cur.pos = start + 1;
                },
            }
            let r = read_ranges(tokens, cur, negated, ranges, label);
            if r.is_none() {
                cur.pos = start;
            }
            r
        },
        None => {
            cur.miss("\"]\"");
            None
        },
    }
}

fn read_class(tokens: &Vec<Token>, cur: &mut Cursor) -> (r: Option<Expr>)
    requires
        old(cur).fits(tokens@),
    ensures
        read_post(g_class(tokens@, old(cur)@), r, old(cur)@, final(cur), tokens@),
{
    reveal(g_class);
    reveal(g_ranges);
    let start = cur.pos;
    if is_punct(tokens, start, 0, '^') {
        cur.pos = start + 1;
        let r = read_ranges(tokens, cur, true, Vec::new(), String::from_str("[^"));
        if r.is_none() {
            cur.pos = start;
        }
        r
    } else {
        read_ranges(tokens, cur, false, Vec::new(), String::from_str("["))
    }
}

fn read_group(tokens: &Vec<Token>, cur: &mut Cursor) -> (r: Option<Expr>)
    requires
        old(cur).fits(tokens@),
    ensures
        read_post(g_group(tokens@, old(cur)@), r, old(cur)@, final(cur), tokens@),
        r is Some ==> old(cur).pos < final(cur).pos,
    decreases tokens@.len() - old(cur).pos, 2nat,
{
    reveal(g_group);
    reveal(g_choice);
    let start = cur.pos;
    let start_actions = cur.actions;
    if is_open(tokens, start, 0, Delimiter::Paren) {
        cur.pos = start + 1;
        match read_choice(tokens, cur) {
            Some(e) => {
                if is_close(tokens, cur.pos, 0, Delimiter::Paren) {
                    cur.pos = cur.pos + 1;
                    Some(e)
                } else {
                    cur.miss("\")\"");
                    cur.pos = start;
                    cur.actions = start_actions;
                    None
                }
            },
            None => {
                cur.pos = start;
                None
            },
        }
    } else {
        cur.miss("expression");
        None
    }
}

fn read_call(tokens: &Vec<Token>, cur: &mut Cursor) -> (r: Option<Expr>)
    requires
        old(cur).fits(tokens@),
    ensures
        read_post(g_call(tokens@, old(cur)@), r, old(cur)@, final(cur), tokens@),
        r is Some ==> old(cur).pos < final(cur).pos,
    decreases tokens@.len() - old(cur).pos, 2nat,
{
    reveal(g_call);
    reveal(g_args);
    let start = cur.pos;
    let start_actions = cur.actions;
    let name = match ident(tokens, start, 0) {
        Some(name) => {
            if is_open(tokens, start, 1, Delimiter::Paren) {
                Some(name)
            } else {
                None
            }
        },
        None => None,
    };
    match name {
        Some(name) => {
            cur.pos = start + 2;
            proof {
                lemma_expr_models_empty();
            }
            match read_args(tokens, cur, Vec::new()) {
                Some(args) => {
                    if is_close(tokens, cur.pos, 0, Delimiter::Paren) {
                        cur.pos = cur.pos + 1;
                        Some(Expr::RuleRef { name: name.clone(), args })
                    } else {
                        cur.miss("\")\"");
                        cur.pos = start;
                        cur.actions = start_actions;
                        None
                    }
                },
                None => {
                    cur.pos = start;
                    None
                },
            }
        },
        None => {
            cur.miss("expression");
            None
        },
    }
}

fn read_block(tokens: &Vec<Token>, cur: &mut Cursor) -> (r: Option<Expr>)
    requires
        old(cur).fits(tokens@),
    ensures
        read_post(g_block(tokens@, old(cur)@), r, old(cur)@, final(cur), tokens@),
        r is Some ==> old(cur).pos < final(cur).pos,
    decreases tokens@.len() - old(cur).pos, 2nat,
{
    reveal(g_block);
    reveal(g_levels);
    let start = cur.pos;
    if is_word(tokens, start, 0, "precedence") && is_open(tokens, start, 1, Delimiter::Brace) {
        cur.pos = start + 2;
        proof {
            lemma_level_models_empty();
        }
        let r = read_levels(tokens, cur, Vec::new());
        if r.is_none() {
            cur.pos = start;
        }
        r
    } else {
        cur.miss("expression");
        None
    }
}

fn read_primary(tokens: &Vec<Token>, cur: &mut Cursor) -> (r: Option<Expr>)
    requires
        old(cur).fits(tokens@),
    ensures
        read_post(g_primary(tokens@, old(cur)@), r, old(cur)@, final(cur), tokens@),
        r is Some ==> old(cur).pos < final(cur).pos,
    decreases tokens@.len() - old(cur).pos, 3nat,
{
    reveal(g_primary);
    reveal(g_class);
    reveal(g_group);
    reveal(g_block);
    reveal(g_call);
    let start = cur.pos;
    if !(start < tokens.len()) {
        cur.miss("expression");
        return None;
    }
    match string(tokens, start, 0) {
        Some(text) => {
            cur.pos = start + 1;
            return Some(Expr::Literal(text.clone()));
        },
        None => {},
    }
    if is_punct(tokens, start, 0, '.') {
        cur.pos = start + 1;
        Some(Expr::ElementClass { ranges: Vec::new(), negated: true, label: String::from_str(".") })
    } else if is_punct(tokens, start, 0, '^') {
        cur.pos = start + 1;
        Some(Expr::PositionMarker)
    } else if is_open(tokens, start, 0, Delimiter::Bracket) {
        cur.pos = start + 1;
        let r = read_class(tokens, cur);
        if r.is_none() {
            cur.pos = start;
        }
        r
    } else if is_open(tokens, start, 0, Delimiter::Paren) {
        read_group(tokens, cur)
    } else if is_word(tokens, start, 0, "precedence") && is_open(
        tokens,
        start,
        1,
        Delimiter::Brace,
    ) {
        read_block(tokens, cur)
    } else if ident(tokens, start, 0).is_some() && is_open(tokens, start, 1, Delimiter::Paren) {
        read_call(tokens, cur)
    } else {
        match ident(tokens, start, 0) {
            Some(name) => {
                cur.pos = start + 1;
                proof {
                    lemma_expr_models_empty();
                }
                Some(Expr::RuleRef { name: name.clone(), args: Vec::new() })
            },
            None => {
                cur.miss("expression");
                None
            },
        }
    }
}

fn read_suffixes(tokens: &Vec<Token>, cur: &mut Cursor, e: Expr) -> (r: Expr)
    requires
        old(cur).fits(tokens@),
    ensures
        (expr_model(&r), final(cur)@) == g_suffixes(tokens@, old(cur)@, expr_model(&e)),
        final(cur).fits(tokens@),
        old(cur).pos <= final(cur).pos,
    decreases tokens@.len() - old(cur).pos,
{
    reveal(g_suffixes);
    let p = cur.pos;
    if is_punct(tokens, p, 0, '*') {
        cur.pos = p + 1;
        return read_suffixes(
            tokens,
            cur,
            Expr::Repetition { inner: Box::new(e), min: 0, max: None },
        );
    }
    if is_punct(tokens, p, 0, '+') {
        cur.pos = p + 1;
        return read_suffixes(
            tokens,
            cur,
            Expr::Repetition { inner: Box::new(e), min: 1, max: None },
        );
    }
    if is_punct(tokens, p, 0, '?') {
        cur.pos = p + 1;
        return read_suffixes(tokens, cur, Expr::Optional(Box::new(e)));
    }
    let least = if is_open(tokens, p, 0, Delimiter::Brace) {
        number(tokens, p, 1)
    } else {
        None
    };
    match least {
        Some(m) => {
            if is_close(tokens, p, 2, Delimiter::Brace) {
                cur.pos = p + 3;
                read_suffixes(
                    tokens,
                    cur,
                    Expr::Repetition { inner: Box::new(e), min: m, max: Some(m) },
                )
            } else if is_punct(tokens, p, 2, ',') && is_close(tokens, p, 3, Delimiter::Brace) {
                cur.pos = p + 4;
                read_suffixes(
                    tokens,
                    cur,
                    Expr::Repetition { inner: Box::new(e), min: m, max: None },
                )
            } else {
                let most = if is_punct(tokens, p, 2, ',') && is_close(
                    tokens,
                    p,
                    4,
                    Delimiter::Brace,
                ) {
                    number(tokens, p, 3)
                } else {
                    None
                };
                match most {
                    Some(top) => {
                        cur.pos = p + 5;
                        read_suffixes(
                            tokens,
                            cur,
                            Expr::Repetition { inner: Box::new(e), min: m, max: Some(top) },
                        )
                    },
                    None => e,
                }
            }
        },
        None => e,
    }
}

fn read_suffixed(tokens: &Vec<Token>, cur: &mut Cursor) -> (r: Option<Expr>)
    requires
        old(cur).fits(tokens@),
    ensures
        read_post(g_suffixed(tokens@, old(cur)@), r, old(cur)@, final(cur), tokens@),
        r is Some ==> old(cur).pos < final(cur).pos,
    decreases tokens@.len() - old(cur).pos, 4nat,
{
    reveal(g_suffixed);
    reveal(g_primary);
    reveal(g_suffixes);
    match read_primary(tokens, cur) {
        Some(e) => Some(read_suffixes(tokens, cur, e)),
        None => None,
    }
}

fn read_prefixed(tokens: &Vec<Token>, cur: &mut Cursor) -> (r: Option<Expr>)
    requires
        old(cur).fits(tokens@),
    ensures
        read_post(g_prefixed(tokens@, old(cur)@), r, old(cur)@, final(cur), tokens@),
        r is Some ==> old(cur).pos < final(cur).pos,
    decreases tokens@.len() - old(cur).pos, 5nat,
{
    reveal(g_prefixed);
    reveal(g_suffixed);
    let start = cur.pos;
    let ahead = is_punct(tokens, start, 0, '&');
    let not_ahead = is_punct(tokens, start, 0, '!');
    let capture = is_punct(tokens, start, 0, '$');
    if ahead || not_ahead || capture {
        cur.pos = start + 1;
        match read_suffixed(tokens, cur) {
            Some(e) => Some(
                if ahead {
                    Expr::PositiveLookahead(Box::new(e))
                } else if not_ahead {
                    Expr::NegativeLookahead(Box::new(e))
                } else {
                    Expr::Capture(Box::new(e))
                },
            ),
            None => {
                cur.pos = start;
                None
            },
        }
    } else {
        read_suffixed(tokens, cur)
    }
}

fn read_item(tokens: &Vec<Token>, cur: &mut Cursor) -> (r: Option<Expr>)
    requires
        old(cur).fits(tokens@),
    ensures
        read_post(g_item(tokens@, old(cur)@), r, old(cur)@, final(cur), tokens@),
        r is Some ==> old(cur).pos < final(cur).pos,
    decreases tokens@.len() - old(cur).pos, 6nat,
{
    reveal(g_item);
    reveal(g_prefixed);
    let start = cur.pos;
    let label = if is_punct(tokens, start, 1, ':') {
        ident(tokens, start, 0)
    } else {
        None
    };
    match label {
        Some(name) => {
            cur.pos = start + 2;
            match read_prefixed(tokens, cur) {
                Some(e) => Some(Expr::Labeled { name: name.clone(), inner: Box::new(e) }),
                None => {
                    cur.pos = start;
                    None
                },
            }
        },
        None => read_prefixed(tokens, cur),
    }
}

fn read_items(tokens: &Vec<Token>, cur: &mut Cursor, acc: Vec<Expr>) -> (r: Vec<Expr>)
    requires
        old(cur).fits(tokens@),
    ensures
        (expr_models(r@), final(cur)@) == g_items(tokens@, old(cur)@, expr_models(acc@)),
        final(cur).fits(tokens@),
        old(cur).pos <= final(cur).pos,
        r@.len() > acc@.len() ==> old(cur).pos < final(cur).pos,
        r@.len() >= acc@.len(),
        r@.len() == acc@.len() ==> final(cur).actions == old(cur).actions,
    decreases tokens@.len() - old(cur).pos, 7nat,
{
    reveal(g_items);
    reveal(g_item);
    match read_item(tokens, cur) {
        Some(e) => {
            let mut acc = acc;
            proof {
                lemma_expr_models_push(acc@, e);
            }
            acc.push(e);
            read_items(tokens, cur, acc)
        },
        None => acc,
    }
}

fn read_sequence(tokens: &Vec<Token>, cur: &mut Cursor) -> (r: Option<Expr>)
    requires
        old(cur).fits(tokens@),
    ensures
        read_post(g_sequence(tokens@, old(cur)@), r, old(cur)@, final(cur), tokens@),
    decreases tokens@.len() - old(cur).pos, 8nat,
{
    reveal(g_sequence);
    reveal(g_items);
    let start = cur.pos;
    let start_actions = cur.actions;
    proof {
        lemma_expr_models_empty();
    }
    let items = read_items(tokens, cur, Vec::new());
    if is_open(tokens, cur.pos, 0, Delimiter::Brace) {
        match find_group_end(tokens, cur.pos + 1) {
            Some(end) => {
                let code = cur.actions;
                cur.pos = end;
                cur.actions = code + 1;
                Some(Expr::Action { inner: Box::new(make_sequence(items)), code })
            },
            None => {
                cur.miss("\"}\"");
                cur.pos = start;
                cur.actions = start_actions;
                None
            },
        }
    } else {
        Some(make_sequence(items))
    }
}

fn read_alts(tokens: &Vec<Token>, cur: &mut Cursor, acc: Vec<Expr>) -> (r: Option<Expr>)
    requires
        old(cur).fits(tokens@),
    ensures
        read_post(
            g_alts(tokens@, old(cur)@, expr_models(acc@)),
            r,
            old(cur)@,
            final(cur),
            tokens@,
        ),
    decreases tokens@.len() - old(cur).pos, 9nat,
{
    reveal(g_alts);
    reveal(g_sequence);
    let start = cur.pos;
    let start_actions = cur.actions;
    if is_punct(tokens, start, 0, '/') {
        cur.pos = start + 1;
        match read_sequence(tokens, cur) {
            Some(e) => {
                let mut acc = acc;
                proof {
                    lemma_expr_models_push(acc@, e);
                }
                acc.push(e);
                let r = read_alts(tokens, cur, acc);
                if r.is_none() {
                    cur.pos = start;
                    cur.actions = start_actions;
                }
                r
            },
            None => {
                cur.pos = start;
                None
            },
        }
    } else {
        Some(make_choice(acc))
    }
}

fn read_choice(tokens: &Vec<Token>, cur: &mut Cursor) -> (r: Option<Expr>)
    requires
        old(cur).fits(tokens@),
    ensures
        read_post(g_choice(tokens@, old(cur)@), r, old(cur)@, final(cur), tokens@),
    decreases tokens@.len() - old(cur).pos, 10nat,
{
    reveal(g_choice);
    reveal(g_sequence);
    reveal(g_alts);
    let start = cur.pos;
    let start_actions = cur.actions;
    match read_sequence(tokens, cur) {
        Some(first) => {
            let mut acc: Vec<Expr> = Vec::new();
            proof {
                lemma_expr_models_empty();
                lemma_expr_models_push(acc@, first);
                assert(Seq::<ExprModel>::empty().push(expr_model(&first)) =~= seq![
                    expr_model(&first),
                ]);
            }
            acc.push(first);
            let r = read_alts(tokens, cur, acc);
            if r.is_none() {
                cur.pos = start;
                cur.actions = start_actions;
            }
            r
        },
        None => None,
    }
}

fn read_args(tokens: &Vec<Token>, cur: &mut Cursor, acc: Vec<Expr>) -> (r: Option<Vec<Expr>>)
    requires
        old(cur).fits(tokens@),
    ensures
        ({
            let (m, c) = g_args(tokens@, old(cur)@, expr_models(acc@));
            &&& final(cur)@ == c
            &&& final(cur).fits(tokens@)
            &&& match r {
                Some(args) => m == Some(expr_models(args@)) && old(cur).pos <= final(cur).pos,
                None => m is None && final(cur).pos == old(cur).pos && final(cur).actions == old(cur).actions,
            }
        }),
    decreases tokens@.len() - old(cur).pos, 11nat,
{
    reveal(g_args);
    reveal(g_choice);
    let start = cur.pos;
    let start_actions = cur.actions;
    match read_choice(tokens, cur) {
        Some(e) => {
            let mut acc = acc;
            proof {
                lemma_expr_models_push(acc@, e);
            }
            acc.push(e);
            if is_punct(tokens, cur.pos, 0, ',') {
                cur.pos = cur.pos + 1;
                let r = read_args(tokens, cur, acc);
                if r.is_none() {
                    cur.pos = start;
                    cur.actions = start_actions;
                }
                r
            } else {
                Some(acc)
            }
        },
        None => None,
    }
}

/// No levels have no forms.
pub proof fn lemma_level_models_empty()
    ensures
        level_models(Seq::<Level>::empty()) == Seq::<LevelModel>::empty(),
{
    assert(level_models(Seq::<Level>::empty()) =~= Seq::<LevelModel>::empty());
}

/// No templates have no forms.
pub proof fn lemma_template_models_empty()
    ensures
        template_models(Seq::<Template>::empty()) == Seq::<TemplateModel>::empty(),
{
    assert(template_models(Seq::<Template>::empty()) =~= Seq::<TemplateModel>::empty());
}

/// The mathematical form of one template.
pub open spec fn template_model(template: &Template) -> TemplateModel {
    TemplateModel {
        fixity: template.fixity,
        pattern: expr_model(&template.pattern),
        code: template.code,
    }
}

fn read_template(tokens: &Vec<Token>, cur: &mut Cursor) -> (r: Option<Template>)
    requires
        old(cur).fits(tokens@),
    ensures
        ({
            let (m, c) = g_template(tokens@, old(cur)@);
            &&& final(cur)@ == c
            &&& final(cur).fits(tokens@)
            &&& match r {
                Some(template) => {
                    &&& m == Some(template_model(&template))
                    &&& old(cur).pos < final(cur).pos
                },
                None => m is None && final(cur).pos == old(cur).pos && final(cur).actions == old(cur).actions,
            }
        }),
    decreases tokens@.len() - old(cur).pos, 12nat,
{
    reveal(g_template);
    reveal(g_items);
    let start = cur.pos;
    let start_actions = cur.actions;
    let ghost origin = cur@;
    let before = is_punct(tokens, start, 0, '@');
    if before {
        cur.pos = start + 1;
    }
    proof {
        lemma_expr_models_empty();
    }
    let ghost c0 = cur@;
    let items = read_items(tokens, cur, Vec::new());
    let ghost c1 = cur@;
    assert((expr_models(items@), c1) == g_items(tokens@, c0, Seq::empty()));
    if items.len() == 0 {
        cur.pos = start;
        cur.actions = start_actions;
        assert(cur@ == c1.back(origin));
        return None;
    }
    let after = is_punct(tokens, cur.pos, 0, '@');
    if after {
        cur.pos = cur.pos + 1;
    }
    let ghost c2 = cur@;
    let end = if is_open(tokens, cur.pos, 0, Delimiter::Brace) {
        find_group_end(tokens, cur.pos + 1)
    } else {
        None
    };
    match end {
        Some(end) => {
            let code = cur.actions;
            cur.pos = end;
            cur.actions = code + 1;
            let fixity = if before && after {
                Fixity::Infix
            } else if after {
                Fixity::Prefix
            } else if before {
                Fixity::Postfix
            } else {
                Fixity::Atom
            };
            assert(cur@ == c2.past_code(end as int));
            Some(Template { fixity, pattern: make_sequence(items), code })
        },
        None => {
            cur.miss("\"{\"");
            cur.pos = start;
            cur.actions = start_actions;
            assert(cur@ == c2.miss("\"{\""@).back(origin));
            None
        },
    }
}

fn read_templates(tokens: &Vec<Token>, cur: &mut Cursor, acc: Vec<Template>) -> (r: Option<
    Vec<Template>,
>)
    requires
        old(cur).fits(tokens@),
    ensures
        ({
            let (m, c) = g_templates(tokens@, old(cur)@, template_models(acc@));
            &&& final(cur)@ == c
            &&& final(cur).fits(tokens@)
            &&& match r {
                Some(templates) => m == Some(template_models(templates@)) && old(cur).pos
                    <= final(cur).pos,
                None => m is None && final(cur).pos == old(cur).pos && final(cur).actions == old(cur).actions,
            }
        }),
        acc@.len() > 0 ==> r is Some,
    decreases tokens@.len() - old(cur).pos, 13nat,
{
    reveal(g_templates);
    reveal(g_template);
    match read_template(tokens, cur) {
        Some(template) => {
            let mut acc = acc;
            proof {
                lemma_template_models_push(acc@, template);
            }
            acc.push(template);
            read_templates(tokens, cur, acc)
        },
        None => {
            if acc.len() > 0 {
                Some(acc)
            } else {
                None
            }
        },
    }
}

fn read_assoc(tokens: &Vec<Token>, cur: &mut Cursor) -> (r: Option<Assoc>)
    requires
        old(cur).fits(tokens@),
    ensures
        (r, final(cur)@) == g_assoc(tokens@, old(cur)@),
        final(cur).fits(tokens@),
        old(cur).pos <= final(cur).pos,
        final(cur).actions == old(cur).actions,
        r is None ==> final(cur).pos == old(cur).pos,
{
    reveal(g_assoc);
    let p = cur.pos;
    if is_punct(tokens, p, 0, '#') && is_open(tokens, p, 1, Delimiter::Bracket) {
        let closed = is_close(tokens, p, 3, Delimiter::Bracket);
        if closed && is_word(tokens, p, 2, "left") {
            cur.pos = p + 4;
            Some(Assoc::Left)
        } else if closed && is_word(tokens, p, 2, "right") {
            cur.pos = p + 4;
            Some(Assoc::Right)
        } else if closed && is_word(tokens, p, 2, "none") {
            cur.pos = p + 4;
            Some(Assoc::NonAssoc)
        } else {
            cur.pos = p + 2;
            cur.miss("associativity");
            cur.pos = p;
            None
        }
    } else {
        Some(Assoc::Left)
    }
}

fn read_levels(tokens: &Vec<Token>, cur: &mut Cursor, acc: Vec<Level>) -> (r: Option<Expr>)
    requires
        old(cur).fits(tokens@),
    ensures
        read_post(
            g_levels(tokens@, old(cur)@, level_models(acc@)),
            r,
            old(cur)@,
            final(cur),
            tokens@,
        ),
    decreases tokens@.len() - old(cur).pos, 14nat,
{
    reveal(g_levels);
    reveal(g_assoc);
    reveal(g_templates);
    let start = cur.pos;
    let start_actions = cur.actions;
    match read_assoc(tokens, cur) {
        None => None,
        Some(assoc) => {
            proof {
                lemma_template_models_empty();
            }
            match read_templates(tokens, cur, Vec::new()) {
                None => {
                    cur.pos = start;
                    None
                },
                Some(operators) => {
                    let mut acc = acc;
                    let level = Level { assoc, operators };
                    proof {
                        lemma_level_models_push(acc@, level);
                    }
                    acc.push(level);
                    let p = cur.pos;
                    if is_punct(tokens, p, 0, '-') && is_punct(tokens, p, 1, '-') {
                        cur.pos = p + 2;
                        let r = read_levels(tokens, cur, acc);
                        if r.is_none() {
                            cur.pos = start;
                            cur.actions = start_actions;
                        }
                        r
                    } else if is_close(tokens, p, 0, Delimiter::Brace) {
                        cur.pos = p + 1;
                        Some(Expr::PrecedenceBlock(acc))
                    } else {
                        cur.miss("\"}\"");
                        cur.pos = start;
                        cur.actions = start_actions;
                        None
                    }
                },
            }
        },
    }
}

fn read_params(tokens: &Vec<Token>, cur: &mut Cursor, acc: Vec<String>) -> (r: Option<
    Vec<String>,
>)
    requires
        old(cur).fits(tokens@),
    ensures
        ({
            let (m, c) = g_params(tokens@, old(cur)@, texts(acc@));
            &&& final(cur)@ == c
            &&& final(cur).fits(tokens@)
            &&& final(cur).actions == old(cur).actions
            &&& match r {
                Some(names) => m == Some(texts(names@)) && old(cur).pos < final(cur).pos,
                None => m is None && final(cur).pos == old(cur).pos,
            }
        }),
    decreases tokens@.len() - old(cur).pos,
{
    reveal(g_params);
    let start = cur.pos;
    match ident(tokens, start, 0) {
        Some(name) => {
            let mut acc = acc;
            proof {
                lemma_texts_push(acc@, *name);
            }
            acc.push(name.clone());
            if is_punct(tokens, start, 1, ',') {
                cur.pos = start + 2;
                let r = read_params(tokens, cur, acc);
                if r.is_none() {
                    cur.pos = start;
                }
                r
            } else if is_close(tokens, start, 1, Delimiter::Paren) {
                cur.pos = start + 2;
                Some(acc)
            } else {
                cur.pos = start + 1;
                cur.miss("\")\"");
                cur.pos = start;
                None
            }
        },
        None => {
            cur.miss("identifier");
            None
        },
    }
}

/// What the reading functions promise of a rule.
pub open spec fn rule_post(
    spec: (Option<RuleModel>, Cur),
    r: Option<Rule>,
    before: Cur,
    after: &Cursor,
    t: Seq<Token>,
) -> bool {
    &&& after@ == spec.1
    &&& after.fits(t)
    &&& match r {
        Some(rule) => spec.0 == Some(rule_model(&rule)) && before.pos < after.pos,
        None => spec.0 is None,
    }
}

fn read_head(tokens: &Vec<Token>, cur: &mut Cursor) -> (r: Option<Rule>)
    requires
        old(cur).fits(tokens@),
    ensures
        rule_post(g_head(tokens@, old(cur)@), r, old(cur)@, final(cur), tokens@),
        final(cur).actions == old(cur).actions,
        r is None ==> final(cur).pos == old(cur).pos,
{
    reveal(g_head);
    reveal(g_params);
    let start = cur.pos;
    let marked = is_punct(tokens, start, 0, '#') && is_open(tokens, start, 1, Delimiter::Bracket);
    if marked {
        if !(is_word(tokens, start, 2, "cache") && is_close(tokens, start, 3, Delimiter::Bracket)) {
            cur.pos = start + 2;
            cur.miss("\"cache\"");
            cur.pos = start;
            return None;
        }
        cur.pos = start + 4;
    }
    let public = is_word(tokens, cur.pos, 0, "pub");
    if public {
        cur.pos = cur.pos + 1;
    }
    let name = match ident(tokens, cur.pos, 0) {
        Some(name) => name.clone(),
        None => {
            cur.miss("identifier");
            cur.pos = start;
            return None;
        },
    };
    cur.pos = cur.pos + 1;
    let params = if is_open(tokens, cur.pos, 0, Delimiter::Paren) {
        cur.pos = cur.pos + 1;
        proof {
            assert(texts(Seq::<String>::empty()) =~= Seq::<Seq<char>>::empty());
        }
        read_params(tokens, cur, Vec::new())
    } else {
        proof {
            assert(texts(Seq::<String>::empty()) =~= Seq::<Seq<char>>::empty());
        }
        Some(Vec::new())
    };
    match params {
        None => {
            cur.pos = start;
            None
        },
        Some(params) => {
            if is_punct(tokens, cur.pos, 0, '-') && is_punct(tokens, cur.pos, 1, '>') {
                cur.pos = cur.pos + 2;
                Some(
                    Rule {
                        name,
                        params,
                        body: Expr::PositionMarker,
                        memoized: marked,
                        public,
                        at: start,
                    },
                )
            } else {
                cur.miss("\"->\"");
                cur.pos = start;
                None
            }
        },
    }
}

fn read_rule(tokens: &Vec<Token>, cur: &mut Cursor) -> (r: Option<Rule>)
    requires
        old(cur).fits(tokens@),
    ensures
        rule_post(g_rule(tokens@, old(cur)@), r, old(cur)@, final(cur), tokens@),
{
    reveal(g_rule);
    reveal(g_head);
    reveal(g_choice);
    let start = cur.pos;
    let start_actions = cur.actions;
    match read_head(tokens, cur) {
        None => None,
        Some(head) => {
            match read_choice(tokens, cur) {
                None => {
                    cur.pos = start;
                    None
                },
                Some(body) => {
                    if is_punct(tokens, cur.pos, 0, ';') {
                        cur.pos = cur.pos + 1;
                        Some(
                            Rule {
                                name: head.name,
                                params: head.params,
                                body,
                                memoized: head.memoized,
                                public: head.public,
                                at: head.at,
                            },
                        )
                    } else {
                        cur.miss("\";\"");
                        cur.pos = start;
                        cur.actions = start_actions;
                        None
                    }
                },
            }
        },
    }
}

fn read_rules(tokens: &Vec<Token>, cur: &mut Cursor, acc: Vec<Rule>) -> (r: Option<Vec<Rule>>)
    requires
        old(cur).fits(tokens@),
    ensures
        ({
            let (m, c) = g_rules(tokens@, old(cur)@, rule_models(acc@));
            &&& final(cur)@ == c
            &&& final(cur).tracker.wf()
            &&& match r {
                Some(rules) => m == Some(rule_models(rules@)),
                None => m is None,
            }
        }),
    decreases tokens@.len() - old(cur).pos,
{
    reveal(g_rules);
    reveal(g_rule);
    if cur.pos >= tokens.len() {
        return Some(acc);
    }
    match read_rule(tokens, cur) {
        Some(rule) => {
            let mut acc = acc;
            proof {
                lemma_rule_models_push(acc@, rule);
            }
            acc.push(rule);
            read_rules(tokens, cur, acc)
        },
        None => None,
    }
}

/// Reads a grammar from its tokens.
///
/// The result is the grammar that the tokens spell, or the furthest point
/// that any attempt to read them reached, with what was expected there.
pub fn parse_grammar(tokens: &Vec<Token>) -> (r: Result<Grammar, ParseError<usize>>)
    ensures
        match g_grammar(tokens@) {
            Ok(rules) => r matches Ok(grammar) && grammar@ == rules,
            Err(furthest) => r matches Err(e) && e.offset == furthest.pos && e.location
                == furthest.pos && e.expected@ == furthest.expected,
        },
        r matches Err(e) ==> e.expected.wf(),
{
    reveal(g_grammar);
    reveal(g_rules);
    let n = tokens.len();
    let mut cur = Cursor { pos: 0, actions: 0, tracker: ErrorState::new(0) };
    proof {
        assert(rule_models(Seq::<Rule>::empty()) =~= Seq::<RuleModel>::empty());
    }
    match read_rules(tokens, &mut cur, Vec::new()) {
        Some(rules) => Ok(Grammar { rules }),
        None => {
            let offset = cur.tracker.max_err_pos;
            Err(ParseError { offset, location: offset, expected: cur.tracker.expected })
        },
    }
}

} // verus!
