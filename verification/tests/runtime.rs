use peg::ast::{Expr, Grammar, Rule};
use peg::compile::compile;
use peg::entry::{EntryError, TreeBuilder};
use peg::error::{diagnostic_message, ErrorState, ExpectedSet};
use peg::matcher::ParseState;
use peg::value::Value;
use peg::{Parse, ParseElem, ParseLiteral, ParseSlice, RuleResult, Symbol};

#[test]
fn tracker_keeps_the_furthest_failure() {
    let mut state = ErrorState::new(2);
    assert_eq!(state.max_err_pos, 2);
    assert!(state.expected.is_empty());
    assert_eq!(state.mark_failure(1, "early"), RuleResult::Failed);
    assert_eq!(state.max_err_pos, 2);
    assert!(state.expected.is_empty());
    state.mark_failure(2, "b");
    state.mark_failure(2, "a");
    state.mark_failure(2, "b");
    assert_eq!(state.expected.tokens(), vec!["a".to_string(), "b".to_string()]);
    state.mark_failure(5, "c");
    assert_eq!(state.max_err_pos, 5);
    assert_eq!(state.expected.tokens(), vec!["c".to_string()]);
    state.mark_failure(4, "d");
    assert_eq!(state.expected.tokens(), vec!["c".to_string()]);
    let error = state.into_parse_error(&b"0123456"[..]);
    assert_eq!(error.offset, 5);
    assert_eq!(error.location, 5);
    assert_eq!(error.expected.len(), 1);
}

#[test]
fn expected_set_renders_none_one_and_many() {
    let mut set = ExpectedSet::new();
    assert_eq!(set.render(), "<unreported>");
    set.insert("x".to_string());
    assert!(set.contains(&"x".to_string()));
    assert!(!set.contains(&"y".to_string()));
    assert_eq!(set.render(), "x");
    set.insert("z".to_string());
    set.insert("x".to_string());
    set.insert("y".to_string());
    set.insert("xy".to_string());
    set.insert("\u{e9}".to_string());
    set.insert("".to_string());
    assert_eq!(set.len(), 6);
    assert_eq!(set.render(), "one of , x, xy, y, z, \u{e9}");
    assert_eq!(
        set.tokens(),
        vec!["", "x", "xy", "y", "z", "\u{e9}"].into_iter().map(String::from).collect::<Vec<_>>()
    );
    set.clear();
    assert!(set.is_empty());
}

#[test]
fn diagnostic_message_names_the_end_of_input() {
    assert_eq!(diagnostic_message("identifier", false), "expected identifier");
    assert_eq!(diagnostic_message("\"->\"", true), "expected \"->\" at end of input");
}

#[test]
fn slices_offer_all_capabilities() {
    let input: &[u8] = b"h\xc3\xa9llo";
    assert_eq!(input.start(), 0);
    assert!(!input.is_eof(5));
    assert!(input.is_eof(6));
    assert_eq!(input.position_repr(4), 4);
    assert_eq!(input.parse_elem(0), RuleResult::Matched(1, b'h'));
    assert_eq!(input.parse_elem(6), RuleResult::Failed);
    assert_eq!(input.parse_string_literal(1, "\u{e9}l"), RuleResult::Matched(4, ()));
    assert_eq!(input.parse_string_literal(1, "el"), RuleResult::Failed);
    assert_eq!(input.parse_string_literal(4, "lox"), RuleResult::Failed);
    assert_eq!(input.parse_string_literal(6, ""), RuleResult::Matched(6, ()));
    assert_eq!(input.parse_string_literal(7, ""), RuleResult::Failed);
    assert_eq!(input.parse_slice(1, 3), &b"\xc3\xa9"[..]);
    let words: &[u32] = &[7, 8, 9];
    assert_eq!(words.parse_elem(2), RuleResult::Matched(3, 9));
    assert_eq!(words.parse_slice(0, 0), &[] as &[u32]);
}

#[test]
fn symbols_have_their_code() {
    assert_eq!(b'a'.code(), 97);
    assert_eq!('\u{e9}'.code(), 0xe9);
    assert_eq!(12u32.code(), 12);
}

#[test]
fn result_splits_and_joins() {
    assert_eq!(RuleResult::from_output((3, 'x')), RuleResult::Matched(3, 'x'));
    assert_eq!(RuleResult::Matched(3, 'x').branch(), Ok((3, 'x')));
    assert_eq!(RuleResult::<char>::Failed.branch(), Err(()));
    assert_eq!(RuleResult::<char>::from_residual(()), RuleResult::Failed);
}

fn lit(text: &str) -> Expr {
    Expr::Literal(text.to_string())
}

fn call(name: &str) -> Expr {
    Expr::RuleRef { name: name.to_string(), args: vec![] }
}

fn rule(name: &str, body: Expr, memoized: bool, public: bool) -> Rule {
    Rule { name: name.to_string(), params: vec![], body, memoized, public, at: 0 }
}

#[test]
fn remembered_outcome_is_given_again() {
    let g = Grammar {
        rules: vec![
            rule(
                "S",
                Expr::OrderedChoice(vec![
                    Expr::Sequence(vec![call("T"), lit("x")]),
                    Expr::Sequence(vec![call("T"), lit("y")]),
                ]),
                false,
                true,
            ),
            rule(
                "T",
                Expr::Capture(Box::new(Expr::Repetition {
                    inner: Box::new(lit("a")),
                    min: 1,
                    max: None,
                })),
                true,
                false,
            ),
        ],
    };
    let prog = compile(&g).ok().expect("compiles");
    let input: &[u8] = b"aay";
    let mut st = ParseState::new(&prog, 0);
    let first = prog.match_rule(input, &TreeBuilder, 1, 0, &mut st);
    assert_eq!(first, RuleResult::Matched(2, Value::Span(0, 2)));
    let seen = st.tracker.max_err_pos;
    let again = prog.match_rule(input, &TreeBuilder, 1, 0, &mut st);
    assert_eq!(again, first);
    assert_eq!(st.tracker.max_err_pos, seen);
    let whole = prog.match_rule(input, &TreeBuilder, 0, 0, &mut st);
    assert_eq!(whole, RuleResult::Matched(3, Value::List(vec![])));
    let fresh = prog.match_rule(input, &TreeBuilder, 0, 0, &mut ParseState::new(&prog, 0));
    assert_eq!(fresh, whole);
    assert_eq!(prog.match_rule(input, &TreeBuilder, 1, 2, &mut st), RuleResult::Failed);
    assert_eq!(prog.match_rule(input, &TreeBuilder, 1, 2, &mut st), RuleResult::Failed);
}

#[test]
fn parse_starts_only_at_public_rules() {
    let g = Grammar {
        rules: vec![rule("S", call("T"), false, true), rule("T", lit("t"), false, false)],
    };
    let prog = compile(&g).ok().expect("compiles");
    assert!(prog.check());
    assert_eq!(prog.rule_index("T"), Some(1));
    assert_eq!(prog.rule_index("U"), None);
    assert!(matches!(prog.parse_public(&b"t"[..], &TreeBuilder, "S"), Ok(Value::Unit)));
    assert!(matches!(
        prog.parse_public(&b"t"[..], &TreeBuilder, "T"),
        Err(EntryError::NoEntry)
    ));
    assert!(matches!(
        prog.parse_public(&b"t"[..], &TreeBuilder, "U"),
        Err(EntryError::NoEntry)
    ));
    match prog.parse_public(&b"u"[..], &TreeBuilder, "S") {
        Err(EntryError::Mismatch(e)) => {
            assert_eq!(e.offset, 0);
            assert_eq!(e.expected.tokens(), vec!["\"t\"".to_string()]);
        },
        _ => panic!("must not match"),
    }
}
