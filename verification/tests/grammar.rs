use peg::ast::Expr;
use peg::entry::TreeBuilder;
use peg::grammar::parse_grammar;
use peg::parser;
use peg::program::{Assoc, Fixity, Program};
use peg::tokens::{Delimiter, Token};
use peg::value::Value;

/// Splits the text of a grammar into tokens.
fn tokens(text: &str) -> Vec<Token> {
    let chars: Vec<char> = text.chars().collect();
    let mut out = Vec::new();
    let mut i = 0;
    while i < chars.len() {
        let c = chars[i];
        if c.is_whitespace() {
            i += 1;
        } else if c.is_alphabetic() || c == '_' {
            let start = i;
            while i < chars.len() && (chars[i].is_alphanumeric() || chars[i] == '_') {
                i += 1;
            }
            out.push(Token::Ident(chars[start..i].iter().collect()));
        } else if c.is_ascii_digit() {
            let start = i;
            while i < chars.len() && chars[i].is_ascii_digit() {
                i += 1;
            }
            let digits: String = chars[start..i].iter().collect();
            out.push(Token::Number(digits.parse().unwrap()));
        } else if c == '"' {
            let start = i + 1;
            i += 1;
            while chars[i] != '"' {
                i += 1;
            }
            out.push(Token::Str(chars[start..i].iter().collect()));
            i += 1;
        } else if c == '\'' {
            out.push(Token::Char(chars[i + 1]));
            i += 3;
        } else {
            out.push(match c {
                '(' => Token::Open(Delimiter::Paren),
                ')' => Token::Close(Delimiter::Paren),
                '[' => Token::Open(Delimiter::Bracket),
                ']' => Token::Close(Delimiter::Bracket),
                '{' => Token::Open(Delimiter::Brace),
                '}' => Token::Close(Delimiter::Brace),
                other => Token::Punct(other),
            });
            i += 1;
        }
    }
    out
}

fn program(text: &str) -> Program {
    match parser(&tokens(text)) {
        Ok(p) => p,
        Err(d) => panic!("no program: {} at {}", d.message, d.position),
    }
}

fn diagnostic(text: &str) -> (usize, String) {
    match parser(&tokens(text)) {
        Ok(_) => panic!("compiles"),
        Err(d) => (d.position, d.message),
    }
}

fn rule(prog: &Program, name: &str) -> usize {
    prog.rule_index(name).expect("rule exists")
}

#[test]
fn reads_rules_with_choice_and_sequence() {
    let g = parse_grammar(&tokens("S -> \"ab\" / x:T \"c\" ; pub T -> \"t\"* ;")).ok().unwrap();
    assert_eq!(g.rules.len(), 2);
    assert_eq!(g.rules[0].name, "S");
    assert!(!g.rules[0].public);
    assert_eq!(g.rules[0].at, 0);
    assert!(g.rules[1].public);
    assert_eq!(g.rules[1].at, 10);
    match &g.rules[0].body {
        Expr::OrderedChoice(alts) => {
            assert_eq!(alts.len(), 2);
            assert!(matches!(&alts[0], Expr::Literal(t) if t == "ab"));
            match &alts[1] {
                Expr::Sequence(items) => {
                    assert_eq!(items.len(), 2);
                    assert!(matches!(&items[0], Expr::Labeled { name, .. } if name == "x"));
                },
                _ => panic!("second alternative is a sequence"),
            }
        },
        _ => panic!("body is a choice"),
    }
    assert!(matches!(
        &g.rules[1].body,
        Expr::Repetition { min: 0, max: None, .. }
    ));
}

#[test]
fn reads_suffixes_prefixes_and_bounds() {
    let g = parse_grammar(&tokens(
        "S -> &\"a\" !\"b\" $(\"c\"+) \"d\"? \"e\"{2,4} \"f\"{3} \"g\"{1,} . ^ ;",
    ))
    .ok()
    .unwrap();
    let items = match &g.rules[0].body {
        Expr::Sequence(items) => items,
        _ => panic!("a sequence"),
    };
    assert_eq!(items.len(), 9);
    assert!(matches!(&items[0], Expr::PositiveLookahead(_)));
    assert!(matches!(&items[1], Expr::NegativeLookahead(_)));
    assert!(matches!(&items[2], Expr::Capture(_)));
    assert!(matches!(&items[3], Expr::Optional(_)));
    assert!(matches!(&items[4], Expr::Repetition { min: 2, max: Some(4), .. }));
    assert!(matches!(&items[5], Expr::Repetition { min: 3, max: Some(3), .. }));
    assert!(matches!(&items[6], Expr::Repetition { min: 1, max: None, .. }));
    assert!(matches!(&items[7], Expr::ElementClass { negated: true, .. }));
    assert!(matches!(&items[8], Expr::PositionMarker));
}

#[test]
fn reads_element_class_with_label() {
    let g = parse_grammar(&tokens("S -> ['a'-'z' '_'] [^ '0'-'9'] ;")).ok().unwrap();
    let items = match &g.rules[0].body {
        Expr::Sequence(items) => items,
        _ => panic!("a sequence"),
    };
    match &items[0] {
        Expr::ElementClass { ranges, negated, label } => {
            assert_eq!(ranges, &vec![('a' as u32, 'z' as u32), ('_' as u32, '_' as u32)]);
            assert!(!negated);
            assert_eq!(label, "[a-z_]");
        },
        _ => panic!("a class"),
    }
    match &items[1] {
        Expr::ElementClass { ranges, negated, label } => {
            assert_eq!(ranges, &vec![('0' as u32, '9' as u32)]);
            assert!(*negated);
            assert_eq!(label, "[^0-9]");
        },
        _ => panic!("a class"),
    }
}

#[test]
fn numbers_actions_in_order_of_appearance() {
    let g = parse_grammar(&tokens(
        "A -> x:\"a\" { one(x) } / \"b\" { two } ; B(p, q) -> p q { { nested } } ;",
    ))
    .ok()
    .unwrap();
    match &g.rules[0].body {
        Expr::OrderedChoice(alts) => {
            assert!(matches!(&alts[0], Expr::Action { code: 0, .. }));
            assert!(matches!(&alts[1], Expr::Action { code: 1, .. }));
        },
        _ => panic!("a choice"),
    }
    assert_eq!(g.rules[1].params, vec!["p".to_string(), "q".to_string()]);
    assert!(matches!(&g.rules[1].body, Expr::Action { code: 2, .. }));
}

#[test]
fn reads_precedence_block() {
    let g = parse_grammar(&tokens(
        "E -> precedence { @ \"+\" @ { add } -- #[right] @ \"^\" @ { pow } -- \"-\" @ { neg } @ \"!\" { fact } -- n:N { n } } ;",
    ))
    .ok()
    .unwrap();
    let levels = match &g.rules[0].body {
        Expr::PrecedenceBlock(levels) => levels,
        _ => panic!("a precedence block"),
    };
    assert_eq!(levels.len(), 4);
    assert_eq!(levels[0].assoc, Assoc::Left);
    assert_eq!(levels[1].assoc, Assoc::Right);
    assert_eq!(levels[0].operators[0].fixity, Fixity::Infix);
    assert_eq!(levels[2].operators[0].fixity, Fixity::Prefix);
    assert_eq!(levels[2].operators[1].fixity, Fixity::Postfix);
    assert_eq!(levels[3].operators[0].fixity, Fixity::Atom);
    assert_eq!(levels[3].operators[0].code, 4);
}

#[test]
fn missing_arrow_is_reported_where_it_is_missing() {
    let (position, message) = diagnostic("S \"a\" ;");
    assert_eq!(position, 1);
    assert_eq!(message, "expected \"->\"");
}

#[test]
fn text_that_ends_early_says_so() {
    let (position, message) = diagnostic("S -> \"a\"");
    assert_eq!(position, 4);
    assert_eq!(message, "expected one of \";\", expression at end of input");
}

#[test]
fn error_points_at_deepest_failure() {
    let (position, message) = diagnostic("S -> \"a\" ( \"b\" / ) \"c\" ; T -> ( \"x\" ;");
    assert_eq!(position, 15);
    assert_eq!(message, "expected one of \")\", expression");
}

#[test]
fn unknown_annotation_is_reported() {
    let (position, message) = diagnostic("#[fast] S -> \"a\" ;");
    assert_eq!(position, 2);
    assert_eq!(message, "expected \"cache\"");
}

#[test]
fn furthest_failure_from_grammar_text() {
    let prog = program("S -> \"ab\" / \"ac\" ;");
    let err = prog.parse(&b"ax"[..], &TreeBuilder, rule(&prog, "S")).err().unwrap();
    assert_eq!(err.offset, 1);
    assert_eq!(err.location, 1);
    let mut labels = err.expected.tokens();
    labels.sort();
    assert_eq!(labels, vec!["\"b\"".to_string(), "\"c\"".to_string()]);
}

#[test]
fn left_recursive_rule_is_rejected_with_diagnostic() {
    let (position, message) = diagnostic("n -> \"n\" ; E -> E \"+\" n / n ;");
    assert_eq!(position, 5);
    assert_eq!(message, "left recursion outside a memoized rule or a precedence block");
}

#[test]
fn memoized_left_recursive_rule_compiles() {
    let prog = program("#[cache] E -> E \"+\" n / n ; n -> \"n\" ;");
    assert!(prog.parse(&b"n"[..], &TreeBuilder, rule(&prog, "E")).is_ok());
}

#[test]
fn repetition_of_optional_is_rejected_with_diagnostic() {
    let (position, message) = diagnostic("S -> (\"a\"?)* ;");
    assert_eq!(position, 0);
    assert_eq!(message, "repetition of something that may match nothing");
}

#[test]
fn undefined_rule_is_rejected_with_diagnostic() {
    let (position, message) = diagnostic("S -> \"a\" ; T -> U ;");
    assert_eq!(position, 5);
    assert_eq!(message, "reference to an undefined rule");
}

#[test]
fn precedence_from_grammar_text() {
    let prog = program(
        "expr -> precedence { @ \"+\" @ { add } -- #[right] @ \"^\" @ { pow } -- n:$(['0'-'9']+) { num } } ;",
    );
    let start = rule(&prog, "expr");
    let num = |from: usize, to: usize| Value::Node(2, vec![Value::Span(from, to)]);
    let left = prog.parse(&b"1+2+3"[..], &TreeBuilder, start).ok().unwrap();
    assert_eq!(
        left,
        Value::Node(0, vec![Value::Node(0, vec![num(0, 1), num(2, 3)]), num(4, 5)])
    );
    let right = prog.parse(&b"1^2^3"[..], &TreeBuilder, start).ok().unwrap();
    assert_eq!(
        right,
        Value::Node(1, vec![num(0, 1), Value::Node(1, vec![num(2, 3), num(4, 5)])])
    );
}

#[test]
fn parameters_from_grammar_text() {
    let prog = program(
        "pub S -> list(item) ; list(x) -> first:x rest:(\",\" y:x)* ; item -> $(['a'-'z']+) ;",
    );
    let v = prog.parse(&b"ab,c"[..], &TreeBuilder, rule(&prog, "S")).ok().unwrap();
    assert_eq!(
        v,
        Value::List(vec![
            Value::Span(0, 2),
            Value::List(vec![Value::List(vec![Value::Span(3, 4)])]),
        ])
    );
    assert!(prog.rules[rule(&prog, "S")].public);
}
