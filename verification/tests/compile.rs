use peg::ast::{Expr, Grammar, Level, Rule, Template};
use peg::compile::compile;
use peg::entry::TreeBuilder;
use peg::program::{Assoc, Fixity, Program, RuleKind};
use peg::translate::CompileError;
use peg::value::Value;

fn lit(text: &str) -> Expr {
    Expr::Literal(text.to_string())
}

fn call(name: &str) -> Expr {
    Expr::RuleRef { name: name.to_string(), args: vec![] }
}

fn keep(name: &str, inner: Expr) -> Expr {
    Expr::Labeled { name: name.to_string(), inner: Box::new(inner) }
}

fn class(from: char, to: char) -> Expr {
    Expr::ElementClass {
        ranges: vec![(from as u32, to as u32)],
        negated: false,
        label: format!("[{}-{}]", from, to),
    }
}

fn rule(name: &str, body: Expr) -> Rule {
    Rule { name: name.to_string(), params: vec![], body, memoized: false, public: true, at: 0 }
}

fn memo(name: &str, body: Expr) -> Rule {
    Rule { name: name.to_string(), params: vec![], body, memoized: true, public: true, at: 0 }
}

fn grammar(rules: Vec<Rule>) -> Grammar {
    Grammar { rules }
}

fn must_compile(g: &Grammar) -> Program {
    match compile(g) {
        Ok(p) => p,
        Err(e) => panic!("does not compile: {:?}", e),
    }
}

fn problem(g: &Grammar) -> CompileError {
    match compile(g) {
        Ok(_) => panic!("compiles"),
        Err(e) => e,
    }
}

fn sorted(mut labels: Vec<String>) -> Vec<String> {
    labels.sort();
    labels
}

#[test]
fn error_reports_furthest_progress() {
    let g = grammar(vec![rule("S", Expr::OrderedChoice(vec![lit("ab"), lit("ac")]))]);
    let prog = must_compile(&g);
    let err = prog.parse(&b"ax"[..], &TreeBuilder, 0).err().expect("must fail");
    assert_eq!(err.offset, 1);
    assert_eq!(sorted(err.expected.tokens()), vec!["\"b\"".to_string(), "\"c\"".to_string()]);
    assert_eq!(err.expected.render(), "one of \"b\", \"c\"");
}

#[test]
fn ordered_choice_prefers_the_left_alternative() {
    let g = grammar(vec![rule("S", Expr::OrderedChoice(vec![lit("a"), lit("ab")]))]);
    let prog = must_compile(&g);
    let mut st = peg::matcher::ParseState::new(&prog, 0);
    let r = prog.match_rule(&b"ab"[..], &TreeBuilder, 0, 0, &mut st);
    assert_eq!(r, peg::RuleResult::Matched(1, Value::Unit));
}

#[test]
fn plain_left_recursion_is_rejected() {
    let body = Expr::OrderedChoice(vec![
        Expr::Sequence(vec![call("E"), lit("+"), call("n")]),
        call("n"),
    ]);
    let g = grammar(vec![rule("E", body), rule("n", lit("n"))]);
    assert_eq!(problem(&g), CompileError::LeftRecursion { rule: 0 });
}

#[test]
fn indirect_left_recursion_is_rejected() {
    let g = grammar(vec![
        rule("A", Expr::Sequence(vec![Expr::Optional(Box::new(lit("x"))), call("B")])),
        rule("B", Expr::OrderedChoice(vec![Expr::Sequence(vec![call("A"), lit("y")]), lit("z")])),
    ]);
    assert_eq!(problem(&g), CompileError::LeftRecursion { rule: 0 });
}

#[test]
fn recursion_behind_consumption_is_accepted() {
    let g = grammar(vec![rule(
        "E",
        Expr::OrderedChoice(vec![Expr::Sequence(vec![lit("("), call("E"), lit(")")]), lit("n")]),
    )]);
    let prog = must_compile(&g);
    assert!(prog.parse(&b"((n))"[..], &TreeBuilder, 0).is_ok());
    assert!(prog.parse(&b"((n)"[..], &TreeBuilder, 0).is_err());
}

#[test]
fn memoized_left_recursion_is_tolerated() {
    let body = Expr::OrderedChoice(vec![
        Expr::Sequence(vec![call("E"), lit("+"), call("n")]),
        call("n"),
    ]);
    let g = grammar(vec![memo("E", body), rule("n", lit("n"))]);
    let prog = must_compile(&g);
    assert_eq!(prog.rules[0].kind, RuleKind::Memoized);
    assert!(prog.rules[0].left_recursive);
    assert!(prog.parse(&b"n"[..], &TreeBuilder, 0).is_ok());
    let err = prog.parse(&b"n+n"[..], &TreeBuilder, 0).err().expect("stops after n");
    assert_eq!(err.offset, 1);
}

#[test]
fn zero_consuming_repetition_is_rejected() {
    let inner = Expr::Optional(Box::new(lit("a")));
    let g = grammar(vec![rule(
        "S",
        Expr::Repetition { inner: Box::new(inner), min: 0, max: None },
    )]);
    assert_eq!(problem(&g), CompileError::EmptyRepetition { rule: 0 });
}

#[test]
fn repetition_of_nullable_rule_is_rejected() {
    let g = grammar(vec![
        rule("S", Expr::Repetition { inner: Box::new(call("T")), min: 1, max: None }),
        rule("T", Expr::Repetition { inner: Box::new(lit("a")), min: 0, max: None }),
    ]);
    assert_eq!(problem(&g), CompileError::EmptyRepetition { rule: 0 });
}

#[test]
fn bounded_repetition_respects_both_bounds() {
    let g = grammar(vec![rule(
        "S",
        Expr::Repetition { inner: Box::new(lit("a")), min: 2, max: Some(4) },
    )]);
    let prog = must_compile(&g);
    let run = |input: &[u8]| {
        let mut st = peg::matcher::ParseState::new(&prog, 0);
        prog.match_rule(input, &TreeBuilder, 0, 0, &mut st)
    };
    assert_eq!(run(b"a"), peg::RuleResult::Failed);
    assert_eq!(run(b"aa"), peg::RuleResult::Matched(2, Value::List(vec![Value::Unit, Value::Unit])));
    assert_eq!(run(b"aaaaaa"), peg::RuleResult::Matched(4, Value::List(vec![Value::Unit, Value::Unit, Value::Unit, Value::Unit])));
}

#[test]
fn star_matches_nothing_and_plus_needs_one() {
    let g = grammar(vec![
        rule("star", Expr::Repetition { inner: Box::new(lit("a")), min: 0, max: None }),
        rule("plus", Expr::Repetition { inner: Box::new(lit("a")), min: 1, max: None }),
    ]);
    let prog = must_compile(&g);
    assert_eq!(prog.rules[0].nullable, true);
    assert_eq!(prog.rules[1].nullable, false);
    assert_eq!(prog.rules[0].infallible, true);
    assert_eq!(prog.rules[1].infallible, false);
    let mut st = peg::matcher::ParseState::new(&prog, 0);
    assert_eq!(
        prog.match_rule(&b"b"[..], &TreeBuilder, 0, 0, &mut st),
        peg::RuleResult::Matched(0, Value::List(vec![]))
    );
    assert_eq!(prog.match_rule(&b"b"[..], &TreeBuilder, 1, 0, &mut st), peg::RuleResult::Failed);
    assert_eq!(
        prog.match_rule(&b"aab"[..], &TreeBuilder, 1, 0, &mut st),
        peg::RuleResult::Matched(2, Value::List(vec![Value::Unit, Value::Unit]))
    );
}

#[test]
fn lookahead_does_not_consume() {
    let g = grammar(vec![
        rule("pos", Expr::PositiveLookahead(Box::new(lit("a")))),
        rule("neg", Expr::NegativeLookahead(Box::new(lit("a")))),
    ]);
    let prog = must_compile(&g);
    let mut st = peg::matcher::ParseState::new(&prog, 0);
    assert_eq!(
        prog.match_rule(&b"a"[..], &TreeBuilder, 0, 0, &mut st),
        peg::RuleResult::Matched(0, Value::Unit)
    );
    assert_eq!(prog.match_rule(&b"a"[..], &TreeBuilder, 1, 0, &mut st), peg::RuleResult::Failed);
    assert_eq!(
        prog.match_rule(&b"b"[..], &TreeBuilder, 1, 0, &mut st),
        peg::RuleResult::Matched(0, Value::Unit)
    );
}

fn arithmetic() -> Grammar {
    let number = Expr::Capture(Box::new(Expr::Repetition {
        inner: Box::new(class('0', '9')),
        min: 1,
        max: None,
    }));
    let block = Expr::PrecedenceBlock(vec![
        Level {
            assoc: Assoc::Left,
            operators: vec![
                Template { fixity: Fixity::Infix, pattern: lit("+"), code: 1 },
                Template { fixity: Fixity::Infix, pattern: lit("-"), code: 2 },
            ],
        },
        Level {
            assoc: Assoc::Left,
            operators: vec![Template { fixity: Fixity::Infix, pattern: lit("*"), code: 3 }],
        },
        Level {
            assoc: Assoc::Right,
            operators: vec![Template { fixity: Fixity::Infix, pattern: lit("^"), code: 4 }],
        },
        Level {
            assoc: Assoc::Left,
            operators: vec![
                Template { fixity: Fixity::Prefix, pattern: lit("-"), code: 5 },
                Template { fixity: Fixity::Postfix, pattern: lit("!"), code: 6 },
            ],
        },
        Level {
            assoc: Assoc::Left,
            operators: vec![
                Template { fixity: Fixity::Atom, pattern: keep("n", call("number")), code: 0 },
                Template {
                    fixity: Fixity::Atom,
                    pattern: Expr::Sequence(vec![lit("("), keep("e", call("expr")), lit(")")]),
                    code: 7,
                },
            ],
        },
    ]);
    grammar(vec![rule("expr", block), rule("number", number)])
}

fn num(from: usize, to: usize) -> Value {
    Value::Node(0, vec![Value::Span(from, to)])
}

fn node(action: usize, args: Vec<Value>) -> Value {
    Value::Node(action, args)
}

#[test]
fn left_associative_operator_folds_to_the_left() {
    let prog = must_compile(&arithmetic());
    assert_eq!(prog.rules[0].kind, RuleKind::PrecedenceClimbing);
    let v = prog.parse(&b"1+2+3"[..], &TreeBuilder, 0).ok().expect("parses");
    assert_eq!(v, node(1, vec![node(1, vec![num(0, 1), num(2, 3)]), num(4, 5)]));
}

#[test]
fn right_associative_operator_folds_to_the_right() {
    let prog = must_compile(&arithmetic());
    let v = prog.parse(&b"1^2^3"[..], &TreeBuilder, 0).ok().expect("parses");
    assert_eq!(v, node(4, vec![num(0, 1), node(4, vec![num(2, 3), num(4, 5)])]));
}

#[test]
fn stronger_levels_bind_tighter() {
    let prog = must_compile(&arithmetic());
    let v = prog.parse(&b"1+2*3-4"[..], &TreeBuilder, 0).ok().expect("parses");
    assert_eq!(
        v,
        node(
            2,
            vec![node(1, vec![num(0, 1), node(3, vec![num(2, 3), num(4, 5)])]), num(6, 7)]
        )
    );
    let w = prog.parse(&b"-(1+2)!*3"[..], &TreeBuilder, 0).ok().expect("parses");
    let inner = node(7, vec![node(1, vec![num(2, 3), num(4, 5)])]);
    assert_eq!(w, node(3, vec![node(5, vec![node(6, vec![inner])]), num(8, 9)]));
}

#[test]
fn non_associative_operator_does_not_chain() {
    let block = Expr::PrecedenceBlock(vec![
        Level {
            assoc: Assoc::NonAssoc,
            operators: vec![Template { fixity: Fixity::Infix, pattern: lit("<"), code: 1 }],
        },
        Level {
            assoc: Assoc::Left,
            operators: vec![Template { fixity: Fixity::Atom, pattern: lit("a"), code: 0 }],
        },
    ]);
    let prog = must_compile(&grammar(vec![rule("e", block)]));
    assert!(prog.parse(&b"a<a"[..], &TreeBuilder, 0).is_ok());
    let err = prog.parse(&b"a<a<a"[..], &TreeBuilder, 0).err().expect("does not chain");
    assert_eq!(err.offset, 3);
}

#[test]
fn precedence_block_without_operand_is_rejected() {
    let block = Expr::PrecedenceBlock(vec![Level {
        assoc: Assoc::Left,
        operators: vec![Template { fixity: Fixity::Infix, pattern: lit("+"), code: 1 }],
    }]);
    assert_eq!(
        problem(&grammar(vec![rule("e", block)])),
        CompileError::InvalidPrecedence { rule: 0 }
    );
}

#[test]
fn operator_that_matches_nothing_is_rejected() {
    let block = Expr::PrecedenceBlock(vec![
        Level {
            assoc: Assoc::Left,
            operators: vec![Template {
                fixity: Fixity::Infix,
                pattern: Expr::Optional(Box::new(lit("+"))),
                code: 1,
            }],
        },
        Level {
            assoc: Assoc::Left,
            operators: vec![Template { fixity: Fixity::Atom, pattern: lit("a"), code: 0 }],
        },
    ]);
    assert_eq!(
        problem(&grammar(vec![rule("e", block)])),
        CompileError::EmptyRepetition { rule: 0 }
    );
}

#[test]
fn structural_problems_are_reported() {
    assert_eq!(
        problem(&grammar(vec![rule("a", call("missing"))])),
        CompileError::UnresolvedReference { rule: 0 }
    );
    assert_eq!(
        problem(&grammar(vec![rule("a", lit("x")), rule("a", lit("y"))])),
        CompileError::DuplicateRule { rule: 1 }
    );
    assert_eq!(
        problem(&grammar(vec![rule("a", lit("x")), rule("b", Expr::OrderedChoice(vec![]))])),
        CompileError::EmptyChoice { rule: 1 }
    );
    assert_eq!(
        problem(&grammar(vec![rule(
            "a",
            Expr::Repetition { inner: Box::new(lit("x")), min: 3, max: Some(2) }
        )])),
        CompileError::RepetitionBounds { rule: 0 }
    );
    assert_eq!(
        problem(&grammar(vec![
            rule("a", Expr::RuleRef { name: "b".to_string(), args: vec![lit("x")] }),
            rule("b", lit("y")),
        ])),
        CompileError::WrongArity { rule: 0 }
    );
}

fn list_template() -> Rule {
    Rule {
        name: "list".to_string(),
        params: vec!["item".to_string()],
        body: Expr::Sequence(vec![
            keep("first", call("item")),
            keep(
                "rest",
                Expr::Repetition {
                    inner: Box::new(Expr::Sequence(vec![lit(","), keep("x", call("item"))])),
                    min: 0,
                    max: None,
                },
            ),
        ]),
        memoized: false,
        public: false,
        at: 0,
    }
}

#[test]
fn rule_with_parameters_is_expanded_where_used() {
    let use_list = Expr::RuleRef { name: "list".to_string(), args: vec![lit("a")] };
    let prog = must_compile(&grammar(vec![rule("S", use_list), list_template()]));
    let v = prog.parse(&b"a,a,a"[..], &TreeBuilder, 0).ok().expect("parses");
    assert_eq!(
        v,
        Value::List(vec![
            Value::Unit,
            Value::List(vec![Value::List(vec![Value::Unit]), Value::List(vec![Value::Unit])]),
        ])
    );
    assert!(prog.parse(&b"a,b"[..], &TreeBuilder, 0).is_err());
    assert!(prog.parse(&b"a"[..], &TreeBuilder, 1).is_err());
}

#[test]
fn cyclic_expansion_is_rejected() {
    let again = Rule {
        name: "twice".to_string(),
        params: vec!["x".to_string()],
        body: Expr::RuleRef {
            name: "twice".to_string(),
            args: vec![Expr::Sequence(vec![call("x"), call("x")])],
        },
        memoized: false,
        public: false,
        at: 0,
    };
    let start = rule("S", Expr::RuleRef { name: "twice".to_string(), args: vec![lit("a")] });
    assert_eq!(
        problem(&grammar(vec![start, again])),
        CompileError::CyclicExpansion { rule: 0 }
    );
}

#[test]
fn memoized_rule_gives_the_same_result_as_plain_rule() {
    let body = |name: &str| {
        Expr::OrderedChoice(vec![
            Expr::Sequence(vec![call(name), lit("x")]),
            Expr::Sequence(vec![call(name), lit("y")]),
        ])
    };
    let item = Expr::Repetition { inner: Box::new(class('a', 'c')), min: 1, max: Some(2) };
    let plain = must_compile(&grammar(vec![
        rule("S", body("T")),
        rule("T", Expr::Capture(Box::new(item))),
    ]));
    let item = Expr::Repetition { inner: Box::new(class('a', 'c')), min: 1, max: Some(2) };
    let cached = must_compile(&grammar(vec![
        rule("S", body("T")),
        memo("T", Expr::Capture(Box::new(item))),
    ]));
    for input in [&b"aby"[..], &b"abx"[..], &b"abz"[..], &b"y"[..], &b""[..]] {
        let a = plain.parse(input, &TreeBuilder, 0);
        let b = cached.parse(input, &TreeBuilder, 0);
        match (a, b) {
            (Ok(x), Ok(y)) => assert_eq!(x, y),
            (Err(x), Err(y)) => {
                assert_eq!(x.offset, y.offset);
                assert_eq!(sorted(x.expected.tokens()), sorted(y.expected.tokens()));
            },
            _ => panic!("memoization changed the outcome"),
        }
    }
}

#[test]
fn action_receives_kept_values_and_span() {
    let body = Expr::Action {
        inner: Box::new(Expr::Sequence(vec![
            keep("at", Expr::PositionMarker),
            lit("<"),
            keep("c", class('a', 'z')),
            keep("o", Expr::Optional(Box::new(lit("?")))),
            lit(">"),
        ])),
        code: 9,
    };
    let prog = must_compile(&grammar(vec![rule("S", body)]));
    let v = prog.parse(&b"<k>"[..], &TreeBuilder, 0).ok().expect("parses");
    assert_eq!(
        v,
        Value::Node(9, vec![Value::Position(0), Value::Elem('k' as u32), Value::Absent])
    );
    let err = prog.parse(&b"<K>"[..], &TreeBuilder, 0).err().expect("fails");
    assert_eq!(err.offset, 1);
    assert_eq!(err.expected.tokens(), vec!["[a-z]".to_string()]);
    let left = prog.parse(&b"<k>>"[..], &TreeBuilder, 0).err().expect("input left over");
    assert_eq!(left.offset, 3);
    assert_eq!(left.expected.tokens(), vec!["EOF".to_string()]);
}

#[test]
fn rules_that_always_match_are_marked() {
    let g = grammar(vec![
        rule("opt", Expr::Optional(Box::new(lit("a")))),
        rule("both", Expr::Sequence(vec![call("opt"), call("opt")])),
        rule("either", Expr::OrderedChoice(vec![lit("x"), call("both")])),
        rule("one", Expr::Sequence(vec![call("opt"), lit("b")])),
        rule("look", Expr::NegativeLookahead(Box::new(lit("a")))),
        rule("acted", Expr::Action { inner: Box::new(call("opt")), code: 0 }),
    ]);
    let prog = must_compile(&g);
    let marks: Vec<bool> = prog.rules.iter().map(|r| r.infallible).collect();
    assert_eq!(marks, vec![true, true, true, false, false, false]);
    let nullable: Vec<bool> = prog.rules.iter().map(|r| r.nullable).collect();
    assert_eq!(nullable, vec![true, true, true, false, true, true]);
    assert!(prog.check());
    for start in 0..3 {
        for input in [&b""[..], &b"zzz"[..], &b"aax"[..]] {
            let mut st = peg::matcher::ParseState::new(&prog, 0);
            assert!(prog.match_rule(input, &TreeBuilder, start, 0, &mut st).is_matched());
        }
    }
}
