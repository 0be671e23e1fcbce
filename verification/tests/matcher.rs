use peg::entry::TreeBuilder;
use peg::program::{Op, Program, Routine, RuleKind, Step};
use peg::semantics::Actions;
use peg::value::Value;

fn literal(text: &str) -> Op {
    let pieces: Vec<String> = text.chars().map(|c| c.to_string()).collect();
    let labels: Vec<String> = pieces.iter().map(|p| format!("\"{}\"", p)).collect();
    Op::Literal { pieces, labels }
}

fn rule(name: &str, body: Op, rank: usize) -> Routine {
    Routine {
        name: name.to_string(),
        public: true,
        kind: RuleKind::Plain,
        body,
        nullable: false,
        left_recursive: false,
        rank,
        infallible: false,
    }
}

#[test]
fn furthest_failure_is_reported_for_hand_built_program() {
    let prog = Program { rules: vec![rule("S", Op::Choice(vec![literal("ab"), literal("ac")]), 0)] };
    assert!(prog.check());
    let err = match prog.parse(&b"ax"[..], &TreeBuilder, 0) {
        Ok(_) => panic!("must not match"),
        Err(e) => e,
    };
    assert_eq!(err.offset, 1);
    assert_eq!(err.location, 1);
    let mut labels = err.expected.tokens();
    labels.sort();
    assert_eq!(labels, vec!["\"b\"".to_string(), "\"c\"".to_string()]);
}

struct Refuse;

impl Actions for Refuse {
    fn run(&self, _action: usize, _args: &Vec<Value>, _start: usize, _end: usize) -> Option<Value> {
        None
    }
}

#[test]
fn refusing_action_fails_the_match() {
    let body = Op::Action {
        inner: Box::new(Op::Sequence(vec![Step { op: literal("a"), keep: true }])),
        action: 0,
    };
    let prog = Program { rules: vec![rule("S", body, 0)] };
    assert!(prog.check());
    assert!(prog.parse(&b"a"[..], &Refuse, 0).is_err());
    match prog.parse(&b"a"[..], &TreeBuilder, 0) {
        Ok(Value::Node(0, args)) => assert_eq!(args.len(), 1),
        _ => panic!("expected a node"),
    }
}

#[test]
fn check_refuses_programs_that_cannot_be_run() {
    let calls_itself = Program { rules: vec![rule("S", Op::Call(0), 0)] };
    assert!(!calls_itself.check());
    let calls_nothing = Program { rules: vec![rule("S", Op::Call(3), 0)] };
    assert!(!calls_nothing.check());
    let loops = Program {
        rules: vec![rule(
            "S",
            Op::Repeat { inner: Box::new(Op::Position), min: 0, max: None },
            0,
        )],
    };
    assert!(!loops.check());
    let mut wrong_note = rule("S", Op::Optional(Box::new(literal("a"))), 0);
    assert!(!Program { rules: vec![wrong_note] }.check());
    wrong_note = rule("S", Op::Optional(Box::new(literal("a"))), 0);
    wrong_note.nullable = true;
    assert!(Program { rules: vec![wrong_note] }.check());
    let mut too_sure = rule("S", literal("a"), 0);
    too_sure.infallible = true;
    assert!(!Program { rules: vec![too_sure] }.check());
    let ranked = Program {
        rules: vec![rule("S", Op::Call(1), 1), rule("T", literal("t"), 0)],
    };
    assert!(ranked.check());
    assert!(ranked.parse(&b"t"[..], &TreeBuilder, 0).is_ok());
}
