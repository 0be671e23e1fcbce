use peg::{call_custom_closure, RuleResult};

#[test]
fn matched_reports_matched() {
    let r: RuleResult<u8> = RuleResult::Matched(3, 7);
    assert!(r.is_matched());
    assert!(!r.is_failed());
    assert_eq!(r.clone().unwrap(), (3, 7));
    assert_eq!(r.unwrap_unchecked(), (3, 7));
}

#[test]
fn failed_reports_failed() {
    let r: RuleResult<u8> = RuleResult::Failed;
    assert!(r.is_failed());
    assert!(!r.is_matched());
    assert!(!r.clone().is_matched_and(|_, _| true));
    assert!(r.is_failed_or(|_, _| false));
}

#[test]
fn map_applies_to_match_only() {
    let r: RuleResult<u8> = RuleResult::Matched(1, 2);
    assert_eq!(r.map(|p, v| (p + 1, v as u32 * 10)), RuleResult::Matched(2, 20u32));
    let f: RuleResult<u8> = RuleResult::Failed;
    assert_eq!(f.map(|p, v| (p + 1, v as u32 * 10)), RuleResult::Failed);
}

#[test]
fn as_mut_writes_through() {
    let mut r: RuleResult<u8> = RuleResult::Matched(4, 1);
    if let RuleResult::Matched(_, v) = r.as_mut() {
        *v = 9;
    }
    assert_eq!(r, RuleResult::Matched(4, 9));
    assert_eq!(r.as_ref(), RuleResult::Matched(4, &9));
}

#[test]
fn custom_closure_is_called_with_input_and_position() {
    let r = call_custom_closure(|input: &[u8], pos: usize| {
        if pos < input.len() { RuleResult::Matched(pos + 1, input[pos]) } else { RuleResult::Failed }
    }, &b"ab"[..], 1);
    assert_eq!(r, RuleResult::Matched(2, b'b'));
}
