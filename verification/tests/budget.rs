use markdown_core::budget::{Budget, Limits};
use markdown_core::ParseError;

fn limits(work: usize, tokens: usize, depth: usize) -> Limits {
    Limits { input_bytes: 100, work, tokens, nodes: 10, depth }
}

#[test]
fn work_is_spent_up_to_the_limit_and_a_refused_spend_spends_nothing() {
    let mut budget = Budget::new(limits(5, 1, 1));
    assert_eq!(budget.spend(3), Ok(()));
    assert_eq!(budget.spend(3), Err(ParseError::Limit { limit: "work" }));
    assert_eq!(budget.spend(2), Ok(()));
    assert_eq!(budget.spend(1), Err(ParseError::Limit { limit: "work" }));
    assert_eq!(budget.spend(0), Ok(()));
}

#[test]
fn a_spend_larger_than_the_limit_fails() {
    let mut budget = Budget::new(limits(5, 1, 1));
    assert_eq!(budget.spend(usize::MAX), Err(ParseError::Limit { limit: "work" }));
    assert_eq!(budget.spend(5), Ok(()));
}

#[test]
fn tokens_are_counted_up_to_the_limit() {
    let mut budget = Budget::new(limits(5, 2, 1));
    assert_eq!(budget.token(), Ok(()));
    assert_eq!(budget.token(), Ok(()));
    assert_eq!(budget.token(), Err(ParseError::Limit { limit: "tokens" }));
}

#[test]
fn depth_is_checked_against_the_limit() {
    let budget = Budget::new(limits(5, 2, 3));
    assert_eq!(budget.depth(3), Ok(()));
    assert_eq!(budget.depth(4), Err(ParseError::Limit { limit: "depth" }));
    assert_eq!(budget.limits(), limits(5, 2, 3));
}
