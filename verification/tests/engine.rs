//! Scenario tests for the strict-mode engine.

use permutation_engine::permutation;
use permutation_engine::ByteError;
use permutation_engine::ByteKind;
use permutation_engine::ByteRule;
use permutation_engine::Permutation;
use permutation_engine::RunError;

type StrictResult = Result<(Vec<u8>, Vec<u64>), RunError<ByteError>>;

#[test]
fn strict_accepts_alpha_then_digits() {
    let parser = permutation(vec![ByteRule::Alpha1, ByteRule::Digit1]);
    let result: StrictResult = parser(b"abc123".to_vec());
    assert_eq!(result, Ok((b"".to_vec(), vec![3, 3])));
}

#[test]
fn strict_accepts_digits_then_alpha() {
    let parser = permutation(vec![ByteRule::Alpha1, ByteRule::Digit1]);
    let result: StrictResult = parser(b"123abc".to_vec());
    assert_eq!(result, Ok((b"".to_vec(), vec![3, 3])));
}

#[test]
fn strict_accepts_three_rules_in_reverse_order() {
    let rules = vec![ByteRule::OneByte(b'c'), ByteRule::OneByte(b'b'), ByteRule::OneByte(b'a')];
    let parser = permutation(rules);
    let result: StrictResult = parser(b"abc".to_vec());
    assert_eq!(result, Ok((b"".to_vec(), vec![99, 98, 97])));
}

#[test]
fn strict_fails_when_one_rule_never_matches() {
    let parser = permutation(vec![ByteRule::Alpha1, ByteRule::Digit1]);
    let result: StrictResult = parser(b"abc;".to_vec());
    assert_eq!(
        result,
        Err(RunError::Exhausted { error: ByteError { kind: ByteKind::Digit, at_len: 1 } })
    );
}

#[test]
fn strict_greedy_prefers_lower_index() {
    // Both rules could take the 'a'; the lower-indexed AnyByte gets it, and
    // OneByte(b'a') is then stuck on "b" even though the other application
    // order would have succeeded.
    let parser = permutation(vec![ByteRule::AnyByte, ByteRule::OneByte(b'a')]);
    let result: StrictResult = parser(b"ab".to_vec());
    assert_eq!(
        result,
        Err(RunError::Exhausted { error: ByteError { kind: ByteKind::One, at_len: 1 } })
    );
}

#[test]
fn strict_greedy_succeeds_when_order_fits() {
    let parser = permutation(vec![ByteRule::AnyByte, ByteRule::OneByte(b'a')]);
    let result: StrictResult = parser(b"ba".to_vec());
    assert_eq!(result, Ok((b"".to_vec(), vec![98, 97])));
}

#[test]
fn strict_empty_collection_succeeds_immediately() {
    let parser = permutation(Vec::<ByteRule>::new());
    let result: StrictResult = parser(b"xyz".to_vec());
    assert_eq!(result, Ok((b"xyz".to_vec(), vec![])));
}

#[test]
fn strict_empty_input_is_exhausted() {
    let parser = permutation(vec![ByteRule::AnyByte]);
    let result: StrictResult = parser(b"".to_vec());
    assert_eq!(
        result,
        Err(RunError::Exhausted { error: ByteError { kind: ByteKind::Any, at_len: 0 } })
    );
}

#[test]
fn strict_fatal_short_circuits_first_pass() {
    let parser = permutation(vec![ByteRule::SizeLimit(1), ByteRule::AnyByte]);
    let result: StrictResult = parser(b"abc".to_vec());
    assert_eq!(
        result,
        Err(RunError::Fatal { error: ByteError { kind: ByteKind::TooLong, at_len: 3 } })
    );
}

#[test]
fn strict_fatal_short_circuits_later_pass() {
    // AnyByte consumes 'a' first; on the next pass the guard sees "b",
    // which still exceeds its bound of zero, and aborts the run.
    let parser = permutation(vec![ByteRule::AnyByte, ByteRule::SizeLimit(0)]);
    let result: StrictResult = parser(b"ab".to_vec());
    assert_eq!(
        result,
        Err(RunError::Fatal { error: ByteError { kind: ByteKind::TooLong, at_len: 1 } })
    );
}

#[test]
fn strict_size_guard_within_bound_consumes_nothing() {
    let parser = permutation(vec![ByteRule::SizeLimit(10), ByteRule::Alpha1]);
    let result: StrictResult = parser(b"abc".to_vec());
    assert_eq!(result, Ok((b"".to_vec(), vec![0, 3])));
}

#[test]
fn strict_aggregation_keeps_last_failure_of_pass() {
    // Digit1 fails first, Never fails last: the aggregated failure of the
    // stuck pass is the later one.
    let parser = permutation(vec![ByteRule::Digit1, ByteRule::Never]);
    let result: StrictResult = parser(b"abc".to_vec());
    assert_eq!(
        result,
        Err(RunError::Exhausted { error: ByteError { kind: ByteKind::Never, at_len: 3 } })
    );
}

#[test]
fn strict_repeated_runs_agree() {
    let rules = vec![ByteRule::Alpha1, ByteRule::Digit1];
    let first: StrictResult = permutation(rules.clone())(b"abc123".to_vec());
    let second: StrictResult = permutation(rules)(b"abc123".to_vec());
    assert_eq!(first, second);
    let rules = vec![ByteRule::AnyByte, ByteRule::OneByte(b'a')];
    let first: StrictResult = permutation(rules.clone())(b"ab".to_vec());
    let second: StrictResult = permutation(rules)(b"ab".to_vec());
    assert_eq!(first, second);
}

#[test]
fn strict_trait_method_matches_combinator() {
    let rules = vec![ByteRule::Alpha1, ByteRule::Digit1];
    let through_trait: StrictResult = rules.permutation(b"7x".to_vec());
    let through_fn: StrictResult = permutation(rules)(b"7x".to_vec());
    assert_eq!(through_trait, Ok((b"".to_vec(), vec![1, 1])));
    assert_eq!(through_trait, through_fn);
}
