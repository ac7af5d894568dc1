//! Scenario tests for the optional-mode engine.

use permutation_engine::permutation_opt;
use permutation_engine::ByteError;
use permutation_engine::ByteKind;
use permutation_engine::ByteRule;
use permutation_engine::PermutationOpt;
use permutation_engine::RunError;

type OptResult = Result<(Vec<u8>, Vec<Option<u64>>), RunError<ByteError>>;

#[test]
fn opt_accepts_alpha_then_digits() {
    let parser = permutation_opt(vec![ByteRule::Alpha1, ByteRule::Digit1]);
    let result: OptResult = parser(b"abc123".to_vec());
    assert_eq!(result, Ok((b"".to_vec(), vec![Some(3), Some(3)])));
}

#[test]
fn opt_accepts_digits_then_alpha() {
    let parser = permutation_opt(vec![ByteRule::Alpha1, ByteRule::Digit1]);
    let result: OptResult = parser(b"123abc".to_vec());
    assert_eq!(result, Ok((b"".to_vec(), vec![Some(3), Some(3)])));
}

#[test]
fn opt_tolerates_rule_that_never_matches() {
    let parser = permutation_opt(vec![ByteRule::Alpha1, ByteRule::Digit1]);
    let result: OptResult = parser(b"abc;".to_vec());
    assert_eq!(result, Ok((b";".to_vec(), vec![Some(3), None])));
}

#[test]
fn opt_tolerates_in_any_order() {
    let parser = permutation_opt(vec![ByteRule::Alpha1, ByteRule::Digit1]);
    let result: OptResult = parser(b"123;".to_vec());
    assert_eq!(result, Ok((b";".to_vec(), vec![None, Some(3)])));
}

#[test]
fn opt_greedy_prefers_lower_index() {
    // AnyByte takes the 'a' that OneByte(b'a') needed; the run still
    // succeeds, with the second rule's position absent and "b" unconsumed.
    let parser = permutation_opt(vec![ByteRule::AnyByte, ByteRule::OneByte(b'a')]);
    let result: OptResult = parser(b"ab".to_vec());
    assert_eq!(result, Ok((b"b".to_vec(), vec![Some(97), None])));
}

#[test]
fn opt_greedy_succeeds_when_order_fits() {
    let parser = permutation_opt(vec![ByteRule::AnyByte, ByteRule::OneByte(b'a')]);
    let result: OptResult = parser(b"ba".to_vec());
    assert_eq!(result, Ok((b"".to_vec(), vec![Some(98), Some(97)])));
}

#[test]
fn opt_empty_collection_succeeds_immediately() {
    let parser = permutation_opt(Vec::<ByteRule>::new());
    let result: OptResult = parser(b"xyz".to_vec());
    assert_eq!(result, Ok((b"xyz".to_vec(), vec![])));
}

#[test]
fn opt_nothing_matches_leaves_input_whole() {
    let parser = permutation_opt(vec![ByteRule::Digit1, ByteRule::Never]);
    let result: OptResult = parser(b"abc".to_vec());
    assert_eq!(result, Ok((b"abc".to_vec(), vec![None, None])));
}

#[test]
fn opt_fatal_short_circuits_first_pass() {
    let parser = permutation_opt(vec![ByteRule::SizeLimit(1), ByteRule::AnyByte]);
    let result: OptResult = parser(b"abc".to_vec());
    assert_eq!(
        result,
        Err(RunError::Fatal { error: ByteError { kind: ByteKind::TooLong, at_len: 3 } })
    );
}

#[test]
fn opt_fatal_short_circuits_later_pass() {
    let parser = permutation_opt(vec![ByteRule::AnyByte, ByteRule::SizeLimit(0)]);
    let result: OptResult = parser(b"ab".to_vec());
    assert_eq!(
        result,
        Err(RunError::Fatal { error: ByteError { kind: ByteKind::TooLong, at_len: 1 } })
    );
}

#[test]
fn opt_repeated_runs_agree() {
    let rules = vec![ByteRule::AnyByte, ByteRule::OneByte(b'a')];
    let first: OptResult = permutation_opt(rules.clone())(b"ab".to_vec());
    let second: OptResult = permutation_opt(rules)(b"ab".to_vec());
    assert_eq!(first, second);
}

#[test]
fn opt_trait_method_matches_combinator() {
    let rules = vec![ByteRule::Alpha1, ByteRule::Digit1];
    let through_trait: OptResult = rules.permutation_opt(b"7x".to_vec());
    let through_fn: OptResult = permutation_opt(rules)(b"7x".to_vec());
    assert_eq!(through_trait, Ok((b"".to_vec(), vec![Some(1), Some(1)])));
    assert_eq!(through_trait, through_fn);
}
