//! Direct tests of the byte-level rules' attempt behavior.

use permutation_engine::ByteError;
use permutation_engine::ByteKind;
use permutation_engine::ByteRule;
use permutation_engine::Outcome;
use permutation_engine::Rule;

type ByteOutcome = Outcome<Vec<u8>, u64, ByteError>;

#[test]
fn any_byte_consumes_one_byte() {
    let r: ByteOutcome = ByteRule::AnyByte.attempt(&b"xy".to_vec());
    assert_eq!(r, Outcome::Success { remaining: b"y".to_vec(), output: 120 });
}

#[test]
fn one_byte_rejects_other_byte() {
    let r: ByteOutcome = ByteRule::OneByte(b'a').attempt(&b"xy".to_vec());
    assert_eq!(
        r,
        Outcome::Recoverable { error: ByteError { kind: ByteKind::One, at_len: 2 } }
    );
}

#[test]
fn alpha_run_stops_at_first_non_letter() {
    let r: ByteOutcome = ByteRule::Alpha1.attempt(&b"aZx42".to_vec());
    assert_eq!(r, Outcome::Success { remaining: b"42".to_vec(), output: 3 });
}

#[test]
fn digit_run_consumes_whole_input() {
    let r: ByteOutcome = ByteRule::Digit1.attempt(&b"0159".to_vec());
    assert_eq!(r, Outcome::Success { remaining: b"".to_vec(), output: 4 });
}

#[test]
fn digit_run_needs_at_least_one_digit() {
    let r: ByteOutcome = ByteRule::Digit1.attempt(&b"x1".to_vec());
    assert_eq!(
        r,
        Outcome::Recoverable { error: ByteError { kind: ByteKind::Digit, at_len: 2 } }
    );
}

#[test]
fn size_limit_accepts_exact_bound() {
    let r: ByteOutcome = ByteRule::SizeLimit(3).attempt(&b"abc".to_vec());
    assert_eq!(r, Outcome::Success { remaining: b"abc".to_vec(), output: 0 });
}

#[test]
fn size_limit_aborts_above_bound() {
    let r: ByteOutcome = ByteRule::SizeLimit(2).attempt(&b"abc".to_vec());
    assert_eq!(
        r,
        Outcome::Fatal { error: ByteError { kind: ByteKind::TooLong, at_len: 3 } }
    );
}

#[test]
fn never_fails_on_everything() {
    let r: ByteOutcome = ByteRule::Never.attempt(&b"".to_vec());
    assert_eq!(
        r,
        Outcome::Recoverable { error: ByteError { kind: ByteKind::Never, at_len: 0 } }
    );
}
