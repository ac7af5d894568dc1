//! A small family of byte-level rules: enough to exercise the engine on
//! real inputs, with a failure type that records what was expected and how
//! much input was left when the failure was reported.

use vstd::prelude::*;

use crate::rule::{Failure, Outcome, Rule};

verus! {

/// What a [`ByteError`] was complaining about.
#[derive(Debug, Clone, Copy, PartialEq, Eq)]
pub enum ByteKind {
    /// Any single byte was expected.
    Any,
    /// One specific byte was expected.
    One,
    /// At least one ASCII letter was expected.
    Alpha,
    /// At least one ASCII digit was expected.
    Digit,
    /// The input exceeded a declared size bound.
    TooLong,
    /// A rule that matches nothing.
    Never,
}

/// The failure type of the byte-level rules: what was expected, and the
/// length of the remaining input where the failure was reported.
#[derive(Debug, Clone, Copy, PartialEq, Eq)]
pub struct ByteError {
    pub kind: ByteKind,
    pub at_len: usize,
}

impl Failure<Vec<u8>> for ByteError {
    /// Merging keeps the later failure of the pass.
    open spec fn spec_or(self, other: Self) -> Self {
        other
    }

    fn or(self, other: Self) -> (r: Self) {
        other
    }

    /// The engine's own result already distinguishes a permutation-level
    /// error, so tagging keeps the aggregated failure as it stands.
    open spec fn spec_permutation_exhausted(_input: Seq<u8>, inner: Self) -> Self {
        inner
    }

    fn permutation_exhausted(_input: &Vec<u8>, inner: Self) -> (r: Self) {
        inner
    }
}

/// Whether a byte is an ASCII letter.
pub open spec fn is_ascii_alpha(b: u8) -> bool {
    (65 <= b && b <= 90) || (97 <= b && b <= 122)
}

/// Whether a byte is an ASCII digit.
pub open spec fn is_ascii_digit(b: u8) -> bool {
    48 <= b && b <= 57
}

/// The length of the longest prefix of ASCII letters.
pub open spec fn alpha_run_len(s: Seq<u8>) -> nat
    decreases s.len(),
{
    if s.len() == 0 || !is_ascii_alpha(s[0]) {
        0
    } else {
        1 + alpha_run_len(s.drop_first())
    }
}

/// The length of the longest prefix of ASCII digits.
pub open spec fn digit_run_len(s: Seq<u8>) -> nat
    decreases s.len(),
{
    if s.len() == 0 || !is_ascii_digit(s[0]) {
        0
    } else {
        1 + digit_run_len(s.drop_first())
    }
}

proof fn lemma_alpha_run_len_unique(s: Seq<u8>, n: nat)
    requires
        n <= s.len(),
        forall|i: int| 0 <= i < n ==> is_ascii_alpha(s[i]),
        n == s.len() || !is_ascii_alpha(s[n as int]),
    ensures
        alpha_run_len(s) == n,
    decreases s.len(),
{
    if n > 0 {
        lemma_alpha_run_len_unique(s.drop_first(), (n - 1) as nat);
    }
}

proof fn lemma_digit_run_len_unique(s: Seq<u8>, n: nat)
    requires
        n <= s.len(),
        forall|i: int| 0 <= i < n ==> is_ascii_digit(s[i]),
        n == s.len() || !is_ascii_digit(s[n as int]),
    ensures
        digit_run_len(s) == n,
    decreases s.len(),
{
    if n > 0 {
        lemma_digit_run_len_unique(s.drop_first(), (n - 1) as nat);
    }
}

fn byte_is_alpha(b: u8) -> (r: bool)
    ensures
        r == is_ascii_alpha(b),
{
    (65 <= b && b <= 90) || (97 <= b && b <= 122)
}

fn byte_is_digit(b: u8) -> (r: bool)
    ensures
        r == is_ascii_digit(b),
{
    48 <= b && b <= 57
}

/// The remaining input after consuming the first `k` bytes.
fn tail(input: &Vec<u8>, k: usize) -> (r: Vec<u8>)
    requires
        k <= input.len(),
    ensures
        r@ == input@.skip(k as int),
{
    let mut r: Vec<u8> = Vec::new();
    let mut j: usize = k;
    while j < input.len()
        invariant
            k <= j <= input@.len(),
            r@ == input@.subrange(k as int, j as int),
        decreases input@.len() - j,
    {
        r.push(input[j]);
        proof {
            assert(r@ =~= input@.subrange(k as int, j as int + 1));
        }
        j = j + 1;
    }
    proof {
        assert(input@.subrange(k as int, input@.len() as int) =~= input@.skip(k as int));
    }
    r
}

/// The byte-level rules.
///
/// `AnyByte` consumes one byte and yields its value; `OneByte` consumes one
/// specific byte and yields its value; `Alpha1` and `Digit1` consume the
/// longest non-empty run of ASCII letters respectively digits and yield its
/// length; `SizeLimit` consumes nothing and yields zero, but reports a
/// non-recoverable error when the remaining input is longer than its bound;
/// `Never` fails recoverably on every input.
#[derive(Debug, Clone, Copy, PartialEq, Eq)]
pub enum ByteRule {
    AnyByte,
    OneByte(u8),
    Alpha1,
    Digit1,
    SizeLimit(usize),
    Never,
}

impl Rule<Vec<u8>, u64, ByteError> for ByteRule {
    open spec fn outcome(&self, input: Seq<u8>) -> Outcome<Seq<u8>, u64, ByteError> {
        match *self {
            ByteRule::AnyByte => {
                if input.len() > 0 {
                    Outcome::Success { remaining: input.skip(1), output: input[0] as u64 }
                } else {
                    Outcome::Recoverable {
                        error: ByteError { kind: ByteKind::Any, at_len: input.len() as usize },
                    }
                }
            },
            ByteRule::OneByte(b) => {
                if input.len() > 0 && input[0] == b {
                    Outcome::Success { remaining: input.skip(1), output: b as u64 }
                } else {
                    Outcome::Recoverable {
                        error: ByteError { kind: ByteKind::One, at_len: input.len() as usize },
                    }
                }
            },
            ByteRule::Alpha1 => {
                let k = alpha_run_len(input);
                if k > 0 {
                    Outcome::Success { remaining: input.skip(k as int), output: k as u64 }
                } else {
                    Outcome::Recoverable {
                        error: ByteError { kind: ByteKind::Alpha, at_len: input.len() as usize },
                    }
                }
            },
            ByteRule::Digit1 => {
                let k = digit_run_len(input);
                if k > 0 {
                    Outcome::Success { remaining: input.skip(k as int), output: k as u64 }
                } else {
                    Outcome::Recoverable {
                        error: ByteError { kind: ByteKind::Digit, at_len: input.len() as usize },
                    }
                }
            },
            ByteRule::SizeLimit(limit) => {
                if input.len() > limit {
                    Outcome::Fatal {
                        error: ByteError { kind: ByteKind::TooLong, at_len: input.len() as usize },
                    }
                } else {
                    Outcome::Success { remaining: input, output: 0u64 }
                }
            },
            ByteRule::Never => Outcome::Recoverable {
                error: ByteError { kind: ByteKind::Never, at_len: input.len() as usize },
            },
        }
    }

    fn attempt(&self, input: &Vec<u8>) -> (r: Outcome<Vec<u8>, u64, ByteError>) {
        match *self {
            ByteRule::AnyByte => {
                if input.len() > 0 {
                    let b = input[0];
                    let rest = tail(input, 1);
                    Outcome::Success { remaining: rest, output: b as u64 }
                } else {
                    Outcome::Recoverable {
                        error: ByteError { kind: ByteKind::Any, at_len: input.len() },
                    }
                }
            },
            ByteRule::OneByte(b) => {
                if input.len() > 0 && input[0] == b {
                    let rest = tail(input, 1);
                    Outcome::Success { remaining: rest, output: b as u64 }
                } else {
                    Outcome::Recoverable {
                        error: ByteError { kind: ByteKind::One, at_len: input.len() },
                    }
                }
            },
            ByteRule::Alpha1 => {
                let mut k: usize = 0;
                loop
                    invariant
                        k <= input@.len(),
                        forall|i: int| 0 <= i < k ==> is_ascii_alpha(input@[i]),
                    ensures
                        k <= input@.len(),
                        forall|i: int| 0 <= i < k ==> is_ascii_alpha(input@[i]),
                        k == input@.len() || !is_ascii_alpha(input@[k as int]),
                    decreases input@.len() - k,
                {
                    if k == input.len() {
                        break ;
                    }
                    if !byte_is_alpha(input[k]) {
                        break ;
                    }
                    k = k + 1;
                }
                proof {
                    lemma_alpha_run_len_unique(input@, k as nat);
                }
                if k > 0 {
                    let rest = tail(input, k);
                    Outcome::Success { remaining: rest, output: k as u64 }
                } else {
                    Outcome::Recoverable {
                        error: ByteError { kind: ByteKind::Alpha, at_len: input.len() },
                    }
                }
            },
            ByteRule::Digit1 => {
                let mut k: usize = 0;
                loop
                    invariant
                        k <= input@.len(),
                        forall|i: int| 0 <= i < k ==> is_ascii_digit(input@[i]),
                    ensures
                        k <= input@.len(),
                        forall|i: int| 0 <= i < k ==> is_ascii_digit(input@[i]),
                        k == input@.len() || !is_ascii_digit(input@[k as int]),
                    decreases input@.len() - k,
                {
                    if k == input.len() {
                        break ;
                    }
                    if !byte_is_digit(input[k]) {
                        break ;
                    }
                    k = k + 1;
                }
                proof {
                    lemma_digit_run_len_unique(input@, k as nat);
                }
                if k > 0 {
                    let rest = tail(input, k);
                    Outcome::Success { remaining: rest, output: k as u64 }
                } else {
                    Outcome::Recoverable {
                        error: ByteError { kind: ByteKind::Digit, at_len: input.len() },
                    }
                }
            },
            ByteRule::SizeLimit(limit) => {
                if input.len() > limit {
                    Outcome::Fatal {
                        error: ByteError { kind: ByteKind::TooLong, at_len: input.len() },
                    }
                } else {
                    let rest = tail(input, 0);
                    proof {
                        assert(input@.skip(0) =~= input@);
                    }
                    Outcome::Success { remaining: rest, output: 0u64 }
                }
            },
            ByteRule::Never => Outcome::Recoverable {
                error: ByteError { kind: ByteKind::Never, at_len: input.len() },
            },
        }
    }
}

} // verus!
