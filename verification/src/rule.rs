//! The rule abstraction the engine consumes: an opaque unit of parsing
//! behavior, together with the failure-combination capability that strict
//! mode needs to aggregate the errors of a stuck pass.

use vstd::prelude::*;

verus! {

/// What one attempt of a rule against an input reports.
///
/// `Success` carries the remaining input and the rule's output; `Recoverable`
/// is an ordinary no-match that the engine absorbs and retries around;
/// `Fatal` signals that the input is fundamentally malformed and aborts the
/// whole run immediately.
#[derive(Debug, PartialEq, Eq)]
pub enum Outcome<I, O, E> {
    Success { remaining: I, output: O },
    Recoverable { error: E },
    Fatal { error: E },
}

/// Relates the outcome a rule's `attempt` returned to the outcome its
/// mathematical model predicts: the remaining inputs agree up to their views,
/// outputs and errors agree exactly.
pub open spec fn outcome_matches<I: View, O, E>(
    r: Outcome<I, O, E>,
    m: Outcome<<I as View>::V, O, E>,
) -> bool {
    match (r, m) {
        (
            Outcome::Success { remaining: r_rem, output: r_out },
            Outcome::Success { remaining: m_rem, output: m_out },
        ) => r_rem@ == m_rem && r_out == m_out,
        (Outcome::Recoverable { error: r_err }, Outcome::Recoverable { error: m_err }) => r_err
            == m_err,
        (Outcome::Fatal { error: r_err }, Outcome::Fatal { error: m_err }) => r_err == m_err,
        _ => false,
    }
}

/// One parsing rule: a pure function of the input it is given.
///
/// `outcome` is the rule's mathematical model over the input's view;
/// `attempt` must behave exactly as the model says, so the engine's whole
/// behavior is a function of the rules' models and the initial input.
pub trait Rule<I: View, O, E>: Sized {
    /// The model of this rule: what attempting it against an input yields.
    spec fn outcome(&self, input: <I as View>::V) -> Outcome<<I as View>::V, O, E>;

    /// Attempt this rule against the current remaining input, without
    /// consuming or mutating it.
    fn attempt(&self, input: &I) -> (r: Outcome<I, O, E>)
        ensures
            outcome_matches(r, self.outcome(input@)),
    ;
}

/// The failure-combination capability strict mode needs: merging the
/// recoverable failures of one stuck pass, and tagging the merged failure as
/// a permutation-level error at the input position where the run got stuck.
pub trait Failure<I: View>: Sized {
    /// The model of `or`: how an earlier failure of the same pass combines
    /// with a later one.
    spec fn spec_or(self, other: Self) -> Self;

    /// Combine this failure with a later failure of the same pass.
    fn or(self, other: Self) -> (r: Self)
        ensures
            r == self.spec_or(other),
    ;

    /// The model of `permutation_exhausted`.
    spec fn spec_permutation_exhausted(input: <I as View>::V, inner: Self) -> Self;

    /// Tag the aggregated failure of a stuck pass as a permutation-level
    /// error, reported at the remaining input where no rule could advance.
    fn permutation_exhausted(input: &I, inner: Self) -> (r: Self)
        ensures
            r == Self::spec_permutation_exhausted(input@, inner),
    ;
}

/// How a whole run fails.
///
/// `Exhausted` is strict mode's permutation-level error: a full pass over the
/// unapplied rules produced no success, and the pass's recoverable failures
/// were aggregated into `error`. `Fatal` propagates a rule's non-recoverable
/// error unchanged.
#[derive(Debug, PartialEq, Eq)]
pub enum RunError<E> {
    Exhausted { error: E },
    Fatal { error: E },
}

} // verus!
