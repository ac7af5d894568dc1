//! Optional-mode permutation: a rule that never matches simply yields an
//! absent result; the run fails only when a rule reports a non-recoverable
//! error.

use vstd::prelude::*;

use crate::permutation::{fresh_slots, unapplied_count};
use crate::rule::{Outcome, Rule, RunError};

verus! {

/// What one optional-mode pass over the unapplied slots can end in: the
/// first unapplied rule that matched advanced the run; or the pass found no
/// applicable rule and the run finishes successfully; or a rule aborted it.
pub enum PassOutcomeOpt<IV, O, E> {
    Advanced { index: int, remaining: IV, output: O },
    Finished,
    Aborted { error: E },
}

/// One pass of optional mode, scanning slots `i..` in ascending positional
/// order; a recoverable failure is discarded immediately.
pub open spec fn scan_opt<I: View, O, E, R: Rule<I, O, E>>(
    rules: Seq<R>,
    slots: Seq<Option<O>>,
    input: <I as View>::V,
    i: int,
) -> PassOutcomeOpt<<I as View>::V, O, E>
    decreases rules.len() - i,
{
    if i < 0 || i >= rules.len() || i >= slots.len() {
        PassOutcomeOpt::Finished
    } else if slots[i] is Some {
        scan_opt::<I, O, E, R>(rules, slots, input, i + 1)
    } else {
        match rules[i].outcome(input) {
            Outcome::Success { remaining, output } => PassOutcomeOpt::Advanced {
                index: i,
                remaining,
                output,
            },
            Outcome::Recoverable { error } => scan_opt::<I, O, E, R>(rules, slots, input, i + 1),
            Outcome::Fatal { error } => PassOutcomeOpt::Aborted { error },
        }
    }
}

/// If an optional-mode scan reports `Advanced`, the slot it advanced at was
/// unapplied and its rule's model really is a success with those fields.
proof fn lemma_scan_opt_advanced<I: View, O, E, R: Rule<I, O, E>>(
    rules: Seq<R>,
    slots: Seq<Option<O>>,
    input: <I as View>::V,
    i: int,
)
    ensures
        scan_opt::<I, O, E, R>(rules, slots, input, i) matches PassOutcomeOpt::Advanced {
            index,
            remaining,
            output,
        } ==> {
            &&& i <= index < rules.len()
            &&& index < slots.len()
            &&& slots[index] is None
            &&& rules[index].outcome(input) == (Outcome::<<I as View>::V, O, E>::Success {
                remaining,
                output,
            })
        },
    decreases rules.len() - i,
{
    if 0 <= i < rules.len() && i < slots.len() {
        if slots[i] is Some {
            lemma_scan_opt_advanced::<I, O, E, R>(rules, slots, input, i + 1);
        } else {
            match rules[i].outcome(input) {
                Outcome::Recoverable { error } => {
                    lemma_scan_opt_advanced::<I, O, E, R>(rules, slots, input, i + 1);
                },
                _ => {},
            }
        }
    }
}

/// The whole optional run from a given slot state: repeat passes until a
/// full pass produces no success (the slots as they stand, absent results
/// included, are the successful result) or a rule aborts.
pub open spec fn run_opt<I: View, O, E, R: Rule<I, O, E>>(
    rules: Seq<R>,
    slots: Seq<Option<O>>,
    input: <I as View>::V,
) -> Result<(<I as View>::V, Seq<Option<O>>), RunError<E>>
    decreases unapplied_count(slots),
    via run_opt_decreases::<I, O, E, R>
{
    match scan_opt::<I, O, E, R>(rules, slots, input, 0) {
        PassOutcomeOpt::Advanced { index, remaining, output } => run_opt::<I, O, E, R>(
            rules,
            slots.update(index, Some(output)),
            remaining,
        ),
        PassOutcomeOpt::Finished => Ok((input, slots)),
        PassOutcomeOpt::Aborted { error } => Err(RunError::Fatal { error }),
    }
}

#[via_fn]
proof fn run_opt_decreases<I: View, O, E, R: Rule<I, O, E>>(
    rules: Seq<R>,
    slots: Seq<Option<O>>,
    input: <I as View>::V,
) {
    match scan_opt::<I, O, E, R>(rules, slots, input, 0) {
        PassOutcomeOpt::Advanced { index, remaining, output } => {
            lemma_scan_opt_advanced::<I, O, E, R>(rules, slots, input, 0);
            crate::permutation::lemma_unapplied_update(slots, index, output);
        },
        _ => {},
    }
}

/// Relates the pair an optional run returned to the pair its model predicts:
/// remaining inputs agree up to their views, optional outputs positionally,
/// errors exactly.
pub open spec fn opt_result_matches<I: View, O, E>(
    r: Result<(I, Vec<Option<O>>), RunError<E>>,
    m: Result<(<I as View>::V, Seq<Option<O>>), RunError<E>>,
) -> bool {
    match (r, m) {
        (Ok((r_rem, r_outs)), Ok((m_rem, m_outs))) => r_rem@ == m_rem && r_outs@ == m_outs,
        (Err(r_err), Err(m_err)) => r_err == m_err,
        _ => false,
    }
}

/// Helper trait for the [permutation_opt()] combinator: a collection of
/// rules applied in any order against an input, rules that never match
/// tolerated.
pub trait PermutationOpt<I: View, O, E>: Sized {
    /// Whether `r` is the result the collection's model assigns to `input`.
    spec fn permutation_opt_model(
        &self,
        input: <I as View>::V,
        r: Result<(I, O), RunError<E>>,
    ) -> bool;

    /// Tries to apply all rules of the collection in various orders until
    /// all of them succeed or none succeeds anymore.
    fn permutation_opt(&self, input: I) -> (r: Result<(I, O), RunError<E>>)
        ensures
            self.permutation_opt_model(input@, r),
    ;
}

impl<I: View, O, E, R: Rule<I, O, E>> PermutationOpt<I, Vec<Option<O>>, E> for Vec<R> {
    /// The result is exactly what the greedy multi-pass model computes from
    /// a fresh slot state.
    open spec fn permutation_opt_model(
        &self,
        input: <I as View>::V,
        r: Result<(I, Vec<Option<O>>), RunError<E>>,
    ) -> bool {
        opt_result_matches(r, run_opt::<I, O, E, R>(self@, fresh_slots(self@.len()), input))
    }

    fn permutation_opt(&self, input: I) -> (r: Result<(I, Vec<Option<O>>), RunError<E>>) {
        let ghost input0: <I as View>::V = input@;
        let n = self.len();
        let mut slots: Vec<Option<O>> = Vec::new();
        while slots.len() < n
            invariant
                slots@.len() <= n,
                forall|j: int| 0 <= j < slots@.len() ==> slots@[j] is None,
            decreases n - slots.len(),
        {
            slots.push(None);
        }
        proof {
            assert(slots@ =~= fresh_slots::<O>(n as nat));
        }
        let mut cur: I = input;
        loop
            invariant
                input0 == input@,
                n == self@.len(),
                slots@.len() == n,
                run_opt::<I, O, E, R>(self@, slots@, cur@) == run_opt::<I, O, E, R>(
                    self@,
                    fresh_slots(n as nat),
                    input0,
                ),
            decreases unapplied_count(slots@),
        {
            let ghost pass_slots = slots@;
            let ghost pass_input = cur@;
            let mut i: usize = 0;
            let mut advanced: bool = false;
            while i < n && !advanced
                invariant
                    input0 == input@,
                    n == self@.len(),
                    slots@.len() == n,
                    0 <= i <= n,
                    !advanced ==> {
                        &&& slots@ == pass_slots
                        &&& cur@ == pass_input
                        &&& scan_opt::<I, O, E, R>(self@, slots@, cur@, i as int) == scan_opt::<
                            I,
                            O,
                            E,
                            R,
                        >(self@, slots@, cur@, 0)
                    },
                    advanced ==> {
                        &&& run_opt::<I, O, E, R>(self@, slots@, cur@) == run_opt::<I, O, E, R>(
                            self@,
                            pass_slots,
                            pass_input,
                        )
                        &&& unapplied_count(slots@) < unapplied_count(pass_slots)
                    },
                    run_opt::<I, O, E, R>(self@, pass_slots, pass_input) == run_opt::<I, O, E, R>(
                        self@,
                        fresh_slots(n as nat),
                        input0,
                    ),
                decreases
                        (if advanced {
                            0int
                        } else {
                            1int
                        }),
                        n - i,
            {
                if slots[i].is_none() {
                    match self[i].attempt(&cur) {
                        Outcome::Success { remaining, output } => {
                            proof {
                                assert(scan_opt::<I, O, E, R>(self@, slots@, cur@, i as int)
                                    == (PassOutcomeOpt::<<I as View>::V, O, E>::Advanced {
                                    index: i as int,
                                    remaining: remaining@,
                                    output,
                                }));
                                crate::permutation::lemma_unapplied_update(
                                    slots@,
                                    i as int,
                                    output,
                                );
                            }
                            slots.set(i, Some(output));
                            cur = remaining;
                            advanced = true;
                        },
                        Outcome::Recoverable { error } => {
                            proof {
                                assert(scan_opt::<I, O, E, R>(self@, slots@, cur@, i as int)
                                    == scan_opt::<I, O, E, R>(self@, slots@, cur@, i as int + 1));
                            }
                            i = i + 1;
                        },
                        Outcome::Fatal { error } => {
                            proof {
                                assert(scan_opt::<I, O, E, R>(self@, slots@, cur@, i as int)
                                    == (PassOutcomeOpt::<<I as View>::V, O, E>::Aborted { error }));
                            }
                            return Err(RunError::Fatal { error });
                        },
                    }
                } else {
                    proof {
                        assert(scan_opt::<I, O, E, R>(self@, slots@, cur@, i as int) == scan_opt::<
                            I,
                            O,
                            E,
                            R,
                        >(self@, slots@, cur@, i as int + 1));
                    }
                    i = i + 1;
                }
            }
            if !advanced {
                proof {
                    assert(scan_opt::<I, O, E, R>(self@, slots@, cur@, 0) == PassOutcomeOpt::<
                        <I as View>::V,
                        O,
                        E,
                    >::Finished);
                }
                return Ok((cur, slots));
            }
        }
    }
}

/// If the first unapplied slot at or after `i` whose rule matches the input
/// is `j`, and no unapplied slot before it aborts, the scan advances at `j`.
proof fn lemma_scan_opt_finds_success<I: View, O, E, R: Rule<I, O, E>>(
    rules: Seq<R>,
    slots: Seq<Option<O>>,
    input: <I as View>::V,
    i: int,
    j: int,
)
    requires
        rules.len() == slots.len(),
        0 <= i <= j < rules.len(),
        slots[j] is None,
        rules[j].outcome(input) is Success,
        forall|k: int|
            i <= k < j && slots[k] is None ==> (#[trigger] rules[k].outcome(input)) is Recoverable,
    ensures
        rules[j].outcome(input) matches Outcome::Success { remaining, output } ==> scan_opt::<
            I,
            O,
            E,
            R,
        >(rules, slots, input, i) == (PassOutcomeOpt::<<I as View>::V, O, E>::Advanced {
            index: j,
            remaining,
            output,
        }),
    decreases j - i,
{
    if i < j {
        lemma_scan_opt_finds_success::<I, O, E, R>(rules, slots, input, i + 1, j);
    }
}

/// If the first unapplied slot at or after `i` whose rule does not fail
/// recoverably is `j`, and rule `j` aborts, the scan aborts with its error.
proof fn lemma_scan_opt_finds_fatal<I: View, O, E, R: Rule<I, O, E>>(
    rules: Seq<R>,
    slots: Seq<Option<O>>,
    input: <I as View>::V,
    i: int,
    j: int,
    error: E,
)
    requires
        rules.len() == slots.len(),
        0 <= i <= j < rules.len(),
        slots[j] is None,
        rules[j].outcome(input) == (Outcome::<<I as View>::V, O, E>::Fatal { error }),
        forall|k: int|
            i <= k < j && slots[k] is None ==> (#[trigger] rules[k].outcome(input)) is Recoverable,
    ensures
        scan_opt::<I, O, E, R>(rules, slots, input, i) == (PassOutcomeOpt::<
            <I as View>::V,
            O,
            E,
        >::Aborted { error }),
    decreases j - i,
{
    if i < j {
        lemma_scan_opt_finds_fatal::<I, O, E, R>(rules, slots, input, i + 1, j, error);
    }
}

/// A run with zero rules succeeds immediately, consuming nothing and
/// returning no outputs.
pub proof fn lemma_empty_rules_opt<I: View, O, E, R: Rule<I, O, E>>(
    rules: Seq<R>,
    input: <I as View>::V,
)
    requires
        rules.len() == 0,
    ensures
        run_opt::<I, O, E, R>(rules, fresh_slots(0), input) == Ok::<
            (<I as View>::V, Seq<Option<O>>),
            RunError<E>,
        >((input, Seq::empty())),
{
    assert(fresh_slots::<O>(0) =~= Seq::<Option<O>>::empty());
}

/// Optional tolerance: an optional run absorbs every recoverable failure, so
/// the only way it can fail at all is a rule's non-recoverable error,
/// propagated unchanged.
pub proof fn lemma_opt_only_fatal_errors<I: View, O, E, R: Rule<I, O, E>>(
    rules: Seq<R>,
    slots: Seq<Option<O>>,
    input: <I as View>::V,
)
    ensures
        run_opt::<I, O, E, R>(rules, slots, input) matches Err(e) ==> e is Fatal,
    decreases unapplied_count(slots),
{
    match scan_opt::<I, O, E, R>(rules, slots, input, 0) {
        PassOutcomeOpt::Advanced { index, remaining, output } => {
            lemma_scan_opt_advanced::<I, O, E, R>(rules, slots, input, 0);
            crate::permutation::lemma_unapplied_update(slots, index, output);
            lemma_opt_only_fatal_errors::<I, O, E, R>(
                rules,
                slots.update(index, Some(output)),
                remaining,
            );
        },
        _ => {},
    }
}

/// Fatal short-circuit: if the scan order reaches an unapplied rule that
/// reports a non-recoverable error (every unapplied rule before it failing
/// recoverably on the current input), the whole run returns that error
/// unchanged, whatever the rules after it would have done.
pub proof fn lemma_fatal_short_circuit_opt<I: View, O, E, R: Rule<I, O, E>>(
    rules: Seq<R>,
    slots: Seq<Option<O>>,
    input: <I as View>::V,
    j: int,
    error: E,
)
    requires
        rules.len() == slots.len(),
        0 <= j < rules.len(),
        slots[j] is None,
        rules[j].outcome(input) == (Outcome::<<I as View>::V, O, E>::Fatal { error }),
        forall|k: int|
            0 <= k < j && slots[k] is None ==> (#[trigger] rules[k].outcome(input)) is Recoverable,
    ensures
        run_opt::<I, O, E, R>(rules, slots, input) == Err::<
            (<I as View>::V, Seq<Option<O>>),
            RunError<E>,
        >(RunError::Fatal { error }),
{
    lemma_scan_opt_finds_fatal::<I, O, E, R>(rules, slots, input, 0, j, error);
}

/// Greedy left-bias: when several unapplied rules could match the current
/// input, the lowest-indexed one is applied — the run continues exactly as
/// if that rule's success had been committed.
pub proof fn lemma_greedy_left_bias_opt<I: View, O, E, R: Rule<I, O, E>>(
    rules: Seq<R>,
    slots: Seq<Option<O>>,
    input: <I as View>::V,
    j: int,
)
    requires
        rules.len() == slots.len(),
        0 <= j < rules.len(),
        slots[j] is None,
        rules[j].outcome(input) is Success,
        forall|k: int|
            0 <= k < j && slots[k] is None ==> (#[trigger] rules[k].outcome(input)) is Recoverable,
    ensures
        rules[j].outcome(input) matches Outcome::Success { remaining, output } ==> run_opt::<
            I,
            O,
            E,
            R,
        >(rules, slots, input) == run_opt::<I, O, E, R>(
            rules,
            slots.update(j, Some(output)),
            remaining,
        ),
{
    lemma_scan_opt_finds_success::<I, O, E, R>(rules, slots, input, 0, j);
}

/// Idempotent re-entry: the model is a function of the rules and the input
/// alone, so any two results that satisfy the engine's contract for the same
/// rules and input are the same result — equal remaining inputs, optional
/// outputs and errors.
pub proof fn lemma_opt_deterministic<I: View, O, E>(
    r1: Result<(I, Vec<Option<O>>), RunError<E>>,
    r2: Result<(I, Vec<Option<O>>), RunError<E>>,
    m: Result<(<I as View>::V, Seq<Option<O>>), RunError<E>>,
)
    requires
        opt_result_matches(r1, m),
        opt_result_matches(r2, m),
    ensures
        match (r1, r2) {
            (Ok((rem1, outs1)), Ok((rem2, outs2))) => rem1@ == rem2@ && outs1@ == outs2@,
            (Err(e1), Err(e2)) => e1 == e2,
            _ => false,
        },
{
}

/// Applies a collection of rules in any order, tolerating rules that never
/// match.
///
/// The returned parser succeeds unless a rule reports a non-recoverable
/// error, and yields the remaining input together with the rules' optional
/// outputs in the rules' original positional order: an applied rule's
/// position holds its output, an unapplied rule's position holds an absent
/// value.
///
/// The rules are applied greedily: whenever several unapplied rules could
/// parse the next slice of input, the first one is used.
pub fn permutation_opt<I: View, O, E, List: PermutationOpt<I, O, E>>(rules: List) -> (parser: impl
    Fn(I) -> Result<(I, O), RunError<E>>)
    ensures
        forall|input: I| #[trigger] call_requires(parser, (input,)),
        forall|input: I, r: Result<(I, O), RunError<E>>|
            #[trigger] call_ensures(parser, (input,), r) ==> rules.permutation_opt_model(input@, r),
{
    move |input: I| -> (r: Result<(I, O), RunError<E>>)
        ensures
            rules.permutation_opt_model(input@, r),
        { rules.permutation_opt(input) }
}

} // verus!
