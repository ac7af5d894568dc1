//! Strict-mode permutation: every rule must eventually succeed, or the run
//! fails with the aggregated failure of the pass that could make no further
//! progress.

use vstd::prelude::*;

use crate::rule::{Failure, Outcome, Rule, RunError};

verus! {

/// The slot state a run starts from: one unapplied slot per rule.
pub open spec fn fresh_slots<O>(n: nat) -> Seq<Option<O>> {
    Seq::new(n, |i: int| None)
}

/// How many slots are still unapplied; the measure that bounds the number of
/// passes a run can make.
pub open spec fn unapplied_count<O>(slots: Seq<Option<O>>) -> nat
    decreases slots.len(),
{
    if slots.len() == 0 {
        0
    } else {
        (if slots[0] is None {
            1nat
        } else {
            0nat
        }) + unapplied_count(slots.drop_first())
    }
}

/// The per-slot results once every slot is applied.
pub open spec fn unwrap_slots<O>(slots: Seq<Option<O>>) -> Seq<O> {
    Seq::new(slots.len(), |i: int| slots[i]->0)
}

/// What one pass's scan over the unapplied slots can end in: the first
/// unapplied rule that matched advanced the run; or the pass is stuck with
/// the failures it aggregated on the way; or a rule aborted the run.
pub enum PassOutcome<IV, O, E> {
    Advanced { index: int, remaining: IV, output: O },
    Stuck { aggregated: Option<E> },
    Aborted { error: E },
}

/// Fold one more recoverable failure into the pass's aggregate.
pub open spec fn merge_failure<I: View, E: Failure<I>>(aggregated: Option<E>, error: E) -> Option<
    E,
> {
    match aggregated {
        Some(prev) => Some(prev.spec_or(error)),
        None => Some(error),
    }
}

/// One pass of strict mode, scanning slots `i..` in ascending positional
/// order over the current remaining input.
pub open spec fn scan_strict<I: View, O, E: Failure<I>, R: Rule<I, O, E>>(
    rules: Seq<R>,
    slots: Seq<Option<O>>,
    input: <I as View>::V,
    i: int,
    aggregated: Option<E>,
) -> PassOutcome<<I as View>::V, O, E>
    decreases rules.len() - i,
{
    if i < 0 || i >= rules.len() || i >= slots.len() {
        PassOutcome::Stuck { aggregated }
    } else if slots[i] is Some {
        scan_strict::<I, O, E, R>(rules, slots, input, i + 1, aggregated)
    } else {
        match rules[i].outcome(input) {
            Outcome::Success { remaining, output } => PassOutcome::Advanced {
                index: i,
                remaining,
                output,
            },
            Outcome::Recoverable { error } => scan_strict::<I, O, E, R>(
                rules,
                slots,
                input,
                i + 1,
                merge_failure::<I, E>(aggregated, error),
            ),
            Outcome::Fatal { error } => PassOutcome::Aborted { error },
        }
    }
}

/// A slot turning from unapplied to applied lowers the unapplied count by
/// exactly one.
pub(crate) proof fn lemma_unapplied_update<O>(slots: Seq<Option<O>>, i: int, output: O)
    requires
        0 <= i < slots.len(),
        slots[i] is None,
    ensures
        unapplied_count(slots.update(i, Some(output))) == unapplied_count(slots) - 1,
    decreases slots.len(),
{
    let updated = slots.update(i, Some(output));
    if i == 0 {
        assert(updated.drop_first() =~= slots.drop_first());
    } else {
        assert(updated.drop_first() =~= slots.drop_first().update(i - 1, Some(output)));
        lemma_unapplied_update(slots.drop_first(), i - 1, output);
    }
}

/// If a scan reports `Advanced`, the slot it advanced at was unapplied and
/// its rule's model really is a success with exactly those fields.
proof fn lemma_scan_strict_advanced<I: View, O, E: Failure<I>, R: Rule<I, O, E>>(
    rules: Seq<R>,
    slots: Seq<Option<O>>,
    input: <I as View>::V,
    i: int,
    aggregated: Option<E>,
)
    ensures
        scan_strict::<I, O, E, R>(rules, slots, input, i, aggregated) matches PassOutcome::Advanced {
            index,
            remaining,
            output,
        } ==> {
            &&& i <= index < rules.len()
            &&& index < slots.len()
            &&& slots[index] is None
            &&& rules[index].outcome(input) == (Outcome::<<I as View>::V, O, E>::Success {
                remaining,
                output,
            })
        },
    decreases rules.len() - i,
{
    if 0 <= i < rules.len() && i < slots.len() {
        if slots[i] is Some {
            lemma_scan_strict_advanced::<I, O, E, R>(rules, slots, input, i + 1, aggregated);
        } else {
            match rules[i].outcome(input) {
                Outcome::Recoverable { error } => {
                    lemma_scan_strict_advanced::<I, O, E, R>(
                        rules,
                        slots,
                        input,
                        i + 1,
                        merge_failure::<I, E>(aggregated, error),
                    );
                },
                _ => {},
            }
        }
    }
}

/// The whole strict run from a given slot state: repeat passes until either
/// no slot is unapplied (success), a pass is stuck (the aggregated failure,
/// tagged as a permutation-level error), or a rule aborts (its error,
/// unchanged).
pub open spec fn run_strict<I: View, O, E: Failure<I>, R: Rule<I, O, E>>(
    rules: Seq<R>,
    slots: Seq<Option<O>>,
    input: <I as View>::V,
) -> Result<(<I as View>::V, Seq<O>), RunError<E>>
    decreases unapplied_count(slots),
    via run_strict_decreases::<I, O, E, R>
{
    match scan_strict::<I, O, E, R>(rules, slots, input, 0, None) {
        PassOutcome::Advanced { index, remaining, output } => run_strict::<I, O, E, R>(
            rules,
            slots.update(index, Some(output)),
            remaining,
        ),
        PassOutcome::Stuck { aggregated } => match aggregated {
            Some(error) => Err(
                RunError::Exhausted { error: E::spec_permutation_exhausted(input, error) },
            ),
            None => Ok((input, unwrap_slots(slots))),
        },
        PassOutcome::Aborted { error } => Err(RunError::Fatal { error }),
    }
}

#[via_fn]
proof fn run_strict_decreases<I: View, O, E: Failure<I>, R: Rule<I, O, E>>(
    rules: Seq<R>,
    slots: Seq<Option<O>>,
    input: <I as View>::V,
) {
    match scan_strict::<I, O, E, R>(rules, slots, input, 0, None) {
        PassOutcome::Advanced { index, remaining, output } => {
            lemma_scan_strict_advanced::<I, O, E, R>(rules, slots, input, 0, None);
            lemma_unapplied_update(slots, index, output);
        },
        _ => {},
    }
}

/// A scan that ends stuck with nothing aggregated saw no unapplied slot at
/// all: every slot from `i` on is already applied.
proof fn lemma_scan_strict_stuck_none<I: View, O, E: Failure<I>, R: Rule<I, O, E>>(
    rules: Seq<R>,
    slots: Seq<Option<O>>,
    input: <I as View>::V,
    i: int,
    aggregated: Option<E>,
)
    requires
        rules.len() == slots.len(),
        0 <= i,
        scan_strict::<I, O, E, R>(rules, slots, input, i, aggregated) == (PassOutcome::<
            <I as View>::V,
            O,
            E,
        >::Stuck { aggregated: None }),
    ensures
        aggregated is None,
        forall|j: int| i <= j < slots.len() ==> slots[j] is Some,
    decreases rules.len() - i,
{
    if 0 <= i < rules.len() {
        if slots[i] is Some {
            lemma_scan_strict_stuck_none::<I, O, E, R>(rules, slots, input, i + 1, aggregated);
        } else {
            match rules[i].outcome(input) {
                Outcome::Recoverable { error } => {
                    let merged = merge_failure::<I, E>(aggregated, error);
                    lemma_scan_strict_stuck_none::<I, O, E, R>(rules, slots, input, i + 1, merged);
                },
                _ => {},
            }
        }
    }
}

/// Relates the pair a strict run returned to the pair its model predicts:
/// remaining inputs agree up to their views, outputs positionally, errors
/// exactly.
pub open spec fn strict_result_matches<I: View, O, E>(
    r: Result<(I, Vec<O>), RunError<E>>,
    m: Result<(<I as View>::V, Seq<O>), RunError<E>>,
) -> bool {
    match (r, m) {
        (Ok((r_rem, r_outs)), Ok((m_rem, m_outs))) => r_rem@ == m_rem && r_outs@ == m_outs,
        (Err(r_err), Err(m_err)) => r_err == m_err,
        _ => false,
    }
}

/// Helper trait for the [permutation()] combinator: a collection of rules
/// that can be applied in any order against an input, all of them required
/// to succeed.
pub trait Permutation<I: View, O, E>: Sized {
    /// Whether `r` is the result the collection's model assigns to `input`.
    spec fn permutation_model(&self, input: <I as View>::V, r: Result<(I, O), RunError<E>>) -> bool;

    /// Tries to apply all rules of the collection in various orders until
    /// all of them succeed.
    fn permutation(&self, input: I) -> (r: Result<(I, O), RunError<E>>)
        ensures
            self.permutation_model(input@, r),
    ;
}

impl<I: View, O, E: Failure<I>, R: Rule<I, O, E>> Permutation<I, Vec<O>, E> for Vec<R> {
    /// The result is exactly what the greedy multi-pass model computes from
    /// a fresh slot state.
    open spec fn permutation_model(
        &self,
        input: <I as View>::V,
        r: Result<(I, Vec<O>), RunError<E>>,
    ) -> bool {
        strict_result_matches(
            r,
            run_strict::<I, O, E, R>(self@, fresh_slots(self@.len()), input),
        )
    }

    fn permutation(&self, input: I) -> (r: Result<(I, Vec<O>), RunError<E>>) {
        let ghost input0: <I as View>::V = input@;
        let n = self.len();
        let mut slots: Vec<Option<O>> = Vec::new();
        while slots.len() < n
            invariant
                slots@.len() <= n,
                forall|j: int| 0 <= j < slots@.len() ==> slots@[j] is None,
            decreases n - slots.len(),
        {
            slots.push(None);
        }
        proof {
            assert(slots@ =~= fresh_slots::<O>(n as nat));
        }
        let mut cur: I = input;
        loop
            invariant
                input0 == input@,
                n == self@.len(),
                slots@.len() == n,
                run_strict::<I, O, E, R>(self@, slots@, cur@) == run_strict::<I, O, E, R>(
                    self@,
                    fresh_slots(n as nat),
                    input0,
                ),
            decreases unapplied_count(slots@),
        {
            let ghost pass_slots = slots@;
            let ghost pass_input = cur@;
            let mut i: usize = 0;
            let mut aggregated: Option<E> = None;
            let mut advanced: bool = false;
            while i < n && !advanced
                invariant
                    input0 == input@,
                    n == self@.len(),
                    slots@.len() == n,
                    0 <= i <= n,
                    !advanced ==> {
                        &&& slots@ == pass_slots
                        &&& cur@ == pass_input
                        &&& scan_strict::<I, O, E, R>(self@, slots@, cur@, i as int, aggregated)
                            == scan_strict::<I, O, E, R>(self@, slots@, cur@, 0, None)
                    },
                    advanced ==> {
                        &&& run_strict::<I, O, E, R>(self@, slots@, cur@) == run_strict::<
                            I,
                            O,
                            E,
                            R,
                        >(self@, pass_slots, pass_input)
                        &&& unapplied_count(slots@) < unapplied_count(pass_slots)
                    },
                    run_strict::<I, O, E, R>(self@, pass_slots, pass_input) == run_strict::<
                        I,
                        O,
                        E,
                        R,
                    >(self@, fresh_slots(n as nat), input0),
                decreases
                        (if advanced {
                            0int
                        } else {
                            1int
                        }),
                        n - i,
            {
                if slots[i].is_none() {
                    match self[i].attempt(&cur) {
                        Outcome::Success { remaining, output } => {
                            proof {
                                assert(scan_strict::<I, O, E, R>(
                                    self@,
                                    slots@,
                                    cur@,
                                    i as int,
                                    aggregated,
                                ) == (PassOutcome::<<I as View>::V, O, E>::Advanced {
                                    index: i as int,
                                    remaining: remaining@,
                                    output,
                                }));
                                lemma_unapplied_update(slots@, i as int, output);
                            }
                            slots.set(i, Some(output));
                            cur = remaining;
                            advanced = true;
                        },
                        Outcome::Recoverable { error } => {
                            proof {
                                assert(scan_strict::<I, O, E, R>(
                                    self@,
                                    slots@,
                                    cur@,
                                    i as int,
                                    aggregated,
                                ) == scan_strict::<I, O, E, R>(
                                    self@,
                                    slots@,
                                    cur@,
                                    i as int + 1,
                                    merge_failure::<I, E>(aggregated, error),
                                ));
                            }
                            aggregated = Some(
                                match aggregated {
                                    Some(prev) => prev.or(error),
                                    None => error,
                                },
                            );
                            i = i + 1;
                        },
                        Outcome::Fatal { error } => {
                            proof {
                                assert(scan_strict::<I, O, E, R>(
                                    self@,
                                    slots@,
                                    cur@,
                                    i as int,
                                    aggregated,
                                ) == (PassOutcome::<<I as View>::V, O, E>::Aborted { error }));
                            }
                            return Err(RunError::Fatal { error });
                        },
                    }
                } else {
                    proof {
                        assert(scan_strict::<I, O, E, R>(self@, slots@, cur@, i as int, aggregated)
                            == scan_strict::<I, O, E, R>(
                            self@,
                            slots@,
                            cur@,
                            i as int + 1,
                            aggregated,
                        ));
                    }
                    i = i + 1;
                }
            }
            if !advanced {
                proof {
                    assert(scan_strict::<I, O, E, R>(self@, slots@, cur@, 0, None)
                        == (PassOutcome::<<I as View>::V, O, E>::Stuck { aggregated }));
                }
                match aggregated {
                    Some(error) => {
                        let tagged = E::permutation_exhausted(&cur, error);
                        return Err(RunError::Exhausted { error: tagged });
                    },
                    None => {
                        proof {
                            lemma_scan_strict_stuck_none::<I, O, E, R>(
                                self@,
                                slots@,
                                cur@,
                                0,
                                None,
                            );
                        }
                        let ghost final_slots = slots@;
                        let mut outputs: Vec<O> = Vec::new();
                        let mut rest = slots;
                        while rest.len() > 0
                            invariant
                                final_slots.len() == n,
                                outputs@.len() + rest@.len() == n,
                                rest@ =~= final_slots.skip(outputs@.len() as int),
                                forall|j: int| 0 <= j < n ==> final_slots[j] is Some,
                                outputs@ =~= unwrap_slots(final_slots).take(outputs@.len() as int),
                            decreases rest.len(),
                        {
                            let output = rest.remove(0).unwrap();
                            outputs.push(output);
                        }
                        proof {
                            assert(outputs@ =~= unwrap_slots(final_slots));
                        }
                        return Ok((cur, outputs));
                    },
                }
            }
        }
    }
}

/// A scan over slots that are all applied from `i` on changes nothing: it
/// ends stuck with the aggregate it was given.
proof fn lemma_scan_strict_all_applied<I: View, O, E: Failure<I>, R: Rule<I, O, E>>(
    rules: Seq<R>,
    slots: Seq<Option<O>>,
    input: <I as View>::V,
    i: int,
    aggregated: Option<E>,
)
    requires
        rules.len() == slots.len(),
        0 <= i,
        forall|k: int| i <= k < slots.len() ==> slots[k] is Some,
    ensures
        scan_strict::<I, O, E, R>(rules, slots, input, i, aggregated) == (PassOutcome::<
            <I as View>::V,
            O,
            E,
        >::Stuck { aggregated }),
    decreases rules.len() - i,
{
    if i < rules.len() {
        lemma_scan_strict_all_applied::<I, O, E, R>(rules, slots, input, i + 1, aggregated);
    }
}

/// If the first unapplied slot at or after `i` whose rule matches the input
/// is `j`, and no unapplied slot before it aborts, the scan advances at `j`.
proof fn lemma_scan_strict_finds_success<I: View, O, E: Failure<I>, R: Rule<I, O, E>>(
    rules: Seq<R>,
    slots: Seq<Option<O>>,
    input: <I as View>::V,
    i: int,
    aggregated: Option<E>,
    j: int,
)
    requires
        rules.len() == slots.len(),
        0 <= i <= j < rules.len(),
        slots[j] is None,
        rules[j].outcome(input) is Success,
        forall|k: int|
            i <= k < j && slots[k] is None ==> (#[trigger] rules[k].outcome(input)) is Recoverable,
    ensures
        rules[j].outcome(input) matches Outcome::Success { remaining, output } ==> scan_strict::<
            I,
            O,
            E,
            R,
        >(rules, slots, input, i, aggregated) == (PassOutcome::<<I as View>::V, O, E>::Advanced {
            index: j,
            remaining,
            output,
        }),
    decreases j - i,
{
    if i < j {
        if slots[i] is Some {
            lemma_scan_strict_finds_success::<I, O, E, R>(rules, slots, input, i + 1, aggregated, j);
        } else {
            match rules[i].outcome(input) {
                Outcome::Recoverable { error } => {
                    lemma_scan_strict_finds_success::<I, O, E, R>(
                        rules,
                        slots,
                        input,
                        i + 1,
                        merge_failure::<I, E>(aggregated, error),
                        j,
                    );
                },
                _ => {},
            }
        }
    }
}

/// If the first unapplied slot at or after `i` whose rule does not fail
/// recoverably is `j`, and rule `j` aborts, the scan aborts with its error.
proof fn lemma_scan_strict_finds_fatal<I: View, O, E: Failure<I>, R: Rule<I, O, E>>(
    rules: Seq<R>,
    slots: Seq<Option<O>>,
    input: <I as View>::V,
    i: int,
    aggregated: Option<E>,
    j: int,
    error: E,
)
    requires
        rules.len() == slots.len(),
        0 <= i <= j < rules.len(),
        slots[j] is None,
        rules[j].outcome(input) == (Outcome::<<I as View>::V, O, E>::Fatal { error }),
        forall|k: int|
            i <= k < j && slots[k] is None ==> (#[trigger] rules[k].outcome(input)) is Recoverable,
    ensures
        scan_strict::<I, O, E, R>(rules, slots, input, i, aggregated) == (PassOutcome::<
            <I as View>::V,
            O,
            E,
        >::Aborted { error }),
    decreases j - i,
{
    if i < j {
        if slots[i] is Some {
            lemma_scan_strict_finds_fatal::<I, O, E, R>(
                rules,
                slots,
                input,
                i + 1,
                aggregated,
                j,
                error,
            );
        } else {
            match rules[i].outcome(input) {
                Outcome::Recoverable { error: e } => {
                    lemma_scan_strict_finds_fatal::<I, O, E, R>(
                        rules,
                        slots,
                        input,
                        i + 1,
                        merge_failure::<I, E>(aggregated, e),
                        j,
                        error,
                    );
                },
                _ => {},
            }
        }
    }
}

/// A run with zero rules succeeds immediately, consuming nothing and
/// returning no outputs.
pub proof fn lemma_empty_rules_strict<I: View, O, E: Failure<I>, R: Rule<I, O, E>>(
    rules: Seq<R>,
    input: <I as View>::V,
)
    requires
        rules.len() == 0,
    ensures
        run_strict::<I, O, E, R>(rules, fresh_slots(0), input) == Ok::<
            (<I as View>::V, Seq<O>),
            RunError<E>,
        >((input, Seq::empty())),
{
    assert(unwrap_slots::<O>(fresh_slots(0)) =~= Seq::<O>::empty());
}

/// Fatal short-circuit: if the scan order reaches an unapplied rule that
/// reports a non-recoverable error (every unapplied rule before it failing
/// recoverably on the current input), the whole run returns that error
/// unchanged, whatever the rules after it would have done.
pub proof fn lemma_fatal_short_circuit_strict<I: View, O, E: Failure<I>, R: Rule<I, O, E>>(
    rules: Seq<R>,
    slots: Seq<Option<O>>,
    input: <I as View>::V,
    j: int,
    error: E,
)
    requires
        rules.len() == slots.len(),
        0 <= j < rules.len(),
        slots[j] is None,
        rules[j].outcome(input) == (Outcome::<<I as View>::V, O, E>::Fatal { error }),
        forall|k: int|
            0 <= k < j && slots[k] is None ==> (#[trigger] rules[k].outcome(input)) is Recoverable,
    ensures
        run_strict::<I, O, E, R>(rules, slots, input) == Err::<(<I as View>::V, Seq<O>), RunError<E>>(
            RunError::Fatal { error },
        ),
{
    lemma_scan_strict_finds_fatal::<I, O, E, R>(rules, slots, input, 0, None, j, error);
}

/// Greedy left-bias: when several unapplied rules could match the current
/// input, the lowest-indexed one is applied — the run continues exactly as
/// if that rule's success had been committed, and no rule is ever skipped in
/// favor of one that would let a later combination succeed.
pub proof fn lemma_greedy_left_bias_strict<I: View, O, E: Failure<I>, R: Rule<I, O, E>>(
    rules: Seq<R>,
    slots: Seq<Option<O>>,
    input: <I as View>::V,
    j: int,
)
    requires
        rules.len() == slots.len(),
        0 <= j < rules.len(),
        slots[j] is None,
        rules[j].outcome(input) is Success,
        forall|k: int|
            0 <= k < j && slots[k] is None ==> (#[trigger] rules[k].outcome(input)) is Recoverable,
    ensures
        rules[j].outcome(input) matches Outcome::Success { remaining, output } ==> run_strict::<
            I,
            O,
            E,
            R,
        >(rules, slots, input) == run_strict::<I, O, E, R>(
            rules,
            slots.update(j, Some(output)),
            remaining,
        ),
{
    lemma_scan_strict_finds_success::<I, O, E, R>(rules, slots, input, 0, None, j);
}

/// An application order: the rules named by `steps`, applied first to
/// `input` and then each to the input its predecessor left, all succeed,
/// each contributing its output at its own position of `outs`, and leave
/// `rem` behind.
pub open spec fn applies_in_order<I: View, O, E: Failure<I>, R: Rule<I, O, E>>(
    rules: Seq<R>,
    input: <I as View>::V,
    steps: Seq<int>,
    outs: Seq<O>,
    rem: <I as View>::V,
) -> bool
    decreases steps.len(),
{
    if steps.len() == 0 {
        rem == input
    } else {
        let j = steps[0];
        &&& 0 <= j < rules.len()
        &&& match rules[j].outcome(input) {
            Outcome::Success { remaining, output } => outs[j] == output && applies_in_order::<
                I,
                O,
                E,
                R,
            >(rules, remaining, steps.drop_first(), outs, rem),
            _ => false,
        }
    }
}

proof fn lemma_strict_completeness_rec<I: View, O, E: Failure<I>, R: Rule<I, O, E>>(
    rules: Seq<R>,
    slots: Seq<Option<O>>,
    input: <I as View>::V,
    rem: <I as View>::V,
    outs: Seq<O>,
)
    requires
        rules.len() == slots.len(),
        run_strict::<I, O, E, R>(rules, slots, input) == Ok::<
            (<I as View>::V, Seq<O>),
            RunError<E>,
        >((rem, outs)),
    ensures
        outs.len() == rules.len(),
        forall|j: int| 0 <= j < rules.len() && slots[j] is Some ==> outs[j] == slots[j]->0,
        exists|steps: Seq<int>|
            {
                &&& steps.no_duplicates()
                &&& forall|k: int|
                    0 <= k < steps.len() ==> 0 <= #[trigger] steps[k] < rules.len()
                        && slots[steps[k]] is None
                &&& forall|j: int|
                    0 <= j < rules.len() && slots[j] is None ==> #[trigger] steps.contains(j)
                &&& applies_in_order::<I, O, E, R>(rules, input, steps, outs, rem)
            },
    decreases unapplied_count(slots),
{
    match scan_strict::<I, O, E, R>(rules, slots, input, 0, None) {
        PassOutcome::Advanced { index, remaining, output } => {
            lemma_scan_strict_advanced::<I, O, E, R>(rules, slots, input, 0, None);
            lemma_unapplied_update(slots, index, output);
            let updated = slots.update(index, Some(output));
            lemma_strict_completeness_rec::<I, O, E, R>(rules, updated, remaining, rem, outs);
            let steps_rest = choose|s: Seq<int>|
                {
                    &&& s.no_duplicates()
                    &&& forall|k: int|
                        0 <= k < s.len() ==> 0 <= #[trigger] s[k] < rules.len()
                            && updated[s[k]] is None
                    &&& forall|j: int|
                        0 <= j < rules.len() && updated[j] is None ==> #[trigger] s.contains(j)
                    &&& applies_in_order::<I, O, E, R>(rules, remaining, s, outs, rem)
                };
            let steps = seq![index].add(steps_rest);
            assert(steps.drop_first() =~= steps_rest);
            assert forall|k: int| 0 <= k < steps.len() implies 0 <= #[trigger] steps[k]
                < rules.len() && slots[steps[k]] is None by {
                if k > 0 {
                    assert(steps[k] == steps_rest[k - 1]);
                    assert(updated[steps_rest[k - 1]] is None);
                    assert(steps[k] != index);
                }
            }
            assert(steps.no_duplicates()) by {
                assert forall|a: int, b: int|
                    0 <= a < steps.len() && 0 <= b < steps.len() && a != b implies steps[a]
                    != steps[b] by {
                    if a > 0 && b > 0 {
                        assert(steps[a] == steps_rest[a - 1] && steps[b] == steps_rest[b - 1]);
                    } else if a == 0 {
                        assert(updated[steps_rest[b - 1]] is None && updated[index] is Some);
                    } else {
                        assert(updated[steps_rest[a - 1]] is None && updated[index] is Some);
                    }
                }
            }
            assert forall|j: int|
                0 <= j < rules.len() && slots[j] is None implies #[trigger] steps.contains(j) by {
                if j == index {
                    assert(steps[0] == j);
                } else {
                    assert(updated[j] is None);
                    assert(steps_rest.contains(j));
                    let k = choose|k: int| 0 <= k < steps_rest.len() && steps_rest[k] == j;
                    assert(steps[k + 1] == j);
                }
            }
            assert(applies_in_order::<I, O, E, R>(rules, input, steps, outs, rem)) by {
                assert(outs[index] == updated[index]->0);
            }
        },
        PassOutcome::Stuck { aggregated } => {
            match aggregated {
                Some(e) => {
                    assert(false);
                },
                None => {
                    lemma_scan_strict_stuck_none::<I, O, E, R>(rules, slots, input, 0, None);
                    let steps = Seq::<int>::empty();
                    assert(steps.no_duplicates());
                    assert(applies_in_order::<I, O, E, R>(rules, input, steps, outs, rem));
                },
            }
        },
        PassOutcome::Aborted { error } => {
            assert(false);
        },
    }
}

/// Completeness: when a strict run from a fresh slot state succeeds, every
/// rule's output stands in the result at the rule's own position, and some
/// duplicate-free application order of all the rules consumes the input
/// fragment by fragment, from the original input down to exactly the
/// remaining input returned.
pub proof fn lemma_strict_completeness<I: View, O, E: Failure<I>, R: Rule<I, O, E>>(
    rules: Seq<R>,
    input: <I as View>::V,
    rem: <I as View>::V,
    outs: Seq<O>,
)
    requires
        run_strict::<I, O, E, R>(rules, fresh_slots(rules.len()), input) == Ok::<
            (<I as View>::V, Seq<O>),
            RunError<E>,
        >((rem, outs)),
    ensures
        outs.len() == rules.len(),
        exists|steps: Seq<int>|
            {
                &&& steps.no_duplicates()
                &&& forall|k: int| 0 <= k < steps.len() ==> 0 <= #[trigger] steps[k] < rules.len()
                &&& forall|j: int| 0 <= j < rules.len() ==> #[trigger] steps.contains(j)
                &&& applies_in_order::<I, O, E, R>(rules, input, steps, outs, rem)
            },
{
    lemma_strict_completeness_rec::<I, O, E, R>(
        rules,
        fresh_slots(rules.len()),
        input,
        rem,
        outs,
    );
}

/// An exclusive application order: at each step, exactly one still-unapplied
/// rule (the one `steps` names) matches the current input and every other
/// unapplied rule fails recoverably; at the end every slot is applied.
pub open spec fn exclusive_chain<I: View, O, E: Failure<I>, R: Rule<I, O, E>>(
    rules: Seq<R>,
    slots: Seq<Option<O>>,
    input: <I as View>::V,
    steps: Seq<int>,
    outs: Seq<O>,
    rem: <I as View>::V,
) -> bool
    decreases steps.len(),
{
    if steps.len() == 0 {
        rem == input && forall|j: int| 0 <= j < slots.len() ==> slots[j] is Some
    } else {
        let j = steps[0];
        &&& 0 <= j < rules.len()
        &&& j < slots.len()
        &&& slots[j] is None
        &&& match rules[j].outcome(input) {
            Outcome::Success { remaining, output } => {
                &&& outs[j] == output
                &&& forall|k: int|
                    0 <= k < rules.len() && k != j && slots[k] is None ==> (
                    #[trigger] rules[k].outcome(input)) is Recoverable
                &&& exclusive_chain::<I, O, E, R>(
                    rules,
                    slots.update(j, Some(output)),
                    remaining,
                    steps.drop_first(),
                    outs,
                    rem,
                )
            },
            _ => false,
        }
    }
}

/// Order-independence of acceptance: when the rules match disjoint,
/// uniquely-identifiable parts of the input — at every step exactly one
/// unapplied rule matches, in whatever order the input dictates — the strict
/// run succeeds, and returns the outputs positioned by rule index, not by
/// consumption order, together with the remaining input the order left.
pub proof fn lemma_order_independence<I: View, O, E: Failure<I>, R: Rule<I, O, E>>(
    rules: Seq<R>,
    slots: Seq<Option<O>>,
    input: <I as View>::V,
    steps: Seq<int>,
    outs: Seq<O>,
    rem: <I as View>::V,
)
    requires
        rules.len() == slots.len(),
        outs.len() == rules.len(),
        forall|j: int| 0 <= j < rules.len() && slots[j] is Some ==> slots[j]->0 == outs[j],
        exclusive_chain::<I, O, E, R>(rules, slots, input, steps, outs, rem),
    ensures
        run_strict::<I, O, E, R>(rules, slots, input) == Ok::<
            (<I as View>::V, Seq<O>),
            RunError<E>,
        >((rem, outs)),
    decreases steps.len(),
{
    if steps.len() == 0 {
        lemma_scan_strict_all_applied::<I, O, E, R>(rules, slots, input, 0, None);
        assert(unwrap_slots(slots) =~= outs);
    } else {
        let j = steps[0];
        match rules[j].outcome(input) {
            Outcome::Success { remaining, output } => {
                lemma_scan_strict_finds_success::<I, O, E, R>(rules, slots, input, 0, None, j);
                lemma_order_independence::<I, O, E, R>(
                    rules,
                    slots.update(j, Some(output)),
                    remaining,
                    steps.drop_first(),
                    outs,
                    rem,
                );
            },
            _ => {
                assert(false);
            },
        }
    }
}

/// Idempotent re-entry: the model is a function of the rules and the input
/// alone, so any two results that satisfy the engine's contract for the same
/// rules and input are the same result — equal remaining inputs, outputs and
/// errors.
pub proof fn lemma_strict_deterministic<I: View, O, E>(
    r1: Result<(I, Vec<O>), RunError<E>>,
    r2: Result<(I, Vec<O>), RunError<E>>,
    m: Result<(<I as View>::V, Seq<O>), RunError<E>>,
)
    requires
        strict_result_matches(r1, m),
        strict_result_matches(r2, m),
    ensures
        match (r1, r2) {
            (Ok((rem1, outs1)), Ok((rem2, outs2))) => rem1@ == rem2@ && outs1@ == outs2@,
            (Err(e1), Err(e2)) => e1 == e2,
            _ => false,
        },
{
}

/// Applies a collection of rules in any order.
///
/// The returned parser succeeds only if all of the rules succeeded, and
/// yields the remaining input together with the rules' outputs in the rules'
/// original positional order, regardless of the order in which they were
/// actually applied.
///
/// The rules are applied greedily: whenever several unapplied rules could
/// parse the next slice of input, the first one is used.
pub fn permutation<I: View, O, E, List: Permutation<I, O, E>>(rules: List) -> (parser: impl Fn(I)
    -> Result<(I, O), RunError<E>>)
    ensures
        forall|input: I| #[trigger] call_requires(parser, (input,)),
        forall|input: I, r: Result<(I, O), RunError<E>>|
            #[trigger] call_ensures(parser, (input,), r) ==> rules.permutation_model(input@, r),
{
    move |input: I| -> (r: Result<(I, O), RunError<E>>)
        ensures
            rules.permutation_model(input@, r),
        { rules.permutation(input) }
}

} // verus!
