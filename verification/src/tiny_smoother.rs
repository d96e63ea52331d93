//! A one-pole filter for smooth parameter transitions.
//!
//! `TinySmoother` moves a value towards a target by a fixed fraction of the
//! remaining distance on every call.  The running value is kept in binary64
//! while targets and outputs are binary32, and the update is written as
//! "target minus the retained part of the error", so that a value that has
//! reached its target stays there exactly.

use crate::arith::{
    lemma_magnitude_zero,
    lemma_multiply_shrinks,
    lemma_multiply_zero,
    lemma_subtract_equal,
    lemma_subtract_finite,
    lemma_subtract_value,
    lemma_subtract_zero,
};
use crate::double::{
    lemma_from_single_exact,
    lemma_single_round_trip,
    lemma_to_single_in_range,
    lemma_to_single_monotonic,
    Double,
};
use crate::pattern::{lemma_magnitude_increases, lemma_magnitude_of_ordinal, magnitude, ordinal};
use crate::single::Single;
use vstd::arithmetic::power2::{lemma2_to64, lemma2_to64_rest, lemma_pow2_adds, pow2};
use vstd::prelude::*;

verus! {

/// The pattern of the binary64 value one.
pub const DOUBLE_ONE: u64 = 0x3FF0_0000_0000_0000;

/// The smoothing coefficient of the default configuration: the binary64
/// value nearest to `exp(-ln(2) / 500)`, with which the value has covered
/// half of the distance to a constant target after 500 calls.
pub const DEFAULT_BETA: u64 = 0x3FEF_F4A6_BE86_B754;

/// Why a smoother could not be made.
#[derive(Clone, Copy, Debug, PartialEq, Eq)]
pub enum SmootherError {
    /// The smoothing coefficient is not in the range from zero, inclusive, to
    /// one, exclusive.
    BetaOutOfRange,
    /// The start value is infinite or not a number.
    StartValueNotFinite,
}

/// Whether a smoothing coefficient is at least zero and less than one.
pub open spec fn valid_beta(beta: Double) -> bool {
    beta.finite() && 0 <= beta.value() < pow2(1074)
}

/// One update of the running value: the target, less the part `beta` of the
/// distance from the running value to the target.  Each of the three
/// operations rounds.
pub open spec fn smooth(beta: Double, last_value: Double, target: Double) -> Double {
    target.subtract_spec(beta.multiply_spec(target.subtract_spec(last_value)))
}

/// What a smoother holds: its configuration and its running value.
pub struct SmootherState {
    /// The part of the distance to the target that one update retains.
    pub beta: Double,
    /// The value that a new or reset smoother starts from.
    pub start_value: Single,
    /// The running value.
    pub last_value: Double,
}

impl SmootherState {
    /// The invariant of every smoother: the coefficient is in range, the
    /// start value is finite, and the running value is finite and within the
    /// range of binary32.
    pub open spec fn valid(self) -> bool {
        &&& valid_beta(self.beta)
        &&& self.start_value.finite()
        &&& self.last_value.in_single_range()
    }

    /// The state of a new smoother.
    pub open spec fn initial(beta: Double, start_value: Single) -> SmootherState {
        SmootherState { beta, start_value, last_value: Double::from_single_spec(start_value) }
    }

    /// The state after one call with `target`.  A target that is not finite
    /// changes nothing.
    pub open spec fn step(self, target: Single) -> SmootherState {
        if target.finite() {
            SmootherState {
                beta: self.beta,
                start_value: self.start_value,
                last_value: smooth(self.beta, self.last_value, Double::from_single_spec(target)),
            }
        } else {
            self
        }
    }

    /// The output in this state: the running value rounded to binary32.
    pub open spec fn output(self) -> Single {
        self.last_value.to_single_spec()
    }

    /// The state after a reset.
    pub open spec fn reset(self) -> SmootherState {
        SmootherState {
            beta: self.beta,
            start_value: self.start_value,
            last_value: Double::from_single_spec(self.start_value),
        }
    }

    /// The state after `n` calls with the same target.
    pub open spec fn steps(self, target: Single, n: nat) -> SmootherState
        decreases n,
    {
        if n == 0 {
            self
        } else {
            self.step(target).steps(target, (n - 1) as nat)
        }
    }
}

/// Whether `x` lies between `a` and `b`, whichever of the two is larger.
pub open spec fn between(a: int, x: int, b: int) -> bool {
    (a <= x <= b) || (b <= x <= a)
}

/// A one-pole smoothing filter.
pub struct TinySmoother {
    last_value: Double,
    start_value: Single,
    beta: Double,
}

impl View for TinySmoother {
    type V = SmootherState;

    closed spec fn view(&self) -> SmootherState {
        SmootherState {
            beta: self.beta,
            start_value: self.start_value,
            last_value: self.last_value,
        }
    }
}

/// The patterns of the coefficients that are in range: both zeros, and the
/// positive patterns below the pattern of one.
pub proof fn lemma_valid_beta(beta: Double)
    requires
        beta.finite(),
    ensures
        valid_beta(beta) <==> (beta.pattern() == 0 || (!beta.negative() && beta.pattern()
            < 0x3FF0_0000_0000_0000)),
        valid_beta(beta) ==> beta.magnitude() < pow2(1074),
{
    lemma2_to64();
    lemma2_to64_rest();
    let one: nat = 0x3FF0_0000_0000_0000;
    assert(one == ordinal(52, 1022, pow2(52)));
    lemma_magnitude_of_ordinal(52, 1022, pow2(52));
    lemma_pow2_adds(52, 1022);
    assert(magnitude(52, one) == pow2(1074));
    lemma_magnitude_zero(beta.pattern());
    if beta.pattern() < one {
        lemma_magnitude_increases(52, beta.pattern(), one);
    }
    if beta.pattern() > one {
        lemma_magnitude_increases(52, one, beta.pattern());
    }
}

/// An update keeps a valid state valid.
pub proof fn lemma_step_valid(state: SmootherState, target: Single)
    requires
        state.valid(),
    ensures
        state.step(target).valid(),
        state.step(target).output().finite(),
{
    if target.finite() {
        lemma_from_single_exact(target);
        lemma_step_between(state, target);
    }
    lemma_to_single_in_range(state.step(target).last_value);
}

impl TinySmoother {
    #[verifier::type_invariant]
    spec fn well_formed(self) -> bool {
        self@.valid()
    }

    /// Makes a smoother with a smoothing coefficient of its own.
    ///
    /// `beta` is the part of the distance to the target that one update
    /// retains: zero follows the target at once, values near one approach it
    /// slowly.  `start_value` is the value that the smoother starts from,
    /// now and after every reset.
    ///
    /// A coefficient that is not at least zero and less than one is rejected,
    /// and so is a start value that is not finite.
    pub fn new(beta: Double, start_value: Single) -> (r: Result<TinySmoother, SmootherError>)
        ensures
            match r {
                Ok(smoother) => valid_beta(beta) && start_value.finite() && smoother@
                    == SmootherState::initial(beta, start_value) && smoother@.valid(),
                Err(SmootherError::BetaOutOfRange) => !valid_beta(beta),
                Err(SmootherError::StartValueNotFinite) => valid_beta(beta)
                    && !start_value.finite(),
            },
    {
        let pattern: u64 = beta.abs().to_bits();
        proof {
            if beta.finite() {
                lemma_valid_beta(beta);
            }
        }
        if !(pattern == 0 || (!beta.is_sign_negative() && pattern < DOUBLE_ONE)) {
            return Err(SmootherError::BetaOutOfRange);
        }
        if !start_value.is_finite() {
            return Err(SmootherError::StartValueNotFinite);
        }
        proof {
            lemma_from_single_exact(start_value);
        }
        Ok(TinySmoother { last_value: Double::from_single(start_value), beta, start_value })
    }

    /// Moves the running value towards `target` and returns it.
    ///
    /// A target that is not finite changes nothing: the previous output is
    /// returned again.
    pub fn next(&mut self, target: Single) -> (out: Single)
        ensures
            final(self)@ == old(self)@.step(target),
            out == final(self)@.output(),
            out.finite(),
            final(self)@.valid(),
    {
        proof {
            use_type_invariant(&*self);
            lemma_step_valid(self@, target);
        }
        if !target.is_finite() {
            return self.last_value.to_single();
        }
        let target = Double::from_single(target);
        let new_value = target.subtract(self.beta.multiply(target.subtract(self.last_value)));
        self.last_value = new_value;
        new_value.to_single()
    }

    /// Sets the running value back to the start value.
    pub fn reset(&mut self)
        ensures
            final(self)@ == old(self)@.reset(),
            final(self)@.valid(),
    {
        proof {
            use_type_invariant(&*self);
            lemma_from_single_exact(self.start_value);
        }
        self.last_value = Double::from_single(self.start_value);
    }
}

impl Default for TinySmoother {
    /// A smoother that starts at zero and covers half of the distance to a
    /// constant target in 500 calls, about 10 ms at common audio sample
    /// rates.
    fn default() -> (r: TinySmoother)
        ensures
            r@ == SmootherState::initial(
                Double { bits: 0x3FEF_F4A6_BE86_B754 },
                Single { bits: 0 },
            ),
            r@.valid(),
    {
        let beta = Double::from_bits(DEFAULT_BETA);
        let start_value = Single::from_bits(0);
        proof {
            lemma_valid_beta(beta);
            lemma_from_single_exact(start_value);
        }
        TinySmoother { last_value: Double::from_single(start_value), beta, start_value }
    }
}

/// With a coefficient of zero the output follows the target at once: the
/// output has the value of the target, and is the target itself unless that
/// is a zero, whose sign may differ.
pub proof fn lemma_instant_tracking(state: SmootherState, target: Single)
    requires
        state.valid(),
        state.beta.pattern() == 0,
        target.finite(),
    ensures
        state.step(target).output().finite(),
        state.step(target).output().value() == target.value(),
        target.pattern() != 0 ==> state.step(target).output() == target,
        state.step(target).last_value.value() == Double::from_single_spec(target).value(),
{
    let t = Double::from_single_spec(target);
    lemma_step_valid(state, target);
    lemma_from_single_exact(target);
    lemma_subtract_finite(t, state.last_value);
    let d = t.subtract_spec(state.last_value);
    lemma_multiply_zero(state.beta, d);
    let p = state.beta.multiply_spec(d);
    lemma_subtract_zero(t, p);
    lemma_settled(target, t.subtract_spec(p));
}

/// A running value that has reached the target stays there, and the output
/// has the value of the target.
pub proof fn lemma_target_is_fixed_point(state: SmootherState, target: Single)
    requires
        state.valid(),
        target.finite(),
        state.last_value.value() == Double::from_single_spec(target).value(),
    ensures
        state.step(target).last_value.value() == state.last_value.value(),
        state.step(target).output().finite(),
        state.step(target).output().value() == target.value(),
        target.pattern() != 0 ==> state.step(target).output() == target,
{
    let t = Double::from_single_spec(target);
    lemma_from_single_exact(target);
    lemma_subtract_equal(t, state.last_value);
    let d = t.subtract_spec(state.last_value);
    lemma2_to64();
    lemma2_to64_rest();
    assert(d.finite());
    lemma_multiply_zero(state.beta, d);
    let p = state.beta.multiply_spec(d);
    lemma_subtract_zero(t, p);
    lemma_settled(target, t.subtract_spec(p));
}

/// A binary64 value with the pattern of a converted binary32 value rounds
/// back to that value, up to the sign of a zero.
proof fn lemma_settled(target: Single, value: Double)
    requires
        target.finite(),
        value.pattern() == Double::from_single_spec(target).pattern(),
        target.pattern() != 0 ==> value == Double::from_single_spec(target),
    ensures
        value.to_single_spec().finite(),
        value.to_single_spec().value() == target.value(),
        target.pattern() != 0 ==> value.to_single_spec() == target,
{
    let t = Double::from_single_spec(target);
    lemma_from_single_exact(target);
    lemma_single_round_trip(target);
    lemma2_to64();
    lemma2_to64_rest();
    if target.pattern() == 0 {
        assert(magnitude(23, 0) == 0);
        assert(t.magnitude() == 0) by (nonlinear_arith)
            requires
                t.magnitude() == target.magnitude() * pow2(925),
                target.magnitude() == 0,
        ;
        assert(value.magnitude() == t.magnitude());
        // both round to a zero of binary32
        assert(t.to_single_spec() == target);
        assert(value.to_single_spec().pattern() == t.to_single_spec().pattern());
    }
}

/// A target that is not finite changes neither state nor output, so the
/// output of the call before is returned again and later calls continue from
/// where the smoother was.
pub proof fn lemma_hold_on_non_finite(state: SmootherState, target: Single)
    requires
        !target.finite(),
    ensures
        state.step(target) == state,
        state.step(target).output() == state.output(),
{
}

/// After a reset a smoother is in the state of a new smoother of the same
/// configuration, whatever it has done before.
pub proof fn lemma_reset_is_initial(state: SmootherState)
    ensures
        state.reset() == SmootherState::initial(state.beta, state.start_value),
        state.reset().beta == state.beta,
        state.reset().start_value == state.start_value,
{
}

/// An update moves the running value towards the target and never beyond
/// it: the new running value lies between the old one and the target.  So
/// the running value never leaves the range that start value and targets
/// span.
pub proof fn lemma_step_between(state: SmootherState, target: Single)
    requires
        valid_beta(state.beta),
        state.last_value.finite(),
        target.finite(),
    ensures
        state.step(target).last_value.finite(),
        between(
            state.last_value.value(),
            state.step(target).last_value.value(),
            Double::from_single_spec(target).value(),
        ),
{
    let t = Double::from_single_spec(target);
    let l = state.last_value;
    let beta = state.beta;
    lemma_from_single_exact(target);
    lemma_subtract_finite(t, l);
    let d = t.subtract_spec(l);
    lemma_valid_beta(beta);
    lemma_multiply_shrinks(beta, d);
    let p = beta.multiply_spec(d);
    lemma_subtract_finite(t, p);
    lemma_subtract_value(t, l);
    lemma_subtract_value(t, p);
    lemma2_to64();
    lemma2_to64_rest();
    assert(crate::rounding::infinity_pattern(52, 2047) == 0x7FF0_0000_0000_0000);
    lemma_magnitude_zero(beta.pattern());
    lemma_magnitude_zero(d.pattern());
    lemma_magnitude_zero(p.pattern());
    let x = t.value() - l.value();
    // the retained part has the sign of the distance and is no larger
    if x > 0 {
        if beta.pattern() != 0 {
            crate::arith::lemma_retained_part_bounded(beta.pattern(), x as nat);
        } else {
            lemma_multiply_zero(beta, d);
        }
        assert(0 <= p.value() <= x);
    } else if x < 0 {
        if beta.pattern() != 0 {
            crate::arith::lemma_retained_part_bounded(beta.pattern(), (-x) as nat);
        } else {
            lemma_multiply_zero(beta, d);
        }
        assert(x <= p.value() <= 0);
    } else {
        lemma_multiply_zero(beta, d);
        assert(p.value() == 0);
    }
    // rounding the difference of target and retained part keeps it between
    // the old value and the target
    let y = t.value() - p.value();
    crate::arith::lemma_rounded_value_exact(t);
    crate::arith::lemma_rounded_value_exact(l);
    if x >= 0 {
        crate::arith::lemma_rounded_value_monotonic(l.value(), y);
        crate::arith::lemma_rounded_value_monotonic(y, t.value());
    } else {
        crate::arith::lemma_rounded_value_monotonic(t.value(), y);
        crate::arith::lemma_rounded_value_monotonic(y, l.value());
    }
}

/// The output of an update lies between the output before and the target:
/// the smoother never overshoots, and never moves away from its target.
pub proof fn lemma_output_between(state: SmootherState, target: Single)
    requires
        state.valid(),
        target.finite(),
    ensures
        between(state.output().value(), state.step(target).output().value(), target.value()),
{
    let t = Double::from_single_spec(target);
    lemma_from_single_exact(target);
    lemma_single_round_trip(target);
    lemma_step_between(state, target);
    let l = state.last_value;
    let n = state.step(target).last_value;
    if l.value() <= n.value() <= t.value() {
        lemma_to_single_monotonic(l, n);
        lemma_to_single_monotonic(n, t);
    } else {
        lemma_to_single_monotonic(t, n);
        lemma_to_single_monotonic(n, l);
    }
}

/// Under a constant target the output never recedes: after any number of
/// calls it lies between the output at the start and the target.  An output
/// that is within some distance of the target therefore stays within that
/// distance for as long as the target stays the same.
pub proof fn lemma_constant_target(state: SmootherState, target: Single, n: nat)
    requires
        state.valid(),
        target.finite(),
    ensures
        state.steps(target, n).valid(),
        state.steps(target, n).output().finite(),
        between(state.output().value(), state.steps(target, n).output().value(), target.value()),
    decreases n,
{
    if n == 0 {
        lemma_to_single_in_range(state.last_value);
    } else {
        lemma_step_valid(state, target);
        lemma_output_between(state, target);
        lemma_constant_target(state.step(target), target, (n - 1) as nat);
    }
}

} // verus!
