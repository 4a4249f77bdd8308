//! Randomness capabilities consumed by the samplers.
//!
//! The samplers themselves contain no randomness: every draw enters through
//! one of these traits as a plain machine value, and each sampler's contract
//! states what holds of the result whatever the draws were.  A caller supplies
//! an implementation backed by a real generator (seeded or not); the
//! floating-point skip and key arithmetic of the two algorithms lives in that
//! implementation.
//!
//! Weights and priority keys cross the boundary as the bit patterns of IEEE
//! 754 doubles.  On positive finite doubles the unsigned order of the bit
//! patterns is exactly the numeric order, so the samplers can validate and
//! compare them as plain `u64` values.

use vstd::prelude::*;

verus! {

/// Bit pattern of a finite double that is strictly positive: at least the
/// smallest positive subnormal and at most the largest finite double.  Zero,
/// negative values, infinities and NaN all fall outside this range.
pub open spec fn valid_weight_bits(b: u64) -> bool {
    1 <= b <= 0x7FEF_FFFF_FFFF_FFFF
}

/// Bit pattern of a double strictly inside `(0, 1)`: at least the smallest
/// positive subnormal and at most the largest double below one.
pub open spec fn valid_key_bits(b: u64) -> bool {
    1 <= b <= 0x3FEF_FFFF_FFFF_FFFF
}

/// Decide whether `b` is the bit pattern of a finite, strictly positive
/// weight.
pub fn is_valid_weight(b: u64) -> (r: bool)
    ensures
        r == valid_weight_bits(b),
{
    1 <= b && b <= 0x7FEF_FFFF_FFFF_FFFF
}

/// Random draws for the unweighted sampler (the Algorithm L family).
///
/// The implementation keeps the running acceptance value `w` of Algorithm L,
/// a double strictly inside `(0, 1)`, and must guard the draws that feed it:
/// a uniform draw of exactly zero is redrawn, so `ln` is never taken at zero
/// and `w` never leaves the open interval.
///
/// Each draw is also described abstractly: the spec functions give, for any
/// state of the source, the value the next draw returns and the state it
/// leaves behind.  Through them the sampler's result is a function of the
/// source's starting state, which is what makes a seeded run reproducible.
pub trait UniformRandomSource: Sized {
    /// What `next_skip` would return in this state.
    open spec fn skip_now(&self) -> usize {
        0
    }

    /// What `pick_slot(k)` would return in this state.
    open spec fn slot_now(&self, k: usize) -> usize {
        0
    }

    /// The state after `start(k)`.
    open spec fn post_start(&self, k: usize) -> Self {
        *self
    }

    /// The state after `next_skip`.
    open spec fn post_skip(&self) -> Self {
        *self
    }

    /// The state after `pick_slot(k)`.
    open spec fn post_slot(&self, k: usize) -> Self {
        *self
    }

    /// The state after `accept(k)`.
    open spec fn post_accept(&self, k: usize) -> Self {
        *self
    }

    /// Start a sampling pass with reservoir size `k`: draw one uniform `u`
    /// in `(0, 1)` and set `w = exp(ln(u) / k)`.
    fn start(&mut self, k: usize)
        requires
            k > 0,
        ensures
            *final(self) == old(self).post_start(k),
    ;

    /// The number of stream elements that cannot possibly be accepted and may
    /// be discarded: `floor(ln(u) / ln(1 - w))` for a fresh uniform `u`,
    /// saturated to the machine-word range.
    fn next_skip(&mut self) -> (r: usize)
        ensures
            r == old(self).skip_now(),
            *final(self) == old(self).post_skip(),
    ;

    /// A uniformly random reservoir slot in `[0, k)`.
    fn pick_slot(&mut self, k: usize) -> (r: usize)
        requires
            k > 0,
        ensures
            r < k,
            r == old(self).slot_now(k),
            *final(self) == old(self).post_slot(k),
    ;

    /// Account for an accepted candidate: `w = w * exp(ln(u) / k)` for a
    /// fresh uniform `u`.
    fn accept(&mut self, k: usize)
        requires
            k > 0,
        ensures
            *final(self) == old(self).post_accept(k),
    ;
}

/// Random draws for the weighted sampler (the A-ExpJ family).
///
/// The implementation keeps the running budget `X` of A-ExpJ.  Keys are
/// returned as bit patterns of doubles strictly inside `(0, 1)`; the
/// implementation must guard degenerate draws (a uniform of exactly zero is
/// redrawn, a power that rounds onto a bound of the interval is moved to the
/// nearest double inside it).  The `requires` clauses keep every weight away
/// from the key arithmetic until it has been validated.
///
/// As with [`UniformRandomSource`], the spec functions describe each draw
/// abstractly: what it returns in a given state and the state it leaves
/// behind, so a sampling pass is a function of the source's starting state.
pub trait WeightedRandomSource: Sized {
    /// What `initial_key(weight)` would return in this state.
    open spec fn initial_key_now(&self, weight: u64) -> u64 {
        0
    }

    /// The state after `initial_key(weight)`.
    open spec fn post_initial_key(&self, weight: u64) -> Self {
        *self
    }

    /// The state after `start_budget(min_key)`.
    open spec fn post_start_budget(&self, min_key: u64) -> Self {
        *self
    }

    /// What `spend(weight)` would return in this state.
    open spec fn spend_now(&self, weight: u64) -> bool {
        false
    }

    /// The state after `spend(weight)`.
    open spec fn post_spend(&self, weight: u64) -> Self {
        *self
    }

    /// What `replacement_key(min_key, weight)` would return in this state.
    open spec fn replacement_key_now(&self, min_key: u64, weight: u64) -> u64 {
        0
    }

    /// The state after `replacement_key(min_key, weight)`.
    open spec fn post_replacement_key(&self, min_key: u64, weight: u64) -> Self {
        *self
    }

    /// The priority key `u ^ (1 / weight)` of a fresh element, for a fresh
    /// uniform `u` in `(0, 1)`.
    fn initial_key(&mut self, weight: u64) -> (r: u64)
        requires
            valid_weight_bits(weight),
        ensures
            valid_key_bits(r),
            r == old(self).initial_key_now(weight),
            *final(self) == old(self).post_initial_key(weight),
    ;

    /// Start a replacement round: `X = ln(u) / ln(T)` for a fresh uniform
    /// `u` and the current minimum key `T`.
    fn start_budget(&mut self, min_key: u64)
        requires
            valid_key_bits(min_key),
        ensures
            *final(self) == old(self).post_start_budget(min_key),
    ;

    /// Charge one element's weight against the budget: `X = X - weight`;
    /// reports whether the budget is spent (`X <= 0`), which makes the
    /// element a replacement candidate.
    fn spend(&mut self, weight: u64) -> (r: bool)
        requires
            valid_weight_bits(weight),
        ensures
            r == old(self).spend_now(weight),
            *final(self) == old(self).post_spend(weight),
    ;

    /// The key of a replacement candidate: for the popped minimum key `T`,
    /// compute `T' = T ^ weight`, draw `r` uniform in `[T', 1)`, and return
    /// `r ^ (1 / weight)`.
    fn replacement_key(&mut self, min_key: u64, weight: u64) -> (r: u64)
        requires
            valid_key_bits(min_key),
            valid_weight_bits(weight),
        ensures
            valid_key_bits(r),
            r == old(self).replacement_key_now(min_key, weight),
            *final(self) == old(self).post_replacement_key(min_key, weight),
    ;
}

} // verus!
