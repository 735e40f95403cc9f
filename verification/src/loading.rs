//! The shared fetch-progress counter: a fixed total set before any
//! concurrency starts, a loaded count incremented exactly once per
//! completed resolution attempt, and the derived progress-bar position
//! and percentage. Rendering and locking live with the caller; every
//! count and formula is stated here.

use vstd::prelude::*;

use vstd::arithmetic::div_mod::{
    lemma_div_decreases, lemma_div_denominator, lemma_div_is_ordered,
    lemma_div_is_ordered_by_denominator, lemma_div_multiples_vanish,
    lemma_div_multiples_vanish_quotient, lemma_div_nonincreasing, lemma_multiply_divide_lt,
};

verus! {

/// The number of digits of `n` written in the given base.
pub open spec fn spec_digit_count(n: nat, base: nat) -> nat
    decreases n,
    via spec_digit_count_decreases
{
    if base <= 1 {
        1
    } else if n < base {
        1
    } else {
        1 + spec_digit_count(n / base, base)
    }
}

#[via_fn]
proof fn spec_digit_count_decreases(n: nat, base: nat) {
    if base > 1 && n >= base {
        lemma_div_decreases(n as int, base as int);
    }
}

pub open spec fn spec_pow10(k: nat) -> nat
    decreases k,
{
    if k == 0 {
        1
    } else {
        10 * spec_pow10((k - 1) as nat)
    }
}

/// Any count below ten to the `k` has at most `k` digits.
proof fn lemma_digit_count_bound(n: nat, k: nat)
    requires
        k >= 1,
        n < spec_pow10(k),
    ensures
        spec_digit_count(n, 10) <= k,
    decreases k,
{
    if n >= 10 {
        assert(k >= 2) by {
            reveal_with_fuel(spec_pow10, 2);
        }
        assert(n / 10 < spec_pow10((k - 1) as nat)) by {
            lemma_multiply_divide_lt(n as int, 10, spec_pow10((k - 1) as nat) as int);
        }
        lemma_digit_count_bound(n / 10, (k - 1) as nat);
    }
}

/// Every 32-bit count fits in ten digits.
pub proof fn lemma_digit_count_u32(n: nat)
    requires
        n <= u32::MAX,
    ensures
        spec_digit_count(n, 10) <= 10,
{
    assert(spec_pow10(10) == 10000000000) by {
        reveal_with_fuel(spec_pow10, 11);
    }
    lemma_digit_count_bound(n, 10);
}

/// Counts the digits of `n` in the given base.
#[verifier::loop_isolation(false)]
pub fn length(n: u32, base: u32) -> (r: u32)
    requires
        base >= 2,
    ensures
        r as nat == spec_digit_count(n as nat, base as nat),
{
    let mut m = n;
    let mut count: u32 = 1;
    while m >= base
        invariant
            count as nat <= 1 + (n as nat - m as nat),
            spec_digit_count(n as nat, base as nat) == (count - 1) + spec_digit_count(
                m as nat,
                base as nat,
            ),
        decreases m,
    {
        proof {
            lemma_div_is_ordered_by_denominator(m as int, 2, base as int);
            lemma_div_decreases(m as int, base as int);
        }
        m = m / base;
        count = count + 1;
    }
    count
}

/// The shared progress state: a fixed total, the count of completed
/// resolution attempts, and the fixed bar geometry.
#[derive(Debug, Clone, PartialEq, Eq)]
pub struct Loader {
    pub total_deps: usize,
    pub loaded_deps: usize,
    pub cols: usize,
    pub digits: u8,
}

impl Loader {
    /// The counter's invariant: the loaded count never passes the total,
    /// the bar never outgrows the total, and the totals stay within the
    /// range the bar arithmetic is proved for.
    pub open spec fn wf(&self) -> bool {
        &&& self.total_deps <= u32::MAX
        &&& self.loaded_deps <= self.total_deps
        &&& self.cols <= self.total_deps
        &&& self.digits as nat == spec_digit_count(self.total_deps as nat, 10)
    }
}

/// Creates the progress counter for a run of `total_deps` resolution
/// attempts, sizing the bar to the terminal width: the bar never exceeds
/// the total, nor the width left after the fixed decorations.
pub fn init_loader(total_deps: usize, term_cols: usize) -> (r: Loader)
    requires
        total_deps <= u32::MAX,
        term_cols >= 9 + 2 * spec_digit_count(total_deps as nat, 10),
    ensures
        r.wf(),
        r.total_deps == total_deps,
        r.loaded_deps == 0,
        r.digits as nat == spec_digit_count(total_deps as nat, 10),
        r.cols as int == if total_deps < term_cols - 2 - 2 * (r.digits as int) - 7 {
            total_deps as int
        } else {
            term_cols - 2 - 2 * (r.digits as int) - 7
        },
{
    proof {
        lemma_digit_count_u32(total_deps as nat);
    }
    let digits_count = length(total_deps as u32, 10);
    let digits: u8 = digits_count as u8;
    let width = term_cols - 2 - (digits as usize) * 2 - 7;
    let cols = if total_deps < width {
        total_deps
    } else {
        width
    };
    Loader { total_deps, loaded_deps: 0, cols, digits }
}

/// How one completed resolution attempt changes the counter: the loaded
/// count grows by exactly one and everything else stands.
pub open spec fn spec_inc_step(before: Loader, after: Loader) -> bool {
    &&& after.loaded_deps == before.loaded_deps + 1
    &&& after.total_deps == before.total_deps
    &&& after.cols == before.cols
    &&& after.digits == before.digits
}

impl Loader {
    /// Records one completed resolution attempt and returns the bar cell
    /// to fill and the whole-number percentage. Callers serialize calls
    /// (one lock per increment); each call moves the count by exactly
    /// one, so a run of attempts can neither lose nor duplicate a count.
    pub fn inc_loader(&mut self) -> (r: (usize, usize))
        requires
            old(self).wf(),
            old(self).loaded_deps < old(self).total_deps,
        ensures
            final(self).wf(),
            spec_inc_step(*old(self), *final(self)),
            r.0 as int == 10000 * (old(self).cols as int) * (final(self).loaded_deps - 1) / (
            old(self).total_deps as int) / 10000,
            r.1 as int == 100 * (final(self).loaded_deps as int) / (old(self).total_deps as int),
    {
        self.loaded_deps = self.loaded_deps + 1;
        let l = self.loaded_deps;
        let t = self.total_deps;
        let c = self.cols;
        let ghost ci = c as int;
        let ghost li = l as int;
        let ghost ti = t as int;
        proof {
            assert(0 <= 10000 * ci * (li - 1) < 0x40000000000000000000) by (nonlinear_arith)
                requires
                    0 <= ci <= 0xFFFF_FFFF,
                    0 <= li - 1 <= 0xFFFF_FFFF,
            ;
        }
        let num: u128 = 10000u128 * (c as u128) * ((l - 1) as u128);
        proof {
            let ni = num as int;
            let x = ci * (li - 1);
            assert(ni == 10000 * x) by (nonlinear_arith)
                requires
                    ni == 10000 * ci * (li - 1),
                    x == ci * (li - 1),
            ;
            lemma_div_denominator(ni, ti, 10000);
            assert(ni / ti / 10000 == ni / (ti * 10000));
            lemma_div_multiples_vanish_quotient(10000, x, ti);
            assert(x / ti == (10000 * x) / (10000 * ti));
            assert(10000 * ti == ti * 10000) by (nonlinear_arith);
            if ci == 0 {
                assert(x == 0) by (nonlinear_arith)
                    requires
                        x == ci * (li - 1),
                        ci == 0,
                ;
                vstd::arithmetic::div_mod::lemma_div_of0(ti);
            } else {
                assert(x < ti * ci) by (nonlinear_arith)
                    requires
                        x == ci * (li - 1),
                        0 <= li - 1 < ti,
                        ci >= 1,
                ;
                lemma_multiply_divide_lt(x, ti, ci);
            }
            assert(ni / ti / 10000 <= ci);
        }
        let idx128: u128 = num / (t as u128) / 10000u128;
        let index = idx128 as usize;
        proof {
            assert(100 * li <= 100 * ti);
            lemma_div_is_ordered(100 * li, 100 * ti, ti);
            lemma_div_multiples_vanish(100, ti);
            assert(100 * ti == ti * 100) by (nonlinear_arith);
        }
        let perc128: u128 = 100u128 * (l as u128) / (t as u128);
        let perc = perc128 as usize;
        (index, perc)
    }
}

/// Any chain of resolution attempts, one increment per attempt and
/// serialized by the caller's lock, moves the loaded count by exactly the
/// number of attempts: no increment is lost and none is duplicated.
pub proof fn lemma_increments_accumulate(states: Seq<Loader>)
    requires
        states.len() >= 1,
        forall|i: int|
            0 <= i < states.len() - 1 ==> spec_inc_step(#[trigger] states[i], states[i + 1]),
    ensures
        states.last().loaded_deps == states.first().loaded_deps + states.len() - 1,
        states.last().total_deps == states.first().total_deps,
    decreases states.len(),
{
    if states.len() > 1 {
        let prefix = states.drop_last();
        assert forall|i: int| 0 <= i < prefix.len() - 1 implies spec_inc_step(
            #[trigger] prefix[i],
            prefix[i + 1],
        ) by {
            assert(prefix[i] == states[i]);
            assert(prefix[i + 1] == states[i + 1]);
        }
        lemma_increments_accumulate(prefix);
        assert(spec_inc_step(states[states.len() - 2], states[states.len() - 1]));
    }
}

} // verus!
