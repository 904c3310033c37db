//! Constant solvers: `sqrt(2)` by Newton–Raphson iteration and `pi` by the
//! arctan series, both driven purely through the decimal operations with a
//! fixed iteration count.
//!
//! Each solver's contract gives the stored integer of its result as an
//! exact recurrence over the decimal contracts, so what the loops compute
//! is pinned down completely.

use vstd::prelude::*;
use vstd::arithmetic::div_mod::{lemma_div_pos_is_pos, lemma_div_is_ordered, lemma_div_by_self, lemma_div_basics};
use crate::decimal::{Decimal, pow10, lemma_pow10_pos};
use crate::engine::{tdiv, lemma_tdiv_nonneg, lemma_tdiv_exact};

verus! {

/// One Newton step for `sqrt(2)` on stored integers at scale `ord`:
/// the store of `two.div(&x).add(&x).div(&two)` when `x` stores `s`.
pub open spec fn newton_next(s: int, ord: int) -> int {
    tdiv((tdiv(2 * ord * ord, s) + s) * ord, 2 * ord)
}

/// The store after `k` Newton steps from `x = 1` (stored as `ord`).
pub open spec fn newton_iter(k: nat, ord: int) -> int
    decreases k,
{
    if k == 0 {
        ord
    } else {
        newton_next(newton_iter((k - 1) as nat, ord), ord)
    }
}

/// A Newton step keeps the store positive, so the next division is safe.
pub proof fn lemma_newton_next_pos(s: int, ord: int)
    requires
        s >= 1,
        ord >= 1,
    ensures
        newton_next(s, ord) >= 1,
{
    assert(2 * ord * ord >= 2) by (nonlinear_arith)
        requires ord >= 1;
    lemma_tdiv_nonneg(2 * ord * ord, s);
    lemma_div_pos_is_pos(2 * ord * ord, s);
    let q = tdiv(2 * ord * ord, s);
    let t2 = q + s;
    if s == 1 {
        lemma_div_basics(2 * ord * ord);
        assert(q == 2 * ord * ord);
    }
    assert(t2 >= 2);
    assert(t2 * ord >= 2 * ord) by (nonlinear_arith)
        requires t2 >= 2, ord >= 1;
    lemma_tdiv_nonneg(t2 * ord, 2 * ord);
    lemma_div_is_ordered(2 * ord, t2 * ord, 2 * ord);
    lemma_div_by_self(2 * ord);
}

/// `sqrt(2)` to `N` fractional digits: Newton–Raphson iteration
/// `x <- (2/x + x) / 2` from `x = 1`, run a fixed number of steps.  The
/// count is policy, not checked against `N`: it must be chosen large
/// enough for the wanted digits (20 steps comfortably exceed 1000 digits).
pub fn compute_sqrt2<const N: usize>(iterations: u64) -> (r: Decimal<N>)
    ensures
        r.wf(),
        r.store() == newton_iter(iterations as nat, pow10(N as nat)),
        r.store() >= 1,
{
    let ghost ord = pow10(N as nat);
    proof {
        lemma_pow10_pos(N as nat);
    }
    let mut x = Decimal::<N>::from_unit(1);
    let mut k: u64 = 0;
    while k < iterations
        invariant
            k <= iterations,
            x.wf(),
            ord == pow10(N as nat),
            ord >= 1,
            x.store() == newton_iter(k as nat, ord),
            x.store() >= 1,
        decreases iterations - k,
    {
        let two = Decimal::<N>::from_unit(2);
        let t1 = two.div(&x);
        let t2 = t1.add(&x);
        let xn = t2.div(&two);
        proof {
            lemma_newton_next_pos(x.store(), ord);
        }
        x = xn;
        k += 1;
    }
    x
}

/// The running power term of the arctan series on stored integers: starts
/// at the store of `z` and is multiplied by `z` twice each iteration, with
/// the truncating rescale of `mul` after each factor.
pub open spec fn pi_power(z: int, ord: int, k: nat) -> int
    decreases k,
{
    if k == 0 {
        z
    } else {
        tdiv(tdiv(pi_power(z, ord, (k - 1) as nat) * z, ord) * z, ord)
    }
}

/// The `k`-th term of the series: the power term divided by the odd
/// constant `2k + 1`, as `div` computes it on stores.
pub open spec fn pi_term(z: int, ord: int, k: nat) -> int {
    tdiv(pi_power(z, ord, k) * ord, (2 * k + 1) * ord)
}

/// The alternating partial sum of the series after `k` iterations.
pub open spec fn pi_sum(z: int, ord: int, k: nat) -> int
    decreases k,
{
    if k == 0 {
        0
    } else {
        let j = (k - 1) as nat;
        if j % 2 == 0 {
            pi_sum(z, ord, j) + pi_term(z, ord, j)
        } else {
            pi_sum(z, ord, j) - pi_term(z, ord, j)
        }
    }
}

/// `pi` as `8 * arctan(z)` for `z = sqrt(2) - 1`, with arctan expanded as
/// the alternating series `sum (-1)^k z^(2k+1) / (2k+1)` over a fixed
/// number of terms.  The count is policy: the caller must pick it large
/// enough that the dropped tail lies below the wanted precision.
pub fn compute_pi<const N: usize>(z: &Decimal<N>, iterations: u64) -> (r: Decimal<N>)
    requires
        z.wf(),
        iterations <= (u64::MAX - 1) / 2,
    ensures
        r.wf(),
        r.store() == 8 * pi_sum(z.store(), pow10(N as nat), iterations as nat),
{
    let ghost ord = pow10(N as nat);
    proof {
        lemma_pow10_pos(N as nat);
    }
    let mut sum = Decimal::<N>::from_unit(0);
    let mut zk = z.clone();
    let mut k: u64 = 0;
    while k < iterations
        invariant
            k <= iterations,
            iterations <= (u64::MAX - 1) / 2,
            z.wf(),
            zk.wf(),
            sum.wf(),
            ord == pow10(N as nat),
            ord >= 1,
            zk.store() == pi_power(z.store(), ord, k as nat),
            sum.store() == pi_sum(z.store(), ord, k as nat),
        decreases iterations - k,
    {
        let c = Decimal::<N>::from_unit(2 * k + 1);
        proof {
            assert((2 * k + 1) * ord >= 1) by (nonlinear_arith)
                requires ord >= 1, k >= 0;
        }
        let term = zk.div(&c);
        if k % 2 == 0 {
            sum = sum.add(&term);
        } else {
            sum = sum.sub(&term);
        }
        zk = zk.mul(z).mul(z);
        k += 1;
    }
    let eight = Decimal::<N>::from_unit(8);
    let r = sum.mul(&eight);
    proof {
        assert(sum.store() * (8 * ord) == (8 * sum.store()) * ord) by (nonlinear_arith);
        lemma_tdiv_exact(8 * sum.store(), ord);
    }
    r
}

} // verus!
