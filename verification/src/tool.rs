//! Small arithmetic helpers.

use vstd::prelude::*;

verus! {

/// The quotient of `x` by `m`, rounded up.
pub open spec fn div_ceil_spec(x: nat, m: nat) -> nat
    recommends
        m > 0,
{
    (x + m - 1) as nat / m
}

/// Divides `x` by `m` and rounds up, without overflow on any `x`.
pub fn div_ceil(x: usize, m: usize) -> (r: usize)
    requires
        m > 0,
    ensures
        r == div_ceil_spec(x as nat, m as nat),
{
    let q: usize = x / m;
    let rem: usize = x % m;
    proof {
        lemma_div_ceil(x as nat, m as nat);
    }
    if rem == 0 {
        q
    } else {
        q + 1
    }
}

/// The rounded-up quotient is the quotient itself where the division is
/// exact and one more where it is not; it never exceeds the dividend.
pub proof fn lemma_div_ceil(x: nat, m: nat)
    requires
        m > 0,
    ensures
        div_ceil_spec(x, m) == if x % m == 0 { x / m } else { x / m + 1 },
        x == 0 ==> div_ceil_spec(x, m) == 0,
        div_ceil_spec(x, m) <= x,
{
    let q = x / m;
    let rem = x % m;
    vstd::arithmetic::div_mod::lemma_fundamental_div_mod(x as int, m as int);
    assert(x == q * m + rem) by (nonlinear_arith)
        requires x == m * q + rem;
    if rem == 0 {
        vstd::arithmetic::div_mod::lemma_fundamental_div_mod_converse(
            (x + m - 1) as int, m as int, q as int, (m - 1) as int);
    } else {
        assert(x + m - 1 == (q + 1) * m + (rem - 1)) by (nonlinear_arith)
            requires x == q * m + rem;
        vstd::arithmetic::div_mod::lemma_fundamental_div_mod_converse(
            (x + m - 1) as int, m as int, (q + 1) as int, (rem - 1) as int);
    }
    assert(q <= q * m) by (nonlinear_arith) requires m > 0;
}

/// Returns the `i`-th chunk of `n` elements of `x`.
pub fn chunk<T>(x: &[T], n: usize, i: usize) -> (r: &[T])
    requires
        n * (i + 1) <= x@.len(),
    ensures
        r@ == x@.subrange(n * i, n * (i + 1)),
{
    proof {
        vstd::slice::axiom_spec_len(x);
        assert(n * i + n == n * (i + 1) && 0 <= n * i) by (nonlinear_arith);
    }
    let start: usize = n * i;
    vstd::slice::slice_subrange(x, start, start + n)
}

} // verus!
