//! Finite sums of integers.
use crate::field::{Fe, fint, fsum, lemma_fint};
use crate::quantization::fits;
use vstd::arithmetic::mul::*;
use vstd::prelude::*;

verus! {

/// `f(0) + ... + f(n - 1)`.
pub open spec fn isum(n: nat, f: spec_fn(int) -> int) -> int
    decreases n,
{
    if n == 0 {
        0
    } else {
        isum((n - 1) as nat, f) + f(n - 1)
    }
}

/// The terms of the sum, and all that it adds up to on the way, can be held.
pub open spec fn sum_fits(n: nat, f: spec_fn(int) -> int) -> bool
    decreases n,
{
    if n == 0 {
        true
    } else {
        &&& sum_fits((n - 1) as nat, f)
        &&& fits(f(n - 1))
        &&& fits(isum(n, f))
    }
}

pub proof fn lemma_isum_eq(n: nat, f: spec_fn(int) -> int, g: spec_fn(int) -> int)
    requires
        forall|i: int| 0 <= i < n ==> #[trigger] f(i) == g(i),
    ensures
        isum(n, f) == isum(n, g),
        sum_fits(n, f) == sum_fits(n, g),
    decreases n,
{
    if n > 0 {
        lemma_isum_eq((n - 1) as nat, f, g);
        assert(f(n - 1) == g(n - 1));
    }
}

pub proof fn lemma_isum_split(n: nat, m: nat, f: spec_fn(int) -> int)
    ensures
        isum(n + m, f) == isum(n, f) + isum(m, |i: int| f(n + i)),
    decreases m,
{
    let g = |i: int| f(n + i);
    if m > 0 {
        lemma_isum_split(n, (m - 1) as nat, f);
        assert(g(m - 1) == f(n + m - 1));
        assert((n + m - 1) as nat == n + (m - 1) as nat);
    }
}

/// Trailing zeros do not count.
pub proof fn lemma_isum_truncate(n: nat, k: nat, f: spec_fn(int) -> int)
    requires
        k <= n,
        forall|i: int| k <= i < n ==> #[trigger] f(i) == 0,
    ensures
        isum(n, f) == isum(k, f),
        sum_fits(k, f) ==> sum_fits(n, f),
    decreases n,
{
    if n > k {
        lemma_isum_truncate((n - 1) as nat, k, f);
        assert(f(n - 1) == 0);
        assert(sum_fits(k, f) ==> fits(isum(k, f)));
    }
}

/// A sum over `m * n` terms taken in blocks of `n`.
pub proof fn lemma_isum_blocks(m: nat, n: nat, f: spec_fn(int) -> int, g: spec_fn(int) -> int)
    requires
        forall|i: int| 0 <= i < m ==> #[trigger] g(i) == isum(n, |k: int| f(i * n + k)),
    ensures
        isum(m * n, f) == isum(m, g),
    decreases m,
{
    if m > 0 {
        let p = (m - 1) as nat;
        lemma_isum_blocks(p, n, f, g);
        assert(m * n == p * n + n) by {
            lemma_mul_is_distributive_add_other_way(n as int, p as int, 1);
        }
        lemma_isum_split(p * n, n, f);
        assert((|i: int| f(p * n + i)) =~= (|k: int| f((m - 1) * n + k)));
        assert(g(m - 1) == isum(n, |k: int| f((m - 1) * n + k)));
    } else {
        lemma_mul_basics(n as int);
    }
}

/// The image in the field of a sum is the sum of the images.
pub proof fn lemma_fint_isum(n: nat, f: spec_fn(int) -> int, g: spec_fn(int) -> Fe)
    requires
        forall|i: int| 0 <= i < n ==> #[trigger] g(i) == fint(f(i)),
    ensures
        fsum(n, g) == fint(isum(n, f)),
    decreases n,
{
    lemma_fint(0, 0);
    if n > 0 {
        lemma_fint_isum((n - 1) as nat, f, g);
        lemma_fint(isum((n - 1) as nat, f), f(n - 1));
        assert(g(n - 1) == fint(f(n - 1)));
    }
}

/// A sum of terms between `-b` and `b` lies between `-n b` and `n b`.
pub proof fn lemma_isum_bound(n: nat, f: spec_fn(int) -> int, b: int)
    requires
        b >= 0,
        forall|i: int| 0 <= i < n ==> -b <= #[trigger] f(i) <= b,
    ensures
        -(n * b) <= isum(n, f) <= n * b,
    decreases n,
{
    if n > 0 {
        lemma_isum_bound((n - 1) as nat, f, b);
        assert(-b <= f(n - 1) <= b);
        assert(n * b == (n - 1) * b + b) by (nonlinear_arith);
    } else {
        lemma_mul_basics(b);
    }
}

/// A sum of small terms can be held.
pub proof fn lemma_sum_fits(n: nat, f: spec_fn(int) -> int, b: int)
    requires
        0 <= b <= 0xFFFF_FFFF,
        n <= 0xFFFF_FFFF_FFFF_FFFF,
        forall|i: int| 0 <= i < n ==> -b <= #[trigger] f(i) <= b,
    ensures
        sum_fits(n, f),
    decreases n,
{
    if n > 0 {
        lemma_sum_fits((n - 1) as nat, f, b);
        lemma_isum_bound(n, f, b);
        assert(-b <= f(n - 1) <= b);
        assert(n * b <= 0xFFFF_FFFF_FFFF_FFFF * 0xFFFF_FFFF) by (nonlinear_arith)
            requires
                0 <= n <= 0xFFFF_FFFF_FFFF_FFFF,
                0 <= b <= 0xFFFF_FFFF,
        ;
    }
}

} // verus!
