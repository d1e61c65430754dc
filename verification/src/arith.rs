//! Powers of two, binary digits and integer logarithms.
use vstd::arithmetic::div_mod::*;
use vstd::arithmetic::power2::*;
use vstd::prelude::*;

verus! {

/// Digit `t` of `x` in base two, the least significant digit being digit 0.
pub open spec fn bit(x: nat, t: nat) -> bool {
    (x / pow2(t)) % 2 == 1
}

/// The least `k` with `x <= 2^k`.
pub open spec fn clog2(x: nat) -> nat
    decreases x,
{
    if x <= 1 {
        0
    } else {
        1 + clog2((x + 1) / 2)
    }
}

/// The least power of two that is not below `x`.
pub open spec fn npow2(x: nat) -> nat {
    pow2(clog2(x))
}

/// The greatest `k` with `2^k <= x`, for a positive `x`.
pub open spec fn flog2(x: nat) -> nat
    decreases x,
{
    if x <= 1 {
        0
    } else {
        1 + flog2(x / 2)
    }
}

/// `x` is a power of two.
pub open spec fn is_pow2(x: nat) -> bool {
    exists|k: nat| x == #[trigger] pow2(k)
}

pub proof fn lemma_pow2_step(k: nat)
    ensures
        pow2(k + 1) == 2 * pow2(k),
        pow2(k) >= 1,
{
    lemma_pow2_unfold(k + 1);
    lemma_pow2_pos(k);
}

pub proof fn lemma_pow2_zero()
    ensures
        pow2(0) == 1,
        pow2(1) == 2,
{
    lemma2_to64();
}

pub proof fn lemma_pow2_mono(a: nat, b: nat)
    requires
        a <= b,
    ensures
        pow2(a) <= pow2(b),
    decreases b - a,
{
    if a < b {
        lemma_pow2_mono(a, (b - 1) as nat);
        lemma_pow2_step((b - 1) as nat);
    }
}

/// A power of two is above its exponent.
pub proof fn lemma_pow2_above(k: nat)
    ensures
        k < pow2(k),
    decreases k,
{
    if k == 0 {
        lemma_pow2_zero();
    } else {
        lemma_pow2_above((k - 1) as nat);
        lemma_pow2_step((k - 1) as nat);
    }
}

/// `clog2(x)` is the least exponent whose power of two reaches `x`.
pub proof fn lemma_clog2(x: nat)
    ensures
        x <= pow2(clog2(x)),
        x >= 2 ==> pow2(clog2(x)) < 2 * x,
        x <= 1 ==> clog2(x) == 0,
        forall|k: nat| x <= #[trigger] pow2(k) ==> clog2(x) <= k,
    decreases x,
{
    if x <= 1 {
        lemma_pow2_zero();
    } else {
        let h = (x + 1) / 2;
        lemma_clog2(h);
        lemma_pow2_step(clog2(h));
        lemma_pow2_zero();
        assert(pow2(clog2(x)) < 2 * x) by {
            if h >= 2 {
                assert(pow2(clog2(h)) < 2 * h);
                lemma_clog2_upper(x);
            }
        }
        assert forall|k: nat| x <= #[trigger] pow2(k) implies clog2(x) <= k by {
            if k == 0 {
            } else {
                lemma_pow2_step((k - 1) as nat);
                assert(h <= pow2((k - 1) as nat));
            }
        }
    }
}

proof fn lemma_clog2_upper(x: nat)
    requires
        x >= 2,
    ensures
        pow2(clog2(x)) < 2 * x,
    decreases x,
{
    let h = (x + 1) / 2;
    lemma_pow2_zero();
    lemma_pow2_step(clog2(h));
    if h >= 2 {
        lemma_clog2_upper(h);
        lemma_pow2_step((clog2(h) - 1) as nat);
        lemma_pow2_pos(clog2(h));
        // pow2(clog2(h)) is even and below 2h, so it is at most 2h - 2
        assert(pow2(clog2(h)) % 2 == 0);
    }
}

/// The least power of two above `x`: it is one, it reaches `x`, and every power of two that
/// reaches `x` is at least as large.
pub proof fn lemma_npow2(x: nat)
    ensures
        is_pow2(npow2(x)),
        x <= npow2(x),
        npow2(x) >= 1,
        x >= 1 ==> npow2(x) < 2 * x,
        forall|k: nat| x <= #[trigger] pow2(k) ==> npow2(x) <= pow2(k),
{
    lemma_clog2(x);
    lemma_pow2_zero();
    lemma_pow2_pos(clog2(x));
    assert forall|k: nat| x <= #[trigger] pow2(k) implies npow2(x) <= pow2(k) by {
        lemma_pow2_mono(clog2(x), k);
    }
}

/// A power of two is its own least power of two.
pub proof fn lemma_npow2_of_pow2(k: nat)
    ensures
        clog2(pow2(k)) == k,
        npow2(pow2(k)) == pow2(k),
    decreases k,
{
    lemma_pow2_zero();
    if k > 0 {
        lemma_pow2_step((k - 1) as nat);
        lemma_npow2_of_pow2((k - 1) as nat);
        let q = pow2((k - 1) as nat);
        assert((2 * q + 1) / 2 == q);
    }
}

/// `flog2(x)` brackets a positive `x` between two consecutive powers of two.
pub proof fn lemma_flog2(x: nat)
    requires
        x >= 1,
    ensures
        pow2(flog2(x)) <= x < pow2(flog2(x) + 1),
    decreases x,
{
    lemma_pow2_zero();
    if x > 1 {
        lemma_flog2(x / 2);
        lemma_pow2_step(flog2(x / 2));
        lemma_pow2_step(flog2(x / 2) + 1);
    }
}

pub proof fn lemma_flog2_unique(x: nat, k: nat)
    requires
        pow2(k) <= x < pow2(k + 1),
    ensures
        flog2(x) == k,
{
    lemma_pow2_pos(k);
    lemma_flog2(x);
    if flog2(x) < k {
        lemma_pow2_mono(flog2(x) + 1, k);
    } else if flog2(x) > k {
        lemma_pow2_mono(k + 1, flog2(x));
    }
}

pub proof fn lemma_flog2_pow2(k: nat)
    ensures
        flog2(pow2(k)) == k,
{
    lemma_pow2_step(k);
    lemma_flog2_unique(pow2(k), k);
}

/// The integer logarithm in base two, rounded down.
pub fn ilog2(x: usize) -> (r: usize)
    requires
        x > 0,
    ensures
        r == flog2(x as nat),
        r < usize::BITS,
{
    let mut k: usize = 0;
    let mut y: usize = x;
    proof {
        lemma_pow2_zero();
        assert(pow2(0) * y == y);
        lemma_usize_pow2(x as nat);
    }
    while y > 1
        invariant
            x > 0,
            y >= 1,
            k < usize::BITS,
            flog2(x as nat) < usize::BITS,
            flog2(x as nat) == k + flog2(y as nat),
        decreases y,
    {
        y = y / 2;
        k = k + 1;
    }
    k
}

proof fn lemma_usize_pow2(x: nat)
    requires
        1 <= x <= usize::MAX,
    ensures
        flog2(x) < usize::BITS,
{
    lemma_flog2(x);
    lemma2_to64();
    lemma2_to64_rest();
    lemma_pow2_step(63);
    if flog2(x) >= usize::BITS {
        lemma_pow2_mono(usize::BITS as nat, flog2(x));
    }
}

/// The integer logarithm in base two, rounded up: the number of variables that address `x`
/// entries.
pub fn ceil_log2(x: usize) -> (r: usize)
    requires
        x > 0,
    ensures
        r == clog2(x as nat),
        r <= usize::BITS,
{
    let mut k: usize = 0;
    let mut y: usize = x;
    proof {
        lemma_clog2(x as nat);
        lemma2_to64();
        lemma2_to64_rest();
        lemma_pow2_step(63);
        assert(x <= pow2(usize::BITS as nat));
    }
    while y > 1
        invariant
            x > 0,
            y >= 1,
            k <= usize::BITS,
            clog2(x as nat) <= usize::BITS,
            clog2(x as nat) == k + clog2(y as nat),
        decreases y,
    {
        y = y / 2 + y % 2;
        k = k + 1;
    }
    k
}

/// The least power of two that is not below `x`.
pub fn next_power_of_two(x: usize) -> (r: usize)
    requires
        npow2(x as nat) <= usize::MAX,
    ensures
        r == npow2(x as nat),
{
    let mut r: usize = 1;
    let mut k: Ghost<nat> = Ghost(0);
    proof {
        lemma_pow2_zero();
        lemma_npow2(x as nat);
        lemma_clog2(x as nat);
    }
    while r < x
        invariant
            r == pow2(k@),
            k@ <= clog2(x as nat),
            npow2(x as nat) <= usize::MAX,
        decreases clog2(x as nat) - k@,
    {
        proof {
            lemma_clog2(x as nat);
            assert(k@ < clog2(x as nat)) by {
                if k@ == clog2(x as nat) {
                    assert(x <= r);
                }
            }
            lemma_pow2_step(k@);
            lemma_pow2_mono(k@ + 1, clog2(x as nat));
        }
        r = r * 2;
        proof {
            k@ = k@ + 1;
        }
    }
    proof {
        lemma_clog2(x as nat);
        assert(x <= pow2(k@));
        assert(k@ == clog2(x as nat));
    }
    r
}

/// Whether `x` is a power of two.
pub fn is_power_of_two(x: usize) -> (b: bool)
    ensures
        b == is_pow2(x as nat),
{
    if x == 0 {
        assert(!is_pow2(0)) by {
            assert forall|k: nat| 0 != #[trigger] pow2(k) by {
                lemma_pow2_pos(k);
            }
        }
        return false;
    }
    let mut y: usize = x;
    let mut k: Ghost<nat> = Ghost(0);
    proof {
        lemma_pow2_zero();
    }
    while y % 2 == 0
        invariant
            y > 0,
            x == y * pow2(k@),
        decreases y,
    {
        proof {
            lemma_pow2_step(k@);
            let h = (y / 2) as int;
            let q = pow2(k@) as int;
            assert(y == 2 * h);
            assert((2 * h) * q == h * (2 * q)) by (nonlinear_arith);
        }
        y = y / 2;
        proof {
            k@ = k@ + 1;
        }
    }
    proof {
        if y == 1 {
            assert(x == pow2(k@));
        } else {
            if is_pow2(x as nat) {
                let m = choose|m: nat| x as nat == #[trigger] pow2(m);
                lemma_odd_times_pow2(y as nat, k@, m);
            }
        }
    }
    y == 1
}

/// An odd factor of a power of two is 1.
proof fn lemma_odd_times_pow2(y: nat, k: nat, m: nat)
    requires
        y % 2 == 1,
        y * pow2(k) == pow2(m),
    ensures
        y == 1,
    decreases k,
{
    lemma_pow2_zero();
    if k == 0 {
        assert(y * 1 == y);
        if m > 0 {
            lemma_pow2_step((m - 1) as nat);
        }
    } else {
        lemma_pow2_step((k - 1) as nat);
        let q = pow2((k - 1) as nat);
        assert(y * (2 * q) == 2 * (y * q)) by (nonlinear_arith);
        if m == 0 {
            assert(false);
        }
        lemma_pow2_step((m - 1) as nat);
        lemma_odd_times_pow2(y, (k - 1) as nat, (m - 1) as nat);
    }
}

/// The quotient of a number below `c * d` by `d` is below `c`.
pub proof fn lemma_div_lt(t: nat, d: nat, c: nat)
    requires
        d > 0,
        t < c * d,
    ensures
        t / d < c,
{
    lemma_fundamental_div_mod(t as int, d as int);
    let q = t / d;
    if q >= c {
        assert(d * q >= c * d) by (nonlinear_arith)
            requires
                q >= c,
                d >= 0,
        ;
    }
}

/// The rounded up logarithm of a number that can be held is small.
pub proof fn lemma_clog2_usize(x: nat)
    requires
        x <= usize::MAX,
    ensures
        clog2(x) <= 64,
{
    lemma2_to64();
    lemma2_to64_rest();
    lemma_clog2(x);
    assert(x <= pow2(64));
}

/// The logarithm of a number that can be held is small.
pub proof fn lemma_flog2_usize(x: nat)
    requires
        1 <= x <= usize::MAX,
    ensures
        flog2(x) < 64,
{
    lemma2_to64();
    lemma2_to64_rest();
    lemma_flog2(x);
    if flog2(x) >= 64 {
        lemma_pow2_mono(64, flog2(x));
    }
}

/// Whether the next power of two can be held.
pub fn has_next_power_of_two(x: usize) -> (b: bool)
    ensures
        b == (npow2(x as nat) <= usize::MAX),
{
    let mut p: usize = 1;
    let ghost mut k: nat = 0;
    proof {
        lemma_pow2_zero();
        lemma_npow2(x as nat);
    }
    while p < x
        invariant
            p == pow2(k),
            p > 0,
            k == 0 || pow2((k - 1) as nat) < x,
            forall|j: nat| x <= #[trigger] pow2(j) ==> npow2(x as nat) <= pow2(j),
            is_pow2(npow2(x as nat)),
            x <= npow2(x as nat),
        decreases usize::MAX - p,
    {
        proof {
            lemma_pow2_step(k);
        }
        match p.checked_mul(2) {
            Some(q) => {
                p = q;
                proof {
                    k = k + 1;
                }
            },
            None => {
                proof {
                    // the next power of two is beyond p, so at least 2 p
                    let e = choose|e: nat| npow2(x as nat) == #[trigger] pow2(e);
                    if e <= k {
                        lemma_pow2_mono(e, k);
                    }
                    lemma_pow2_mono(k + 1, e);
                }
                return false;
            },
        }
    }
    assert(npow2(x as nat) <= pow2(k));
    true
}

} // verus!
