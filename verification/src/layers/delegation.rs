//! Checking the evaluation of the Fourier matrix, which the prover delegates to a chain of
//! sum-checks.
use crate::arith::{lemma_pow2_mono, lemma_pow2_step, lemma_pow2_zero};
use crate::commit::{identity, identity_eval};
use crate::fft::{
    TWO_ADICITY, get_root_of_unity, lemma_omega_inverse, lemma_omega_order, lemma_pow2_invertible,
    omega,
};
use crate::field::{
    Fe, GoldilocksExt2, fadd, fint, finv, fmul, fone, fpow, fprod, fsub, fviews, fviews2, is_fe,
    lemma_fmul_one, lemma_fpow_add, lemma_fpow_fe,
};
use crate::quantization::power_of_two;
use vstd::arithmetic::power2::*;
use vstd::prelude::*;

verus! {

/// The root that the delegation for transforms of `2^n` entries uses.
pub open spec fn delegation_root(n: nat, inverse: bool) -> Fe {
    if inverse {
        finv(omega(n))
    } else {
        omega(n)
    }
}

/// The powers of the root with powers of two as exponents.
pub open spec fn root_powers(n: nat, inverse: bool) -> Seq<Fe> {
    Seq::new((n - 1) as nat, |i: int| fpow(delegation_root(n, inverse), pow2(i as nat)))
}

/// The product over the coordinates of `1 - r[i] + r[i] e[i]`, with the last exponents of `e`.
pub open spec fn phi_product(r: Seq<Fe>, e: Seq<Fe>) -> Fe {
    fprod(
        r.len(),
        |i: int| fadd(fsub(fone(), r[i]), fmul(r[i], e[e.len() - r.len() + i])),
    )
}

/// The polynomial of one step of the delegation.
pub open spec fn phi(r: Seq<Fe>, rand1: Fe, rand2: Fe, e: Seq<Fe>, first: bool) -> Fe {
    let p = phi_product(r, e);
    if first {
        fmul(fsub(fone(), rand2), fadd(fsub(fone(), rand1), fmul(rand1, p)))
    } else {
        fadd(
            fsub(fone(), rand1),
            fmul(fmul(fsub(fone(), fmul(fint(2), rand2)), rand1), p),
        )
    }
}

/// A chain of sum-checks: the points at which they end, and the claims that each leaves. The claim
/// of a step is the third that the step before left.
pub open spec fn chain_point(start: Seq<Fe>, points: Seq<Seq<Fe>>, i: int) -> Seq<Fe> {
    if i == 0 {
        start
    } else {
        points[i - 1]
    }
}

pub open spec fn chain_claim(start: Fe, claims: Seq<Seq<Fe>>, i: int) -> Fe {
    if i == 0 {
        start
    } else {
        claims[i - 1][2]
    }
}

/// The chain has the parts that its checks read.
pub open spec fn chain_complete(
    start: Seq<Fe>,
    points: Seq<Seq<Fe>>,
    claims: Seq<Seq<Fe>>,
    rands: Seq<Fe>,
) -> bool {
    &&& 1 <= points.len() <= 31
    &&& claims.len() >= points.len()
    &&& rands.len() >= points.len()
    &&& start.len() > 0
    &&& forall|i: int|
        0 <= i < points.len() ==> 0 < (#[trigger] points[i]).len() <= points.len()
    &&& forall|i: int| 0 <= i < points.len() ==> (#[trigger] claims[i]).len() >= 3
}

/// Step `i` of the chain left the right claims about the equality polynomial and about the
/// polynomial of the step.
pub open spec fn chain_step_ok(
    start: Seq<Fe>,
    points: Seq<Seq<Fe>>,
    claims: Seq<Seq<Fe>>,
    rands: Seq<Fe>,
    e: Seq<Fe>,
    inverse: bool,
    i: int,
) -> bool {
    let prev = chain_point(start, points, i);
    &&& identity(points[i], prev) == claims[i][0]
    &&& phi(points[i], rands[i], prev[prev.len() - 1], e, !inverse && i == 0) == claims[i][1]
}

/// The chain for a transform holds: each step is right, and the last claim is that about the
/// matrix of two entries.
pub open spec fn fft_chain_ok(
    claim: Fe,
    start: Seq<Fe>,
    points: Seq<Seq<Fe>>,
    claims: Seq<Seq<Fe>>,
    rands: Seq<Fe>,
) -> bool {
    let n = points.len() as int;
    let last = chain_point(start, points, n);
    &&& chain_complete(start, points, claims, rands)
    &&& rands.len() > n
    &&& forall|i: int|
        0 <= i < n ==> #[trigger] chain_step_ok(
            start,
            points,
            claims,
            rands,
            root_powers(points.len() + 1, false),
            false,
            i,
        )
    &&& chain_claim(claim, claims, n) == fsub(
        fadd(
            fmul(fsub(fone(), fmul(fint(2), rands[n])), last[0]),
            fone(),
        ),
        last[0],
    )
}

/// The chain for an inverse transform holds.
pub open spec fn ifft_chain_ok(
    claim: Fe,
    start: Seq<Fe>,
    points: Seq<Seq<Fe>>,
    claims: Seq<Seq<Fe>>,
    rands: Seq<Fe>,
) -> bool {
    let n = points.len() as int;
    let last = chain_point(start, points, n);
    let scale = finv(fint(pow2(points.len() + 1) as int));
    &&& chain_complete(start, points, claims, rands)
    &&& forall|i: int|
        0 <= i < n ==> #[trigger] chain_step_ok(
            start,
            points,
            claims,
            rands,
            root_powers(points.len() + 1, true),
            true,
            i,
        )
    &&& chain_claim(claim, claims, n) == fadd(
        fmul(fmul(scale, fone()), last[0]),
        fmul(scale, fsub(fone(), last[0])),
    )
}

/// The powers of the root of order `2^n`, or of its inverse, with powers of two as exponents.
pub fn pow_two_omegas(n: usize, is_fft: bool) -> (r: Vec<GoldilocksExt2>)
    requires
        2 <= n <= TWO_ADICITY,
    ensures
        fviews(r@) == root_powers(n as nat, is_fft),
{
    let mut rou = get_root_of_unity(n);
    proof {
        lemma_omega_inverse(n as nat);
        lemma_omega_order(n as nat);
    }
    if is_fft {
        rou = match rou.invert() {
            Some(x) => x,
            None => rou,
        };
    }
    let ghost root = rou@;
    let mut pows: Vec<GoldilocksExt2> = Vec::new();
    let mut cur = rou;
    let mut i: usize = 0;
    proof {
        lemma_pow2_zero();
        assert(is_fe(root)) by {
            if is_fft {
                lemma_fpow_fe(omega(n as nat), (pow2(n as nat) - 1) as nat);
            }
        }
        lemma_fmul_one(root);
        assert(fpow(root, 1) == fmul(fpow(root, 0), root));
    }
    while i < n - 1
        invariant
            2 <= n,
            i <= n - 1,
            root == delegation_root(n as nat, is_fft),
            cur@ == fpow(root, pow2(i as nat)),
            pows.len() == i,
            forall|j: int| 0 <= j < i ==> #[trigger] pows[j]@ == fpow(root, pow2(j as nat)),
        decreases n - 1 - i,
    {
        pows.push(cur);
        proof {
            lemma_pow2_step(i as nat);
            lemma_fpow_add(root, pow2(i as nat), pow2(i as nat));
        }
        cur = cur.times(cur);
        i = i + 1;
    }
    assert(fviews(pows@) =~= root_powers(n as nat, is_fft));
    pows
}

/// The polynomial of one step of the delegation, evaluated.
pub fn phi_eval(
    r: &[GoldilocksExt2],
    rand1: GoldilocksExt2,
    rand2: GoldilocksExt2,
    exponents: &[GoldilocksExt2],
    first_iter: bool,
) -> (v: GoldilocksExt2)
    requires
        r@.len() <= exponents@.len(),
    ensures
        v@ == phi(fviews(r@), rand1@, rand2@, fviews(exponents@), first_iter),
{
    let one = GoldilocksExt2::one();
    let mut eval = GoldilocksExt2::one();
    let mut i: usize = 0;
    let n = r.len();
    let m = exponents.len();
    let ghost rv = fviews(r@);
    let ghost ev = fviews(exponents@);
    let ghost f = |i: int| fadd(fsub(fone(), rv[i]), fmul(rv[i], ev[ev.len() - rv.len() + i]));
    while i < n
        invariant
            i <= n,
            n == r@.len(),
            m == exponents@.len(),
            n <= m,
            rv == fviews(r@),
            ev == fviews(exponents@),
            one@ == fone(),
            f == (|i: int|
                fadd(fsub(fone(), rv[i]), fmul(rv[i], ev[ev.len() - rv.len() + i]))),
            eval@ == fprod(i as nat, f),
        decreases n - i,
    {
        let factor = one.minus(r[i]).plus(r[i].times(exponents[m - n + i]));
        assert(factor@ == f(i as int));
        eval = eval.times(factor);
        i = i + 1;
    }
    if first_iter {
        one.minus(rand2).times(one.minus(rand1).plus(rand1.times(eval)))
    } else {
        let two = GoldilocksExt2::from_u64(2);
        one.minus(rand1).plus(one.minus(two.times(rand2)).times(rand1).times(eval))
    }
}

/// Checks the steps of a chain. Gives the last claim and the first coordinate of the last point,
/// or nothing where the chain lacks a part or a step is wrong.
fn check_chain(
    claim: GoldilocksExt2,
    start: &[GoldilocksExt2],
    points: &[Vec<GoldilocksExt2>],
    claims: &[Vec<GoldilocksExt2>],
    rands: &[GoldilocksExt2],
    inverse: bool,
) -> (r: Option<(GoldilocksExt2, GoldilocksExt2)>)
    ensures
        ({
            let p = fviews2(points@);
            let c = fviews2(claims@);
            let s = fviews(start@);
            let rv = fviews(rands@);
            let e = root_powers(points@.len() + 1, inverse);
            let n = points@.len() as int;
            &&& r is Some <==> chain_complete(s, p, c, rv) && forall|i: int|
                0 <= i < n ==> #[trigger] chain_step_ok(s, p, c, rv, e, inverse, i)
            &&& r is Some ==> (r->0).0@ == chain_claim(claim@, c, n) && (r->0).1@ == chain_point(
                s,
                p,
                n,
            )[0]
        }),
{
    let n = points.len();
    let ghost p = fviews2(points@);
    let ghost c = fviews2(claims@);
    let ghost s = fviews(start@);
    let ghost rv = fviews(rands@);
    let ghost e = root_powers(points@.len() + 1, inverse);
    if n < 1 || n > 31 || claims.len() < n || rands.len() < n || start.len() == 0 {
        return None;
    }
    let exponents = pow_two_omegas(n + 1, inverse);
    proof {
        assert(fviews(exponents@).len() == exponents@.len());
    }
    let mut last_claim = claim;
    let mut last_first = start[0];
    let mut last_last = start[start.len() - 1];
    let mut i: usize = 0;
    // the parts that the checks read
    while i < n
        invariant
            n == points@.len(),
            n <= claims@.len(),
            i <= n,
            p == fviews2(points@),
            c == fviews2(claims@),
            forall|j: int| 0 <= j < i ==> 0 < (#[trigger] p[j]).len() <= n,
            forall|j: int| 0 <= j < i ==> (#[trigger] c[j]).len() >= 3,
        decreases n - i,
    {
        assert(p[i as int].len() == points@[i as int]@.len());
        assert(c[i as int].len() == claims@[i as int]@.len());
        if points[i].len() == 0 || points[i].len() > n || claims[i].len() < 3 {
            return None;
        }
        i = i + 1;
    }
    i = 0;
    while i < n
        invariant
            n == points@.len(),
            1 <= n <= 31,
            n <= claims@.len(),
            n <= rands@.len(),
            start@.len() > 0,
            i <= n,
            p == fviews2(points@),
            c == fviews2(claims@),
            s == fviews(start@),
            rv == fviews(rands@),
            e == root_powers(points@.len() + 1, inverse),
            chain_complete(s, p, c, rv),
            fviews(exponents@) == e,
            exponents@.len() == n,
            last_claim@ == chain_claim(claim@, c, i as int),
            last_first@ == chain_point(s, p, i as int)[0],
            last_last@ == chain_point(s, p, i as int)[chain_point(s, p, i as int).len() - 1],
            forall|j: int|
                0 <= j < i ==> #[trigger] chain_step_ok(s, p, c, rv, e, inverse, j),
        decreases n - i,
    {
        let point = points[i].as_slice();
        let step = claims[i].as_slice();
        proof {
            assert(p[i as int] == fviews(point@));
            assert(c[i as int] == fviews(step@));
            assert(p[i as int].len() <= n && c[i as int].len() >= 3);
        }
        let id = if i == 0 {
            identity_eval(point, start)
        } else {
            assert(p[i - 1] == fviews(points@[i - 1]@));
            identity_eval(point, points[i - 1].as_slice())
        };
        assert(id@ == identity(p[i as int], chain_point(s, p, i as int)));
        let ph = phi_eval(point, rands[i], last_last, exponents.as_slice(), !inverse && i == 0);
        if !id.same(&step[0]) || !ph.same(&step[1]) {
            assert(!chain_step_ok(s, p, c, rv, e, inverse, i as int));
            return None;
        }
        last_claim = step[2];
        last_first = point[0];
        last_last = point[point.len() - 1];
        i = i + 1;
    }
    Some((last_claim, last_first))
}

/// Whether the chain of sum-checks for the matrix of a transform holds.
pub fn check_fft_chain(
    claim: GoldilocksExt2,
    start: &[GoldilocksExt2],
    points: &[Vec<GoldilocksExt2>],
    claims: &[Vec<GoldilocksExt2>],
    rands: &[GoldilocksExt2],
) -> (r: bool)
    ensures
        r == fft_chain_ok(
            claim@,
            fviews(start@),
            fviews2(points@),
            fviews2(claims@),
            fviews(rands@),
        ),
{
    let n = points.len();
    if rands.len() <= n {
        return false;
    }
    match check_chain(claim, start, points, claims, rands, false) {
        Some((last_claim, first)) => {
            let one = GoldilocksExt2::one();
            let two = GoldilocksExt2::from_u64(2);
            let want = one.minus(two.times(rands[n])).times(first).plus(one).minus(first);
            last_claim.same(&want)
        },
        None => false,
    }
}

/// Whether the chain of sum-checks for the matrix of an inverse transform holds.
pub fn check_ifft_chain(
    claim: GoldilocksExt2,
    start: &[GoldilocksExt2],
    points: &[Vec<GoldilocksExt2>],
    claims: &[Vec<GoldilocksExt2>],
    rands: &[GoldilocksExt2],
) -> (r: bool)
    ensures
        r == ifft_chain_ok(
            claim@,
            fviews(start@),
            fviews2(points@),
            fviews2(claims@),
            fviews(rands@),
        ),
{
    match check_chain(claim, start, points, claims, rands, true) {
        Some((last_claim, first)) => {
            let n = points.len();
            proof {
                lemma2_to64();
                lemma_pow2_mono((n + 1) as nat, 32);
                lemma_pow2_invertible((n + 1) as nat);
            }
            let size = GoldilocksExt2::from_u64(power_of_two(n + 1) as u64);
            let scale = match size.invert() {
                Some(x) => x,
                None => size,
            };
            let one = GoldilocksExt2::one();
            let want = scale.times(one).times(first).plus(scale.times(one.minus(first)));
            last_claim.same(&want)
        },
        None => false,
    }
}

} // verus!
