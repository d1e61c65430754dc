//! The fractions that lookups leave, and their sum.
use crate::field::{
    Fe, GoldilocksExt2, fadd, finv, finvertible, fmul, fone, fprod, fsum, fviews, fzero, is_fe,
    lemma_fe_closed, lemma_finv, lemma_fmul_assoc, lemma_fmul_cancel, lemma_fmul_comm,
    lemma_fmul_distr, lemma_fmul_one, lemma_fmul_swap, lemma_fmul_zero, lemma_fprod_fe,
    lemma_fsum_fe,
};
use crate::iop::error::VerifierError;
use crate::model::inputs::shorter;
use crate::prime::law_invertible;
use vstd::prelude::*;

verus! {

/// The product of the first `k` denominators.
pub open spec fn common_denominator(denoms: Seq<Fe>, k: nat) -> Fe {
    fprod(k, |i: int| denoms[i])
}

/// The numerator of the sum of the first `k` fractions over the product of their denominators.
pub open spec fn common_numerator(nums: Seq<Fe>, denoms: Seq<Fe>, k: nat) -> Fe
    decreases k,
{
    if k == 0 {
        fzero()
    } else {
        let p = (k - 1) as nat;
        fadd(
            fmul(common_numerator(nums, denoms, p), denoms[k - 1]),
            fmul(nums[k - 1], common_denominator(denoms, p)),
        )
    }
}

/// The sum of the first `k` fractions.
pub open spec fn fraction_sum(nums: Seq<Fe>, denoms: Seq<Fe>, k: nat) -> Fe {
    fsum(k, |i: int| fmul(nums[i], finv(denoms[i])))
}

/// Where no denominator is zero, the common denominator is not zero, and the common numerator over
/// it is the sum of the fractions. So the numerator is zero exactly where the fractions add up to
/// zero.
pub proof fn law_fractions(nums: Seq<Fe>, denoms: Seq<Fe>, k: nat)
    requires
        k <= nums.len(),
        k <= denoms.len(),
        forall|i: int| 0 <= i < k ==> is_fe(#[trigger] denoms[i]) && denoms[i] != fzero(),
    ensures
        finvertible(common_denominator(denoms, k)),
        common_denominator(denoms, k) != fzero(),
        common_numerator(nums, denoms, k) == fmul(
            common_denominator(denoms, k),
            fraction_sum(nums, denoms, k),
        ),
        common_numerator(nums, denoms, k) == fzero() <==> fraction_sum(nums, denoms, k) == fzero(),
    decreases k,
{
    let t = |i: int| fmul(nums[i], finv(denoms[i]));
    lemma_fsum_fe(k, t);
    if k == 0 {
        lemma_fmul_one(fone());
        lemma_finv(fone(), fone());
        lemma_fmul_zero(fone());
    } else {
        let p = (k - 1) as nat;
        law_fractions(nums, denoms, p);
        let d = common_denominator(denoms, p);
        let n = common_numerator(nums, denoms, p);
        let s = fraction_sum(nums, denoms, p);
        let x = denoms[k - 1];
        let y = nums[k - 1];
        let xi = finv(x);
        assert(is_fe(denoms[k - 1]));
        law_invertible(x);
        assert(is_fe(xi) && fmul(x, xi) == fone());
        let di = finv(d);
        lemma_fprod_fe(p, |i: int| denoms[i]);
        assert(is_fe(d));
        // (d x) (di xi) = 1
        lemma_fmul_swap(d, x, di, xi);
        lemma_fmul_one(fone());
        lemma_fe_closed(di, xi);
        lemma_finv(fmul(d, x), fmul(di, xi));
        assert(common_denominator(denoms, k) == fmul(d, x));
        assert(fraction_sum(nums, denoms, k) == fadd(s, fmul(y, xi)));
        // d x (s + y xi) = (d s) x + y d
        lemma_fmul_distr(s, fmul(y, xi), fmul(d, x));
        assert(fmul(fmul(d, x), s) == fmul(n, x)) by {
            lemma_fmul_assoc(d, x, s);
            lemma_fmul_comm(x, s);
            lemma_fmul_assoc(d, s, x);
        }
        assert(fmul(fmul(d, x), fmul(y, xi)) == fmul(y, d)) by {
            lemma_fmul_comm(y, xi);
            lemma_fmul_swap(d, x, xi, y);
            lemma_fmul_swap(d, x, y, xi);
            lemma_fe_closed(d, y);
            lemma_fmul_one(fmul(d, y));
            lemma_fmul_comm(d, y);
        }
    }
    let cd = common_denominator(denoms, k);
    lemma_fprod_fe(k, |i: int| denoms[i]);
    law_invertible(cd);
    let sum = fraction_sum(nums, denoms, k);
    lemma_fmul_zero(cd);
    if fmul(cd, sum) == fzero() {
        lemma_fmul_cancel(cd, sum, fzero());
    }
}

/// What the check of the fractions comes to.
pub open spec fn fractions_checked(
    nums: Seq<Fe>,
    denoms: Seq<Fe>,
    r: Result<(), VerifierError>,
) -> bool {
    let k = shorter(nums.len(), denoms.len());
    if common_numerator(nums, denoms, k) != fzero() {
        r matches Err(VerifierError::NumeratorNotZero(x)) && x@ == common_numerator(
            nums,
            denoms,
            k,
        )
    } else if common_denominator(denoms, k) == fzero() {
        r matches Err(VerifierError::DenominatorZero)
    } else {
        r is Ok
    }
}

/// Checks that the fractions add up to zero: their common numerator is zero, and their common
/// denominator is not.
pub fn check_fractions(numerators: &[GoldilocksExt2], denominators: &[GoldilocksExt2]) -> (r:
    Result<(), VerifierError>)
    ensures
        fractions_checked(fviews(numerators@), fviews(denominators@), r),
{
    let ghost k = shorter(numerators@.len(), denominators@.len());
    let ghost nums = fviews(numerators@);
    let ghost denoms = fviews(denominators@);
    let mut num = GoldilocksExt2::zero();
    let mut denom = GoldilocksExt2::one();
    let mut i: usize = 0;
    while i < numerators.len() && i < denominators.len()
        invariant
            k == shorter(numerators@.len(), denominators@.len()),
            nums == fviews(numerators@),
            denoms == fviews(denominators@),
            i <= k,
            num@ == common_numerator(nums, denoms, i as nat),
            denom@ == common_denominator(denoms, i as nat),
        decreases k - i,
    {
        let n = numerators[i];
        let d = denominators[i];
        num = num.times(d).plus(n.times(denom));
        denom = denom.times(d);
        i = i + 1;
    }
    if !num.same(&GoldilocksExt2::zero()) {
        return Err(VerifierError::NumeratorNotZero(num));
    }
    if denom.same(&GoldilocksExt2::zero()) {
        return Err(VerifierError::DenominatorZero);
    }
    Ok(())
}

} // verus!
