//! Claims about polynomials.
use crate::field::{Fe, GoldilocksExt2, fviews, fzero};
use vstd::prelude::*;
use vstd::slice::slice_to_vec;

verus! {

/// A claim that a certain polynomial, known from the context, takes the value `eval` at `point`.
#[derive(Clone, Debug, Default, PartialEq, Eq)]
pub struct Claim<E> {
    pub point: Vec<E>,
    pub eval: E,
}

/// What a claim says.
#[verifier::ext_equal]
pub struct ClaimView {
    pub point: Seq<Fe>,
    pub eval: Fe,
}

impl View for Claim<GoldilocksExt2> {
    type V = ClaimView;

    open spec fn view(&self) -> ClaimView {
        ClaimView { point: fviews(self.point@), eval: self.eval@ }
    }
}

/// What a sequence of claims says.
pub open spec fn cviews(s: Seq<Claim<GoldilocksExt2>>) -> Seq<ClaimView> {
    Seq::new(s.len(), |i: int| s[i]@)
}

/// `point` cut off, or filled up with zeros, to `n` coordinates.
pub open spec fn resized(point: Seq<Fe>, n: nat) -> Seq<Fe> {
    Seq::new(
        n,
        |i: int|
            if i < point.len() {
                point[i]
            } else {
                fzero()
            },
    )
}

impl<E> Claim<E> {
    pub fn new(point: Vec<E>, eval: E) -> (r: Self)
        ensures
            r.point == point,
            r.eval == eval,
    {
        Claim { point, eval }
    }
}

impl Claim<GoldilocksExt2> {
    /// A claim that says the same.
    pub fn copy(&self) -> (r: Self)
        ensures
            r@ == self@,
    {
        Claim { point: slice_to_vec(self.point.as_slice()), eval: self.eval }
    }

    /// The claim at the point with `new_num_vars` coordinates: zeros are added where the point has
    /// fewer, and the last coordinates are dropped where it has more.
    pub fn pad(&self, new_num_vars: usize) -> (r: Self)
        ensures
            r@.eval == self@.eval,
            r@.point == resized(self@.point, new_num_vars as nat),
    {
        let mut point: Vec<GoldilocksExt2> = Vec::new();
        let mut i: usize = 0;
        while i < new_num_vars
            invariant
                i <= new_num_vars,
                point.len() == i,
                forall|j: int|
                    0 <= j < i ==> #[trigger] point[j]@ == resized(
                        self@.point,
                        new_num_vars as nat,
                    )[j],
            decreases new_num_vars - i,
        {
            let x = if i < self.point.len() {
                self.point[i]
            } else {
                GoldilocksExt2::zero()
            };
            point.push(x);
            i = i + 1;
        }
        assert(fviews(point@) =~= resized(self@.point, new_num_vars as nat));
        Claim { point, eval: self.eval }
    }
}

/// Padding to the number of coordinates that a claim has leaves the claim as it is, and the last
/// of several paddings decides the number of coordinates.
pub proof fn law_pad(point: Seq<Fe>, n: nat, m: nat)
    ensures
        resized(point, point.len()) == point,
        n >= m ==> resized(resized(point, n), m) == resized(point, m),
        point.len() <= n ==> resized(resized(point, n), m) == resized(point, m),
{
    assert(resized(point, point.len()) =~= point);
    if n >= m || point.len() <= n {
        assert(resized(resized(point, n), m) =~= resized(point, m));
    }
}

} // verus!
