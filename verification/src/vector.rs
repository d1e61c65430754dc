//! Vectors: maxima, padding, bits, challenges.
use crate::arith::{bit, lemma_npow2, next_power_of_two, npow2};
use crate::claim::resized;
use crate::commit::lemma_bit_shift;
use crate::field::{GoldilocksExt2, fviews, fzero};
use crate::model::inputs::shorter;
use crate::quantization::Element;
use crate::shape::{next_power_of_two_shape, pow2_shape, pow2_shape_fits};
use vstd::prelude::*;
use vstd::std_specs::cmp::{PartialOrdIs, PartialOrdSpec};

verus! {

// ---------------------------------------------------------------------------------------
// Maxima
// ---------------------------------------------------------------------------------------

/// Comparing two values of the type gives what its specification says.
pub open spec fn comparable<T: PartialOrd>() -> bool {
    T::obeys_partial_cmp_spec()
}

/// The place of the value that is left when each of the first `k` values in turn replaces the one
/// before it where it is greater.
pub open spec fn greatest<T: PartialOrd>(v: Seq<T>, k: nat) -> nat
    decreases k,
{
    if k <= 1 {
        0
    } else {
        let m = greatest(v, (k - 1) as nat);
        if v[k - 1].is_gt(&v[m as int]) {
            (k - 1) as nat
        } else {
            m
        }
    }
}

proof fn lemma_greatest<T: PartialOrd>(v: Seq<T>, k: nat)
    requires
        k > 0,
    ensures
        greatest(v, k) < k,
    decreases k,
{
    if k > 1 {
        lemma_greatest(v, (k - 1) as nat);
    }
}

/// The place of the maximum, the first where there are several; none where there are no values.
pub fn argmax<T: PartialOrd>(v: &[T]) -> (r: Option<usize>)
    ensures
        v@.len() == 0 <==> r is None,
        r matches Some(i) ==> i < v@.len(),
        comparable::<T>() && v@.len() > 0 ==> r->0 == greatest(v@, v@.len()),
{
    if v.len() == 0 {
        return None;
    }
    let mut max_index: usize = 0;
    let mut i: usize = 1;
    while i < v.len()
        invariant
            1 <= i <= v@.len(),
            max_index < i,
            comparable::<T>() ==> max_index == greatest(v@, i as nat),
        decreases v@.len() - i,
    {
        // only where strictly greater, so that the first of several maxima stays
        if v[i].gt(&v[max_index]) {
            max_index = i;
        }
        i = i + 1;
    }
    Some(max_index)
}

/// Of integers, the result is the place of the first maximum.
pub proof fn law_argmax(v: Seq<Element>, k: nat)
    requires
        0 < k <= v.len(),
    ensures
        greatest(v, k) < k,
        forall|i: int| 0 <= i < k ==> #[trigger] v[i] <= v[greatest(v, k) as int],
        forall|i: int| 0 <= i < greatest(v, k) ==> #[trigger] v[i] < v[greatest(v, k) as int],
    decreases k,
{
    if k > 1 {
        law_argmax(v, (k - 1) as nat);
    }
}

/// Whether the maxima of two vectors, over as many values as both have, are in the same place: one
/// where they are, and zero where not.
pub fn argmax_compare<A: PartialOrd, B: PartialOrd>(given_output: &[A], computed_output: &[B]) -> (r:
    usize)
    ensures
        r == 0 || r == 1,
        shorter(given_output@.len(), computed_output@.len()) == 0 ==> r == 1,
        comparable::<A>() && comparable::<B>() ==> {
            let n = shorter(given_output@.len(), computed_output@.len());
            r == 1 <==> greatest(given_output@.take(n as int), n) == greatest(
                computed_output@.take(n as int),
                n,
            )
        },
{
    let n: usize = if given_output.len() <= computed_output.len() {
        given_output.len()
    } else {
        computed_output.len()
    };
    let a = vstd::slice::slice_subrange(given_output, 0, n);
    let b = vstd::slice::slice_subrange(computed_output, 0, n);
    proof {
        assert(a@ =~= given_output@.take(n as int));
        assert(b@ =~= computed_output@.take(n as int));
        if n > 0 {
            lemma_greatest(a@, n as nat);
            lemma_greatest(b@, n as nat);
        }
    }
    match (argmax(a), argmax(b)) {
        (Some(i), Some(j)) => if i == j {
            1
        } else {
            0
        },
        _ => 1,
    }
}

// ---------------------------------------------------------------------------------------
// Padding
// ---------------------------------------------------------------------------------------

/// Fills a vector up with zeros to a power of two.
pub fn pad_vector(v: Vec<GoldilocksExt2>) -> (r: Vec<GoldilocksExt2>)
    requires
        npow2(v@.len()) <= usize::MAX,
    ensures
        fviews(r@) == resized(fviews(v@), npow2(v@.len())),
{
    let n = next_power_of_two(v.len());
    let mut r = v;
    let ghost k = v@.len();
    proof {
        lemma_npow2(k);
    }
    while r.len() < n
        invariant
            k == v@.len(),
            n == npow2(k),
            k <= r.len() <= n,
            forall|i: int| 0 <= i < k ==> #[trigger] r@[i] == v@[i],
            forall|i: int| k <= i < r.len() ==> (#[trigger] r@[i])@ == fzero(),
        decreases n - r.len(),
    {
        r.push(GoldilocksExt2::zero());
    }
    assert(fviews(r@) =~= resized(fviews(v@), npow2(v@.len())));
    r
}

/// Raising to powers of two.
pub trait NextPowerOfTwo {
    /// The powers of two are numbers of the machine.
    spec fn has_next_power_of_two(&self) -> bool;

    /// `r` is the value raised to powers of two.
    spec fn is_next_power_of_two(&self, r: &Self) -> bool;

    /// The least powers of two that are not less than the entries.
    fn next_power_of_two(&self) -> (r: Self) where Self: Sized
        requires
            self.has_next_power_of_two(),
        ensures
            self.is_next_power_of_two(&r),
    ;
}

impl NextPowerOfTwo for Vec<usize> {
    open spec fn has_next_power_of_two(&self) -> bool {
        pow2_shape_fits(self@)
    }

    open spec fn is_next_power_of_two(&self, r: &Self) -> bool {
        r@ == pow2_shape(self@)
    }

    fn next_power_of_two(&self) -> (r: Self) {
        next_power_of_two_shape(self.as_slice())
    }
}

// ---------------------------------------------------------------------------------------
// Bits
// ---------------------------------------------------------------------------------------

/// Bit `i` of a number, as a number.
pub open spec fn bit_value(num: nat, i: nat) -> usize {
    if bit(num, i) {
        1
    } else {
        0
    }
}

/// The lowest bits of a number, the least first.
pub fn to_bit_sequence_le(num: usize, bit_length: usize) -> (r: Vec<usize>)
    requires
        bit_length <= usize::BITS,
    ensures
        r@ == Seq::new(bit_length as nat, |i: int| bit_value(num as nat, i as nat)),
{
    let mut r: Vec<usize> = Vec::new();
    let mut rest: usize = num;
    let mut i: usize = 0;
    while i < bit_length
        invariant
            i <= bit_length,
            r.len() == i,
            forall|j: int| 0 <= j < i ==> #[trigger] r@[j] == bit_value(num as nat, j as nat),
            forall|t: nat| #[trigger] bit(rest as nat, t) == bit(num as nat, t + i as nat),
        decreases bit_length - i,
    {
        proof {
            lemma_bit_shift(rest as nat, 0);
            assert(bit(rest as nat, 0) == bit(num as nat, 0 + i as nat));
            assert forall|t: nat| #[trigger] bit((rest / 2) as nat, t) == bit(
                num as nat,
                t + (i + 1) as nat,
            ) by {
                lemma_bit_shift(rest as nat, t);
                assert(bit(rest as nat, t + 1) == bit(num as nat, t + 1 + i as nat));
            }
        }
        r.push(rest % 2);
        rest = rest / 2;
        i = i + 1;
    }
    assert(r@ =~= Seq::new(bit_length as nat, |i: int| bit_value(num as nat, i as nat)));
    r
}

// ---------------------------------------------------------------------------------------
// Pairs
// ---------------------------------------------------------------------------------------

/// None of the first `n` items is an error.
pub open spec fn none_fails<A, B, E>(s: Seq<Result<(A, B), E>>, n: int) -> bool {
    forall|i: int| 0 <= i < n ==> #[trigger] s[i] is Ok
}

/// The first and the second parts of pairs, in their order. Fails with the first error among the
/// items.
pub fn try_unzip<A, B, E>(items: Vec<Result<(A, B), E>>) -> (r: Result<(Vec<A>, Vec<B>), E>)
    ensures
        match r {
            Ok(v) => {
                &&& none_fails(items@, items@.len() as int)
                &&& v.0@ == Seq::new(items@.len(), |i: int| (items@[i]->Ok_0).0)
                &&& v.1@ == Seq::new(items@.len(), |i: int| (items@[i]->Ok_0).1)
            },
            Err(e) => exists|k: int|
                0 <= k < items@.len() && none_fails(items@, k) && #[trigger] items@[k] == Err::<
                    (A, B),
                    E,
                >(e),
        },
{
    let ghost all = items@;
    let mut rest = items;
    let mut a: Vec<A> = Vec::new();
    let mut b: Vec<B> = Vec::new();
    while rest.len() > 0
        invariant
            all == items@,
            a@.len() == b@.len(),
            a@.len() + rest@.len() == all.len(),
            rest@ == all.skip(a@.len() as int),
            none_fails(all, a@.len() as int),
            forall|i: int| 0 <= i < a@.len() ==> (all[i]->Ok_0).0 == #[trigger] a@[i],
            forall|i: int| 0 <= i < b@.len() ==> (all[i]->Ok_0).1 == #[trigger] b@[i],
        decreases rest@.len(),
    {
        let ghost k = a@.len() as int;
        let item = rest.remove(0);
        proof {
            assert(item == all[k]);
            assert(rest@ =~= all.skip(k + 1));
        }
        match item {
            Ok((x, y)) => {
                a.push(x);
                b.push(y);
            },
            Err(e) => {
                assert(all[k] == Err::<(A, B), E>(e));
                return Err(e);
            },
        }
    }
    assert(a@ =~= Seq::new(all.len(), |i: int| (all[i]->Ok_0).0));
    assert(b@ =~= Seq::new(all.len(), |i: int| (all[i]->Ok_0).1));
    Ok((a, b))
}

// ---------------------------------------------------------------------------------------
// Challenges
// ---------------------------------------------------------------------------------------

/// A source of challenges.
pub trait Transcript: Sized {
    /// From `before`, the challenge `c` may be drawn, which leads to `after`. A source that says
    /// nothing of its challenges leaves this as it is.
    open spec fn draws(before: Self, c: GoldilocksExt2, after: Self) -> bool {
        true
    }

    /// The next challenge.
    fn read_challenge(&mut self) -> (c: GoldilocksExt2)
        ensures
            Self::draws(*old(self), c, *final(self)),
    ;
}

/// From `before`, the challenges of `s` may be drawn one after the other, which leads to `after`.
pub open spec fn draws_in_turn<T: Transcript>(
    before: T,
    s: Seq<GoldilocksExt2>,
    after: T,
) -> bool
    decreases s.len(),
{
    if s.len() == 0 {
        after == before
    } else {
        exists|mid: T|
            draws_in_turn(before, s.drop_last(), mid) && #[trigger] T::draws(
                mid,
                s.last(),
                after,
            )
    }
}

proof fn lemma_draws_next<T: Transcript>(
    before: T,
    s: Seq<GoldilocksExt2>,
    mid: T,
    c: GoldilocksExt2,
    after: T,
)
    requires
        draws_in_turn(before, s, mid),
        T::draws(mid, c, after),
    ensures
        draws_in_turn(before, s.push(c), after),
{
    let all = s.push(c);
    assert(all.drop_last() =~= s);
    assert(T::draws(mid, all.last(), after));
}

/// A source of several challenges at once.
pub trait VectorTranscript: Sized {
    /// From `before`, the challenges of `s` may be drawn in this order, which leads to `after`.
    spec fn draws_all(before: Self, s: Seq<GoldilocksExt2>, after: Self) -> bool;

    /// The next `n` challenges, in the order in which they are drawn.
    fn read_challenges(&mut self, n: usize) -> (r: Vec<GoldilocksExt2>)
        ensures
            r@.len() == n,
            Self::draws_all(*old(self), r@, *final(self)),
    ;
}

impl<T: Transcript> VectorTranscript for T {
    open spec fn draws_all(before: Self, s: Seq<GoldilocksExt2>, after: Self) -> bool {
        draws_in_turn(before, s, after)
    }

    fn read_challenges(&mut self, n: usize) -> (r: Vec<GoldilocksExt2>) {
        let mut r: Vec<GoldilocksExt2> = Vec::new();
        let mut i: usize = 0;
        while i < n
            invariant
                i <= n,
                r.len() == i,
                draws_in_turn(*old(self), r@, *self),
            decreases n - i,
        {
            let ghost mid = *self;
            let ghost drawn = r@;
            let c = self.read_challenge();
            r.push(c);
            proof {
                lemma_draws_next(*old(self), drawn, mid, c, *self);
            }
            i = i + 1;
        }
        r
    }
}

} // verus!
