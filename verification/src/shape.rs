//! Shapes of tensors.
use crate::arith::{
    clog2, lemma_div_lt, lemma_npow2, lemma_npow2_of_pow2, next_power_of_two, npow2,
};
use vstd::arithmetic::div_mod::*;
use vstd::arithmetic::mul::*;
use vstd::prelude::*;

verus! {

/// The number of entries of a tensor of shape `s`.
pub open spec fn product(s: Seq<usize>) -> nat
    decreases s.len(),
{
    if s.len() == 0 {
        1
    } else {
        s[0] as nat * product(s.skip(1))
    }
}

/// No dimension is zero.
pub open spec fn positive(s: Seq<usize>) -> bool {
    forall|i: int| 0 <= i < s.len() ==> #[trigger] s[i] > 0
}

/// `small` has as many dimensions as `big`, and none is greater.
pub open spec fn within(small: Seq<usize>, big: Seq<usize>) -> bool {
    &&& small.len() == big.len()
    &&& forall|i: int| 0 <= i < big.len() ==> #[trigger] small[i] <= big[i]
}

/// Each dimension raised to the next power of two.
pub open spec fn pow2_shape(s: Seq<usize>) -> Seq<usize> {
    Seq::new(s.len(), |i: int| npow2(s[i] as nat) as usize)
}

/// The next powers of two of the dimensions can be held.
pub open spec fn pow2_shape_fits(s: Seq<usize>) -> bool {
    forall|i: int| 0 <= i < s.len() ==> npow2(#[trigger] s[i] as nat) <= usize::MAX
}

/// The shapes that a sequence of vectors holds.
pub open spec fn shapes(s: Seq<Vec<usize>>) -> Seq<Seq<usize>> {
    Seq::new(s.len(), |i: int| s[i]@)
}

/// Where the entry at place `t` of a tensor of shape `big` comes from in a tensor of shape
/// `small` that was padded to `big`: the place of the entry with the same coordinates, or nothing
/// where a coordinate is outside `small`. Places count the entries row by row.
pub open spec fn source(small: Seq<usize>, big: Seq<usize>, t: nat) -> Option<nat>
    decreases small.len(),
{
    if small.len() == 0 {
        Some(0nat)
    } else {
        let block = product(big.skip(1));
        let i = t / block;
        match source(small.skip(1), big.skip(1), t % block) {
            Some(q) if i < small[0] => Some(i * product(small.skip(1)) + q),
            _ => None,
        }
    }
}

pub proof fn lemma_product1(s: Seq<usize>)
    requires
        s.len() == 1,
    ensures
        product(s) == s[0],
{
    reveal_with_fuel(product, 2);
}

pub proof fn lemma_product2(s: Seq<usize>)
    requires
        s.len() == 2,
    ensures
        product(s) == s[0] * s[1],
        product(s.skip(1)) == s[1],
{
    reveal_with_fuel(product, 3);
    assert(s.skip(1).skip(1).len() == 0);
    assert(s.skip(1)[0] == s[1]);
    assert(s[1] as nat * 1 == s[1]);
}

pub proof fn lemma_product3(s: Seq<usize>)
    requires
        s.len() == 3,
    ensures
        product(s) == s[0] * (s[1] * s[2]),
        product(s) == s[0] * s[1] * s[2],
        product(s.skip(1)) == s[1] * s[2],
{
    lemma_product2(s.skip(1));
    lemma_mul_is_associative(s[0] as int, s[1] as int, s[2] as int);
}

pub proof fn lemma_product4(s: Seq<usize>)
    requires
        s.len() == 4,
    ensures
        product(s) == s[0] * (s[1] * (s[2] * s[3])),
        product(s.skip(1)) == s[1] * (s[2] * s[3]),
{
    lemma_product3(s.skip(1));
}

pub proof fn lemma_product_positive(s: Seq<usize>)
    requires
        positive(s),
    ensures
        product(s) > 0,
    decreases s.len(),
{
    if s.len() > 0 {
        lemma_product_tail(s);
        lemma_product_positive(s.skip(1));
        lemma_mul_strictly_positive(s[0] as int, product(s.skip(1)) as int);
    }
}

/// With no dimension zero, the entries of one block are no more than those of the tensor.
pub proof fn lemma_product_tail(s: Seq<usize>)
    requires
        s.len() > 0,
        positive(s),
    ensures
        product(s.skip(1)) <= product(s),
        positive(s.skip(1)),
{
    assert forall|i: int| 0 <= i < s.skip(1).len() implies #[trigger] s.skip(1)[i] > 0 by {
        assert(s.skip(1)[i] == s[i + 1]);
    }
    assert(s[0] > 0);
    let q = product(s.skip(1));
    assert(q <= s[0] as nat * q) by (nonlinear_arith)
        requires
            s[0] >= 1,
    ;
}

/// The source of an entry lies in the small tensor.
pub proof fn lemma_source_bound(small: Seq<usize>, big: Seq<usize>, t: nat)
    requires
        within(small, big),
        positive(big),
        t < product(big),
    ensures
        source(small, big, t) is Some ==> source(small, big, t)->0 < product(small),
    decreases small.len(),
{
    if small.len() > 0 {
        let block = product(big.skip(1));
        lemma_product_tail(big);
        lemma_product_positive(big.skip(1));
        lemma_mod_bound(t as int, block as int);
        assert forall|i: int| 0 <= i < big.skip(1).len() implies #[trigger] small.skip(1)[i]
            <= big.skip(1)[i] by {
            assert(small[i + 1] <= big[i + 1]);
        }
        lemma_source_bound(small.skip(1), big.skip(1), t % block);
        let i = t / block;
        match source(small.skip(1), big.skip(1), t % block) {
            Some(q) if i < small[0] => {
                let c = product(small.skip(1));
                assert(i * c + q < small[0] * c) by (nonlinear_arith)
                    requires
                        i + 1 <= small[0],
                        q < c,
                ;
            },
            _ => {},
        }
    }
}

/// A tensor that is padded to its own shape keeps its entries in place.
pub proof fn lemma_source_same(s: Seq<usize>, t: nat)
    requires
        positive(s),
        t < product(s),
    ensures
        source(s, s, t) == Some(t),
    decreases s.len(),
{
    if s.len() > 0 {
        let block = product(s.skip(1));
        lemma_product_tail(s);
        lemma_product_positive(s.skip(1));
        lemma_mod_bound(t as int, block as int);
        lemma_source_same(s.skip(1), t % block);
        lemma_fundamental_div_mod(t as int, block as int);
        lemma_mul_is_commutative(block as int, (t / block) as int);
        assert(t / block < s[0]) by {
            lemma_div_lt(t, block, s[0] as nat);
        }
    }
}

/// The number of entries of a tensor of shape `s`, unless it is too large to be held.
pub fn checked_product(s: &[usize]) -> (r: Option<usize>)
    ensures
        match r {
            Some(p) => p == product(s@),
            None => product(s@) > usize::MAX,
        },
    decreases s@.len(),
{
    let n = s.len();
    if n == 0 {
        return Some(1);
    }
    if s[0] == 0 {
        assert(product(s@) == 0) by {
            lemma_mul_basics(product(s@.skip(1)) as int);
        }
        return Some(0);
    }
    let tail = vstd::slice::slice_subrange(s, 1, n);
    assert(tail@ =~= s@.skip(1));
    match checked_product(tail) {
        Some(q) => {
            let r = s[0].checked_mul(q);
            r
        },
        None => {
            assert(product(s@) >= product(s@.skip(1))) by (nonlinear_arith)
                requires
                    product(s@) == s[0] as nat * product(s@.skip(1)),
                    s[0] >= 1,
            ;
            None
        },
    }
}

/// Whether two shapes are the same.
pub fn same_shape(a: &[usize], b: &[usize]) -> (r: bool)
    ensures
        r == (a@ == b@),
{
    if a.len() != b.len() {
        return false;
    }
    let mut i: usize = 0;
    while i < a.len()
        invariant
            a@.len() == b@.len(),
            i <= a@.len(),
            forall|j: int| 0 <= j < i ==> a[j] == b[j],
        decreases a@.len() - i,
    {
        if a[i] != b[i] {
            return false;
        }
        i = i + 1;
    }
    assert(a@ =~= b@);
    true
}

/// Raising a shape to powers of two makes no dimension smaller, and raising it twice is raising it
/// once.
pub proof fn law_pow2_shape(s: Seq<usize>)
    requires
        pow2_shape_fits(s),
    ensures
        within(s, pow2_shape(s)),
        pow2_shape_fits(pow2_shape(s)),
        pow2_shape(pow2_shape(s)) == pow2_shape(s),
{
    let r = pow2_shape(s);
    assert forall|i: int| 0 <= i < s.len() implies s[i] <= #[trigger] r[i] && npow2(r[i] as nat)
        == r[i] by {
        assert(npow2(s[i] as nat) <= usize::MAX);
        lemma_npow2(s[i] as nat);
        lemma_npow2_of_pow2(clog2(s[i] as nat));
    }
    assert(pow2_shape(r) =~= r);
}

/// Each dimension raised to the next power of two.
pub fn next_power_of_two_shape(s: &[usize]) -> (r: Vec<usize>)
    requires
        pow2_shape_fits(s@),
    ensures
        r@ == pow2_shape(s@),
{
    let mut r: Vec<usize> = Vec::new();
    let mut i: usize = 0;
    while i < s.len()
        invariant
            pow2_shape_fits(s@),
            i <= s@.len(),
            r.len() == i,
            forall|j: int| 0 <= j < i ==> #[trigger] r[j] == npow2(s[j] as nat),
        decreases s@.len() - i,
    {
        assert(npow2(s@[i as int] as nat) <= usize::MAX);
        r.push(next_power_of_two(s[i]));
        i = i + 1;
    }
    assert(r@ =~= pow2_shape(s@));
    r
}

/// The place in a tensor of shape `small` from which the entry at place `t` comes once the tensor
/// is padded to the shape `big`.
pub fn source_index(small: &[usize], big: &[usize], t: usize) -> (r: Option<usize>)
    requires
        within(small@, big@),
        positive(big@),
        product(big@) <= usize::MAX,
        t < product(big@),
    ensures
        match r {
            Some(q) => source(small@, big@, t as nat) == Some(q as nat) && q < product(small@),
            None => source(small@, big@, t as nat) is None,
        },
    decreases small@.len(),
{
    let n = small.len();
    if n == 0 {
        return Some(0);
    }
    proof {
        lemma_source_bound(small@, big@, t as nat);
        lemma_product_tail(big@);
        lemma_product_positive(big@.skip(1));
        assert forall|i: int| 0 <= i < big@.skip(1).len() implies #[trigger] small@.skip(1)[i]
            <= big@.skip(1)[i] by {
            assert(small@[i + 1] <= big@[i + 1]);
        }
    }
    let small_tail = vstd::slice::slice_subrange(small, 1, n);
    let big_tail = vstd::slice::slice_subrange(big, 1, n);
    assert(small_tail@ =~= small@.skip(1));
    assert(big_tail@ =~= big@.skip(1));
    let block = match checked_product(big_tail) {
        Some(b) => b,
        None => 1,
    };
    let i = t / block;
    if i >= small[0] {
        return None;
    }
    proof {
        lemma_mod_bound(t as int, block as int);
        lemma_product_within(small@.skip(1), big@.skip(1));
        assert(i * product(small@.skip(1)) <= usize::MAX) by {
            lemma_fundamental_div_mod(t as int, block as int);
            assert(i * product(small@.skip(1)) <= block * i) by (nonlinear_arith)
                requires
                    product(small@.skip(1)) <= block,
                    i >= 0,
            ;
        }
    }
    match source_index(small_tail, big_tail, t % block) {
        Some(q) => {
            let inner = match checked_product(small_tail) {
                Some(c) => c,
                None => 0,
            };
            proof {
                lemma_fundamental_div_mod(t as int, block as int);
                lemma_product_within(small@, big@);
                assert(source(small@, big@, t as nat) == Some(
                    (i as nat) * product(small@.skip(1)) + q as nat,
                ));
            }
            Some(i * inner + q)
        },
        None => None,
    }
}

pub proof fn lemma_product_within(small: Seq<usize>, big: Seq<usize>)
    requires
        within(small, big),
    ensures
        product(small) <= product(big),
    decreases small.len(),
{
    if small.len() > 0 {
        assert forall|i: int| 0 <= i < big.skip(1).len() implies #[trigger] small.skip(1)[i]
            <= big.skip(1)[i] by {
            assert(small[i + 1] <= big[i + 1]);
        }
        lemma_product_within(small.skip(1), big.skip(1));
        assert(small[0] <= big[0]);
        lemma_mul_upper_bound(
            small[0] as int,
            big[0] as int,
            product(small.skip(1)) as int,
            product(big.skip(1)) as int,
        );
    }
}

} // verus!
