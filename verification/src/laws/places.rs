//! The entries of tensors by their coordinates.
use crate::laws::values::lemma_quotient;
use crate::layers::conv_laws::lemma_source_step;
use crate::ops::lemma_flat;
use crate::shape::{lemma_product2, lemma_product3, lemma_product4, product, source};
use crate::tensor::padded;
use vstd::arithmetic::div_mod::*;
use vstd::arithmetic::mul::*;
use vstd::prelude::*;

verus! {

/// One coordinate for each dimension, each within its dimension.
pub open spec fn has_coordinates(shape: Seq<usize>, at: Seq<int>) -> bool {
    &&& at.len() == shape.len()
    &&& forall|d: int| 0 <= d < shape.len() ==> 0 <= #[trigger] at[d] < shape[d]
}

/// The place of the entry with the coordinates `at`, where the entries of a tensor of the given
/// shape are listed row by row: the last coordinate runs fastest.
pub open spec fn row_major(shape: Seq<usize>, at: Seq<int>) -> int
    decreases shape.len(),
{
    if shape.len() == 0 {
        0
    } else {
        at[0] * product(shape.skip(1)) + row_major(shape.skip(1), at.skip(1))
    }
}

pub proof fn lemma_coordinates_tail(shape: Seq<usize>, at: Seq<int>)
    requires
        has_coordinates(shape, at),
        shape.len() > 0,
    ensures
        has_coordinates(shape.skip(1), at.skip(1)),
        0 <= at[0] < shape[0],
{
    assert forall|d: int| 0 <= d < shape.skip(1).len() implies 0 <= #[trigger] at.skip(1)[d]
        < shape.skip(1)[d] by {
        assert(at[d + 1] < shape[d + 1]);
    }
    assert(at[0] < shape[0]);
}

/// A place lies among the entries.
pub proof fn lemma_row_major_bound(shape: Seq<usize>, at: Seq<int>)
    requires
        has_coordinates(shape, at),
    ensures
        0 <= row_major(shape, at) < product(shape),
    decreases shape.len(),
{
    if shape.len() > 0 {
        lemma_coordinates_tail(shape, at);
        lemma_row_major_bound(shape.skip(1), at.skip(1));
        lemma_flat(
            at[0],
            row_major(shape.skip(1), at.skip(1)),
            shape[0] as int,
            product(shape.skip(1)) as int,
        );
    }
}

/// Each entry of a tensor has one place, and each place is that of some coordinates.
pub proof fn law_places(shape: Seq<usize>, t: int) -> (at: Seq<int>)
    requires
        0 <= t < product(shape),
    ensures
        has_coordinates(shape, at),
        row_major(shape, at) == t,
    decreases shape.len(),
{
    if shape.len() == 0 {
        Seq::empty()
    } else {
        let block = product(shape.skip(1)) as int;
        let d = shape[0] as int;
        assert(block > 0) by (nonlinear_arith)
            requires
                0 <= t < d * block,
                d >= 0,
        ;
        lemma_quotient(t, block);
        lemma_mod_bound(t, block);
        lemma_div_pos_is_pos(t, block);
        if t / block >= d {
            lemma_mul_inequality(d, t / block, block);
        }
        let rest = law_places(shape.skip(1), t % block);
        let at = seq![t / block] + rest;
        assert(at.skip(1) =~= rest);
        assert forall|i: int| 0 <= i < shape.len() implies 0 <= #[trigger] at[i] < shape[i] by {
            if i > 0 {
                assert(at[i] == rest[i - 1]);
                assert(shape.skip(1)[i - 1] == shape[i]);
            }
        }
        at
    }
}

/// Entries with different coordinates have different places.
pub proof fn law_places_differ(shape: Seq<usize>, a: Seq<int>, b: Seq<int>)
    requires
        has_coordinates(shape, a),
        has_coordinates(shape, b),
        row_major(shape, a) == row_major(shape, b),
    ensures
        a == b,
    decreases shape.len(),
{
    if shape.len() == 0 {
        assert(a =~= b);
    } else {
        let block = product(shape.skip(1)) as int;
        lemma_coordinates_tail(shape, a);
        lemma_coordinates_tail(shape, b);
        let (ra, rb) = (
            row_major(shape.skip(1), a.skip(1)),
            row_major(shape.skip(1), b.skip(1)),
        );
        lemma_row_major_bound(shape.skip(1), a.skip(1));
        lemma_row_major_bound(shape.skip(1), b.skip(1));
        lemma_fundamental_div_mod_converse(a[0] * block + ra, block, a[0], ra);
        lemma_fundamental_div_mod_converse(b[0] * block + rb, block, b[0], rb);
        law_places_differ(shape.skip(1), a.skip(1), b.skip(1));
        assert(a =~= b) by {
            assert forall|i: int| 0 <= i < a.len() implies a[i] == b[i] by {
                if i > 0 {
                    assert(a[i] == a.skip(1)[i - 1]);
                    assert(b[i] == b.skip(1)[i - 1]);
                }
            }
        }
    }
}

/// The source of the entry with given coordinates is the entry with the same coordinates, where
/// there is one.
pub proof fn lemma_source_at(small: Seq<usize>, big: Seq<usize>, at: Seq<int>)
    requires
        small.len() == big.len(),
        has_coordinates(big, at),
    ensures
        source(small, big, row_major(big, at) as nat) == if has_coordinates(small, at) {
            Some(row_major(small, at) as nat)
        } else {
            None
        },
    decreases small.len(),
{
    if small.len() > 0 {
        let rest = row_major(big.skip(1), at.skip(1));
        lemma_coordinates_tail(big, at);
        lemma_row_major_bound(big.skip(1), at.skip(1));
        lemma_source_at(small.skip(1), big.skip(1), at.skip(1));
        lemma_source_step(small, big, at[0], rest);
        if has_coordinates(small, at) {
            lemma_coordinates_tail(small, at);
            lemma_row_major_bound(small.skip(1), at.skip(1));
        } else if has_coordinates(small.skip(1), at.skip(1)) && at[0] < small[0] {
            assert forall|d: int| 0 <= d < small.len() implies 0 <= #[trigger] at[d] < small[d] by {
                if d > 0 {
                    assert(at.skip(1)[d - 1] < small.skip(1)[d - 1]);
                }
            }
        }
    }
}

/// A tensor that is padded to a greater shape keeps each entry at its coordinates, and has
/// `zero` at all others.
pub proof fn law_padding<T>(
    data: Seq<T>,
    small: Seq<usize>,
    big: Seq<usize>,
    zero: T,
    at: Seq<int>,
)
    requires
        small.len() == big.len(),
        has_coordinates(big, at),
    ensures
        padded(data, small, big, zero).len() == product(big),
        0 <= row_major(big, at) < product(big),
        padded(data, small, big, zero)[row_major(big, at)] == if has_coordinates(small, at) {
            data[row_major(small, at)]
        } else {
            zero
        },
{
    lemma_source_at(small, big, at);
    lemma_row_major_bound(big, at);
    if has_coordinates(small, at) {
        lemma_row_major_bound(small, at);
    }
}

/// The places of the entries of vectors, of matrices and of stacks of matrices.
pub proof fn law_small_places(s: Seq<usize>, a: int, b: int, c: int, d: int)
    ensures
        s.len() == 1 ==> row_major(s, seq![a]) == a,
        s.len() == 2 ==> row_major(s, seq![a, b]) == a * s[1] + b,
        s.len() == 3 ==> row_major(s, seq![a, b, c]) == a * (s[1] * s[2]) + (b * s[2] + c),
        s.len() == 4 ==> row_major(s, seq![a, b, c, d]) == a * (s[1] * (s[2] * s[3])) + (b * (s[2]
            * s[3]) + (c * s[3] + d)),
    decreases s.len(),
{
    reveal_with_fuel(row_major, 5);
    assert(seq![a].skip(1) =~= Seq::empty());
    assert(seq![a, b].skip(1) =~= seq![b]);
    assert(seq![a, b, c].skip(1) =~= seq![b, c]);
    assert(seq![a, b, c, d].skip(1) =~= seq![b, c, d]);
    if s.len() == 1 {
        assert(product(s.skip(1)) == 1);
    } else if s.len() == 2 {
        lemma_product2(s);
        law_small_places(s.skip(1), b, 0, 0, 0);
    } else if s.len() == 3 {
        lemma_product3(s);
        law_small_places(s.skip(1), b, c, 0, 0);
    } else if s.len() == 4 {
        lemma_product4(s);
        law_small_places(s.skip(1), b, c, d, 0);
    }
}

} // verus!
