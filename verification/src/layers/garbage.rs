//! Matrices that take the padded output of a convolution and ignore what the padding added.
use crate::ops::{dot_terms, lemma_flat};
use crate::quantization::Element;
use crate::shape::{
    checked_product, lemma_product2, lemma_product_positive, lemma_product_tail,
    lemma_source_bound, positive, product, source, source_index, within,
};
use crate::sums::{isum, lemma_isum_blocks, lemma_isum_eq, lemma_isum_truncate};
use crate::tensor::{Tensor, TensorView, tensor};
use vstd::arithmetic::div_mod::*;
use vstd::arithmetic::mul::*;
use vstd::prelude::*;

verus! {

/// The entry in row `i` and column `j` of a matrix of `cols` columns for tensors of shape `og`, laid
/// out for tensors padded to the shape `pad`.
pub open spec fn spread_entry(
    data: Seq<Element>,
    rows: int,
    cols: int,
    og: Seq<usize>,
    pad: Seq<usize>,
    i: int,
    j: int,
) -> Element {
    if i < rows && j < product(pad) {
        match source(og, pad, j as nat) {
            Some(q) => data[i * cols + q],
            None => 0,
        }
    } else {
        0
    }
}

/// The matrix laid out for tensors padded to the shape `pad`, in the shape `mat`.
pub open spec fn spread(
    m: TensorView<Element>,
    og: Seq<usize>,
    pad: Seq<usize>,
    mat: Seq<usize>,
) -> TensorView<Element> {
    tensor(
        mat,
        Seq::new(
            product(mat),
            |t: int|
                spread_entry(
                    m.data,
                    m.shape[0] as int,
                    m.shape[1] as int,
                    og,
                    pad,
                    t / (mat[1] as int),
                    t % (mat[1] as int),
                ),
        ),
    )
}

/// The matrix can be laid out.
pub open spec fn can_spread(
    m: TensorView<Element>,
    og: Seq<usize>,
    pad: Seq<usize>,
    mat: Seq<usize>,
) -> bool {
    &&& m.plain()
    &&& m.shape.len() == 2
    &&& og.len() == 3
    &&& within(og, pad)
    &&& positive(pad)
    &&& product(og) == m.shape[1]
    &&& mat.len() == 2
    &&& m.shape[0] <= mat[0]
    &&& product(pad) <= mat[1]
    &&& product(mat) <= usize::MAX
}

impl Tensor<Element> {
    /// Lays out a matrix whose columns go with the entries of a tensor of shape `conv_shape_og`, so
    /// that they go with the entries of the tensor padded to the shape `conv_shape_pad`. The columns
    /// of entries that the padding added are zero, and so are columns and rows that are added to
    /// reach the shape `mat_shp_pad`.
    pub fn pad_matrix_to_ignore_garbage(
        &self,
        conv_shape_og: &[usize],
        conv_shape_pad: &[usize],
        mat_shp_pad: &[usize],
    ) -> (r: Self)
        requires
            can_spread(self@, conv_shape_og@, conv_shape_pad@, mat_shp_pad@),
        ensures
            r@ == spread(self@, conv_shape_og@, conv_shape_pad@, mat_shp_pad@),
            r@.plain(),
    {
        let rows = self.shape[0];
        let cols = self.shape[1];
        let width = mat_shp_pad[1];
        let entries = self.data.len();
        proof {
            lemma_product_positive(conv_shape_pad@);
            lemma_product2(mat_shp_pad@);
            lemma_product2(self@.shape);
        }
        let total = match checked_product(mat_shp_pad) {
            Some(n) => n,
            None => 0,
        };
        let filled = match checked_product(conv_shape_pad) {
            Some(n) => n,
            None => 0,
        };
        let mut data: Vec<Element> = Vec::new();
        let mut t: usize = 0;
        while t < total
            invariant
                can_spread(self@, conv_shape_og@, conv_shape_pad@, mat_shp_pad@),
                rows == self@.shape[0],
                cols == self@.shape[1],
                entries == self@.data.len(),
                entries == rows * cols,
                width == mat_shp_pad@[1],
                width > 0,
                total == product(mat_shp_pad@),
                filled == product(conv_shape_pad@),
                t <= total,
                data.len() == t,
                forall|k: int|
                    0 <= k < t ==> #[trigger] data@[k] == spread(
                        self@,
                        conv_shape_og@,
                        conv_shape_pad@,
                        mat_shp_pad@,
                    ).data[k],
            decreases total - t,
        {
            let i = t / width;
            let j = t % width;
            let x: Element = if i < rows && j < filled {
                match source_index(conv_shape_og, conv_shape_pad, j) {
                    Some(q) => {
                        proof {
                            lemma_flat(i as int, q as int, rows as int, cols as int);
                        }
                        self.data[i * cols + q]
                    },
                    None => 0,
                }
            } else {
                0
            };
            data.push(x);
            t = t + 1;
        }
        assert(data@ =~= spread(
            self@,
            conv_shape_og@,
            conv_shape_pad@,
            mat_shp_pad@,
        ).data);
        Tensor::new(vstd::slice::slice_to_vec(mat_shp_pad), data)
    }
}

/// A sum over the entries of a padded tensor that come from the tensor is a sum over the entries of
/// the tensor.
pub proof fn lemma_source_sum(
    small: Seq<usize>,
    big: Seq<usize>,
    f: spec_fn(int) -> int,
    g: spec_fn(int) -> int,
)
    requires
        within(small, big),
        positive(big),
        forall|t: int|
            0 <= t < product(big) ==> #[trigger] g(t) == match source(small, big, t as nat) {
                Some(q) => f(q as int),
                None => 0,
            },
    ensures
        isum(product(big), g) == isum(product(small), f),
    decreases small.len(),
{
    if small.len() == 0 {
        assert(source(small, big, 0) == Some(0nat));
        assert(g(0) == f(0));
        assert(isum(1, g) == isum(0, g) + g(0));
        assert(isum(1, f) == isum(0, f) + f(0));
    } else {
        let sb = small.skip(1);
        let bb = big.skip(1);
        let block = product(bb);
        let inner = product(sb);
        lemma_product_tail(big);
        assert(positive(bb)) by {
            assert forall|i: int| 0 <= i < bb.len() implies #[trigger] bb[i] > 0 by {
                assert(big[i + 1] > 0);
            }
        }
        assert(within(sb, bb)) by {
            assert forall|i: int| 0 <= i < sb.len() implies #[trigger] sb[i] <= bb[i] by {
                assert(small[i + 1] <= big[i + 1]);
            }
        }
        lemma_product_positive(bb);
        assert(small[0] <= big[0]);
        // one sum for each value of the first coordinate
        let gs = |i: int| isum(block, |k: int| g(i * block + k));
        let fs = |i: int| isum(inner, |k: int| f(i * inner + k));
        assert forall|i: int| 0 <= i < big[0] implies #[trigger] gs(i) == if i < small[0] {
            fs(i)
        } else {
            0
        } by {
            let gi = |k: int| g(i * block + k);
            let fi = |k: int| f(i * inner + k);
            if i < small[0] {
                assert forall|k: int| 0 <= k < block implies #[trigger] gi(k) == match source(
                    sb,
                    bb,
                    k as nat,
                ) {
                    Some(q) => fi(q as int),
                    None => 0,
                } by {
                    let t = i * block + k;
                    lemma_fundamental_div_mod_converse(t, block as int, i, k);
                    lemma_flat(i, k, big[0] as int, block as int);
                    assert(g(t) == match source(small, big, t as nat) {
                        Some(q) => f(q as int),
                        None => 0,
                    });
                }
                lemma_source_sum(sb, bb, fi, gi);
            } else {
                assert forall|k: int| 0 <= k < block implies #[trigger] gi(k) == 0 by {
                    let t = i * block + k;
                    lemma_fundamental_div_mod_converse(t, block as int, i, k);
                    lemma_flat(i, k, big[0] as int, block as int);
                    assert(source(small, big, t as nat) is None);
                    assert(g(t) == 0);
                }
                lemma_isum_truncate(block, 0, gi);
            }
        }
        lemma_isum_blocks(big[0] as nat, block, g, gs);
        lemma_isum_truncate(big[0] as nat, small[0] as nat, gs);
        lemma_isum_eq(small[0] as nat, gs, fs);
        lemma_isum_blocks(small[0] as nat, inner, f, fs);
    }
}

proof fn lemma_spread_at(
    m: TensorView<Element>,
    og: Seq<usize>,
    pad: Seq<usize>,
    mat: Seq<usize>,
    i: int,
    j: int,
)
    requires
        can_spread(m, og, pad, mat),
        0 <= i < mat[0],
        0 <= j < mat[1],
    ensures
        spread(m, og, pad, mat).data[i * mat[1] + j] == spread_entry(
            m.data,
            m.shape[0] as int,
            m.shape[1] as int,
            og,
            pad,
            i,
            j,
        ),
{
    lemma_product2(mat);
    lemma_flat(i, j, mat[0] as int, mat[1] as int);
    lemma_fundamental_div_mod_converse(i * mat[1] + j, mat[1] as int, i, j);
}

/// A matrix laid out for padded tensors gives the same on a padded tensor as the matrix gives on the
/// tensor, whatever the padding holds, and zero in the rows that were added.
pub proof fn law_garbage_ignored(
    m: TensorView<Element>,
    og: Seq<usize>,
    pad: Seq<usize>,
    mat: Seq<usize>,
    x: Seq<Element>,
    xp: Seq<Element>,
    i: int,
)
    requires
        can_spread(m, og, pad, mat),
        x.len() == m.shape[1],
        xp.len() == mat[1],
        forall|j: int|
            0 <= j < product(pad) ==> (source(og, pad, j as nat) matches Some(q) ==> #[trigger] xp[j]
                == x[q as int]),
        0 <= i < mat[0],
    ensures
        isum(mat[1] as nat, dot_terms(spread(m, og, pad, mat).data, i * mat[1], xp)) == if i
            < m.shape[0] {
            isum(m.shape[1] as nat, dot_terms(m.data, i * m.shape[1], x))
        } else {
            0
        },
{
    let w = mat[1] as nat;
    let filled = product(pad);
    let d = spread(m, og, pad, mat).data;
    let g = dot_terms(d, i * w, xp);
    lemma_product_positive(pad);
    lemma_product2(mat);
    lemma_product2(m.shape);
    if i < m.shape[0] {
        let f = dot_terms(m.data, i * m.shape[1], x);
        assert forall|j: int| filled <= j < w implies #[trigger] g(j) == 0 by {
            lemma_spread_at(m, og, pad, mat, i, j);
            lemma_mul_basics(xp[j] as int);
        }
        lemma_isum_truncate(w, filled, g);
        assert forall|j: int| 0 <= j < filled implies #[trigger] g(j) == match source(
            og,
            pad,
            j as nat,
        ) {
            Some(q) => f(q as int),
            None => 0,
        } by {
            lemma_source_bound(og, pad, j as nat);
            lemma_mul_basics(xp[j] as int);
            lemma_spread_at(m, og, pad, mat, i, j);
        }
        lemma_source_sum(og, pad, f, g);
    } else {
        assert forall|j: int| 0 <= j < w implies #[trigger] g(j) == 0 by {
            lemma_spread_at(m, og, pad, mat, i, j);
            lemma_mul_basics(xp[j] as int);
        }
        lemma_isum_truncate(w, 0, g);
    }
}

} // verus!
