//! What the layers do to the entries of tensors.
use crate::arith::{lemma_flog2_unique, lemma_npow2, lemma_pow2_step, npow2};
use crate::claim::resized;
use crate::field::{Fe, fzero};
use crate::laws::places::{
    has_coordinates, law_padding, law_small_places, lemma_row_major_bound, lemma_source_at,
    row_major,
};
use crate::laws::values::{law_requant_holds, law_requantised_value, lemma_quotient};
use crate::layers::{Layer, layer_fault, layer_result};
use crate::layers::activation::Activation;
use crate::layers::conv_laws::lemma_split;
use crate::layers::dense::{
    Dense, dense_bound, dense_entry_fits, dense_fits, dense_ready, is_padded, law_dense_range,
};
use crate::layers::flatten::Flatten;
use crate::layers::garbage::{can_spread, spread};
use crate::layers::pooling::{Maxpool2D, Pooling};
use crate::layers::provable::LayerOut;
use crate::layers::requant::Requant;
use crate::ops::{
    dot_terms, imax, lemma_flat, lemma_imax, lemma_window_places, pool_entry, pool_window,
    window_places,
};
use crate::quantization::{Element, fits};
use crate::shape::{lemma_product2, pow2_shape, pow2_shape_fits, product};
use crate::sums::{isum, lemma_isum_eq, sum_fits};
use crate::tensor::{TensorView, tviews};
use vstd::arithmetic::div_mod::*;
use vstd::arithmetic::mul::*;
use vstd::arithmetic::power2::*;
use vstd::prelude::*;

verus! {

/// An activation layer gives one tensor of the shape of its input. Each entry is that of the input
/// where that is not negative, and zero where it is.
pub proof fn law_activation_layer(a: Activation, x: TensorView<Element>, s: Seq<Seq<usize>>, i: int)
    requires
        0 <= i < x.data.len(),
    ensures
        ({
            let y = layer_result(Layer::Activation(a), seq![x], s);
            &&& layer_fault(Layer::Activation(a), seq![x], s) is None <==> x.plain()
            &&& y.len() == 1
            &&& y[0].shape == x.shape
            &&& y[0].og_shape == x.shape
            &&& y[0].data.len() == x.data.len()
            &&& x.data[i] >= 0 ==> y[0].data[i] == x.data[i]
            &&& x.data[i] < 0 ==> y[0].data[i] == 0
        }),
{
}

/// A requantisation layer gives one tensor of the shape of its input. With `sum = x m + 2^(s-1)`
/// for an entry `x`, each entry of it is `sum / 2^s`, rounded down and brought into range.
pub proof fn law_requant_layer(q: Requant, x: TensorView<Element>, s: Seq<Seq<usize>>, i: int)
    requires
        1 <= q.fp_scale + q.right_shift <= 127,
        0 <= i < x.data.len(),
    ensures
        ({
            let y = layer_result(Layer::Requant(q), seq![x], s);
            let shift = q.fp_scale + q.right_shift;
            let sum = x.data[i] * q.fixed_point_multiplier + pow2((shift - 1) as nat);
            let unit = pow2(shift as nat) as int;
            &&& y.len() == 1
            &&& y[0].shape == x.shape
            &&& y[0].og_shape == x.shape
            &&& y[0].data.len() == x.data.len()
            &&& -127 <= y[0].data[i] <= 127
            &&& y[0].data[i] < 127 ==> sum < (y[0].data[i] + 1) * unit
            &&& y[0].data[i] > -127 ==> y[0].data[i] * unit <= sum
        }),
{
    law_requantised_value(q, x.data[i] as int);
}

/// A requantisation layer runs exactly where its input has one entry for each place, the shift is
/// in range, and what is added up can be held.
pub proof fn law_requant_runs(q: Requant, x: TensorView<Element>, s: Seq<Seq<usize>>)
    ensures
        layer_fault(Layer::Requant(q), seq![x], s) is None <==> ({
            &&& x.plain()
            &&& 1 <= q.fp_scale + q.right_shift <= 127
            &&& forall|i: int|
                0 <= i < x.data.len() ==> i128::MIN <= #[trigger] x.data[i]
                    * q.fixed_point_multiplier && x.data[i] * q.fixed_point_multiplier + pow2(
                    (q.fp_scale + q.right_shift - 1) as nat,
                ) <= i128::MAX
        }),
{
    if 1 <= q.fp_scale + q.right_shift {
        assert forall|i: int| 0 <= i < x.data.len() implies (q.holds(
            #[trigger] x.data[i] as int,
        ) <==> i128::MIN <= x.data[i] * q.fixed_point_multiplier && x.data[i]
            * q.fixed_point_multiplier + pow2((q.fp_scale + q.right_shift - 1) as nat)
            <= i128::MAX) by {
            law_requant_holds(q, x.data[i] as int);
        }
        if layer_fault(Layer::Requant(q), seq![x], s) is None {
            assert(q.holds_all(x));
            assert forall|i: int| 0 <= i < x.data.len() implies i128::MIN <= #[trigger] x.data[i]
                * q.fixed_point_multiplier && x.data[i] * q.fixed_point_multiplier + pow2(
                (q.fp_scale + q.right_shift - 1) as nat,
            ) <= i128::MAX by {
                assert(q.holds(x.data[i] as int));
            }
        }
    }
}

/// A flattening layer gives a tensor for each input, with one dimension and the same entries in
/// the same order, and runs on all inputs.
pub proof fn law_flatten_layer(f: Flatten, xs: Seq<TensorView<Element>>, s: Seq<Seq<usize>>, i: int)
    requires
        0 <= i < xs.len(),
    ensures
        layer_fault(Layer::Flatten(f), xs, s) is None,
        layer_result(Layer::Flatten(f), xs, s).len() == xs.len(),
        layer_result(Layer::Flatten(f), xs, s)[i].data == xs[i].data,
        layer_result(Layer::Flatten(f), xs, s)[i].shape == seq![xs[i].data.len() as usize],
        layer_result(Layer::Flatten(f), xs, s)[i].og_shape == seq![xs[i].data.len() as usize],
{
}

/// The entry of a pooling layer's output for matrix `b`, row `i` and column `j` is the greatest
/// entry of the input's matrix `b` in the window of `k` rows from row `i * stride` and `k` columns
/// from column `j * stride`: no entry there is greater, and one of them is as great.
pub proof fn law_pooling_layer(
    p: Maxpool2D,
    x: TensorView<Element>,
    s: Seq<Seq<usize>>,
    b: int,
    i: int,
    j: int,
)
    requires
        layer_fault(Layer::Pooling(Pooling::Maxpool2D(p)), seq![x], s) is None,
        0 <= b < product(x.shape.take(x.shape.len() - 2)),
        0 <= i,
        i * p.stride + p.kernel_size <= x.shape[x.shape.len() - 2],
        0 <= j,
        j * p.stride + p.kernel_size <= x.shape[x.shape.len() - 1],
    ensures
        ({
            let d = x.shape.len() as int;
            let h = x.shape[d - 2] as int;
            let w = x.shape[d - 1] as int;
            let y = layer_result(Layer::Pooling(Pooling::Maxpool2D(p)), seq![x], s);
            let oh = y[0].shape[d - 2] as int;
            let ow = y[0].shape[d - 1] as int;
            let place = (b * oh + i) * ow + j;
            &&& y.len() == 1
            &&& y[0].shape.len() == d
            &&& y[0].shape.take(d - 2) == x.shape.take(d - 2)
            &&& y[0].og_shape == y[0].shape
            &&& i < oh && (oh - 1) * p.stride + p.kernel_size <= h < oh * p.stride + p.kernel_size
            &&& j < ow && (ow - 1) * p.stride + p.kernel_size <= w < ow * p.stride + p.kernel_size
            &&& y[0].data.len() == product(x.shape.take(d - 2)) * (oh * ow)
            &&& 0 <= place < y[0].data.len()
            &&& forall|u: int, v: int|
                0 <= u < p.kernel_size && 0 <= v < p.kernel_size
                    ==> #[trigger] x.data[(b * h + (i * p.stride + u)) * w + (j * p.stride + v)]
                    <= y[0].data[place]
            &&& exists|u: int, v: int|
                0 <= u < p.kernel_size && 0 <= v < p.kernel_size
                    && #[trigger] x.data[(b * h + (i * p.stride + u)) * w + (j * p.stride + v)]
                    == y[0].data[place]
        }),
{
    let k = p.kernel_size as int;
    let st = p.stride as int;
    let d = x.shape.len() as int;
    let h = x.shape[d - 2] as int;
    let w = x.shape[d - 1] as int;
    let out = p.result(x);
    let shape = p.shape_of(x.shape);
    let oh = window_places(h, k, st);
    let ow = window_places(w, k, st);
    assert(layer_result(Layer::Pooling(Pooling::Maxpool2D(p)), seq![x], s)[0] == out);
    lemma_window_places(h, k, st);
    lemma_window_places(w, k, st);
    assert(shape.take(d - 2) =~= x.shape.take(d - 2));
    lemma_places_bound(h, k, st, i);
    lemma_places_bound(w, k, st, j);
    let n = product(x.shape.take(d - 2)) as int;
    lemma_product_last(shape);
    let place = (b * oh + i) * ow + j;
    lemma_flat(i, j, oh, ow);
    lemma_flat(b, i * ow + j, n, oh * ow);
    lemma_mul_is_associative(b, oh, ow);
    lemma_mul_is_distributive_add_other_way(ow, b * oh, i);
    assert(place == b * (oh * ow) + (i * ow + j));
    lemma_fundamental_div_mod_converse(place, oh * ow, b, i * ow + j);
    lemma_fundamental_div_mod_converse(place, ow, b * oh + i, j);
    lemma_fundamental_div_mod_converse(b * oh + i, oh, b, i);
    let f = pool_window(x.data, h, w, k, st, b, i, j);
    lemma_mul_strictly_positive(k, k);
    lemma_imax((k * k) as nat, f);
    let m = imax((k * k) as nat, f);
    assert(pool_entry(x.data, h, w, k, st, place) == m);
    let q = choose|q: int| 0 <= q < k * k && #[trigger] f(q) == m;
    lemma_split(q, k);
    let (u, v) = (q / k, q % k);
    assert(x.data[(b * h + (i * st + u)) * w + (j * st + v)] == m);
    assert(out.data[place] == m);
    assert forall|u: int, v: int| 0 <= u < k && 0 <= v < k implies #[trigger] x.data[(b * h + (i
        * st + u)) * w + (j * st + v)] <= m by {
        lemma_flat(u, v, k, k);
        lemma_fundamental_div_mod_converse(u * k + v, k, u, v);
        assert(f(u * k + v) <= m);
    }
}

/// The places that a window takes are those from which it stays inside.
pub proof fn lemma_places_bound(d: int, k: int, stride: int, i: int)
    requires
        0 < k <= d,
        0 < stride,
        0 <= i,
        i * stride + k <= d,
    ensures
        i < window_places(d, k, stride),
        (window_places(d, k, stride) - 1) * stride + k <= d,
        d < window_places(d, k, stride) * stride + k,
{
    lemma_quotient(d - k, stride);
    let q = (d - k) / stride;
    if i > q {
        lemma_mul_inequality(q + 1, i, stride);
    }
}

/// The number of entries of a shape, the last two dimensions taken apart.
pub proof fn lemma_product_last(s: Seq<usize>)
    requires
        s.len() >= 2,
    ensures
        product(s) == product(s.take(s.len() - 2)) * (s[s.len() - 2] * s[s.len() - 1]),
    decreases s.len(),
{
    let d = s.len() as int;
    if d == 2 {
        lemma_product2(s);
        assert(product(s.take(0)) == 1);
        lemma_mul_basics(s[0] * s[1]);
    } else {
        lemma_product_last(s.skip(1));
        assert(s.skip(1).take(d - 3) =~= s.take(d - 2).skip(1));
        lemma_mul_is_associative(
            s[0] as int,
            product(s.skip(1).take(d - 3)) as int,
            s[d - 2] * s[d - 1],
        );
    }
}

/// On the shapes into which its windows fit, a pooling layer runs.
pub proof fn law_pooling_runs(p: Maxpool2D, x: TensorView<Element>, s: Seq<Seq<usize>>)
    ensures
        layer_fault(Layer::Pooling(Pooling::Maxpool2D(p)), seq![x], s) is None <==> ({
            let d = x.shape.len() as int;
            &&& x.og_shape == x.shape
            &&& x.data.len() == product(x.shape)
            &&& d >= 2
            &&& p.stride >= 1
            &&& 1 <= p.kernel_size <= x.shape[d - 2]
            &&& p.kernel_size <= x.shape[d - 1]
            &&& p.kernel_size * p.kernel_size <= usize::MAX
        }),
{
}

/// A dense layer gives one tensor of one dimension. Its entry `i` is the sum over `j` of the
/// products of entry `(i, j)` of the matrix with entry `j` of the input, plus entry `i` of the
/// bias.
pub proof fn law_dense_layer(d: Dense<Element>, x: TensorView<Element>, s: Seq<Seq<usize>>, i: int)
    requires
        layer_fault(Layer::Dense(d), seq![x], s) is None,
        0 <= i < d.matrix@.shape[0],
    ensures
        ({
            let y = layer_result(Layer::Dense(d), seq![x], s);
            let m = d.matrix@.data;
            let n = d.matrix@.shape[1];
            &&& n == x.data.len()
            &&& y.len() == 1
            &&& y[0].shape == seq![d.matrix@.shape[0]]
            &&& y[0].og_shape == y[0].shape
            &&& y[0].data.len() == d.matrix@.shape[0]
            &&& y[0].data[i] == isum(n as nat, |j: int| m[i * n + j] * x.data[j]) + d.bias@.data[i]
        }),
{
    let m = d.matrix@.data;
    let n = d.matrix@.shape[1];
    assert(dense_entry_fits(d.matrix@, d.bias@, x.data, i));
    lemma_isum_eq(
        n as nat,
        |j: int| m[i * n + j] * x.data[j],
        dot_terms(m, i * x.data.len(), x.data),
    );
}

/// A dense layer runs on quantised values, where matrix, bias and input go together.
pub proof fn law_dense_runs(d: Dense<Element>, x: TensorView<Element>, s: Seq<Seq<usize>>)
    requires
        d.matrix@.shape.len() == 2,
        d.matrix@.og_shape == d.matrix@.shape,
        d.matrix@.data.len() == product(d.matrix@.shape),
        d.matrix@.shape[1] == x.data.len(),
        d.bias@.data.len() == d.matrix@.shape[0],
        x.data.len() > 0,
        forall|k: int| 0 <= k < x.data.len() ==> -128 <= #[trigger] x.data[k] <= 128,
        forall|k: int| 0 <= k < d.matrix@.data.len() ==> -128 <= #[trigger] d.matrix@.data[k] <= 128,
        forall|k: int|
            0 <= k < d.bias@.data.len() ==> -16384 <= #[trigger] d.bias@.data[k] <= 16384,
    ensures
        layer_fault(Layer::Dense(d), seq![x], s) is None,
{
    law_dense_range(d.matrix@, d.bias@, x);
}

/// A padded dense layer keeps each entry of the matrix at its row and column, and each entry of
/// the bias in its place. All other entries are zero.
pub proof fn law_padded_entries(d: Dense<Element>, r: Dense<Element>, i: int, j: int)
    requires
        is_padded(d, r),
        d.matrix@.shape.len() == 2,
        d.bias@.data.len() == d.matrix@.shape[0],
        pow2_shape_fits(d.matrix@.shape),
        0 <= i < npow2(d.matrix@.shape[0] as nat),
        0 <= j < npow2(d.matrix@.shape[1] as nat),
    ensures
        ({
            let rows = d.matrix@.shape[0] as int;
            let cols = d.matrix@.shape[1] as int;
            let big = npow2(cols as nat) as int;
            &&& r.matrix@.shape == seq![npow2(rows as nat) as usize, big as usize]
            &&& r.matrix@.og_shape == r.matrix@.shape
            &&& r.matrix@.data[i * big + j] == if i < rows && j < cols {
                d.matrix@.data[i * cols + j]
            } else {
                0
            }
            &&& r.bias@.shape == seq![npow2(rows as nat) as usize]
            &&& r.bias@.data.len() == npow2(rows as nat)
            &&& r.bias@.data[i] == if i < rows {
                d.bias@.data[i]
            } else {
                0
            }
            &&& r.unpadded_matrix_shape@ == d.unpadded_matrix_shape@
        }),
{
    let small = d.matrix@.shape;
    let big = pow2_shape(small);
    assert(npow2(small[0] as nat) <= usize::MAX);
    assert(npow2(small[1] as nat) <= usize::MAX);
    lemma_npow2(small[0] as nat);
    lemma_npow2(small[1] as nat);
    assert(big =~= seq![npow2(small[0] as nat) as usize, npow2(small[1] as nat) as usize]);
    let at = seq![i, j];
    law_small_places(small, i, j, 0, 0);
    law_small_places(big, i, j, 0, 0);
    law_padding(d.matrix@.data, small, big, 0i128, at);
    if i < small[0] && j < small[1] {
        assert(has_coordinates(small, at));
    } else {
        assert(at[0] == i && at[1] == j);
    }
}

/// The bound that a dense layer states for `n` inputs: `2^15` times the greatest power of two that
/// is not above `n`.
pub proof fn law_dense_bound(n: nat, e: nat)
    requires
        pow2(e) <= n < 2 * pow2(e),
    ensures
        dense_bound(n) == 32768 * pow2(e),
{
    lemma_pow2_step(e);
    lemma_flog2_unique(n, e);
    lemma_pow2_adds(15, e);
    lemma2_to64();
}

/// A sum can be held where each term, and each sum of the first terms, is in the range of the
/// machine's integers.
pub proof fn law_sum_fits(n: nat, f: spec_fn(int) -> int)
    ensures
        sum_fits(n, f) <==> forall|k: int|
            0 <= k < n ==> i128::MIN <= #[trigger] f(k) <= i128::MAX && i128::MIN <= isum(
                (k + 1) as nat,
                f,
            ) <= i128::MAX,
    decreases n,
{
    if n > 0 {
        law_sum_fits((n - 1) as nat, f);
        if sum_fits(n, f) {
            assert forall|k: int| 0 <= k < n implies i128::MIN <= #[trigger] f(k) <= i128::MAX
                && i128::MIN <= isum((k + 1) as nat, f) <= i128::MAX by {
                if k == n - 1 {
                    assert(fits(f(n - 1)) && fits(isum(n, f)));
                }
            }
        } else if sum_fits((n - 1) as nat, f) {
            assert(!(fits(f(n - 1)) && fits(isum(n, f))));
            assert((n - 1 + 1) as nat == n);
        }
    }
}

/// The sum of the products of row `i` of a matrix with the entries of `x`, and the sums on the
/// way, can be held, and so can the sum with `b` added.
pub open spec fn row_fits(m: Seq<Element>, x: Seq<Element>, b: Element, i: int) -> bool {
    let f = |j: int| m[i * x.len() + j] * x[j];
    &&& sum_fits(x.len(), f)
    &&& i128::MIN <= isum(x.len(), f) + b <= i128::MAX
}

/// A dense layer runs exactly where matrix, bias and input go together, and the sums that it adds
/// up and its results can be held.
pub proof fn law_dense_runs_where(d: Dense<Element>, x: TensorView<Element>, s: Seq<Seq<usize>>)
    ensures
        layer_fault(Layer::Dense(d), seq![x], s) is None <==> {
            let m = d.matrix@;
            &&& m.og_shape == m.shape
            &&& m.shape.len() == 2
            &&& m.data.len() == m.shape[0] * m.shape[1]
            &&& m.shape[1] == x.data.len()
            &&& d.bias@.data.len() == m.shape[0]
            &&& forall|i: int|
                0 <= i < m.shape[0] ==> row_fits(m.data, x.data, #[trigger] d.bias@.data[i], i)
        },
{
    let m = d.matrix@;
    let b = d.bias@;
    if m.shape.len() == 2 {
        lemma_product2(m.shape);
    }
    assert forall|i: int| 0 <= i < m.shape[0] implies dense_entry_fits(m, b, x.data, i) == row_fits(
        m.data,
        x.data,
        #[trigger] b.data[i],
        i,
    ) by {
        let f = |j: int| m.data[i * x.data.len() + j] * x.data[j];
        lemma_isum_eq(x.data.len(), f, dot_terms(m.data, i * x.data.len(), x.data));
    }
    if dense_ready(m, b, x) {
        if dense_fits(m, b, x) {
            assert forall|i: int| 0 <= i < m.shape[0] implies row_fits(
                m.data,
                x.data,
                #[trigger] b.data[i],
                i,
            ) by {
                assert(dense_entry_fits(m, b, x.data, i));
            }
        } else {
            let i = choose|i: int|
                0 <= i < m.shape[0] && !#[trigger] dense_entry_fits(m, b, x.data, i);
            assert(!row_fits(m.data, x.data, b.data[i], i));
        }
    }
}

/// A matrix laid out for padded tensors has, in the column of the entry with the coordinates `at`,
/// the column of the matrix for these coordinates. The columns of entries that padding added are
/// zero, and so are further columns and rows.
pub proof fn law_spread_entries(
    m: TensorView<Element>,
    og: Seq<usize>,
    pad: Seq<usize>,
    mat: Seq<usize>,
    i: int,
    at: Seq<int>,
    j: int,
)
    requires
        can_spread(m, og, pad, mat),
        0 <= i < mat[0],
        has_coordinates(pad, at),
        product(pad) <= j < mat[1],
    ensures
        ({
            let y = spread(m, og, pad, mat);
            let cols = m.shape[1] as int;
            let width = mat[1] as int;
            &&& y.shape == mat
            &&& y.data.len() == mat[0] * mat[1]
            &&& y.data[i * width + row_major(pad, at)] == if i < m.shape[0] && has_coordinates(
                og,
                at,
            ) {
                m.data[i * cols + row_major(og, at)]
            } else {
                0
            }
            &&& y.data[i * width + j] == 0
        }),
{
    let width = mat[1] as int;
    let col = row_major(pad, at);
    lemma_product2(mat);
    law_padding(m.data, og, pad, 0i128, at);
    lemma_source_at(og, pad, at);
    if has_coordinates(og, at) {
        lemma_row_major_bound(og, at);
    }
    lemma_flat(i, col, mat[0] as int, width);
    lemma_flat(i, j, mat[0] as int, width);
    lemma_fundamental_div_mod_converse(i * width + col, width, i, col);
    lemma_fundamental_div_mod_converse(i * width + j, width, i, j);
}

/// A point that is resized keeps its first coordinates, and is filled up with zeros.
pub proof fn law_resized(point: Seq<Fe>, n: nat, i: int)
    requires
        0 <= i < n,
    ensures
        resized(point, n).len() == n,
        i < point.len() ==> resized(point, n)[i] == point[i],
        i >= point.len() ==> resized(point, n)[i] == fzero(),
{
}

/// A layer with one output gives this output and no other.
pub proof fn law_single(o: LayerOut<Element>, t: TensorView<Element>)
    requires
        o.single(t),
    ensures
        o.outputs@.len() == 1,
        o.outputs@[0]@ == t,
{
    let v = tviews(o.outputs@);
    assert(v.len() == 1);
    assert(v[0] == o.outputs@[0]@);
}

} // verus!
