//! The shapes of the results of layers, and what is done to results by their coordinates.
use crate::arith::{lemma_npow2, lemma_pow2_zero, npow2};
use crate::laws::places::{
    has_coordinates, law_padding, law_small_places, lemma_row_major_bound, row_major,
};
use crate::laws::values::lemma_quotient;
use crate::layers::{Layer, LayerCtx};
use crate::layers::conv_laws::lemma_width;
use crate::layers::convolution::{
    Convolution, biased, can_adapt, cleared, clearing, conv_mode_ok, conv_shape, conv_shape_in,
    is_adapted, place4, without_batch,
};
use crate::layers::pooling::Pooling;
use crate::layers::provable::PaddingMode;
use crate::ops::{lemma_flat, lemma_window_places, products, window_places};
use crate::quantization::Element;
use crate::shape::{lemma_product1, pow2_shape, pow2_shape_fits, product};
use crate::tensor::{cols_2d, dim_or_one, rows_2d};
use crate::vector::NextPowerOfTwo;
use vstd::arithmetic::div_mod::*;
use vstd::arithmetic::mul::*;
use vstd::arithmetic::power2::*;
use vstd::prelude::*;

verus! {

/// The number of entries of a shape: one for no dimensions, and each dimension multiplies it.
pub proof fn law_product(s: Seq<usize>, d: usize)
    ensures
        product(Seq::<usize>::empty()) == 1,
        product(s.push(d)) == product(s) * d,
    decreases s.len(),
{
    let t = s.push(d);
    if s.len() == 0 {
        assert(t =~= seq![d]);
        lemma_product1(t);
        lemma_mul_basics(d as int);
    } else {
        law_product(s.skip(1), d);
        assert(t.skip(1) =~= s.skip(1).push(d));
        lemma_mul_is_associative(s[0] as int, product(s.skip(1)) as int, d as int);
    }
}

/// The shape to which a tensor is padded: each dimension is raised to the least power of two that
/// is not below it.
pub proof fn law_padded_shape(s: Seq<usize>, i: int, e: nat)
    requires
        pow2_shape_fits(s),
        0 <= i < s.len(),
    ensures
        pow2_shape(s).len() == s.len(),
        exists|k: nat| pow2_shape(s)[i] == #[trigger] pow2(k),
        pow2_shape(s)[i] >= s[i],
        pow2_shape(s)[i] >= 1,
        pow2(e) >= s[i] ==> pow2_shape(s)[i] <= pow2(e),
{
    assert(npow2(s[i] as nat) <= usize::MAX);
    lemma_npow2(s[i] as nat);
}

/// The shape of the result of a convolution of square images: the number of filters, and for rows
/// and for columns the number of places that a filter takes along a side. Padding raises these to
/// powers of two.
pub proof fn law_conv_shape(input: Seq<usize>, filter: Seq<usize>)
    requires
        filter.len() >= 3,
        input.len() == 3 || input.len() == 4,
        1 <= filter[2] <= input[input.len() - 2],
    ensures
        ({
            let places = input[input.len() - 2] - filter[2] + 1;
            let y = conv_shape_in(input, filter, PaddingMode::NoPadding);
            &&& conv_mode_ok(input, filter, PaddingMode::NoPadding)
            &&& y == seq![filter[0], places as usize, places as usize]
            &&& conv_shape_in(input, filter, PaddingMode::Padding) == pow2_shape(y)
            &&& conv_mode_ok(input, filter, PaddingMode::Padding) <==> pow2_shape_fits(y)
        }),
{
}

/// The shape of what a layer gives for an input of shape `s`: that of the input for activation and
/// requantisation, the number of entries for flattening, the number of rows of the matrix for a
/// dense layer, and for a convolution that of a convolution with the filters as they were before
/// padding, or as padded.
pub proof fn law_layer_shape(op: Layer<Element>, s: Seq<usize>, mode: PaddingMode)
    requires
        op.shape_ok(s, mode),
    ensures
        match op {
            Layer::Activation(_) => op.shape_of(s, mode) == s,
            Layer::Requant(_) => op.shape_of(s, mode) == s,
            Layer::Flatten(_) => op.shape_of(s, mode) == seq![product(s) as usize],
            Layer::Dense(d) => {
                let rows = d.unpadded_matrix_shape@[0];
                let cols = d.unpadded_matrix_shape@[1];
                match mode {
                    PaddingMode::NoPadding => op.shape_of(s, mode) == seq![rows] && product(s)
                        == cols,
                    PaddingMode::Padding => op.shape_of(s, mode) == seq![
                        npow2(rows as nat) as usize,
                    ] && product(s) == npow2(cols as nat),
                }
            },
            Layer::Convolution(c) => op.shape_of(s, mode) == (match mode {
                PaddingMode::NoPadding => conv_shape(s, c.unpadded_shape@),
                PaddingMode::Padding => pow2_shape(conv_shape(s, c.filter@.og_shape)),
            }),
            Layer::SchoolBookConvolution(c) => op.shape_of(s, mode) == (match mode {
                PaddingMode::NoPadding => conv_shape(s, c.0.unpadded_shape@),
                PaddingMode::Padding => pow2_shape(conv_shape(s, c.0.filter@.og_shape)),
            }),
            Layer::Pooling(Pooling::Maxpool2D(p)) => {
                let y = op.shape_of(s, mode);
                let d = s.len() as int;
                let (h, w) = (y[d - 2] as int, y[d - 1] as int);
                &&& d >= 2
                &&& y.len() == d
                &&& y.take(d - 2) == s.take(d - 2)
                &&& 1 <= h && (h - 1) * p.stride + p.kernel_size <= s[d - 2] < h * p.stride
                    + p.kernel_size
                &&& 1 <= w && (w - 1) * p.stride + p.kernel_size <= s[d - 1] < w * p.stride
                    + p.kernel_size
            },
        },
{
    match op {
        Layer::Dense(d) => {
            if mode == PaddingMode::Padding {
                assert(npow2(d.unpadded_matrix_shape@[1] as nat) <= usize::MAX);
            }
        },
        Layer::Pooling(Pooling::Maxpool2D(p)) => {
            let d = s.len() as int;
            let y = op.shape_of(s, mode);
            lemma_window_places(s[d - 2] as int, p.kernel_size as int, p.stride as int);
            lemma_window_places(s[d - 1] as int, p.kernel_size as int, p.stride as int);
            lemma_places_exact(s[d - 2] as int, p.kernel_size as int, p.stride as int);
            lemma_places_exact(s[d - 1] as int, p.kernel_size as int, p.stride as int);
            assert(y.take(d - 2) =~= s.take(d - 2));
        },
        _ => {},
    }
}

/// The greatest number of places of a window, in steps of `stride`, that stay inside.
pub proof fn lemma_places_exact(d: int, k: int, stride: int)
    requires
        0 < k <= d,
        0 < stride,
    ensures
        (window_places(d, k, stride) - 1) * stride + k <= d,
        d < window_places(d, k, stride) * stride + k,
{
    lemma_quotient(d - k, stride);
}

/// What the set-up keeps of a layer tells the same shapes as the layer does.
pub proof fn law_ctx_shape(ctx: LayerCtx, s: Seq<usize>, mode: PaddingMode)
    requires
        ctx.shape_ok(s, mode),
    ensures
        match ctx {
            LayerCtx::Dense(c) => ctx.shape_of(s, mode) == seq![match mode {
                PaddingMode::NoPadding => c.unpadded_matrix_shape@[0],
                PaddingMode::Padding => c.padded_matrix_shape@[0],
            }],
            LayerCtx::Convolution(c) => ctx.shape_of(s, mode) == (match mode {
                PaddingMode::NoPadding => conv_shape(s, c.unpadded_filter_shape@),
                PaddingMode::Padding => pow2_shape(conv_shape(s, c.padded_filter_shape@)),
            }),
            LayerCtx::Pooling(c) => forall|p: Layer<Element>|
                p == Layer::<Element>::Pooling(Pooling::Maxpool2D(c.poolinfo)) ==> ctx.shape_of(
                    s,
                    mode,
                ) == #[trigger] p.shape_of(s, mode),
            LayerCtx::Flatten => ctx.shape_of(s, mode) == seq![product(s) as usize],
            LayerCtx::Activation(_) => ctx.shape_of(s, mode) == s,
            LayerCtx::Requant(_) => ctx.shape_of(s, mode) == s,
            LayerCtx::SchoolBookConvolution(_) => false,
            LayerCtx::Table(_) => false,
        },
{
}

/// Taking apart the place of row `r` and column `c` of channel `o`.
proof fn lemma_place_of(s: Seq<usize>, o: int, r: int, c: int)
    requires
        s.len() == 3,
        has_coordinates(s, seq![o, r, c]),
    ensures
        ({
            let t = row_major(s, seq![o, r, c]);
            &&& t == o * (s[1] * s[2]) + (r * s[2] + c)
            &&& 0 <= t < product(s)
            &&& t / (s[1] * s[2]) == o
            &&& (t / (s[2] as int)) % (s[1] as int) == r
            &&& t % (s[2] as int) == c
        }),
{
    let at = seq![o, r, c];
    assert(at[0] == o && at[1] == r && at[2] == c);
    law_small_places(s, o, r, c, 0);
    lemma_row_major_bound(s, at);
    let b = s[1] as int;
    let w = s[2] as int;
    let t = row_major(s, at);
    lemma_flat(r, c, b, w);
    lemma_fundamental_div_mod_converse(t, b * w, o, r * w + c);
    assert(t == (o * b + r) * w + c) by (nonlinear_arith)
        requires
            t == o * (b * w) + (r * w + c),
    ;
    lemma_fundamental_div_mod_converse(t, w, o * b + r, c);
    lemma_fundamental_div_mod_converse(o * b + r, b, o, r);
}

/// Clearing keeps the entries whose coordinates lie within the unpadded shape, and sets all others
/// to zero; the clearing tensor is one at the former and zero at the latter. A batch dimension of
/// the unpadded shape does not count.
pub proof fn law_cleared_entries(
    data: Seq<Element>,
    padded: Seq<usize>,
    og: Seq<usize>,
    o: int,
    r: int,
    c: int,
)
    requires
        padded.len() == 3,
        data.len() == product(padded),
        og.len() == 3 || og.len() == 4,
        has_coordinates(padded, seq![o, r, c]),
    ensures
        ({
            let t = row_major(padded, seq![o, r, c]);
            let last = og.len() as int;
            let kept = o < og[last - 3] && r < og[last - 2] && c < og[last - 1];
            &&& cleared(data, padded, without_batch(og)).len() == data.len()
            &&& clearing(padded, without_batch(og)).len() == data.len()
            &&& cleared(data, padded, without_batch(og))[t] == if kept {
                data[t]
            } else {
                0
            }
            &&& clearing(padded, without_batch(og))[t] == if kept {
                1int
            } else {
                0
            }
        }),
{
    lemma_place_of(padded, o, r, c);
}

/// Adding the bias adds to each entry of channel `o` the entry `o` of the bias.
pub proof fn law_biased_entry(
    data: Seq<Element>,
    bias: Seq<Element>,
    shape: Seq<usize>,
    o: int,
    r: int,
    c: int,
)
    requires
        shape.len() == 3,
        shape[1] == shape[2],
        has_coordinates(shape, seq![o, r, c]),
    ensures
        ({
            let t = row_major(shape, seq![o, r, c]);
            biased(data, bias, shape[2] * shape[2], t) == data[t] + bias[o]
        }),
{
    lemma_place_of(shape, o, r, c);
}

/// The entry of a filter with given coordinates.
pub proof fn law_filter_entry(s: Seq<usize>, n: int, c: int, h: int, w: int)
    ensures
        s.len() == 4 ==> place4(s, n, c, h, w) == row_major(s, seq![n, c, h, w]),
        s.len() == 3 ==> place4(s, n, c, h, 0) == row_major(s, seq![n, c, h]),
        s.len() == 2 ==> place4(s, n, c, 0, 0) == row_major(s, seq![n, c]),
        s.len() == 1 ==> place4(s, n, 0, 0, 0) == row_major(s, seq![n]),
{
    law_small_places(s, n, c, h, w);
    if s.len() == 3 {
        assert(h * 1 == h);
        assert(s[2] * 1 == s[2]);
    } else if s.len() == 2 {
        assert(c * (1int * 1) == c);
        assert(s[1] * (1int * 1) == s[1]);
    } else if s.len() == 1 {
        lemma_mul_basics(n);
        assert(1int * (1int * 1int) == 1);
    }
}

/// A matrix has the rows and columns of its shape; of filters, a row is a place of a filter.
pub proof fn law_matrix_shape(s: Seq<usize>)
    ensures
        s.len() == 2 ==> rows_2d(s) == s[0] && cols_2d(s) == s[1],
        s.len() == 4 ==> rows_2d(s) == s[0] * s[2] * s[3] && cols_2d(s) == s[1] * s[2] * s[3],
        forall|i: int| 0 <= i < s.len() ==> #[trigger] dim_or_one(s, i) == s[i],
        forall|i: int| i >= s.len() ==> #[trigger] dim_or_one(s, i) == 1,
{
}

/// The product of two tensors has, in each place, the product of their entries.
pub proof fn law_products(a: Seq<Element>, b: Seq<Element>, i: int)
    requires
        0 <= i < a.len(),
    ensures
        products(a, b).len() == a.len(),
        products(a, b)[i] == a[i] * b[i],
{
}

/// The window of a layer has an entry for each channel, row and column of its filters, and one for
/// the bias.
pub proof fn law_window_size(c: Convolution<Element>)
    requires
        c.filter@.shape.len() == 4,
    ensures
        c.window_size() == c.filter@.shape[1] * (c.filter@.shape[2] * c.filter@.shape[3]) + 1,
{
    let s = c.filter@.shape;
    lemma_mul_is_commutative(s[2] * s[3], s[1] as int);
}

/// Padding and adapting a layer keeps each entry of the filters at its coordinates, and each entry
/// of the bias in its place, and puts zeros elsewhere. The filters are adapted to the width of the
/// padded images.
pub proof fn law_adapted_entries(
    c: Convolution<Element>,
    s: Seq<usize>,
    conv: Convolution<Element>,
    at: Seq<int>,
    i: int,
)
    requires
        can_adapt(c, s),
        is_adapted(c, s, conv),
        c.bias@.shape.len() == 1,
        has_coordinates(pow2_shape(c.filter@.shape), at),
        0 <= i < npow2(c.bias@.shape[0] as nat),
        npow2(c.filter@.shape[2] as nat) < npow2(s[1] as nat) || npow2(s[1] as nat) == 1,
    ensures
        ({
            let small = c.filter@.shape;
            let big = pow2_shape(small);
            let n = npow2(s[1] as nat) as usize;
            &&& conv.filter@.og_shape == big
            &&& conv.filter@.shape == seq![big[0], big[1], n, n]
            &&& conv.filter@.data.len() == product(big)
            &&& conv.filter@.data[row_major(big, at)] == if has_coordinates(small, at) {
                c.filter@.data[row_major(small, at)]
            } else {
                0
            }
            &&& conv.bias@.shape == pow2_shape(c.bias@.shape)
            &&& conv.bias@.data[i] == if i < c.bias@.shape[0] {
                c.bias@.data[i]
            } else {
                0
            }
            &&& conv.unpadded_shape@ == c.unpadded_shape@
        }),
{
    let small = c.filter@.shape;
    let big = pow2_shape(small);
    law_padding(c.filter@.data, small, big, 0i128, at);
    let b = c.bias@.shape;
    let bb = pow2_shape(b);
    assert(npow2(b[0] as nat) <= usize::MAX);
    lemma_product1(b);
    lemma_product1(bb);
    let ib = seq![i];
    assert(ib[0] == i);
    law_small_places(b, i, 0, 0, 0);
    law_small_places(bb, i, 0, 0, 0);
    assert(has_coordinates(bb, ib));
    law_padding(c.bias@.data, b, bb, 0i128, ib);
    if i < b[0] {
        assert(has_coordinates(b, ib));
    }
    assert(npow2(s[1] as nat) <= usize::MAX);
    assert(npow2(small[2] as nat) <= usize::MAX);
    lemma_npow2(s[1] as nat);
    lemma_npow2(small[2] as nat);
    if npow2(s[1] as nat) == 1 {
        lemma_pow2_zero();
    }
    lemma_width(npow2(s[1] as nat), big[2] as nat);
}

/// The shapes that a layer takes. A dense layer takes those with as many entries as the matrix, as
/// it was before padding, or padded, has columns; convolutions and poolings take those into which
/// their windows fit; flattening takes those whose entries can be counted; the others take all.
pub proof fn law_layer_accepts(op: Layer<Element>, s: Seq<usize>, mode: PaddingMode)
    ensures
        match op {
            Layer::Activation(_) => op.shape_ok(s, mode),
            Layer::Requant(_) => op.shape_ok(s, mode),
            Layer::Flatten(_) => op.shape_ok(s, mode) <==> product(s) <= usize::MAX,
            Layer::Dense(d) => {
                let m = d.unpadded_matrix_shape@;
                op.shape_ok(s, mode) <==> m.len() >= 2 && match mode {
                    PaddingMode::NoPadding => product(s) == m[1],
                    PaddingMode::Padding => product(s) == npow2(m[1] as nat) && pow2_shape_fits(m),
                }
            },
            Layer::Convolution(c) => op.shape_ok(s, mode) <==> match mode {
                PaddingMode::NoPadding => fits_into(c.unpadded_shape@, s),
                PaddingMode::Padding => fits_into(c.filter@.og_shape, s) && pow2_shape_fits(
                    conv_shape(s, c.filter@.og_shape),
                ),
            },
            Layer::SchoolBookConvolution(c) => op.shape_ok(s, mode) <==> match mode {
                PaddingMode::NoPadding => fits_into(c.0.unpadded_shape@, s),
                PaddingMode::Padding => fits_into(c.0.filter@.og_shape, s) && pow2_shape_fits(
                    conv_shape(s, c.0.filter@.og_shape),
                ),
            },
            Layer::Pooling(Pooling::Maxpool2D(p)) => op.shape_ok(s, mode) <==> {
                let d = s.len() as int;
                &&& d >= 2
                &&& p.stride >= 1
                &&& 1 <= p.kernel_size <= s[d - 2]
                &&& p.kernel_size <= s[d - 1]
                &&& p.kernel_size * p.kernel_size <= usize::MAX
            },
        },
{
    if let Layer::Dense(d) = op {
        let m = d.unpadded_matrix_shape@;
        if m.len() >= 2 && pow2_shape_fits(m) {
            assert(npow2(m[1] as nat) <= usize::MAX);
        }
    }
}

/// Filters of the given shape fit into images of the given shape, with or without a batch
/// dimension.
pub open spec fn fits_into(filter: Seq<usize>, s: Seq<usize>) -> bool {
    &&& filter.len() >= 3
    &&& s.len() >= 3
    &&& 1 <= filter[2] <= if s.len() == 3 {
        s[1]
    } else {
        s[2]
    }
}

/// The shapes that what the set-up keeps of a layer takes.
pub proof fn law_ctx_accepts(ctx: LayerCtx, s: Seq<usize>, mode: PaddingMode)
    ensures
        match ctx {
            LayerCtx::Activation(_) => ctx.shape_ok(s, mode),
            LayerCtx::Requant(_) => ctx.shape_ok(s, mode),
            LayerCtx::Table(_) => !ctx.shape_ok(s, mode),
            LayerCtx::SchoolBookConvolution(_) => !ctx.shape_ok(s, mode),
            LayerCtx::Flatten => ctx.shape_ok(s, mode) <==> product(s) <= usize::MAX,
            LayerCtx::Dense(c) => {
                let m = match mode {
                    PaddingMode::NoPadding => c.unpadded_matrix_shape@,
                    PaddingMode::Padding => c.padded_matrix_shape@,
                };
                ctx.shape_ok(s, mode) <==> m.len() >= 2 && product(s) == m[1]
            },
            LayerCtx::Convolution(c) => ctx.shape_ok(s, mode) <==> match mode {
                PaddingMode::NoPadding => fits_into(c.unpadded_filter_shape@, s),
                PaddingMode::Padding => fits_into(c.padded_filter_shape@, s) && pow2_shape_fits(
                    conv_shape(s, c.padded_filter_shape@),
                ),
            },
            LayerCtx::Pooling(c) => ctx.shape_ok(s, mode) <==> {
                let d = s.len() as int;
                let p = c.poolinfo;
                &&& d >= 2
                &&& p.stride >= 1
                &&& 1 <= p.kernel_size <= s[d - 2]
                &&& p.kernel_size <= s[d - 1]
                &&& p.kernel_size * p.kernel_size <= usize::MAX
            },
        },
{
}

/// The shapes of several inputs are taken, and those of the outputs told, one by one.
pub proof fn law_layer_shapes(
    op: Layer<Element>,
    ctx: LayerCtx,
    s: Seq<Seq<usize>>,
    mode: PaddingMode,
    i: int,
)
    requires
        0 <= i < s.len(),
    ensures
        op.shapes_ok(s, mode) <==> forall|j: int|
            0 <= j < s.len() ==> op.shape_ok(#[trigger] s[j], mode),
        op.shapes_of(s, mode).len() == s.len(),
        op.shapes_of(s, mode)[i] == op.shape_of(s[i], mode),
        ctx.shapes_ok(s, mode) <==> forall|j: int|
            0 <= j < s.len() ==> ctx.shape_ok(#[trigger] s[j], mode),
        ctx.shapes_of(s, mode).len() == s.len(),
        ctx.shapes_of(s, mode)[i] == ctx.shape_of(s[i], mode),
{
}

/// The number is at most a power of two that the machine can hold.
pub open spec fn below_power(x: usize) -> bool {
    exists|e: nat| x <= #[trigger] pow2(e) <= usize::MAX
}

/// The dimensions of a shape can be raised to powers of two exactly where each is at most a power
/// of two that the machine can hold.
pub proof fn law_padded_shape_fits(s: Seq<usize>)
    ensures
        pow2_shape_fits(s) <==> forall|i: int| 0 <= i < s.len() ==> below_power(#[trigger] s[i]),
{
    assert forall|i: int| 0 <= i < s.len() implies (npow2(s[i] as nat) <= usize::MAX <==> below_power(
        #[trigger] s[i],
    )) by {
        lemma_npow2(s[i] as nat);
        if npow2(s[i] as nat) <= usize::MAX {
            let e = choose|e: nat| npow2(s[i] as nat) == #[trigger] pow2(e);
            assert(s[i] <= pow2(e) <= usize::MAX);
        }
    }
    if pow2_shape_fits(s) {
        assert forall|i: int| 0 <= i < s.len() implies below_power(#[trigger] s[i]) by {
            assert(npow2(s[i] as nat) <= usize::MAX);
        }
    }
}

/// Raising a shape to powers of two raises each of its dimensions.
pub proof fn law_next_power_of_two(v: Vec<usize>, r: Vec<usize>)
    ensures
        NextPowerOfTwo::is_next_power_of_two(&v, &r) <==> r@.len() == v@.len() && forall|i: int|
            0 <= i < v@.len() ==> #[trigger] r@[i] == npow2(v@[i] as nat) as usize,
        NextPowerOfTwo::has_next_power_of_two(&v) <==> pow2_shape_fits(v@),
{
    if r@.len() == v@.len() && forall|i: int|
        0 <= i < v@.len() ==> #[trigger] r@[i] == npow2(v@[i] as nat) as usize {
        assert(r@ =~= pow2_shape(v@));
    }
}

} // verus!
