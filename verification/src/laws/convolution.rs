//! What the convolution layers do to the entries of images.
use crate::arith::{
    is_pow2, lemma_div_lt, lemma_flog2_pow2, lemma_npow2, lemma_pow2_mono, lemma_pow2_zero, npow2,
};
use crate::field::modulus;
use crate::laws::layers::lemma_places_bound;
use crate::laws::values::law_centered_remainder;
use crate::layers::{Layer, layer_fault, layer_result};
use crate::layers::conv_laws::{
    adapted, law_convolution, lemma_adapted_width, lemma_source1, lemma_width, square_conv,
};
use crate::layers::convolution::{
    Convolution, SchoolBookConv, can_adapt, conv2d_result, conv_entries, conv_entry, conv_fits,
    conv_ready, conv_result, is_adapted,
};
use crate::layers::fft_conv::{fft_filter, fft_input, window_sum, window_terms};
use crate::ops::{
    conv2d_entry, conv2d_entry_fits, conv2d_ok, conv2d_out, conv2d_terms, filter_len,
    lemma_conv_index, lemma_flat, lemma_window_places, nchw,
};
use crate::quantization::{Element, centered, fits};
use crate::shape::{lemma_product1, lemma_product3, lemma_product4, pow2_shape, product};
use crate::sums::{isum, lemma_isum_blocks, lemma_isum_bound, lemma_isum_eq, lemma_sum_fits};
use crate::tensor::{TensorView, padded, tensor};
use vstd::arithmetic::div_mod::*;
use vstd::arithmetic::mul::*;
use vstd::arithmetic::power2::*;
use vstd::prelude::*;

verus! {

/// What filter `o` gives with its upper left corner on row `top` and column `left` of image `b`:
/// the products of the entries of the filter with the entries of the image that lie under them,
/// added up over the `ch` channels, the `kh` rows and the `kw` columns of the filter. The images
/// have `h` rows and `w` columns.
pub open spec fn correlation(
    x: Seq<Element>,
    h: int,
    w: int,
    k: Seq<Element>,
    ch: int,
    kh: int,
    kw: int,
    b: int,
    o: int,
    top: int,
    left: int,
) -> int {
    isum(
        ch as nat,
        |a: int|
            isum(
                kh as nat,
                |u: int|
                    isum(
                        kw as nat,
                        |v: int|
                            x[((b * ch + a) * h + (top + u)) * w + (left + v)] * k[((o * ch + a)
                                * kh + u) * kw + v],
                    ),
            ),
    )
}

/// Taking apart the number of an entry of a filter of `kh` rows and `kw` columns.
proof fn lemma_filter_place(a: int, u: int, v: int, kh: int, kw: int)
    requires
        0 <= a,
        0 <= u < kh,
        0 <= v < kw,
    ensures
        (a * (kh * kw) + (u * kw + v)) / (kh * kw) == a,
        ((a * (kh * kw) + (u * kw + v)) / kw) % kh == u,
        (a * (kh * kw) + (u * kw + v)) % kw == v,
{
    let q = a * (kh * kw) + (u * kw + v);
    lemma_flat(u, v, kh, kw);
    lemma_fundamental_div_mod_converse(q, kh * kw, a, u * kw + v);
    assert(q == (a * kh + u) * kw + v) by (nonlinear_arith)
        requires
            q == a * (kh * kw) + (u * kw + v),
    ;
    lemma_fundamental_div_mod_converse(q, kw, a * kh + u, v);
    lemma_fundamental_div_mod_converse(a * kh + u, kh, a, u);
}

/// The place of an entry, taken apart in two ways.
proof fn lemma_entry_place(b: int, o: int, r: int, c: int, m: int, oh: int, ow: int)
    ensures
        ({
            let place = ((b * m + o) * oh + r) * ow + c;
            &&& place == b * (m * (oh * ow)) + (o * (oh * ow) + (r * ow + c))
            &&& place == (b * m + o) * (oh * ow) + (r * ow + c)
        }),
{
    let p = b * m + o;
    lemma_mul_is_distributive_add_other_way(ow, p * oh, r);
    lemma_mul_is_associative(p, oh, ow);
    lemma_mul_is_distributive_add_other_way(oh * ow, b * m, o);
    lemma_mul_is_associative(b, m, oh * ow);
}

/// The terms of a convolution, added up one after the other, give the sum over channels, rows and
/// columns.
pub proof fn lemma_correlation(
    x: TensorView<Element>,
    k: TensorView<Element>,
    stride: int,
    b: int,
    o: int,
    i: int,
    j: int,
)
    requires
        k.shape.len() == 4,
        nchw(x.shape).1 == k.shape[1],
    ensures
        isum(filter_len(k), conv2d_terms(x, k, stride, b, o, i, j)) == correlation(
            x.data,
            nchw(x.shape).2,
            nchw(x.shape).3,
            k.data,
            k.shape[1] as int,
            k.shape[2] as int,
            k.shape[3] as int,
            b,
            o,
            i * stride,
            j * stride,
        ),
{
    let (_, c, h, w) = nchw(x.shape);
    let kh = k.shape[2] as int;
    let kw = k.shape[3] as int;
    let area = kh * kw;
    let top = i * stride;
    let left = j * stride;
    lemma_mul_nonnegative(kh, kw);
    let f = conv2d_terms(x, k, stride, b, o, i, j);
    let g = |a: int| isum(area as nat, |q: int| f(a * area + q));
    lemma_isum_blocks(c as nat, area as nat, f, g);
    let g2 = |a: int|
        isum(
            kh as nat,
            |u: int|
                isum(
                    kw as nat,
                    |v: int|
                        x.data[((b * c + a) * h + (top + u)) * w + (left + v)] * k.data[((o * c + a)
                            * kh + u) * kw + v],
                ),
        );
    assert forall|a: int| 0 <= a < c implies #[trigger] g(a) == g2(a) by {
        let fa = |q: int| f(a * area + q);
        let ga = |u: int| isum(kw as nat, |v: int| fa(u * kw + v));
        let ga2 = |u: int|
            isum(
                kw as nat,
                |v: int|
                    x.data[((b * c + a) * h + (top + u)) * w + (left + v)] * k.data[((o * c + a)
                        * kh + u) * kw + v],
            );
        lemma_isum_blocks(kh as nat, kw as nat, fa, ga);
        assert forall|u: int| 0 <= u < kh implies #[trigger] ga(u) == ga2(u) by {
            let p = |v: int| fa(u * kw + v);
            let p2 = |v: int|
                x.data[((b * c + a) * h + (top + u)) * w + (left + v)] * k.data[((o * c + a) * kh
                    + u) * kw + v];
            assert forall|v: int| 0 <= v < kw implies #[trigger] p(v) == p2(v) by {
                lemma_filter_place(a, u, v, kh, kw);
                let q = a * area + (u * kw + v);
                assert(o * (c * area) + q == ((o * c + a) * kh + u) * kw + v) by (nonlinear_arith)
                    requires
                        q == a * area + (u * kw + v),
                        area == kh * kw,
                ;
            }
            lemma_isum_eq(kw as nat, p, p2);
        }
        lemma_isum_eq(kh as nat, ga, ga2);
    }
    lemma_isum_eq(c as nat, g, g2);
}

/// A layer of convolutions by transforms, padded and adapted, gives on padded images one tensor of
/// the padded shape. Its entry for filter `o`, row `r` and column `c` is, where the filter fits
/// into the unpadded image there, the sum over the channels, rows and columns of the filter of the
/// products with the image, plus the bias. All other entries are zero. The sums must be small
/// against the prime.
pub proof fn law_convolution_layer(
    layer: Convolution<Element>,
    x: TensorView<Element>,
    conv: Convolution<Element>,
    xp: TensorView<Element>,
    o: int,
    r: int,
    c: int,
)
    requires
        square_conv(x, layer.filter@),
        layer.bias@.shape == seq![layer.filter@.shape[0]],
        layer.unpadded_shape@ == layer.filter@.shape,
        can_adapt(layer, x.shape),
        is_adapted(layer, x.shape, conv),
        xp == tensor(pow2_shape(x.shape), padded(x.data, x.shape, pow2_shape(x.shape), 0)),
        layer_fault(Layer::Convolution(conv), seq![xp], seq![x.shape]) is None,
        0 <= o < npow2(layer.filter@.shape[0] as nat),
        0 <= r < npow2(x.shape[1] as nat),
        0 <= c < npow2(x.shape[1] as nat),
    ensures
        ({
            let w = layer.filter@;
            let h = x.shape[1] as int;
            let k = w.shape[2] as int;
            let n = npow2(h as nat) as int;
            let y = layer_result(Layer::Convolution(conv), seq![xp], seq![x.shape]);
            let place = (o * n + r) * n + c;
            let sum = correlation(x.data, h, h, w.data, w.shape[1] as int, k, k, 0, o, r, c);
            &&& y.len() == 1
            &&& y[0].shape == seq![npow2(w.shape[0] as nat) as usize, n as usize, n as usize]
            &&& y[0].og_shape == y[0].shape
            &&& y[0].data.len() == npow2(w.shape[0] as nat) * (n * n)
            &&& 0 <= place < y[0].data.len()
            &&& if o < w.shape[0] && r + k <= h && c + k <= h {
                -(modulus() / 2) <= sum <= modulus() / 2 ==> y[0].data[place] == sum
                    + layer.bias@.data[o]
            } else {
                y[0].data[place] == 0
            }
        }),
{
    let w = layer.filter@;
    let b = layer.bias@;
    let h = x.shape[1] as int;
    let k = w.shape[2] as int;
    let n = npow2(h as nat) as int;
    let f = conv.filter@;
    assert(npow2(x.shape[1] as nat) <= usize::MAX);
    assert(npow2(w.shape[0] as nat) <= usize::MAX);
    lemma_adapted_width(layer, x.shape, conv);
    assert(adapted(f, w, x));
    assert(f.shape[2] == n && f.shape[0] == npow2(w.shape[0] as nat));
    let y = layer_result(Layer::Convolution(conv), seq![xp], seq![x.shape]);
    assert(y =~= seq![conv_result(conv, xp, x.shape)]);
    assert(y[0].shape =~= seq![npow2(w.shape[0] as nat) as usize, n as usize, n as usize]);
    let place = (o * n + r) * n + c;
    assert(place == o * (n * n) + (r * n + c)) by (nonlinear_arith)
        requires
            place == (o * n + r) * n + c,
    ;
    lemma_flat(r, c, n, n);
    lemma_flat(o, r * n + c, npow2(w.shape[0] as nat) as int, n * n);
    // the bias is followed by zeros
    assert(npow2(b.shape[0] as nat) <= usize::MAX);
    lemma_npow2(b.shape[0] as nat);
    lemma_product1(b.shape);
    lemma_product1(pow2_shape(b.shape));
    assert forall|q: int| 0 <= q < w.shape[0] implies conv.bias@.data[q]
        == #[trigger] b.data[q] by {
        lemma_source1(b.shape, pow2_shape(b.shape), q);
    }
    law_convolution(conv, x, w, b, xp, o, r, c);
    lemma_correlation(x, w, 1, 0, o, r, c);
    assert(r * 1 == r && c * 1 == c);
}

/// A layer of convolutions that is padded and adapted runs on padded images of a width of at most
/// `2^15`, which is greater than that of the padded filters, or one.
pub proof fn law_convolution_runs(
    layer: Convolution<Element>,
    x: TensorView<Element>,
    conv: Convolution<Element>,
    xp: TensorView<Element>,
)
    requires
        square_conv(x, layer.filter@),
        layer.bias@.shape == seq![layer.filter@.shape[0]],
        layer.unpadded_shape@ == layer.filter@.shape,
        can_adapt(layer, x.shape),
        is_adapted(layer, x.shape, conv),
        xp == tensor(pow2_shape(x.shape), padded(x.data, x.shape, pow2_shape(x.shape), 0)),
        npow2(x.shape[1] as nat) <= 32768,
        npow2(layer.filter@.shape[2] as nat) < npow2(x.shape[1] as nat) || npow2(
            x.shape[1] as nat,
        ) == 1,
        npow2(layer.filter@.shape[0] as nat) * (npow2(x.shape[1] as nat) * npow2(
            x.shape[1] as nat,
        )) <= usize::MAX,
        forall|i: int|
            0 <= i < layer.bias@.data.len() ==> -0x1000_0000_0000_0000 <= #[trigger] layer.bias@.data[i]
                <= 0x1000_0000_0000_0000,
    ensures
        layer_fault(Layer::Convolution(conv), seq![xp], seq![x.shape]) is None,
{
    let w = layer.filter@;
    let b = layer.bias@;
    let f = conv.filter@;
    let kb = pow2_shape(w.shape);
    let xb = pow2_shape(x.shape);
    let n = npow2(x.shape[1] as nat);
    assert(npow2(x.shape[0] as nat) <= usize::MAX);
    assert(npow2(x.shape[1] as nat) <= usize::MAX);
    assert(npow2(x.shape[2] as nat) <= usize::MAX);
    assert(npow2(w.shape[0] as nat) <= usize::MAX);
    assert(npow2(w.shape[1] as nat) <= usize::MAX);
    assert(npow2(w.shape[2] as nat) <= usize::MAX);
    assert(npow2(w.shape[3] as nat) <= usize::MAX);
    assert(npow2(b.shape[0] as nat) <= usize::MAX);
    lemma_npow2(x.shape[1] as nat);
    lemma_npow2(w.shape[2] as nat);
    lemma_npow2(b.shape[0] as nat);
    if kb[2] as nat == n {
        lemma_pow2_zero();
        assert(is_pow2(1));
    }
    lemma_width(n, kb[2] as nat);
    assert(f.shape =~= seq![kb[0], kb[1], n as usize, n as usize]);
    lemma_product4(kb);
    let e = choose|e: nat| n == #[trigger] pow2(e);
    lemma_flog2_pow2(e);
    lemma2_to64();
    if e > 15 {
        lemma_pow2_mono(16, e);
    }
    assert(fft_filter(f));
    lemma_product3(xb);
    assert(fft_input(f, xp));
    lemma_product1(b.shape);
    lemma_product1(pow2_shape(b.shape));
    assert(conv_ready(conv, xp, x.shape));
    let n2 = n * n;
    assert forall|t: int| 0 <= t < f.shape[0] * n2 implies fits(
        #[trigger] conv_entry(conv, xp, t),
    ) by {
        lemma_mul_strictly_positive(n as int, n as int);
        let o = t / (n2 as int);
        lemma_div_lt(t as nat, n2, f.shape[0] as nat);
        lemma_div_pos_is_pos(t, n2 as int);
        lemma_source1(b.shape, pow2_shape(b.shape), o);
        law_centered_remainder(window_sum(f, xp.data, o, t % (n2 as int)));
        if o < b.shape[0] {
            assert(b.data[o] == conv.bias@.data[o]);
        } else {
            assert(conv.bias@.data[o] == 0);
        }
    }
    assert(conv_fits(conv, xp));
}

/// A layer of direct convolutions runs on a stack of images and gives one tensor: for each image a
/// result for each filter. The entry for image `b`, filter `o`, row `r` and column `c` is the sum
/// over the channels, rows and columns of the filter of the products with the image, plus the
/// bias.
pub proof fn law_direct_convolution_layer(
    layer: SchoolBookConv<Element>,
    x: TensorView<Element>,
    s: Seq<Seq<usize>>,
    b: int,
    o: int,
    r: int,
    c: int,
)
    requires
        layer_fault(Layer::SchoolBookConvolution(layer), seq![x], s) is None,
        0 <= b < (if x.shape.len() == 4 { x.shape[0] as int } else { 1 }),
        0 <= o < layer.0.filter@.shape[0],
        0 <= r,
        r + layer.0.filter@.shape[2] <= x.shape[x.shape.len() - 2],
        0 <= c,
        c + layer.0.filter@.shape[3] <= x.shape[x.shape.len() - 1],
    ensures
        ({
            let k = layer.0.filter@;
            let h = x.shape[x.shape.len() - 2] as int;
            let w = x.shape[x.shape.len() - 1] as int;
            let count = if x.shape.len() == 4 { x.shape[0] as int } else { 1 };
            let y = layer_result(Layer::SchoolBookConvolution(layer), seq![x], s);
            let oh = h - k.shape[2] + 1;
            let ow = w - k.shape[3] + 1;
            let place = ((b * k.shape[0] + o) * oh + r) * ow + c;
            &&& y.len() == 1
            &&& y[0].shape == seq![count as usize, k.shape[0], oh as usize, ow as usize]
            &&& y[0].og_shape == y[0].shape
            &&& y[0].data.len() == count * (k.shape[0] * (oh * ow))
            &&& 0 <= place < y[0].data.len()
            &&& y[0].data[place] == correlation(
                x.data,
                h,
                w,
                k.data,
                k.shape[1] as int,
                k.shape[2] as int,
                k.shape[3] as int,
                b,
                o,
                r,
                c,
            ) + layer.0.bias@.data[o]
        }),
{
    let k = layer.0.filter@;
    let bias = layer.0.bias@;
    let (count, ch, h, w) = nchw(x.shape);
    let y = layer_result(Layer::SchoolBookConvolution(layer), seq![x], s);
    assert(y =~= seq![conv2d_result(x, k, bias)]);
    let out = conv2d_out(x, k, 1);
    let m = k.shape[0] as int;
    let oh = h - k.shape[2] + 1;
    let ow = w - k.shape[3] + 1;
    assert(out[2] == oh && out[3] == ow) by {
        lemma_div_basics(h - k.shape[2]);
        lemma_div_basics(w - k.shape[3]);
    }
    assert(y[0].shape =~= seq![count as usize, k.shape[0], oh as usize, ow as usize]);
    let place = ((b * m + o) * oh + r) * ow + c;
    lemma_flat(r, c, oh, ow);
    lemma_flat(o, r * ow + c, m, oh * ow);
    lemma_flat(b, o * (oh * ow) + (r * ow + c), count, m * (oh * ow));
    lemma_entry_place(b, o, r, c, m, oh, ow);
    lemma_fundamental_div_mod_converse(
        place,
        m * (oh * ow),
        b,
        o * (oh * ow) + (r * ow + c),
    );
    lemma_fundamental_div_mod_converse(place, oh * ow, b * m + o, r * ow + c);
    lemma_fundamental_div_mod_converse(b * m + o, m, b, o);
    lemma_fundamental_div_mod_converse(place, ow, (b * m + o) * oh + r, c);
    lemma_fundamental_div_mod_converse((b * m + o) * oh + r, oh, b * m + o, r);
    assert(conv2d_entry_fits(x, k, bias, 1, place));
    lemma_correlation(x, k, 1, b, o, r, c);
    assert(r * 1 == r && c * 1 == c);
}

/// A direct convolution in steps of `stride`: the result has, for each image and filter, a row and
/// a column for each place that the filter takes, as many as fit. The entry for image `b`, filter
/// `o`, row `r` and column `c` is what the filter gives with its corner on row `r * stride` and
/// column `c * stride`, plus the bias.
pub proof fn law_direct_convolution(
    x: TensorView<Element>,
    k: TensorView<Element>,
    bias: TensorView<Element>,
    stride: int,
    b: int,
    o: int,
    r: int,
    c: int,
)
    requires
        conv2d_ok(x, k, bias, stride),
        0 <= b < (if x.shape.len() == 4 { x.shape[0] as int } else { 1 }),
        0 <= o < k.shape[0],
        0 <= r,
        r * stride + k.shape[2] <= x.shape[x.shape.len() - 2],
        0 <= c,
        c * stride + k.shape[3] <= x.shape[x.shape.len() - 1],
    ensures
        ({
            let h = x.shape[x.shape.len() - 2] as int;
            let w = x.shape[x.shape.len() - 1] as int;
            let out = conv2d_out(x, k, stride);
            let place = ((b * out[1] + o) * out[2] + r) * out[3] + c;
            &&& out.len() == 4
            &&& out[0] == if x.shape.len() == 4 { x.shape[0] as int } else { 1 }
            &&& out[1] == k.shape[0]
            &&& r < out[2] && (out[2] - 1) * stride + k.shape[2] <= h < out[2] * stride + k.shape[2]
            &&& c < out[3] && (out[3] - 1) * stride + k.shape[3] <= w < out[3] * stride + k.shape[3]
            &&& 0 <= place < out[0] * (out[1] * (out[2] * out[3]))
            &&& conv2d_entry(x, k, bias, stride, place) == correlation(
                x.data,
                h,
                w,
                k.data,
                k.shape[1] as int,
                k.shape[2] as int,
                k.shape[3] as int,
                b,
                o,
                r * stride,
                c * stride,
            ) + bias.data[o]
        }),
{
    let (count, ch, h, w) = nchw(x.shape);
    let out = conv2d_out(x, k, stride);
    let m = k.shape[0] as int;
    let oh = out[2];
    let ow = out[3];
    lemma_places_bound(h, k.shape[2] as int, stride, r);
    lemma_places_bound(w, k.shape[3] as int, stride, c);
    let place = ((b * m + o) * oh + r) * ow + c;
    lemma_flat(r, c, oh, ow);
    lemma_flat(o, r * ow + c, m, oh * ow);
    lemma_flat(b, o * (oh * ow) + (r * ow + c), count, m * (oh * ow));
    lemma_entry_place(b, o, r, c, m, oh, ow);
    lemma_fundamental_div_mod_converse(
        place,
        m * (oh * ow),
        b,
        o * (oh * ow) + (r * ow + c),
    );
    lemma_fundamental_div_mod_converse(place, oh * ow, b * m + o, r * ow + c);
    lemma_fundamental_div_mod_converse(b * m + o, m, b, o);
    lemma_fundamental_div_mod_converse(place, ow, (b * m + o) * oh + r, c);
    lemma_fundamental_div_mod_converse((b * m + o) * oh + r, oh, b * m + o, r);
    lemma_correlation(x, k, stride, b, o, r, c);
}

/// A direct convolution of quantised values can be held, in steps of any size.
pub proof fn law_direct_convolution_fits(
    x: TensorView<Element>,
    k: TensorView<Element>,
    bias: TensorView<Element>,
    stride: int,
    t: int,
)
    requires
        conv2d_ok(x, k, bias, stride),
        k.data.len() <= usize::MAX,
        forall|i: int| 0 <= i < x.data.len() ==> -128 <= #[trigger] x.data[i] <= 128,
        forall|i: int| 0 <= i < k.data.len() ==> -128 <= #[trigger] k.data[i] <= 128,
        forall|i: int|
            0 <= i < bias.data.len() ==> -0x1000_0000_0000_0000 <= #[trigger] bias.data[i]
                <= 0x1000_0000_0000_0000,
        0 <= t,
        ({
            let out = conv2d_out(x, k, stride);
            t < out[0] * (out[1] * (out[2] * out[3]))
        }),
    ensures
        conv2d_entry_fits(x, k, bias, stride, t),
{
    let (n, ch, h, w) = nchw(x.shape);
    let out = conv2d_out(x, k, stride);
    let kh = k.shape[2] as int;
    let kw = k.shape[3] as int;
    let m = out[1];
    let area = out[2] * out[3];
    lemma_window_places(h, kh, stride);
    lemma_window_places(w, kw, stride);
    lemma_mul_strictly_positive(out[2], out[3]);
    assert(m > 0 && m * area > 0) by (nonlinear_arith)
        requires
            0 <= t < n * (m * area),
            n >= 0,
            m >= 0,
            area > 0,
    ;
    let j = t % out[3];
    let i = (t / out[3]) % out[2];
    let o = (t / area) % m;
    let b = t / (m * area);
    lemma_mod_bound(t, out[3]);
    lemma_mod_bound(t / out[3], out[2]);
    lemma_mod_bound(t / area, m);
    lemma_div_pos_is_pos(t, m * area);
    lemma_div_lt(t as nat, (m * area) as nat, n as nat);
    let f = conv2d_terms(x, k, stride, b, o, i, j);
    let len = filter_len(k);
    lemma_product4(k.shape);
    lemma_flat(o, 0, m, 1);
    assert(len <= k.data.len()) by (nonlinear_arith)
        requires
            k.data.len() == m * len,
            m >= 1,
            len >= 0,
    ;
    assert forall|q: int| 0 <= q < len implies -16384 <= #[trigger] f(q) <= 16384 by {
        lemma_conv_index(n, ch, h, w, kh, kw, stride, b, i, j, q);
        lemma_flat(o, q, m, len as int);
        if x.shape.len() == 3 {
            lemma_product3(x.shape);
            lemma_mul_basics(ch * (h * w));
        } else {
            lemma_product4(x.shape);
        }
        let xi = ((b * ch + q / (kh * kw)) * h + (i * stride + (q / kw) % kh)) * w + (j * stride + q
            % kw);
        let ki = o * (ch * (kh * kw)) + q;
        let a = x.data[xi] as int;
        let c = k.data[ki] as int;
        assert(-128 <= x.data[xi] <= 128);
        assert(-128 <= k.data[ki] <= 128);
        assert(-16384 <= a * c <= 16384) by (nonlinear_arith)
            requires
                -128 <= a <= 128,
                -128 <= c <= 128,
        ;
    }
    lemma_sum_fits(len, f, 16384);
    lemma_isum_bound(len, f, 16384);
    assert(-0x1000_0000_0000_0000 <= bias.data[o] <= 0x1000_0000_0000_0000);
    assert(len * 16384 <= 0xFFFF_FFFF_FFFF_FFFF * 16384) by (nonlinear_arith)
        requires
            0 <= len <= 0xFFFF_FFFF_FFFF_FFFF,
    ;
}

/// A layer of convolutions by transforms gives, for filter `o`, row `r` and column `c` at which
/// the filter as it is laid out fits into the image, zero outside the shape of the unpadded
/// result. Inside, it gives the bias plus a value within half the prime of zero that differs from
/// the sum over the channels, rows and columns of the filter by a multiple of the prime.
pub proof fn law_convolution_entry(
    conv: Convolution<Element>,
    x: TensorView<Element>,
    unpadded: Seq<usize>,
    o: int,
    r: int,
    c: int,
)
    requires
        layer_fault(Layer::Convolution(conv), seq![x], seq![unpadded]) is None,
        0 <= o < conv.filter@.shape[0],
        0 <= r,
        r + conv.filter@.og_shape[2] <= conv.filter@.shape[2],
        r < conv.filter@.shape[2],
        0 <= c,
        c + conv.filter@.og_shape[2] <= conv.filter@.shape[2],
        c < conv.filter@.shape[2],
    ensures
        ({
            let f = conv.filter@;
            let n = f.shape[2] as int;
            let k = f.og_shape[2] as int;
            let p = modulus();
            let y = layer_result(Layer::Convolution(conv), seq![x], seq![unpadded]);
            let place = (o * n + r) * n + c;
            let sum = correlation(x.data, n, n, f.data, f.shape[1] as int, k, k, 0, o, r, c);
            let h = if unpadded.len() == 3 { unpadded[1] } else { unpadded[2] };
            let d = h - conv.unpadded_shape@[2] + 1;
            &&& y.len() == 1
            &&& y[0].shape == seq![f.shape[0], f.shape[2], f.shape[2]]
            &&& y[0].og_shape == y[0].shape
            &&& y[0].data.len() == f.shape[0] * (n * n)
            &&& 0 <= place < y[0].data.len()
            &&& if o < conv.unpadded_shape@[0] && r < d && c < d {
                &&& (y[0].data[place] - conv.bias@.data[o] - sum) % p == 0
                &&& -(p / 2) <= y[0].data[place] - conv.bias@.data[o] <= p / 2
            } else {
                y[0].data[place] == 0
            }
        }),
{
    let f = conv.filter@;
    let n = f.shape[2] as int;
    let n2 = n * n;
    let k = f.og_shape[2] as int;
    let ch = f.shape[1] as int;
    let t = r * n + c;
    let place = (o * n + r) * n + c;
    let shape = seq![f.shape[0], f.shape[2], f.shape[2]];
    lemma_flat(r, c, n, n);
    lemma_flat(o, t, f.shape[0] as int, n2);
    assert(place == o * n2 + t) by (nonlinear_arith)
        requires
            place == (o * n + r) * n + c,
            t == r * n + c,
            n2 == n * n,
    ;
    lemma_fundamental_div_mod_converse(place, n2, o, t);
    lemma_fundamental_div_mod_converse(place, n, o * n + r, c);
    lemma_fundamental_div_mod_converse(o * n + r, n, o, r);
    // the windows
    let outer = |j: int| isum((k * k) as nat, window_terms(f, x.data, o, t, j));
    let outer2 = |a: int|
        isum(
            k as nat,
            |u: int|
                isum(
                    k as nat,
                    |v: int|
                        x.data[((0 * ch + a) * n + (r + u)) * n + (c + v)] * f.data[((o * ch + a)
                            * k + u) * k + v],
                ),
        );
    assert forall|j: int| 0 <= j < ch implies #[trigger] outer(j) == outer2(j) by {
        let g = window_terms(f, x.data, o, t, j);
        let rows = |u: int| isum(k as nat, |v: int| g(u * k + v));
        let rows2 = |u: int|
            isum(
                k as nat,
                |v: int|
                    x.data[((0 * ch + j) * n + (r + u)) * n + (c + v)] * f.data[((o * ch + j) * k
                        + u) * k + v],
            );
        lemma_isum_blocks(k as nat, k as nat, g, rows);
        assert forall|u: int| 0 <= u < k implies #[trigger] rows(u) == rows2(u) by {
            let a = |v: int| g(u * k + v);
            let b = |v: int|
                x.data[((0 * ch + j) * n + (r + u)) * n + (c + v)] * f.data[((o * ch + j) * k + u)
                    * k + v];
            assert forall|v: int| 0 <= v < k implies #[trigger] a(v) == b(v) by {
                lemma_fundamental_div_mod_converse(u * k + v, k, u, v);
                let step = u * n + v;
                assert(t + step == (r + u) * n + (c + v)) by (nonlinear_arith)
                    requires
                        t == r * n + c,
                        step == u * n + v,
                ;
                lemma_flat(r + u, c + v, n, n);
                lemma_mul_basics(ch);
                assert(j * n2 + (t + step) == (j * n + (r + u)) * n + (c + v)) by (nonlinear_arith)
                    requires
                        t + step == (r + u) * n + (c + v),
                        n2 == n * n,
                ;
                assert((o * ch + j) * (k * k) + (u * k + v) == ((o * ch + j) * k + u) * k + v)
                    by (nonlinear_arith);
            }
            lemma_isum_eq(k as nat, a, b);
        }
        lemma_isum_eq(k as nat, rows, rows2);
    }
    lemma_isum_eq(ch as nat, outer, outer2);
    let sum = correlation(x.data, n, n, f.data, ch, k, k, 0, o, r, c);
    assert(window_sum(f, x.data, o, t) == sum);
    law_centered_remainder(sum);
    let rest = centered(sum);
    assert((rest - sum) % modulus() == 0) by {
        let m = choose|m: int| sum == #[trigger] (m * modulus()) + rest;
        lemma_mod_multiples_basic(-m, modulus());
        lemma_mul_unary_negation(m, modulus());
    }
    assert(fits(conv_entry(conv, x, place)));
    assert(conv_entry(conv, x, place) == rest + conv.bias@.data[o]);
}

/// A layer of direct convolutions runs on quantised values, where filters, bias and images go
/// together.
pub proof fn law_direct_convolution_runs(
    layer: SchoolBookConv<Element>,
    x: TensorView<Element>,
    s: Seq<Seq<usize>>,
)
    requires
        x.og_shape == x.shape,
        x.data.len() == product(x.shape),
        x.shape.len() == 3 || x.shape.len() == 4,
        ({
            let k = layer.0.filter@;
            let d = x.shape.len() as int;
            let count = if d == 4 { x.shape[0] as int } else { 1 };
            let oh = x.shape[d - 2] - k.shape[2] + 1;
            let ow = x.shape[d - 1] - k.shape[3] + 1;
            &&& k.og_shape == k.shape
            &&& k.data.len() == product(k.shape)
            &&& k.data.len() <= usize::MAX
            &&& k.shape.len() == 4
            &&& k.shape[1] == x.shape[d - 3]
            &&& 1 <= k.shape[2] <= x.shape[d - 2]
            &&& 1 <= k.shape[3] <= x.shape[d - 1]
            &&& layer.0.bias@.data.len() == k.shape[0]
            &&& count * (k.shape[0] * (oh * ow)) <= usize::MAX
        }),
        forall|i: int| 0 <= i < x.data.len() ==> -128 <= #[trigger] x.data[i] <= 128,
        forall|i: int|
            0 <= i < layer.0.filter@.data.len() ==> -128 <= #[trigger] layer.0.filter@.data[i]
                <= 128,
        forall|i: int|
            0 <= i < layer.0.bias@.data.len() ==> -0x1000_0000_0000_0000
                <= #[trigger] layer.0.bias@.data[i] <= 0x1000_0000_0000_0000,
    ensures
        layer_fault(Layer::SchoolBookConvolution(layer), seq![x], s) is None,
{
    let k = layer.0.filter@;
    let bias = layer.0.bias@;
    let (n, ch, h, w) = nchw(x.shape);
    let out = conv2d_out(x, k, 1);
    assert(conv2d_ok(x, k, bias, 1));
    lemma_div_basics(h - k.shape[2]);
    lemma_div_basics(w - k.shape[3]);
    let total = out[0] * (out[1] * (out[2] * out[3]));
    assert forall|t: int| 0 <= t < total implies #[trigger] conv2d_entry_fits(
        x,
        k,
        bias,
        1,
        t,
    ) by {
        law_direct_convolution_fits(x, k, bias, 1, t);
    }
}

/// What filter `o` gives at place `t` of the images where its rows run on from the end of a row of
/// the image into the next one: the products, added up over channels, rows and columns, of those
/// entries of the filter that have an entry of the image under them.
pub open spec fn running_sum(
    x: Seq<Element>,
    n: int,
    f: Seq<Element>,
    ch: int,
    k: int,
    o: int,
    t: int,
) -> int {
    isum(
        ch as nat,
        |a: int|
            isum(
                k as nat,
                |u: int|
                    isum(
                        k as nat,
                        |v: int|
                            if t + (u * n + v) < n * n {
                                x[a * (n * n) + (t + (u * n + v))] * f[((o * ch + a) * k + u) * k
                                    + v]
                            } else {
                                0
                            },
                    ),
            ),
    )
}

/// Before they are cleared, the results of a convolution by transforms are in every place `t` of
/// every filter `o` the bias plus a value within half the prime of zero that differs from the sum
/// of the products by a multiple of the prime.
pub proof fn law_convolution_raw(
    conv: Convolution<Element>,
    x: TensorView<Element>,
    unpadded: Seq<usize>,
    o: int,
    t: int,
)
    requires
        layer_fault(Layer::Convolution(conv), seq![x], seq![unpadded]) is None,
        0 <= o < conv.filter@.shape[0],
        0 <= t < conv.filter@.shape[2] * conv.filter@.shape[2],
    ensures
        ({
            let f = conv.filter@;
            let n = f.shape[2] as int;
            let p = modulus();
            let y = conv_entries(conv, x)[o * (n * n) + t] - conv.bias@.data[o];
            let sum = running_sum(
                x.data,
                n,
                f.data,
                f.shape[1] as int,
                f.og_shape[2] as int,
                o,
                t,
            );
            &&& conv_entries(conv, x).len() == f.shape[0] * (n * n)
            &&& 0 <= o * (n * n) + t < conv_entries(conv, x).len()
            &&& (y - sum) % p == 0
            &&& -(p / 2) <= y <= p / 2
        }),
{
    let f = conv.filter@;
    let n = f.shape[2] as int;
    let n2 = n * n;
    let k = f.og_shape[2] as int;
    let ch = f.shape[1] as int;
    let place = o * n2 + t;
    lemma_flat(o, t, f.shape[0] as int, n2);
    lemma_fundamental_div_mod_converse(place, n2, o, t);
    let outer = |j: int| isum((k * k) as nat, window_terms(f, x.data, o, t, j));
    let outer2 = |a: int|
        isum(
            k as nat,
            |u: int|
                isum(
                    k as nat,
                    |v: int|
                        if t + (u * n + v) < n * n {
                            x.data[a * (n * n) + (t + (u * n + v))] * f.data[((o * ch + a) * k + u)
                                * k + v]
                        } else {
                            0
                        },
                ),
        );
    assert forall|j: int| 0 <= j < ch implies #[trigger] outer(j) == outer2(j) by {
        let g = window_terms(f, x.data, o, t, j);
        let rows = |u: int| isum(k as nat, |v: int| g(u * k + v));
        let rows2 = |u: int|
            isum(
                k as nat,
                |v: int|
                    if t + (u * n + v) < n * n {
                        x.data[j * (n * n) + (t + (u * n + v))] * f.data[((o * ch + j) * k + u) * k
                            + v]
                    } else {
                        0
                    },
            );
        lemma_isum_blocks(k as nat, k as nat, g, rows);
        assert forall|u: int| 0 <= u < k implies #[trigger] rows(u) == rows2(u) by {
            let a = |v: int| g(u * k + v);
            let b = |v: int|
                if t + (u * n + v) < n * n {
                    x.data[j * (n * n) + (t + (u * n + v))] * f.data[((o * ch + j) * k + u) * k
                        + v]
                } else {
                    0
                };
            assert forall|v: int| 0 <= v < k implies #[trigger] a(v) == b(v) by {
                lemma_fundamental_div_mod_converse(u * k + v, k, u, v);
                assert((o * ch + j) * (k * k) + (u * k + v) == ((o * ch + j) * k + u) * k + v)
                    by (nonlinear_arith);
            }
            lemma_isum_eq(k as nat, a, b);
        }
        lemma_isum_eq(k as nat, rows, rows2);
    }
    lemma_isum_eq(ch as nat, outer, outer2);
    let sum = running_sum(x.data, n, f.data, ch, k, o, t);
    assert(window_sum(f, x.data, o, t) == sum);
    law_centered_remainder(sum);
    let rest = centered(sum);
    assert((rest - sum) % modulus() == 0) by {
        let m = choose|m: int| sum == #[trigger] (m * modulus()) + rest;
        lemma_mod_multiples_basic(-m, modulus());
        lemma_mul_unary_negation(m, modulus());
    }
    assert(fits(conv_entry(conv, x, place)));
    assert(conv_entry(conv, x, place) == rest + conv.bias@.data[o]);
}

} // verus!
