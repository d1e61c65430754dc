//! The convolution by transforms of padded tensors is the convolution of the tensors.
use crate::arith::{
    clog2, is_pow2, lemma_clog2, lemma_div_lt, lemma_npow2, lemma_npow2_of_pow2, lemma_pow2_mono,
    lemma_pow2_step, lemma_pow2_zero, npow2,
};
use crate::field::modulus;
use crate::layers::convolution::{
    Convolution, can_adapt, cleared, conv2d_fits, conv2d_result, conv_entries, conv_entry,
    conv_fits, conv_mode_ok, conv_ready, conv_result, conv_shape, conv_shape_in, inside,
    is_adapted, without_batch,
};
use crate::layers::fft_conv::{fft_filter, lemma_square_sum, window_sum, window_terms};
use crate::layers::provable::PaddingMode;
use crate::ops::{
    conv2d_entry, conv2d_entry_fits, conv2d_out, conv2d_terms, filter_len, lemma_conv_index,
    lemma_flat, window_places,
};
use crate::quantization::{BIT_LEN, Element, MAX, MIN, centered, fits, law_centered};
use crate::shape::{
    lemma_product1, lemma_product2, lemma_product3, lemma_product4, pow2_shape, pow2_shape_fits,
    product, source,
};
use crate::sums::{isum, lemma_isum_blocks, lemma_isum_bound, lemma_isum_eq, lemma_isum_truncate};
use crate::tensor::{TensorView, lemma_pow2_shape, padded, tensor};
use vstd::arithmetic::div_mod::*;
use vstd::arithmetic::mul::*;
use vstd::arithmetic::power2::*;
use vstd::prelude::*;

verus! {

/// The source of an entry of a padded tensor, the first coordinate taken apart.
pub proof fn lemma_source_step(small: Seq<usize>, big: Seq<usize>, i: int, rest: int)
    requires
        small.len() == big.len(),
        small.len() > 0,
        0 <= i,
        0 <= rest < product(big.skip(1)),
    ensures
        source(small, big, (i * product(big.skip(1)) + rest) as nat) == match source(
            small.skip(1),
            big.skip(1),
            rest as nat,
        ) {
            Some(q) if i < small[0] => Some((i * product(small.skip(1)) + q) as nat),
            _ => None,
        },
{
    let block = product(big.skip(1)) as int;
    lemma_fundamental_div_mod_converse(i * block + rest, block, i, rest);
    lemma_mul_nonnegative(i, block);
    lemma_mul_nonnegative(i, product(small.skip(1)) as int);
}

/// The source of an entry of a padded tensor of one dimension.
pub proof fn lemma_source1(small: Seq<usize>, big: Seq<usize>, i: int)
    requires
        small.len() == 1,
        big.len() == 1,
        0 <= i,
    ensures
        source(small, big, i as nat) == if i < small[0] {
            Some(i as nat)
        } else {
            None
        },
{
    assert(product(big.skip(1)) == 1);
    assert(product(small.skip(1)) == 1);
    lemma_source_step(small, big, i, 0);
    assert(i * 1 == i);
}

/// The source of an entry of a padded matrix.
pub proof fn lemma_source2(small: Seq<usize>, big: Seq<usize>, i: int, j: int)
    requires
        small.len() == 2,
        big.len() == 2,
        0 <= i,
        0 <= j < big[1],
    ensures
        source(small, big, (i * big[1] + j) as nat) == if i < small[0] && j < small[1] {
            Some((i * small[1] + j) as nat)
        } else {
            None
        },
{
    lemma_product2(small);
    lemma_product2(big);
    lemma_source1(small.skip(1), big.skip(1), j);
    lemma_source_step(small, big, i, j);
    lemma_mul_nonnegative(i, small[1] as int);
}

/// The source of an entry of a padded tensor of three dimensions.
pub proof fn lemma_source3(small: Seq<usize>, big: Seq<usize>, i: int, j: int, k: int)
    requires
        small.len() == 3,
        big.len() == 3,
        0 <= i,
        0 <= j < big[1],
        0 <= k < big[2],
    ensures
        source(small, big, (i * (big[1] * big[2]) + (j * big[2] + k)) as nat) == if i < small[0]
            && j < small[1] && k < small[2] {
            Some((i * (small[1] * small[2]) + (j * small[2] + k)) as nat)
        } else {
            None
        },
{
    lemma_product3(small);
    lemma_product3(big);
    lemma_flat(j, k, big[1] as int, big[2] as int);
    lemma_source2(small.skip(1), big.skip(1), j, k);
    lemma_source_step(small, big, i, j * big[2] + k);
    lemma_mul_nonnegative(i, small[1] * small[2]);
    lemma_mul_nonnegative(j, small[2] as int);
}

/// The source of an entry of a padded tensor of four dimensions.
pub proof fn lemma_source4(small: Seq<usize>, big: Seq<usize>, h: int, i: int, j: int, k: int)
    requires
        small.len() == 4,
        big.len() == 4,
        0 <= h,
        0 <= i < big[1],
        0 <= j < big[2],
        0 <= k < big[3],
    ensures
        source(
            small,
            big,
            (h * (big[1] * (big[2] * big[3])) + (i * (big[2] * big[3]) + (j * big[3] + k))) as nat,
        ) == if h < small[0] && i < small[1] && j < small[2] && k < small[3] {
            Some(
                (h * (small[1] * (small[2] * small[3])) + (i * (small[2] * small[3]) + (j
                    * small[3] + k))) as nat,
            )
        } else {
            None
        },
{
    lemma_product4(small);
    lemma_product4(big);
    lemma_flat(j, k, big[2] as int, big[3] as int);
    lemma_flat(i, j * big[3] + k, big[1] as int, big[2] * big[3]);
    lemma_source3(small.skip(1), big.skip(1), i, j, k);
    lemma_source_step(small, big, h, i * (big[2] * big[3]) + (j * big[3] + k));
    lemma_mul_nonnegative(h, small[1] * (small[2] * small[3]));
    lemma_mul_nonnegative(i, small[2] * small[3]);
    lemma_mul_nonnegative(j, small[3] as int);
}

/// A convolution of square images with square filters.
pub open spec fn square_conv(x: TensorView<Element>, w: TensorView<Element>) -> bool {
    &&& x.plain()
    &&& x.shape.len() == 3
    &&& x.shape[1] == x.shape[2]
    &&& w.plain()
    &&& w.shape.len() == 4
    &&& w.shape[1] == x.shape[0]
    &&& w.shape[2] == w.shape[3]
    &&& 1 <= w.shape[2] <= x.shape[1]
    &&& pow2_shape_fits(x.shape)
    &&& pow2_shape_fits(w.shape)
}

/// The filter `f` is `w` padded and adapted to the images `x` padded, of the width of which it
/// gives its results.
pub open spec fn adapted(
    f: TensorView<Element>,
    w: TensorView<Element>,
    x: TensorView<Element>,
) -> bool {
    let k = pow2_shape(w.shape);
    let n = pow2_shape(x.shape)[1];
    &&& f.data == padded(w.data, w.shape, k, 0)
    &&& f.og_shape == k
    &&& f.shape == seq![k[0], k[1], n, n]
    &&& k[2] <= n
}

/// The padded images.
pub open spec fn padded_images(x: TensorView<Element>) -> Seq<Element> {
    padded(x.data, x.shape, pow2_shape(x.shape), 0)
}

/// Term by term, the windows over the padded images are those over the images.
proof fn lemma_term(
    x: TensorView<Element>,
    w: TensorView<Element>,
    f: TensorView<Element>,
    o: int,
    r: int,
    c: int,
    j: int,
    u: int,
    v: int,
)
    requires
        square_conv(x, w),
        adapted(f, w, x),
        0 <= o < w.shape[0],
        0 <= r <= x.shape[1] - w.shape[2],
        0 <= c <= x.shape[1] - w.shape[2],
        0 <= j < f.shape[1],
        0 <= u < f.og_shape[2],
        0 <= v < f.og_shape[2],
    ensures
        ({
            let n = f.shape[2] as int;
            let k = f.og_shape[2] as int;
            let k0 = w.shape[2] as int;
            let h = x.shape[1] as int;
            let ch = w.shape[1] as int;
            let t = r * n + c;
            let term = window_terms(f, padded_images(x), o, t, j)(u * k + v);
            if j < ch && u < k0 && v < k0 {
                term == x.data[(j * h + (r + u)) * h + (c + v)] * w.data[o * (ch * (k0 * k0)) + (j
                    * (k0 * k0) + (u * k0 + v))]
            } else {
                term == 0
            }
        }),
{
    let n = f.shape[2] as int;
    let k = f.og_shape[2] as int;
    let k0 = w.shape[2] as int;
    let h = x.shape[1] as int;
    let ch = w.shape[1] as int;
    let kb = pow2_shape(w.shape);
    let xb = pow2_shape(x.shape);
    let t = r * n + c;
    lemma_pow2_shape(w.shape);
    lemma_pow2_shape(x.shape);
    assert(w.shape[2] <= kb[2] && w.shape[1] <= kb[1] && w.shape[0] <= kb[0] && w.shape[3]
        <= kb[3]);
    assert(x.shape[1] <= xb[1] && x.shape[2] <= xb[2] && x.shape[0] <= xb[0]);
    assert(kb[3] == k && xb[2] == n && xb[1] == n);
    // the place in the filter
    lemma_fundamental_div_mod_converse(u * k + v, k, u, v);
    let wplace = (o * f.shape[1] + j) * (k * k) + (u * k + v);
    assert(wplace == o * (kb[1] * (k * k)) + (j * (k * k) + (u * k + v))) by (nonlinear_arith)
        requires
            wplace == (o * f.shape[1] + j) * (k * k) + (u * k + v),
            f.shape[1] == kb[1],
    ;
    lemma_source4(w.shape, kb, o, j, u, v);
    lemma_product4(kb);
    lemma_flat(u, v, k, k);
    lemma_flat(j, u * k + v, kb[1] as int, k * k);
    lemma_flat(o, j * (k * k) + (u * k + v), kb[0] as int, kb[1] * (k * k));
    assert(0 <= wplace < product(kb));
    if j < ch && u < k0 && v < k0 {
        // the place in the image
        let b = u * n + v;
        assert(t + b == (r + u) * n + (c + v)) by (nonlinear_arith)
            requires
                t == r * n + c,
                b == u * n + v,
        ;
        lemma_flat(r + u, c + v, n, n);
        let xplace = j * (n * n) + (t + b);
        lemma_source3(x.shape, xb, j, r + u, c + v);
        lemma_product3(xb);
        lemma_flat(j, t + b, xb[0] as int, n * n);
        assert(0 <= xplace < product(xb)) by {
            assert(xplace < xb[0] * (n * n)) by {
                lemma_pow2_shape_same(x.shape, w.shape);
            }
        }
        assert(padded_images(x)[xplace] == x.data[j * (h * h) + ((r + u) * h + (c + v))]);
        assert(j * (h * h) + ((r + u) * h + (c + v)) == (j * h + (r + u)) * h + (c + v))
            by (nonlinear_arith);
    } else {
        assert(f.data[wplace] == 0);
        let place = j * (n * n) + (t + (u * n + v));
        lemma_mul_basics(padded_images(x)[place] as int);
    }
}

/// The channels of image and filter are padded alike.
proof fn lemma_pow2_shape_same(a: Seq<usize>, b: Seq<usize>)
    requires
        a.len() == 3,
        b.len() == 4,
        b[1] == a[0],
    ensures
        pow2_shape(a)[0] == pow2_shape(b)[1],
{
}

/// On the places that lie in the unpadded result, the windows over the padded images add up to
/// what the convolution of the images does.
pub proof fn law_windows_are_convolution(
    x: TensorView<Element>,
    w: TensorView<Element>,
    f: TensorView<Element>,
    o: int,
    r: int,
    c: int,
)
    requires
        square_conv(x, w),
        adapted(f, w, x),
        0 <= o < w.shape[0],
        0 <= r <= x.shape[1] - w.shape[2],
        0 <= c <= x.shape[1] - w.shape[2],
    ensures
        window_sum(f, padded_images(x), o, r * f.shape[2] + c) == isum(
            filter_len(w),
            conv2d_terms(x, w, 1, 0, o, r, c),
        ),
{
    let n = f.shape[2] as int;
    let k = f.og_shape[2] as int;
    let k0 = w.shape[2] as int;
    let h = x.shape[1] as int;
    let ch = w.shape[1] as int;
    let t = r * n + c;
    let xp = padded_images(x);
    lemma_pow2_shape(w.shape);
    let kb = pow2_shape(w.shape);
    assert(w.shape[2] <= kb[2] && w.shape[1] <= kb[1]);
    let terms = conv2d_terms(x, w, 1, 0, o, r, c);
    let area = k0 * k0;
    lemma_mul_strictly_positive(k0, k0);
    // each channel
    let outer = |j: int| isum((k * k) as nat, window_terms(f, xp, o, t, j));
    let inner = |j: int| isum(area as nat, |q: int| terms(j * area + q));
    assert forall|j: int| 0 <= j < f.shape[1] implies #[trigger] outer(j) == if j < ch {
        inner(j)
    } else {
        0
    } by {
        let g = window_terms(f, xp, o, t, j);
        if j < ch {
            assert forall|b: int|
                0 <= b < k * k && !(b / k < k0 && b % k < k0) implies #[trigger] g(b) == 0 by {
                lemma_split(b, k);
                lemma_term(x, w, f, o, r, c, j, b / k, b % k);
            }
            lemma_square_sum(k0 as nat, k as nat, (k * k) as nat, g);
            let a = |q: int| g((q / k0) * k + q % k0);
            let b = |q: int| terms(j * area + q);
            assert forall|q: int| 0 <= q < area implies #[trigger] a(q) == b(q) by {
                lemma_split(q, k0);
                lemma_term(x, w, f, o, r, c, j, q / k0, q % k0);
                lemma_terms_place(w, j, q);
                lemma_mul_is_commutative(0, x.shape[0] as int);
                assert(0 * x.shape[0] + j == j);
                assert(r * 1 == r && c * 1 == c);
            }
            lemma_isum_eq(area as nat, a, b);
        } else {
            assert forall|b: int| 0 <= b < k * k implies #[trigger] g(b) == 0 by {
                lemma_split(b, k);
                lemma_term(x, w, f, o, r, c, j, b / k, b % k);
            }
            lemma_isum_truncate((k * k) as nat, 0, g);
        }
    }
    let outer0 = |j: int|
        if j < ch {
            inner(j)
        } else {
            0
        };
    lemma_isum_eq(f.shape[1] as nat, outer, outer0);
    lemma_isum_truncate(f.shape[1] as nat, ch as nat, outer0);
    lemma_isum_eq(ch as nat, outer0, inner);
    lemma_isum_blocks(ch as nat, area as nat, terms, inner);
}

pub proof fn lemma_split(b: int, k: int)
    requires
        0 <= b < k * k,
        k >= 0,
    ensures
        k > 0,
        0 <= b / k < k,
        0 <= b % k < k,
        (b / k) * k + b % k == b,
{
    assert(k > 0) by (nonlinear_arith)
        requires
            0 <= b < k * k,
            k >= 0,
    ;
    lemma_div_lt(b as nat, k as nat, k as nat);
    lemma_div_pos_is_pos(b, k);
    lemma_mod_bound(b, k);
    lemma_fundamental_div_mod(b, k);
    lemma_mul_is_commutative(k, b / k);
}

/// Taking apart the number of an entry of a filter.
proof fn lemma_terms_place(w: TensorView<Element>, j: int, q: int)
    requires
        w.shape.len() == 4,
        w.shape[2] == w.shape[3],
        0 <= j,
        0 <= q < w.shape[2] * w.shape[2],
    ensures
        ({
            let k0 = w.shape[2] as int;
            let area = k0 * k0;
            &&& (j * area + q) / area == j
            &&& ((j * area + q) / k0) % k0 == q / k0
            &&& (j * area + q) % k0 == q % k0
        }),
{
    let k0 = w.shape[2] as int;
    let area = k0 * k0;
    lemma_split(q, k0);
    lemma_fundamental_div_mod_converse(j * area + q, area, j, q);
    let u = q / k0;
    let v = q % k0;
    // j k0 k0 + u k0 + v = (j k0 + u) k0 + v
    assert(j * area + q == (j * k0 + u) * k0 + v) by (nonlinear_arith)
        requires
            area == k0 * k0,
            u * k0 + v == q,
    ;
    lemma_fundamental_div_mod_converse((j * k0 + u) * k0 + v, k0, j * k0 + u, v);
    lemma_fundamental_div_mod_converse(j * k0 + u, k0, j, u);
}

/// The layer that is padded and adapted gives, for the padded images, the convolution of the
/// images with the filters, plus the bias, on the places of the unpadded result, and zeros on all
/// others. The sums must be small against the prime.
pub proof fn law_convolution(
    conv: Convolution<Element>,
    x: TensorView<Element>,
    w: TensorView<Element>,
    bias: TensorView<Element>,
    xp: TensorView<Element>,
    o: int,
    r: int,
    c: int,
)
    requires
        square_conv(x, w),
        adapted(conv.filter@, w, x),
        conv.unpadded_shape@ == w.shape,
        conv_ready(conv, xp, x.shape),
        xp == tensor(pow2_shape(x.shape), padded_images(x)),
        forall|i: int| 0 <= i < w.shape[0] ==> conv.bias@.data[i] == #[trigger] bias.data[i],
        0 <= o < conv.filter@.shape[0],
        0 <= r < conv.filter@.shape[2],
        0 <= c < conv.filter@.shape[2],
        conv_fits(conv, xp),
    ensures
        ({
            let n = conv.filter@.shape[2] as int;
            let d = x.shape[1] - w.shape[2] + 1;
            let y = conv_result(conv, xp, x.shape).data[o * (n * n) + (r * n + c)];
            let sum = isum(filter_len(w), conv2d_terms(x, w, 1, 0, o, r, c));
            if o < w.shape[0] && r < d && c < d {
                -(modulus() / 2) <= sum <= modulus() / 2 ==> y == sum + bias.data[o] && y
                    == conv2d_entry(x, w, bias, 1, o * (d * d) + (r * d + c))
            } else {
                y == 0
            }
        }),
{
    let f = conv.filter@;
    let n = f.shape[2] as int;
    let n2 = n * n;
    let d = x.shape[1] - w.shape[2] + 1;
    let t = o * n2 + (r * n + c);
    let shape = seq![f.shape[0], f.shape[2], f.shape[2]];
    let og = conv_shape(x.shape, w.shape);
    lemma_flat(r, c, n, n);
    lemma_flat(o, r * n + c, f.shape[0] as int, n2);
    lemma_fundamental_div_mod_converse(t, n2, o, r * n + c);
    // the coordinates of the place
    assert((t / n) % n == r && t % n == c) by {
        assert(t == (o * n + r) * n + c) by (nonlinear_arith)
            requires
                t == o * n2 + (r * n + c),
                n2 == n * n,
        ;
        lemma_fundamental_div_mod_converse(t, n, o * n + r, c);
        lemma_fundamental_div_mod_converse(o * n + r, n, o, r);
    }
    assert(og.len() == 3 && shape.len() == 3);
    assert(inside(shape, og, t) == (o < w.shape[0] && r < d && c < d));
    assert(fits(conv_entry(conv, xp, t)));
    if o < w.shape[0] && r < d && c < d {
        law_windows_are_convolution(x, w, f, o, r, c);
        let sum = isum(filter_len(w), conv2d_terms(x, w, 1, 0, o, r, c));
        assert(conv_entry(conv, xp, t) == centered(sum) + conv.bias@.data[o]);
        assert(conv.bias@.data[o] == bias.data[o]);
        if -(modulus() / 2) <= sum <= modulus() / 2 {
            law_centered(sum);
            let s = o * (d * d) + (r * d + c);
            let out = conv2d_out(x, w, 1);
            assert(out[2] == d && out[3] == d && out[1] == w.shape[0]) by {
                lemma_div_basics(x.shape[1] - w.shape[2]);
            }
            lemma_flat(r, c, d, d);
            lemma_flat(o, r * d + c, w.shape[0] as int, d * d);
            lemma_fundamental_div_mod_converse(s, d * d, o, r * d + c);
            assert(s == (o * d + r) * d + c) by (nonlinear_arith)
                requires
                    s == o * (d * d) + (r * d + c),
            ;
            lemma_fundamental_div_mod_converse(s, d, o * d + r, c);
            lemma_fundamental_div_mod_converse(o * d + r, d, o, r);
            lemma_small_mod(o as nat, w.shape[0] as nat);
            lemma_basic_div(s, w.shape[0] * (d * d));
        }
    }
}

/// For inputs and filters in the range of quantised values and a bias of twice the bits, the
/// result of a convolution stays in the range that the layer states.
pub proof fn law_output_range(
    x: TensorView<Element>,
    w: TensorView<Element>,
    bias: int,
    o: int,
    r: int,
    c: int,
)
    requires
        square_conv(x, w),
        0 <= o < w.shape[0],
        0 <= r <= x.shape[1] - w.shape[2],
        0 <= c <= x.shape[1] - w.shape[2],
        forall|i: int| 0 <= i < x.data.len() ==> MIN <= #[trigger] x.data[i] <= MAX,
        forall|i: int| 0 <= i < w.data.len() ==> MIN <= #[trigger] w.data[i] <= MAX,
        -32768 < bias < 32768,
    ensures
        ({
            let sum = isum(filter_len(w), conv2d_terms(x, w, 1, 0, o, r, c)) + bias;
            let bound = pow2((2 * BIT_LEN + clog2(filter_len(w) + 1)) as nat);
            -bound <= sum <= bound
        }),
{
    let terms = conv2d_terms(x, w, 1, 0, o, r, c);
    let len = filter_len(w);
    let k0 = w.shape[2] as int;
    let ch = w.shape[1] as int;
    lemma_product4(w.shape);
    lemma_product3(x.shape);
    assert forall|q: int| 0 <= q < len implies -16129 <= #[trigger] terms(q) <= 16129 by {
        let h = x.shape[1] as int;
        assert(window_places(h, k0, 1) == h - k0 + 1) by {
            lemma_div_basics(h - k0);
        }
        lemma_conv_index(1, ch, h, h, k0, k0, 1, 0, r, c, q);
        lemma_flat(o, q, w.shape[0] as int, len as int);
        let xi = ((0 * ch + q / (k0 * k0)) * h + (r * 1 + (q / k0) % k0)) * h + (c * 1 + q % k0);
        let wi = o * (ch * (k0 * k0)) + q;
        lemma_mul_basics(ch * (h * h));
        assert(0 <= xi < x.data.len());
        assert(0 <= wi < w.data.len());
        let a = x.data[xi] as int;
        let b = w.data[wi] as int;
        assert(MIN <= x.data[xi] <= MAX);
        assert(MIN <= w.data[wi] <= MAX);
        assert(-16129 <= a * b <= 16129) by (nonlinear_arith)
            requires
                -127 <= a <= 127,
                -127 <= b <= 127,
        ;
    }
    lemma_isum_bound(len, terms, 16129);
    lemma_clog2(len + 1);
    lemma_pow2_adds(16, clog2(len + 1));
    lemma2_to64();
    let p = pow2(clog2(len + 1)) as int;
    assert(len * 16129 + 32768 <= 65536 * p) by (nonlinear_arith)
        requires
            len + 1 <= p,
            len >= 0,
    ;
}

/// A power of two, less a smaller one, plus one, is raised to the former.
pub proof fn lemma_width(x: nat, k: nat)
    requires
        is_pow2(x),
        is_pow2(k),
        k < x || k == 1,
        k <= x,
    ensures
        npow2((x - k + 1) as nat) == x,
{
    let m = (x - k + 1) as nat;
    let e = choose|e: nat| x == #[trigger] pow2(e);
    let a = choose|a: nat| k == #[trigger] pow2(a);
    lemma_npow2(m);
    lemma_pow2_zero();
    let b = choose|b: nat| npow2(m) == #[trigger] pow2(b);
    lemma_pow2_pos(a);
    assert(m <= pow2(e));
    assert(pow2(b) <= pow2(e));
    if b < e {
        let h = (e - 1) as nat;
        lemma_pow2_step(h);
        lemma_pow2_mono(b, h);
        // k is at most half of x
        assert(k <= pow2(h)) by {
            if a > h {
                lemma_pow2_mono(e, a);
            } else {
                lemma_pow2_mono(a, h);
            }
        }
    } else {
        lemma_pow2_mono(e, b);
    }
}

/// The width of an adapted layer is that of the padded images, wherever the layer can run.
pub proof fn lemma_adapted_width(c: Convolution<Element>, s: Seq<usize>, conv: Convolution<Element>)
    requires
        can_adapt(c, s),
        is_adapted(c, s, conv),
        fft_filter(conv.filter@),
    ensures
        conv.filter@.shape[2] == pow2_shape(s)[1],
        npow2((conv.filter@.shape[2] - conv.filter@.og_shape[2] + 1) as nat)
            == conv.filter@.shape[2],
        npow2(conv.filter@.og_shape[0] as nat) == conv.filter@.og_shape[0],
        conv.filter@.og_shape[2] > 0,
{
    let k = conv.filter@.og_shape;
    let n = conv.filter@.shape[2];
    let w = pow2_shape(s)[1];
    assert(npow2(s[1] as nat) <= usize::MAX);
    lemma_npow2(s[1] as nat);
    assert(npow2(c.filter@.shape[0] as nat) <= usize::MAX);
    assert(npow2(c.filter@.shape[2] as nat) <= usize::MAX);
    lemma_npow2(c.filter@.shape[0] as nat);
    lemma_npow2(c.filter@.shape[2] as nat);
    lemma_npow2_of_pow2(clog2(c.filter@.shape[0] as nat));
    assert(is_pow2(w as nat) && is_pow2(k[2] as nat));
    if k[2] == w {
        // then the width is one, and so is that of the filters
        lemma_pow2_zero();
        lemma_npow2_of_pow2(0);
        assert((w - k[2] + 1) as nat == pow2(0));
        assert(n == 1);
        assert(k[2] == 1);
    }
    lemma_width(w as nat, k[2] as nat);
}

/// The output of a convolution that is padded and adapted has the shape that is told from that of
/// the padded input and that of the padded filters, and it is what clearing the results before
/// clearing gives.
pub proof fn law_convolution_output(
    c: Convolution<Element>,
    s: Seq<usize>,
    conv: Convolution<Element>,
    x: TensorView<Element>,
)
    requires
        can_adapt(c, s),
        is_adapted(c, s, conv),
        conv_ready(conv, x, s),
    ensures
        ({
            let out = conv_result(conv, x, s);
            let k = conv.filter@.og_shape;
            &&& conv_mode_ok(x.shape, k, PaddingMode::Padding)
            &&& out.shape == conv_shape_in(x.shape, k, PaddingMode::Padding)
            &&& out == tensor(
                out.shape,
                cleared(
                    tensor(out.shape, conv_entries(conv, x)).data,
                    out.shape,
                    without_batch(conv_shape(s, conv.unpadded_shape@)),
                ),
            )
        }),
{
    let f = conv.filter@;
    let k = f.og_shape;
    let n = f.shape[2];
    lemma_adapted_width(c, s, conv);
    let d = conv_shape(x.shape, k);
    assert(d =~= seq![k[0], (n - k[2] + 1) as usize, (n - k[2] + 1) as usize]);
    assert(pow2_shape(d) =~= seq![f.shape[0], n, n]);
    assert(conv_result(conv, x, s).shape =~= pow2_shape(d));
}

/// Padding and adapting a layer, padding the images and running the layer on them gives, on the
/// places of the unpadded result, the convolution of the images, entry by entry, and zeros on all
/// others. The sums must be small against the prime.
pub proof fn law_padded_convolution(
    c: Convolution<Element>,
    x: TensorView<Element>,
    conv: Convolution<Element>,
    xp: TensorView<Element>,
    o: int,
    i: int,
    j: int,
)
    requires
        square_conv(x, c.filter@),
        c.bias@.shape.len() == 1,
        c.filter@.shape[0] == c.bias@.shape[0],
        c.unpadded_shape@ == c.filter@.shape,
        can_adapt(c, x.shape),
        is_adapted(c, x.shape, conv),
        xp == tensor(pow2_shape(x.shape), padded(x.data, x.shape, pow2_shape(x.shape), 0)),
        conv_ready(conv, xp, x.shape),
        conv_fits(conv, xp),
        conv2d_fits(x, c.filter@, c.bias@),
        0 <= o < conv.filter@.shape[0],
        0 <= i < conv.filter@.shape[2],
        0 <= j < conv.filter@.shape[2],
        -(modulus() / 2) <= isum(
            filter_len(c.filter@),
            conv2d_terms(x, c.filter@, 1, 0, o, i, j),
        ) <= modulus() / 2,
    ensures
        ({
            let n = conv.filter@.shape[2] as int;
            let d = x.shape[1] - c.filter@.shape[2] + 1;
            let y = conv_result(conv, xp, x.shape).data[o * (n * n) + (i * n + j)];
            if o < c.filter@.shape[0] && i < d && j < d {
                y == conv2d_result(x, c.filter@, c.bias@).data[o * (d * d) + (i * d + j)]
            } else {
                y == 0
            }
        }),
{
    let w = c.filter@;
    let b = c.bias@;
    lemma_adapted_width(c, x.shape, conv);
    assert(adapted(conv.filter@, w, x));
    // the bias is followed by zeros
    assert(npow2(b.shape[0] as nat) <= usize::MAX);
    lemma_npow2(b.shape[0] as nat);
    lemma_product1(b.shape);
    lemma_product1(pow2_shape(b.shape));
    assert forall|q: int| 0 <= q < w.shape[0] implies conv.bias@.data[q]
        == #[trigger] b.data[q] by {
        lemma_source1(b.shape, pow2_shape(b.shape), q);
    }
    law_convolution(conv, x, w, b, xp, o, i, j);
    let d = x.shape[1] - w.shape[2] + 1;
    if o < w.shape[0] && i < d && j < d {
        let t = o * (d * d) + (i * d + j);
        let out = conv2d_out(x, w, 1);
        assert(out[2] == d && out[3] == d && out[1] == w.shape[0] && out[0] == 1) by {
            lemma_div_basics(x.shape[1] - w.shape[2]);
        }
        lemma_flat(i, j, d, d);
        lemma_flat(o, i * d + j, w.shape[0] as int, d * d);
        let total = out[0] * (out[1] * (out[2] * out[3]));
        lemma_mul_basics(w.shape[0] * (d * d));
        assert(total == w.shape[0] * (d * d));
        assert(0 <= t < total);
        assert(conv2d_entry_fits(x, w, b, 1, t));
        assert(conv2d_result(x, w, b).data[t] == conv2d_entry(x, w, b, 1, t) as i128);
    }
}

} // verus!
