//! Convolution by Fourier transforms.
//!
//! The rows of an image and of a filter are laid out one after the other, the filter's with as
//! many entries as the image's. Then the convolution is a product of polynomials, one of them
//! reversed, and the Fourier transform computes it.
use crate::arith::{
    flog2, is_pow2, lemma_div_lt, lemma_flog2_pow2, lemma_pow2_mono, lemma_pow2_step,
    next_power_of_two, npow2,
};
use crate::fft::{fft, fft_of, fmul_seq, ifft_of, law_fft_product, omega};
use crate::field::{
    Fe, GoldilocksExt2, fadd, fint, finv, fmul, fpow, fsum, fviews, fviews2, fzero, lemma_fint,
    lemma_fmul_comm, lemma_fmul_zero, lemma_fsum_eq, lemma_fsum_scale, lemma_fsum_swap, modulus,
};
use crate::ops::lemma_flat;
use crate::quantization::{Element, centered, fints, to_element, to_field};
use crate::shape::lemma_product3;
use crate::sums::{isum, lemma_fint_isum, lemma_isum_blocks, lemma_isum_eq, lemma_isum_truncate};
use crate::tensor::{Tensor, TensorView, to_fields};
use vstd::arithmetic::div_mod::*;
use vstd::arithmetic::mul::*;
use vstd::arithmetic::power2::*;
use vstd::prelude::*;
use vstd::slice::slice_to_vec;

verus! {

/// What a convolution keeps for its proof.
#[derive(Clone, Debug)]
pub struct ConvData {
    /// The entries of the input.
    pub real_input: Vec<GoldilocksExt2>,
    /// The channels of the input, reversed.
    pub input: Vec<Vec<GoldilocksExt2>>,
    /// The transforms of the channels of the input.
    pub input_fft: Vec<Vec<GoldilocksExt2>>,
    /// The transforms of the channels of the output.
    pub prod: Vec<Vec<GoldilocksExt2>>,
    /// The channels of the output, as they come out of the inverse transform.
    pub output: Vec<Vec<GoldilocksExt2>>,
    /// The entries of the output, with the bias added.
    pub output_as_element: Vec<Element>,
}

/// A filter that has been adapted to the convolution by transforms: its shape gives the number of
/// filters, that of channels, and the width of the images, a power of two; its entries have the
/// shape of the filter itself.
pub open spec fn fft_filter(f: TensorView<Element>) -> bool {
    &&& f.shape.len() == 4
    &&& f.og_shape.len() == 4
    &&& f.og_shape[0] == f.shape[0]
    &&& f.og_shape[1] == f.shape[1]
    &&& f.og_shape[2] == f.og_shape[3]
    &&& f.shape[2] == f.shape[3]
    &&& f.data.len() == f.shape[0] * (f.shape[1] * (f.og_shape[2] * f.og_shape[2]))
    &&& is_pow2(f.shape[2] as nat)
    &&& f.og_shape[2] <= f.shape[2]
    &&& flog2(f.shape[2] as nat) <= 15
}

/// An image that goes with the filter.
pub open spec fn fft_input(f: TensorView<Element>, x: TensorView<Element>) -> bool {
    &&& x.plain()
    &&& x.shape.len() == 3
    &&& x.shape[0] == f.shape[1]
    &&& x.shape[1] == f.shape[2]
    &&& x.shape[2] == f.shape[2]
}

/// The entries of `w`, a square of width `n_real`, laid out in rows of `n` entries, filled up with
/// zeros.
pub open spec fn laid_out(w: Seq<Fe>, n_real: int, n: int, len: nat) -> Seq<Fe> {
    Seq::new(
        len,
        |b: int|
            if b / n < n_real && b % n < n_real {
                w[(b / n) * n_real + b % n]
            } else {
                fzero()
            },
    )
}

/// The part of `s` of `len` entries that starts at `start`.
pub open spec fn part<T>(s: Seq<T>, start: int, len: nat) -> Seq<T> {
    Seq::new(len, |t: int| s[start + t])
}

/// Channel `j` of the input, reversed and filled up with zeros to twice the length.
pub open spec fn input_poly(x: Seq<Element>, n: int, j: int) -> Seq<Fe> {
    Seq::new(
        (2 * (n * n)) as nat,
        |t: int|
            if t < n * n {
                fint(x[j * (n * n) + (n * n - 1 - t)] as int)
            } else {
                fzero()
            },
    )
}

/// Channel `j` of the input, reversed.
pub open spec fn reversed_input(x: Seq<Element>, n: int, j: int) -> Seq<Fe> {
    Seq::new((n * n) as nat, |t: int| fint(x[j * (n * n) + (n * n - 1 - t)] as int))
}

/// Channel `j` of filter `i`, laid out in the rows of the image.
pub open spec fn filter_poly(f: TensorView<Element>, i: int, j: int) -> Seq<Fe> {
    let k = f.og_shape[2] as int;
    let n = f.shape[2] as int;
    laid_out(
        fints(part(f.data, (i * f.shape[1] + j) * (k * k), (k * k) as nat)),
        k,
        n,
        (2 * (n * n)) as nat,
    )
}

/// The base-two logarithm of the size of the transforms.
pub open spec fn log_size(f: TensorView<Element>) -> nat {
    flog2((2 * (f.shape[2] * f.shape[2])) as nat)
}

/// The product of the transforms of channel `j` of the input and of filter `i`.
pub open spec fn channel_prod(f: TensorView<Element>, x: Seq<Element>, i: int, j: int) -> Seq<Fe> {
    fmul_seq(
        fft_of(input_poly(x, f.shape[2] as int, j), log_size(f)),
        fft_of(filter_poly(f, i, j), log_size(f)),
    )
}

/// The transform of channel `i` of the output.
pub open spec fn output_prod(f: TensorView<Element>, x: Seq<Element>, i: int) -> Seq<Fe> {
    Seq::new(
        (2 * (f.shape[2] * f.shape[2])) as nat,
        |t: int| fsum(f.shape[1] as nat, |j: int| channel_prod(f, x, i, j)[t]),
    )
}

/// The terms that channel `j` adds to the output of filter `i` at place `t`, one for each entry of
/// the filter. Windows run on from the end of a row into the next one, and beyond the image there
/// are zeros.
pub open spec fn window_terms(
    f: TensorView<Element>,
    x: Seq<Element>,
    i: int,
    t: int,
    j: int,
) -> spec_fn(int) -> int {
    let k = f.og_shape[2] as int;
    let n = f.shape[2] as int;
    |q: int|
        if t + ((q / k) * n + q % k) < n * n {
            x[j * (n * n) + (t + ((q / k) * n + q % k))] * f.data[(i * f.shape[1] + j) * (k * k)
                + q]
        } else {
            0
        }
}

/// What the windows at place `t` of the image add up to for filter `i`.
pub open spec fn window_sum(f: TensorView<Element>, x: Seq<Element>, i: int, t: int) -> int {
    let k = f.og_shape[2] as int;
    isum(f.shape[1] as nat, |j: int| isum((k * k) as nat, window_terms(f, x, i, t, j)))
}

/// What a convolution keeps of its input and of the products.
pub open spec fn conv_data_is(
    f: TensorView<Element>,
    x: TensorView<Element>,
    d: ConvData,
) -> bool {
    let n = f.shape[2] as int;
    &&& fviews(d.real_input@) == fints(x.data)
    &&& fviews2(d.input@) == Seq::new(
        f.shape[1] as nat,
        |j: int| reversed_input(x.data, n, j),
    )
    &&& fviews2(d.input_fft@) == Seq::new(
        f.shape[1] as nat,
        |j: int| fft_of(input_poly(x.data, n, j), log_size(f)),
    )
    &&& fviews2(d.prod@) == Seq::new(f.shape[0] as nat, |i: int| output_prod(f, x.data, i))
    &&& fviews2(d.output@) == Seq::new(
        f.shape[0] as nat,
        |i: int| ifft_of(output_prod(f, x.data, i), log_size(f)),
    )
}

// ---------------------------------------------------------------------------------------
// The transforms compute the windows
// ---------------------------------------------------------------------------------------

/// The inverse transform of a sum is the sum of the inverse transforms.
proof fn lemma_ifft_sum(
    n: nat,
    c: nat,
    a: spec_fn(int) -> Seq<Fe>,
    s: Seq<Fe>,
    m: int,
)
    requires
        s.len() == pow2(n),
        0 <= m < pow2(n),
        forall|j: int| 0 <= j < c ==> (#[trigger] a(j)).len() == pow2(n),
        forall|t: int|
            0 <= t < pow2(n) ==> #[trigger] s[t] == fsum(c, |j: int| a(j)[t]),
    ensures
        ifft_of(s, n)[m] == fsum(c, |j: int| ifft_of(a(j), n)[m]),
{
    let w = finv(omega(n));
    let scale = finv(fint(pow2(n) as int));
    let len = pow2(n);
    let pw = |t: int| fpow(w, (t * (m as nat)) as nat);
    let fs = |t: int| fmul(s[t], pw(t));
    let term = |t: int, j: int| fmul(a(j)[t], pw(t));
    let fs2 = |t: int| fsum(c, |j: int| term(t, j));
    assert forall|t: int| 0 <= t < len implies #[trigger] fs(t) == fs2(t) by {
        let col = |j: int| a(j)[t];
        lemma_fsum_scale(c, pw(t), col);
        let x = |j: int| fmul(pw(t), col(j));
        let y = |j: int| term(t, j);
        assert forall|j: int| 0 <= j < c implies #[trigger] x(j) == y(j) by {
            lemma_fmul_comm(pw(t), col(j));
        }
        lemma_fsum_eq(c, x, y);
        lemma_fmul_comm(s[t], pw(t));
        assert(s[t] == fsum(c, |j: int| a(j)[t]));
    }
    lemma_fsum_eq(len, fs, fs2);
    lemma_fsum_swap(len, c, term);
    let per = |j: int| fsum(len, |t: int| term(t, j));
    lemma_fsum_scale(c, scale, per);
    let lhs = |j: int| fmul(scale, per(j));
    let rhs = |j: int| ifft_of(a(j), n)[m];
    assert forall|j: int| 0 <= j < c implies #[trigger] lhs(j) == rhs(j) by {
        assert(a(j).len() == len);
        assert((|i: int| fmul(a(j)[i], fpow(w, (i * (m as nat)) as nat))) =~= (|t: int|
            term(t, j)));
    }
    lemma_fsum_eq(c, lhs, rhs);
    assert((|i: int| fmul(s[i], fpow(w, (i * (m as nat)) as nat))) =~= fs);
}

/// The size of the transforms is a power of two that they can handle.
pub proof fn lemma_size(f: TensorView<Element>)
    requires
        fft_filter(f),
    ensures
        ({
            let n = f.shape[2] as int;
            &&& n > 0
            &&& n <= 32768
            &&& 2 * (n * n) == pow2(log_size(f))
            &&& log_size(f) == 2 * flog2(n as nat) + 1
            &&& log_size(f) <= 31
            &&& is_pow2((2 * (n * n)) as nat)
            &&& n == pow2(flog2(n as nat))
            &&& 0 < n * n <= 1073741824
        }),
{
    let n = f.shape[2] as nat;
    let e = choose|e: nat| n == #[trigger] pow2(e);
    lemma_flog2_pow2(e);
    lemma_pow2_adds(e, e);
    lemma_pow2_step(e + e);
    lemma_flog2_pow2(e + e + 1);
    lemma_pow2_pos(e);
    lemma2_to64();
    lemma_pow2_mono(e, 15);
    lemma_pow2_mono(e + e, 30);
    lemma_pow2_pos(e + e);
    assert(pow2(30) == 1073741824);
}

/// Summing over all places of the rows, the entries of a square laid out in them are those that
/// count.
pub proof fn lemma_square_sum(k: nat, n: nat, len: nat, g: spec_fn(int) -> int)
    requires
        k <= n,
        n * n <= len,
        n > 0,
        forall|b: int|
            0 <= b < len && !(b / (n as int) < k && b % (n as int) < k) ==> #[trigger] g(b) == 0,
    ensures
        isum(len, g) == isum(k * k, |q: int| g((q / (k as int)) * n + q % (k as int))),
{
    let ni = n as int;
    // beyond the first n * n places nothing counts
    assert forall|b: int| n * n <= b < len implies #[trigger] g(b) == 0 by {
        lemma_div_ge(b, ni, ni);
    }
    lemma_isum_truncate(len, n * n, g);
    // row by row
    let row = |u: int| isum(n, |v: int| g(u * n + v));
    lemma_isum_blocks(n, n, g, row);
    let short = |u: int| isum(k, |v: int| g(u * n + v));
    assert forall|u: int| 0 <= u < n implies #[trigger] row(u) == if u < k {
        short(u)
    } else {
        0
    } by {
        let r = |v: int| g(u * n + v);
        assert forall|v: int| 0 <= v < n && !(u < k && v < k) implies #[trigger] r(v) == 0 by {
            lemma_flat(u, v, ni, ni);
            lemma_fundamental_div_mod_converse(u * n + v, ni, u, v);
            assert(u * n + v < len);
            assert(g(u * n + v) == 0);
        }
        if u < k {
            lemma_isum_truncate(n, k, r);
        } else {
            lemma_isum_truncate(n, 0, r);
        }
    }
    let row0 = |u: int|
        if u < k {
            short(u)
        } else {
            0
        };
    lemma_isum_eq(n, row, row0);
    lemma_isum_truncate(n, k, row0);
    lemma_isum_eq(k, row0, short);
    let h = |q: int| g((q / (k as int)) * n + q % (k as int));
    assert forall|u: int| 0 <= u < k implies #[trigger] short(u) == isum(k, |v: int| h(u * k + v)) by {
        let a = |v: int| g(u * n + v);
        let b = |v: int| h(u * k + v);
        assert forall|v: int| 0 <= v < k implies #[trigger] a(v) == b(v) by {
            lemma_fundamental_div_mod_converse(u * k + v, k as int, u, v);
        }
        lemma_isum_eq(k, a, b);
    }
    lemma_isum_blocks(k, k, h, short);
}

proof fn lemma_div_ge(b: int, n: int, m: int)
    requires
        n > 0,
        b >= n * m,
    ensures
        b / n >= m,
{
    lemma_fundamental_div_mod(b, n);
    lemma_mod_bound(b, n);
    let q = b / n;
    if q < m {
        assert(n * q + n <= n * m) by (nonlinear_arith)
            requires
                q + 1 <= m,
                n > 0,
        ;
    }
}

/// The product of the transforms of one channel gives the windows over that channel.
proof fn lemma_channel(f: TensorView<Element>, x: TensorView<Element>, i: int, j: int, t: int)
    requires
        fft_filter(f),
        fft_input(f, x),
        0 <= i < f.shape[0],
        0 <= j < f.shape[1],
        0 <= t < f.shape[2] * f.shape[2],
    ensures
        ({
            let n = f.shape[2] as int;
            let k = f.og_shape[2] as int;
            ifft_of(channel_prod(f, x.data, i, j), log_size(f))[n * n - 1 - t] == fint(
                isum((k * k) as nat, window_terms(f, x.data, i, t, j)),
            )
        }),
{
    let n = f.shape[2] as int;
    let k = f.og_shape[2] as int;
    let n2 = n * n;
    let len = (2 * n2) as nat;
    lemma_size(f);
    let a = input_poly(x.data, n, j);
    let w = filter_poly(f, i, j);
    let m = n2 - 1 - t;
    law_fft_product(a, w, log_size(f), m);
    assert(a.len() == len && w.len() == len);
    let start = (i * f.shape[1] + j) * (k * k);
    let g = |b: int|
        if b / n < k && b % n < k && t + b < n2 {
            x.data[j * n2 + (t + b)] * f.data[start + ((b / n) * k + b % n)]
        } else {
            0
        };
    let c = |b: int| fmul(a[(m - b) % (len as int)], w[b]);
    assert forall|b: int| 0 <= b < len implies #[trigger] c(b) == fint(g(b)) by {
        lemma_cyclic_term(f, x.data, i, j, t, b);
    }
    lemma_fint_isum(len, g, c);
    assert((|b: int| fmul(a[(m - b) % (a.len() as int)], w[b])) =~= c);
    lemma_square_sum(k as nat, n as nat, len, g);
    let terms = window_terms(f, x.data, i, t, j);
    let h = |q: int| g((q / k) * n + q % k);
    assert forall|q: int| 0 <= q < k * k implies #[trigger] h(q) == terms(q) by {
        lemma_square_place(k, n, q);
    }
    lemma_isum_eq((k * k) as nat, h, terms);
    assert((|q: int| g((q / (k as int)) * n + q % (k as int))) =~= h);
}

/// An entry of a square, and its place in rows that are longer.
proof fn lemma_square_place(k: int, n: int, q: int)
    requires
        0 <= q < k * k,
        0 <= k <= n,
        n > 0,
    ensures
        k > 0,
        0 <= q / k < k,
        0 <= q % k < k,
        ((q / k) * n + q % k) / n == q / k,
        ((q / k) * n + q % k) % n == q % k,
        (q / k) * k + q % k == q,
        0 <= (q / k) * n + q % k,
{
    assert(k > 0) by (nonlinear_arith)
        requires
            0 <= q < k * k,
            k >= 0,
    ;
    lemma_div_lt(q as nat, k as nat, k as nat);
    lemma_div_pos_is_pos(q, k);
    lemma_mod_bound(q, k);
    lemma_fundamental_div_mod(q, k);
    lemma_mul_is_commutative(k, q / k);
    lemma_fundamental_div_mod_converse((q / k) * n + q % k, n, q / k, q % k);
    lemma_mul_nonnegative(q / k, n);
}

proof fn lemma_cyclic_term(f: TensorView<Element>, x: Seq<Element>, i: int, j: int, t: int, b: int)
    requires
        fft_filter(f),
        0 <= t < f.shape[2] * f.shape[2],
        0 <= b < 2 * (f.shape[2] * f.shape[2]),
    ensures
        ({
            let n = f.shape[2] as int;
            let k = f.og_shape[2] as int;
            let n2 = n * n;
            let start = (i * f.shape[1] + j) * (k * k);
            fmul(
                input_poly(x, n, j)[(n2 - 1 - t - b) % (2 * n2)],
                filter_poly(f, i, j)[b],
            ) == fint(
                if b / n < k && b % n < k && t + b < n2 {
                    x[j * n2 + (t + b)] * f.data[start + ((b / n) * k + b % n)]
                } else {
                    0
                },
            )
        }),
{
    let n = f.shape[2] as int;
    let k = f.og_shape[2] as int;
    let n2 = n * n;
    let start = (i * f.shape[1] + j) * (k * k);
    let a = input_poly(x, n, j);
    let w = filter_poly(f, i, j);
    let d = n2 - 1 - t - b;
    lemma_size(f);
    lemma_fint(0, 0);
    if b / n < k && b % n < k {
        // b lies in the first n * n places
        assert(b < n2) by {
            if b >= n2 {
                lemma_div_ge(b, n, n);
            }
        }
        let place = (b / n) * k + b % n;
        lemma_div_pos_is_pos(b, n);
        lemma_mod_bound(b, n);
        lemma_flat(b / n, b % n, k, k);
        assert(w[b] == fint(f.data[start + place] as int));
        if t + b < n2 {
            lemma_small_mod(d as nat, (2 * n2) as nat);
            assert(a[d] == fint(x[j * n2 + (t + b)] as int));
            lemma_fint(x[j * n2 + (t + b)] as int, f.data[start + place] as int);
        } else {
            // d is negative: the place is in the half of the zeros
            lemma_mod_add_multiples_vanish(d, 2 * n2);
            lemma_small_mod((d + 2 * n2) as nat, (2 * n2) as nat);
            assert(a[d + 2 * n2] == fzero());
            lemma_fmul_zero(w[b]);
        }
    } else {
        assert(w[b] == fzero());
        lemma_fmul_zero(a[d % (2 * n2)]);
    }
}

/// The inverse transform of the sum of the products of the transforms holds, in reverse order, the
/// sums over the windows.
pub proof fn law_fft_windows(f: TensorView<Element>, x: TensorView<Element>, i: int, t: int)
    requires
        fft_filter(f),
        fft_input(f, x),
        0 <= i < f.shape[0],
        0 <= t < f.shape[2] * f.shape[2],
    ensures
        ifft_of(output_prod(f, x.data, i), log_size(f))[f.shape[2] * f.shape[2] - 1 - t] == fint(
            window_sum(f, x.data, i, t),
        ),
{
    let n = f.shape[2] as int;
    let k = f.og_shape[2] as int;
    let c = f.shape[1] as nat;
    lemma_size(f);
    let a = |j: int| channel_prod(f, x.data, i, j);
    let s = output_prod(f, x.data, i);
    let m = n * n - 1 - t;
    assert forall|tt: int| 0 <= tt < pow2(log_size(f)) implies #[trigger] s[tt] == fsum(
        c,
        |j: int| a(j)[tt],
    ) by {
        assert((|j: int| a(j)[tt]) =~= (|j: int| channel_prod(f, x.data, i, j)[tt]));
    }
    lemma_ifft_sum(log_size(f), c, a, s, m);
    let g = |j: int| ifft_of(a(j), log_size(f))[m];
    let h = |j: int| isum((k * k) as nat, window_terms(f, x.data, i, t, j));
    assert forall|j: int| 0 <= j < c implies #[trigger] g(j) == fint(h(j)) by {
        lemma_channel(f, x, i, j, t);
    }
    lemma_fint_isum(c, h, g);
}

// ---------------------------------------------------------------------------------------
// Functions
// ---------------------------------------------------------------------------------------

/// Lays out the entries of a square filter in rows of `n` entries, so that the filter can be used
/// in a convolution by transforms.
pub fn index_wf(w: &[GoldilocksExt2], n_real: usize, n: usize, output_len: usize) -> (r: Vec<
    GoldilocksExt2,
>)
    requires
        n > 0,
        n_real * n_real <= w@.len(),
    ensures
        fviews(r@) == laid_out(fviews(w@), n_real as int, n as int, output_len as nat),
{
    let mut r: Vec<GoldilocksExt2> = Vec::new();
    let len = w.len();
    let mut idx: usize = 0;
    while idx < output_len
        invariant
            n > 0,
            len == w@.len(),
            n_real * n_real <= len,
            idx <= output_len,
            r.len() == idx,
            forall|b: int|
                0 <= b < idx ==> #[trigger] r[b]@ == laid_out(
                    fviews(w@),
                    n_real as int,
                    n as int,
                    output_len as nat,
                )[b],
        decreases output_len - idx,
    {
        let i = idx / n;
        let j = idx % n;
        let x = if i < n_real && j < n_real {
            proof {
                lemma_flat(i as int, j as int, n_real as int, n_real as int);
            }
            w[i * n_real + j]
        } else {
            GoldilocksExt2::zero()
        };
        r.push(x);
        idx = idx + 1;
    }
    assert(fviews(r@) =~= laid_out(fviews(w@), n_real as int, n as int, output_len as nat));
    r
}

impl Tensor<Element> {
    /// Adapts a filter to the convolution by transforms with inputs of the given shape: the width
    /// becomes that of the padded output. The entries stay.
    pub fn into_fft_conv(self, input_shape: &[usize]) -> (r: Tensor<Element>)
        requires
            self@.plain(),
            self@.shape.len() == 4,
            input_shape@.len() >= 2,
            self@.shape[2] <= input_shape@[1],
            self@.shape[2] >= 1,
            npow2((input_shape@[1] - self@.shape[2] + 1) as nat) <= usize::MAX,
        ensures
            r@.data == self@.data,
            r@.og_shape == self@.shape,
            ({
                let n = npow2((input_shape@[1] - self@.shape[2] + 1) as nat) as usize;
                r@.shape == seq![self@.shape[0], self@.shape[1], n, n]
            }),
    {
        let n = next_power_of_two(input_shape[1] - self.shape[2] + 1);
        let mut shape: Vec<usize> = Vec::new();
        shape.push(self.shape[0]);
        shape.push(self.shape[1]);
        shape.push(n);
        shape.push(n);
        let ghost s = self@;
        let r = Tensor { data: self.data, shape, og_shape: self.shape };
        assert(r@.shape =~= seq![s.shape[0], s.shape[1], n, n]);
        r
    }

    /// The convolution of `x` with the filter, by transforms, and what its proof needs. The result
    /// has as many channels as there are filters, of the width of the input; windows that reach
    /// beyond a row give no meaningful result. Results are taken modulo the prime, nearest to zero.
    pub fn fft_conv(&self, x: &Tensor<Element>) -> (r: (Tensor<Element>, ConvData))
        requires
            fft_filter(self@),
            fft_input(self@, x@),
            self@.shape[0] * (self@.shape[2] * self@.shape[2]) <= usize::MAX,
        ensures
            ({
                let n = self@.shape[2] as int;
                let n2 = n * n;
                &&& r.0@.plain()
                &&& r.0@.shape == seq![self@.shape[0], self@.shape[2], self@.shape[2]]
                &&& r.0@.data.len() == self@.shape[0] * n2
                &&& forall|i: int, t: int|
                    0 <= i < self@.shape[0] && 0 <= t < n2 ==> #[trigger] r.0@.data[i * n2 + t]
                        == centered(window_sum(self@, x@.data, i, t))
                &&& conv_data_is(self@, x@, r.1)
                &&& r.1.output_as_element@ == r.0@.data
            }),
    {
        let ghost f = self@;
        let kw = self.shape[0];
        let kx = self.shape[1];
        let n = self.shape[2];
        proof {
            lemma_size(f);
            lemma_product3(x@.shape);
        }
        let n2 = n * n;
        let (input, input_fft) = input_transforms(x.data.as_slice(), kx, n, Ghost(f));
        let mut prod: Vec<Vec<GoldilocksExt2>> = Vec::new();
        let mut output: Vec<Vec<GoldilocksExt2>> = Vec::new();
        let mut data: Vec<Element> = Vec::new();
        let mut i: usize = 0;
        while i < kw
            invariant
                f == self@,
                fft_filter(f),
                fft_input(f, x@),
                kw == f.shape[0],
                kx == f.shape[1],
                n == f.shape[2],
                n2 == n * n,
                n2 > 0,
                kw * n2 <= usize::MAX,
                i <= kw,
                fviews2(input_fft@) == Seq::new(
                    kx as nat,
                    |j: int| fft_of(input_poly(x@.data, n as int, j), log_size(f)),
                ),
                prod.len() == i,
                output.len() == i,
                forall|k: int|
                    0 <= k < i ==> fviews((#[trigger] prod[k])@) == output_prod(f, x@.data, k),
                forall|k: int|
                    0 <= k < i ==> fviews((#[trigger] output[k])@) == ifft_of(
                        output_prod(f, x@.data, k),
                        log_size(f),
                    ),
                data.len() == i * n2,
                forall|k: int, t: int|
                    0 <= k < i && 0 <= t < n2 ==> #[trigger] data[k * n2 + t] == centered(
                        window_sum(f, x@.data, k, t),
                    ),
            decreases kw - i,
        {
            let p = self.product_of_transforms(&input_fft, i, Ghost(x@.data));
            let mut out = slice_to_vec(p.as_slice());
            proof {
                lemma_size(f);
                assert(fviews(p@).len() == p@.len());
            }
            fft(&mut out, true);
            let mut t: usize = 0;
            while t < n2
                invariant
                    f == self@,
                    fft_filter(f),
                    fft_input(f, x@),
                    kw == f.shape[0],
                    n == f.shape[2],
                    n2 == n * n,
                    i < kw,
                    kw * n2 <= usize::MAX,
                    t <= n2,
                    out.len() == 2 * n2,
                    fviews(out@) == ifft_of(output_prod(f, x@.data, i as int), log_size(f)),
                    data.len() == i * n2 + t,
                    forall|k: int, s: int|
                        0 <= k < i && 0 <= s < n2 ==> #[trigger] data[k * n2 + s] == centered(
                            window_sum(f, x@.data, k, s),
                        ),
                    forall|s: int|
                        0 <= s < t ==> #[trigger] data[i * n2 + s] == centered(
                            window_sum(f, x@.data, i as int, s),
                        ),
                decreases n2 - t,
            {
                let e = to_element(&out[n2 - 1 - t]);
                let ghost before = data@;
                proof {
                    law_fft_windows(f, x@, i as int, t as int);
                    assert(fviews(out@)[n2 - 1 - t] == out@[n2 - 1 - t]@);
                    lemma_centered_fint(window_sum(f, x@.data, i as int, t as int));
                }
                data.push(e);
                proof {
                    assert(i * n2 >= 0) by (nonlinear_arith);
                    assert forall|k: int, s: int|
                        0 <= k < i && 0 <= s < n2 implies #[trigger] data[k * n2 + s] == centered(
                        window_sum(f, x@.data, k, s),
                    ) by {
                        lemma_flat(k, s, i as int, n2 as int);
                        assert(before[k * n2 + s] == centered(window_sum(f, x@.data, k, s)));
                    }
                    assert forall|s: int| 0 <= s < t + 1 implies #[trigger] data[i * n2 + s]
                        == centered(window_sum(f, x@.data, i as int, s)) by {
                        if s < t {
                            assert(before[i * n2 + s] == centered(
                                window_sum(f, x@.data, i as int, s),
                            ));
                        }
                    }
                }
                t = t + 1;
            }
            prod.push(p);
            output.push(out);
            assert((i + 1) * n2 == i * n2 + n2) by (nonlinear_arith);
            i = i + 1;
        }
        let mut shape: Vec<usize> = Vec::new();
        shape.push(kw);
        shape.push(n);
        shape.push(n);
        proof {
            lemma_product3(shape@);
            assert(shape@ =~= seq![f.shape[0], f.shape[2], f.shape[2]]);
            assert(fviews2(prod@) =~= Seq::new(
                f.shape[0] as nat,
                |i: int| output_prod(f, x@.data, i),
            ));
            assert(fviews2(output@) =~= Seq::new(
                f.shape[0] as nat,
                |i: int| ifft_of(output_prod(f, x@.data, i), log_size(f)),
            ));
        }
        let conv_data = ConvData {
            real_input: x.evals_flat(),
            input,
            input_fft,
            prod,
            output,
            output_as_element: slice_to_vec(data.as_slice()),
        };
        (Tensor::new(shape, data), conv_data)
    }

    /// The sum over the channels of the products of the transforms of the input and of filter `i`.
    fn product_of_transforms(
        &self,
        input_fft: &Vec<Vec<GoldilocksExt2>>,
        i: usize,
        Ghost(x): Ghost<Seq<Element>>,
    ) -> (r: Vec<GoldilocksExt2>)
        requires
            fft_filter(self@),
            i < self@.shape[0],
            fviews2(input_fft@) == Seq::new(
                self@.shape[1] as nat,
                |j: int| fft_of(input_poly(x, self@.shape[2] as int, j), log_size(self@)),
            ),
        ensures
            fviews(r@) == output_prod(self@, x, i as int),
    {
        let ghost f = self@;
        proof {
            lemma_size(f);
        }
        let kx = self.shape[1];
        let n = self.shape[2];
        let k = self.og_shape[2];
        let size = 2 * (n * n);
        let mut acc: Vec<GoldilocksExt2> = Vec::new();
        let mut t: usize = 0;
        while t < size
            invariant
                t <= size,
                acc.len() == t,
                forall|s: int| 0 <= s < t ==> #[trigger] acc[s]@ == fzero(),
            decreases size - t,
        {
            acc.push(GoldilocksExt2::zero());
            t = t + 1;
        }
        let dlen = self.data.len();
        proof {
            assert(k * k <= n * n) by {
                lemma_mul_upper_bound(k as int, n as int, k as int, n as int);
            }
            assert(fviews2(input_fft@).len() == input_fft@.len());
        }
        let k2 = k * k;
        let mut j: usize = 0;
        while j < kx
            invariant
                f == self@,
                fft_filter(f),
                kx == f.shape[1],
                n == f.shape[2],
                k == f.og_shape[2],
                n > 0,
                k2 == k * k,
                size == 2 * (n * n),
                is_pow2(size as nat),
                flog2(size as nat) == log_size(f),
                log_size(f) <= 31,
                dlen == f.data.len(),
                i < f.shape[0],
                j <= kx,
                input_fft@.len() == kx,
                fviews2(input_fft@) == Seq::new(
                    kx as nat,
                    |j: int| fft_of(input_poly(x, n as int, j), log_size(f)),
                ),
                acc.len() == size,
                forall|s: int|
                    0 <= s < size ==> #[trigger] acc[s]@ == fsum(
                        j as nat,
                        |c: int| channel_prod(f, x, i as int, c)[s],
                    ),
            decreases kx - j,
        {
            proof {
                lemma_flat(i as int, j as int, f.shape[0] as int, kx as int);
                lemma_mul_is_associative(f.shape[0] as int, kx as int, k2 as int);
                assert(0 <= (i * kx + j) * k2 && (i * kx + j) * k2 + k2 <= dlen)
                    by (nonlinear_arith)
                    requires
                        dlen == f.shape[0] * kx * k2,
                        0 <= i * kx + j,
                        i * kx + j + 1 <= f.shape[0] * kx,
                        k2 >= 0,
                ;
            }
            let mut w: Vec<GoldilocksExt2> = Vec::new();
            if k2 > 0 {
                proof {
                    assert(i * kx + j <= (i * kx + j) * k2) by (nonlinear_arith)
                        requires
                            k2 >= 1,
                            0 <= i * kx + j,
                    ;
                    lemma_mul_nonnegative(i as int, kx as int);
                }
                let start = (i * kx + j) * k2;
                let slice = vstd::slice::slice_subrange(
                    self.data.as_slice(),
                    start,
                    start + k2,
                );
                w = to_fields(slice);
                assert(slice@ =~= part(f.data, (i * f.shape[1] + j) * (k * k), (k * k) as nat));
            } else {
                assert(part(f.data, (i * f.shape[1] + j) * (k * k), (k * k) as nat) =~= Seq::empty());
                assert(fviews(w@) =~= fints(
                    part(f.data, (i * f.shape[1] + j) * (k * k), (k * k) as nat),
                ));
            }
            proof {
                assert(fviews(w@).len() == w@.len());
            }
            let mut wf = index_wf(w.as_slice(), k, n, size);
            proof {
                assert(fviews(wf@) == filter_poly(f, i as int, j as int));
                assert(fviews(wf@).len() == wf@.len());
            }
            fft(&mut wf, false);
            let ghost xin = fft_of(input_poly(x, n as int, j as int), log_size(f));
            proof {
                assert(fviews2(input_fft@)[j as int] == xin);
                assert(fviews(input_fft@[j as int]@) == xin);
                assert(fviews(input_fft@[j as int]@).len() == input_fft@[j as int]@.len());
            }
            let mut t: usize = 0;
            while t < size
                invariant
                    f == self@,
                    kx == f.shape[1],
                    n == f.shape[2],
                    size == 2 * (n * n),
                    j < kx,
                    input_fft@.len() == kx,
                    fviews(input_fft@[j as int]@) == xin,
                    input_fft@[j as int]@.len() == size,
                    xin == fft_of(input_poly(x, n as int, j as int), log_size(f)),
                    wf.len() == size,
                    fviews(wf@) == fft_of(filter_poly(f, i as int, j as int), log_size(f)),
                    t <= size,
                    acc.len() == size,
                    forall|s: int|
                        0 <= s < t ==> #[trigger] acc[s]@ == fsum(
                            (j + 1) as nat,
                            |c: int| channel_prod(f, x, i as int, c)[s],
                        ),
                    forall|s: int|
                        t <= s < size ==> #[trigger] acc[s]@ == fsum(
                            j as nat,
                            |c: int| channel_prod(f, x, i as int, c)[s],
                        ),
                decreases size - t,
            {
                let a = input_fft[j][t];
                let b = wf[t];
                let s = acc[t].plus(a.times(b));
                proof {
                    assert(a@ == xin[t as int]);
                    assert(b@ == fviews(wf@)[t as int]);
                    let g = |c: int| channel_prod(f, x, i as int, c)[t as int];
                    assert(fsum((j + 1) as nat, g) == fadd(fsum(j as nat, g), g(j as int)));
                }
                acc.set(t, s);
                t = t + 1;
            }
            j = j + 1;
        }
        assert(fviews(acc@) =~= output_prod(f, x, i as int));
        acc
    }
}

pub proof fn lemma_centered_fint(x: int)
    ensures
        centered(fint(x).0) == centered(x),
{
    lemma_mod_twice(x, modulus());
}

/// The channels of the input, reversed, and their transforms.
fn input_transforms(x: &[Element], kx: usize, n: usize, Ghost(f): Ghost<TensorView<Element>>) -> (r:
    (Vec<Vec<GoldilocksExt2>>, Vec<Vec<GoldilocksExt2>>))
    requires
        fft_filter(f),
        n == f.shape[2],
        x@.len() == kx * (n * n),
    ensures
        fviews2(r.0@) == Seq::new(kx as nat, |j: int| reversed_input(x@, n as int, j)),
        fviews2(r.1@) == Seq::new(
            kx as nat,
            |j: int| fft_of(input_poly(x@, n as int, j), log_size(f)),
        ),
{
    proof {
        lemma_size(f);
    }
    let n2 = n * n;
    let size = 2 * n2;
    let mut input: Vec<Vec<GoldilocksExt2>> = Vec::new();
    let mut input_fft: Vec<Vec<GoldilocksExt2>> = Vec::new();
    let len = x.len();
    let mut j: usize = 0;
    while j < kx
        invariant
            fft_filter(f),
            n == f.shape[2],
            n2 == n * n,
            n2 > 0,
            size == 2 * n2,
            is_pow2(size as nat),
            flog2(size as nat) == log_size(f),
            log_size(f) <= 31,
            len == x@.len(),
            len == kx * n2,
            j <= kx,
            input.len() == j,
            input_fft.len() == j,
            forall|c: int|
                0 <= c < j ==> fviews((#[trigger] input[c])@) == reversed_input(x@, n as int, c),
            forall|c: int|
                0 <= c < j ==> fviews((#[trigger] input_fft[c])@) == fft_of(
                    input_poly(x@, n as int, c),
                    log_size(f),
                ),
        decreases kx - j,
    {
        proof {
            lemma_flat(j as int, 0, kx as int, n2 as int);
        }
        let start = j * n2;
        let mut rev: Vec<GoldilocksExt2> = Vec::new();
        let mut t: usize = 0;
        while t < n2
            invariant
                n2 == n * n,
                len == x@.len(),
                start == j * n2,
                start + n2 <= len,
                t <= n2,
                rev.len() == t,
                forall|s: int|
                    0 <= s < t ==> #[trigger] rev[s]@ == fint(
                        x@[start + (n2 - 1 - s)] as int,
                    ),
            decreases n2 - t,
        {
            rev.push(to_field(x[start + (n2 - 1 - t)]));
            t = t + 1;
        }
        assert(fviews(rev@) =~= reversed_input(x@, n as int, j as int));
        let mut poly = slice_to_vec(rev.as_slice());
        while t < size
            invariant
                n2 <= t <= size,
                n2 == n * n,
                size == 2 * n2,
                start == j * n2,
                poly.len() == t,
                forall|s: int|
                    0 <= s < t ==> #[trigger] poly[s]@ == if s < n2 {
                        fint(x@[start + (n2 - 1 - s)] as int)
                    } else {
                        fzero()
                    },
            decreases size - t,
        {
            poly.push(GoldilocksExt2::zero());
            t = t + 1;
        }
        assert(fviews(poly@) =~= input_poly(x@, n as int, j as int));
        fft(&mut poly, false);
        input.push(rev);
        input_fft.push(poly);
        j = j + 1;
    }
    assert(fviews2(input@) =~= Seq::new(kx as nat, |j: int| reversed_input(x@, n as int, j)));
    assert(fviews2(input_fft@) =~= Seq::new(
        kx as nat,
        |j: int| fft_of(input_poly(x@, n as int, j), log_size(f)),
    ));
    (input, input_fft)
}

} // verus!
