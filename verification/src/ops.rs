//! Arithmetic on tensors of quantised values.
use crate::arith::lemma_div_lt;
use crate::quantization::{Element, fits};
use crate::shape::{checked_product, lemma_product2, lemma_product3, lemma_product4, product};
use crate::sums::{isum, sum_fits};
use crate::tensor::{Tensor, TensorView};
use vstd::arithmetic::div_mod::*;
use vstd::arithmetic::mul::*;
use vstd::prelude::*;
use vstd::slice::slice_to_vec;

verus! {

/// Term `j` of the product of the row of `a` that starts at `start` with the vector `b`.
pub open spec fn dot_terms(a: Seq<Element>, start: int, b: Seq<Element>) -> spec_fn(int) -> int {
    |j: int| a[start + j] * b[j]
}

/// The entry-wise product of two sequences.
pub open spec fn products(a: Seq<Element>, b: Seq<Element>) -> Seq<int> {
    Seq::new(a.len(), |i: int| a[i] * b[i])
}

/// The image and channel counts, height and width of a batch of images; a shape of three
/// dimensions is one image.
pub open spec fn nchw(s: Seq<usize>) -> (int, int, int, int) {
    if s.len() == 3 {
        (1, s[0] as int, s[1] as int, s[2] as int)
    } else {
        (s[0] as int, s[1] as int, s[2] as int, s[3] as int)
    }
}

/// The number of places that a window of `k` entries takes along `d` entries, in steps of
/// `stride`.
pub open spec fn window_places(d: int, k: int, stride: int) -> int {
    (d - k) / stride + 1
}

/// The operands of a convolution go together.
pub open spec fn conv2d_ok(
    x: TensorView<Element>,
    k: TensorView<Element>,
    bias: TensorView<Element>,
    stride: int,
) -> bool {
    let (_, c, h, w) = nchw(x.shape);
    &&& x.plain()
    &&& k.plain()
    &&& x.shape.len() == 3 || x.shape.len() == 4
    &&& k.shape.len() == 4
    &&& c == k.shape[1]
    &&& 0 < k.shape[2] <= h
    &&& 0 < k.shape[3] <= w
    &&& stride > 0
    &&& bias.data.len() == k.shape[0]
}

/// The shape of the result of a convolution.
pub open spec fn conv2d_out(
    x: TensorView<Element>,
    k: TensorView<Element>,
    stride: int,
) -> Seq<int> {
    let (n, _, h, w) = nchw(x.shape);
    seq![
        n,
        k.shape[0] as int,
        window_places(h, k.shape[2] as int, stride),
        window_places(w, k.shape[3] as int, stride),
    ]
}

/// The terms that add up to the entry of a convolution for image `b`, filter `o`, row `i` and
/// column `j`, one for each entry of the filter.
pub open spec fn conv2d_terms(
    x: TensorView<Element>,
    k: TensorView<Element>,
    stride: int,
    b: int,
    o: int,
    i: int,
    j: int,
) -> spec_fn(int) -> int {
    let (_, c, h, w) = nchw(x.shape);
    let kh = k.shape[2] as int;
    let kw = k.shape[3] as int;
    |q: int|
        x.data[((b * c + q / (kh * kw)) * h + (i * stride + (q / kw) % kh)) * w + (j * stride
            + q % kw)] * k.data[o * (c * (kh * kw)) + q]
}

/// The number of entries of one filter.
pub open spec fn filter_len(k: TensorView<Element>) -> nat {
    (k.shape[1] * (k.shape[2] * k.shape[3])) as nat
}

/// The entry at place `t` of a convolution.
pub open spec fn conv2d_entry(
    x: TensorView<Element>,
    k: TensorView<Element>,
    bias: TensorView<Element>,
    stride: int,
    t: int,
) -> int {
    let out = conv2d_out(x, k, stride);
    let j = t % out[3];
    let i = (t / out[3]) % out[2];
    let o = (t / (out[2] * out[3])) % out[1];
    let b = t / (out[1] * (out[2] * out[3]));
    isum(filter_len(k), conv2d_terms(x, k, stride, b, o, i, j)) + bias.data[o]
}

/// The entry at place `t` of a convolution, and all that is added up for it, can be held.
pub open spec fn conv2d_entry_fits(
    x: TensorView<Element>,
    k: TensorView<Element>,
    bias: TensorView<Element>,
    stride: int,
    t: int,
) -> bool {
    let out = conv2d_out(x, k, stride);
    let j = t % out[3];
    let i = (t / out[3]) % out[2];
    let o = (t / (out[2] * out[3])) % out[1];
    let b = t / (out[1] * (out[2] * out[3]));
    &&& sum_fits(filter_len(k), conv2d_terms(x, k, stride, b, o, i, j))
    &&& fits(conv2d_entry(x, k, bias, stride, t))
}

/// The greatest of `f(0), ..., f(n - 1)`, for `n` at least one.
pub open spec fn imax(n: nat, f: spec_fn(int) -> int) -> int
    decreases n,
{
    if n <= 1 {
        f(0)
    } else {
        let m = imax((n - 1) as nat, f);
        if f(n - 1) > m {
            f(n - 1)
        } else {
            m
        }
    }
}

/// The entries of the window of `k` by `k` entries for matrix `b`, row `i` and column `j`.
pub open spec fn pool_window(
    data: Seq<Element>,
    h: int,
    w: int,
    k: int,
    stride: int,
    b: int,
    i: int,
    j: int,
) -> spec_fn(int) -> int {
    |q: int| data[(b * h + (i * stride + q / k)) * w + (j * stride + q % k)] as int
}

/// The entry at place `t` of the maximum pooling of matrices of `h` rows and `w` columns.
pub open spec fn pool_entry(
    data: Seq<Element>,
    h: int,
    w: int,
    k: int,
    stride: int,
    t: int,
) -> int {
    let oh = window_places(h, k, stride);
    let ow = window_places(w, k, stride);
    imax(
        (k * k) as nat,
        pool_window(data, h, w, k, stride, t / (oh * ow), (t / ow) % oh, t % ow),
    )
}

/// A place in a row of blocks lies in the row.
pub proof fn lemma_flat(a: int, b: int, na: int, nb: int)
    requires
        0 <= a < na,
        0 <= b < nb,
    ensures
        0 <= a * nb + b < na * nb,
        0 <= a * nb,
        a * nb + nb <= na * nb,
{
    assert(0 <= a * nb && a * nb + nb <= na * nb) by (nonlinear_arith)
        requires
            0 <= a,
            a + 1 <= na,
            0 < nb,
    ;
}

/// A window at one of its places stays inside.
pub proof fn lemma_window(d: int, k: int, stride: int, i: int, u: int)
    requires
        0 < k <= d,
        0 < stride,
        0 <= i < window_places(d, k, stride),
        0 <= u < k,
    ensures
        0 <= i * stride,
        0 <= i * stride + u < d,
{
    lemma_fundamental_div_mod(d - k, stride);
    lemma_mod_bound(d - k, stride);
    let q = (d - k) / stride;
    assert(0 <= i * stride <= stride * q) by (nonlinear_arith)
        requires
            0 <= i <= q,
            0 < stride,
    ;
}

pub proof fn lemma_window_places(d: int, k: int, stride: int)
    requires
        0 < k <= d,
        0 < stride,
    ensures
        1 <= window_places(d, k, stride) <= d,
{
    lemma_div_pos_is_pos(d - k, stride);
    lemma_div_is_ordered_by_denominator(d - k, 1, stride);
    lemma_div_basics(d - k);
}

/// The product of the row of `a` that starts at `start` with the vector `b`, unless it, or a sum
/// on the way, cannot be held.
pub fn checked_dot(a: &[Element], start: usize, b: &[Element]) -> (r: Option<Element>)
    requires
        start + b@.len() <= a@.len(),
    ensures
        match r {
            Some(s) => sum_fits(b@.len(), dot_terms(a@, start as int, b@)) && s == isum(
                b@.len(),
                dot_terms(a@, start as int, b@),
            ),
            None => !sum_fits(b@.len(), dot_terms(a@, start as int, b@)),
        },
{
    let mut acc: Element = 0;
    let mut j: usize = 0;
    let len = a.len();
    let ghost f = dot_terms(a@, start as int, b@);
    while j < b.len()
        invariant
            j <= b@.len(),
            len == a@.len(),
            start + b@.len() <= len,
            f == dot_terms(a@, start as int, b@),
            sum_fits(j as nat, f),
            acc == isum(j as nat, f),
        decreases b@.len() - j,
    {
        assert(f(j as int) == a@[start + j] * b@[j as int]);
        let p = match a[start + j].checked_mul(b[j]) {
            Some(p) => p,
            None => {
                proof {
                    lemma_not_fits(b@.len(), j as nat, f);
                }
                return None;
            },
        };
        acc = match acc.checked_add(p) {
            Some(s) => s,
            None => {
                proof {
                    lemma_not_fits(b@.len(), j as nat, f);
                }
                return None;
            },
        };
        j = j + 1;
    }
    Some(acc)
}

/// A sum of which one step cannot be held cannot be held.
pub proof fn lemma_not_fits(n: nat, j: nat, f: spec_fn(int) -> int)
    requires
        j < n,
        !(fits(f(j as int)) && fits(isum(j + 1, f))),
    ensures
        !sum_fits(n, f),
    decreases n,
{
    if j < n - 1 {
        lemma_not_fits((n - 1) as nat, j, f);
    }
}

pub proof fn lemma_imax(n: nat, f: spec_fn(int) -> int)
    requires
        n >= 1,
    ensures
        forall|i: int| 0 <= i < n ==> #[trigger] f(i) <= imax(n, f),
        exists|i: int| 0 <= i < n && #[trigger] f(i) == imax(n, f),
    decreases n,
{
    if n > 1 {
        let m = (n - 1) as nat;
        lemma_imax(m, f);
        let i = choose|i: int| 0 <= i < m && #[trigger] f(i) == imax(m, f);
        if f(n - 1) > imax(m, f) {
            assert(f(n - 1) == imax(n, f));
        } else {
            assert(f(i) == imax(n, f));
        }
    } else {
        assert(f(0) == imax(n, f));
    }
}

impl Tensor<Element> {
    /// The entry-wise product of two tensors of the same shape.
    pub fn mul(&self, other: &Tensor<Element>) -> (r: Tensor<Element>)
        requires
            self@.plain(),
            other@.plain(),
            self@.shape == other@.shape,
            forall|i: int|
                0 <= i < self@.data.len() ==> fits(
                    #[trigger] products(self@.data, other@.data)[i],
                ),
        ensures
            r@.plain(),
            r@.shape == self@.shape,
            forall|i: int|
                0 <= i < self@.data.len() ==> #[trigger] r@.data[i] == products(
                    self@.data,
                    other@.data,
                )[i],
    {
        let mut data: Vec<Element> = Vec::new();
        let mut i: usize = 0;
        while i < self.data.len()
            invariant
                i <= self.data.len(),
                self@.data.len() == other@.data.len(),
                data.len() == i,
                forall|j: int|
                    0 <= j < self@.data.len() ==> fits(
                        #[trigger] products(self@.data, other@.data)[j],
                    ),
                forall|j: int|
                    0 <= j < i ==> #[trigger] data[j] == products(self@.data, other@.data)[j],
            decreases self.data.len() - i,
        {
            assert(fits(products(self@.data, other@.data)[i as int]));
            data.push(self.data[i] * other.data[i]);
            i = i + 1;
        }
        Tensor::new(slice_to_vec(self.shape.as_slice()), data)
    }

    /// The convolution of the tensor with each filter of `kernels`, plus the bias of the filter.
    /// Gives nothing where a result cannot be held.
    pub fn checked_conv2d(
        &self,
        kernels: &Tensor<Element>,
        bias: &Tensor<Element>,
        stride: usize,
    ) -> (r: Option<Tensor<Element>>)
        requires
            conv2d_ok(self@, kernels@, bias@, stride as int),
        ensures
            ({
                let out = conv2d_out(self@, kernels@, stride as int);
                let total = out[0] * (out[1] * (out[2] * out[3]));
                &&& r is Some <==> total <= usize::MAX && (forall|t: int|
                    0 <= t < total ==> #[trigger] conv2d_entry_fits(
                        self@,
                        kernels@,
                        bias@,
                        stride as int,
                        t,
                    ))
                &&& r is Some ==> {
                    let y = r->0@;
                    &&& y.plain()
                    &&& y.shape.len() == 4
                    &&& forall|d: int| 0 <= d < 4 ==> #[trigger] y.shape[d] == out[d]
                    &&& y.data.len() == total
                    &&& forall|t: int|
                        0 <= t < total ==> #[trigger] y.data[t] == conv2d_entry(
                            self@,
                            kernels@,
                            bias@,
                            stride as int,
                            t,
                        )
                }
            }),
    {
        let (n, c, h, w) = if self.shape.len() == 3 {
            (1, self.shape[0], self.shape[1], self.shape[2])
        } else {
            (self.shape[0], self.shape[1], self.shape[2], self.shape[3])
        };
        let kn = kernels.shape[0];
        let kh = kernels.shape[2];
        let kw = kernels.shape[3];
        let ghost x = self@;
        let ghost k = kernels@;
        let ghost out = conv2d_out(x, k, stride as int);
        proof {
            lemma_window_places(h as int, kh as int, stride as int);
            lemma_window_places(w as int, kw as int, stride as int);
        }
        let oh = (h - kh) / stride + 1;
        let ow = (w - kw) / stride + 1;
        let mut shape: Vec<usize> = Vec::new();
        shape.push(n);
        shape.push(kn);
        shape.push(oh);
        shape.push(ow);
        proof {
            lemma_product4(shape@);
        }
        let total = match checked_product(shape.as_slice()) {
            Some(total) => total,
            None => {
                return None;
            },
        };
        let mut data: Vec<Element> = Vec::new();
        let mut t: usize = 0;
        while t < total
            invariant
                x == self@,
                k == kernels@,
                conv2d_ok(x, k, bias@, stride as int),
                out == conv2d_out(x, k, stride as int),
                nchw(x.shape) == (n as int, c as int, h as int, w as int),
                kn == k.shape[0],
                kh == k.shape[2],
                kw == k.shape[3],
                oh == out[2],
                ow == out[3],
                oh >= 1,
                ow >= 1,
                total == n * (kn * (oh * ow)),
                t <= total,
                data.len() == t,
                forall|s: int|
                    0 <= s < t ==> #[trigger] conv2d_entry_fits(x, k, bias@, stride as int, s),
                forall|s: int|
                    0 <= s < t ==> #[trigger] data[s] == conv2d_entry(
                        x,
                        k,
                        bias@,
                        stride as int,
                        s,
                    ),
            decreases total - t,
        {
            proof {
                lemma_decode4(t as int, n as int, kn as int, oh as int, ow as int);
            }
            let j = t % ow;
            let i = (t / ow) % oh;
            let o = (t / (oh * ow)) % kn;
            let b = t / (kn * (oh * ow));
            match self.conv2d_sum(kernels, bias, stride, n, c, h, w, b, o, i, j) {
                Some(e) => {
                    data.push(e);
                },
                None => {
                    assert(!conv2d_entry_fits(x, k, bias@, stride as int, t as int));
                    return None;
                },
            }
            t = t + 1;
        }
        assert(shape@.len() == 4);
        Some(Tensor::new(shape, data))
    }

    /// One entry of a convolution.
    fn conv2d_sum(
        &self,
        kernels: &Tensor<Element>,
        bias: &Tensor<Element>,
        stride: usize,
        n: usize,
        c: usize,
        h: usize,
        w: usize,
        b: usize,
        o: usize,
        i: usize,
        j: usize,
    ) -> (r: Option<Element>)
        requires
            conv2d_ok(self@, kernels@, bias@, stride as int),
            nchw(self@.shape) == (n as int, c as int, h as int, w as int),
            b < n,
            o < kernels@.shape[0],
            i < window_places(h as int, kernels@.shape[2] as int, stride as int),
            j < window_places(w as int, kernels@.shape[3] as int, stride as int),
        ensures
            ({
                let f = conv2d_terms(
                    self@,
                    kernels@,
                    stride as int,
                    b as int,
                    o as int,
                    i as int,
                    j as int,
                );
                let e = isum(filter_len(kernels@), f) + bias@.data[o as int];
                match r {
                    Some(s) => sum_fits(filter_len(kernels@), f) && s == e,
                    None => !(sum_fits(filter_len(kernels@), f) && fits(e)),
                }
            }),
    {
        let ghost x = self@;
        let ghost k = kernels@;
        let kh = kernels.shape[2];
        let kw = kernels.shape[3];
        let ghost f = conv2d_terms(x, k, stride as int, b as int, o as int, i as int, j as int);
        let ghost flen = filter_len(k);
        let xlen = self.data.len();
        let klen = kernels.data.len();
        proof {
            lemma_product4(k.shape);
            if x.shape.len() == 3 {
                lemma_product3(x.shape);
            } else {
                lemma_product4(x.shape);
            }
            lemma_mul_basics(c as int);
            lemma_mul_is_associative(c as int, h as int, w as int);
            assert(x.data.len() == n * (c * (h * w)));
            assert(k.data.len() == k.shape[0] * flen);
            lemma_flat(o as int, 0, k.shape[0] as int, 1);
            assert(flen <= k.data.len() && o * flen + flen <= k.data.len() && o * flen >= 0)
                by (nonlinear_arith)
                requires
                    k.data.len() == k.shape[0] * flen,
                    0 <= o,
                    o + 1 <= k.shape[0],
            ;
            assert(0 <= kh * kw && (kh * kw <= flen || c == 0)) by (nonlinear_arith)
                requires
                    flen == c * (kh * kw),
                    c >= 0,
                    kh >= 0,
                    kw >= 0,
            ;
        }
        let mut acc: Element = 0;
        if c > 0 {
            let area = kh * kw;
            let len = c * area;
            let base = o * len;
            let mut q: usize = 0;
            while q < len
                invariant
                    x == self@,
                    k == kernels@,
                    conv2d_ok(x, k, bias@, stride as int),
                    nchw(x.shape) == (n as int, c as int, h as int, w as int),
                    kh == k.shape[2],
                    kw == k.shape[3],
                    f == conv2d_terms(
                        x,
                        k,
                        stride as int,
                        b as int,
                        o as int,
                        i as int,
                        j as int,
                    ),
                    b < n,
                    i < window_places(h as int, kh as int, stride as int),
                    j < window_places(w as int, kw as int, stride as int),
                    xlen == x.data.len(),
                    xlen == n * (c * (h * w)),
                    klen == k.data.len(),
                    area == kh * kw,
                    len == c * area,
                    len == flen,
                    base == o * len,
                    base + len <= klen,
                    flen == filter_len(k),
                    q <= len,
                    sum_fits(q as nat, f),
                    acc == isum(q as nat, f),
                decreases len - q,
            {
                proof {
                    lemma_conv_index(
                        n as int,
                        c as int,
                        h as int,
                        w as int,
                        kh as int,
                        kw as int,
                        stride as int,
                        b as int,
                        i as int,
                        j as int,
                        q as int,
                    );
                }
                let cc = q / area;
                let u = (q / kw) % kh;
                let v = q % kw;
                let row = (b * c + cc) * h + (i * stride + u);
                let place = row * w + (j * stride + v);
                assert(f(q as int) == x.data[place as int] * k.data[base + q]);
                let p = match self.data[place].checked_mul(kernels.data[base + q]) {
                    Some(p) => p,
                    None => {
                        proof {
                            lemma_not_fits(flen, q as nat, f);
                        }
                        return None;
                    },
                };
                acc = match acc.checked_add(p) {
                    Some(s) => s,
                    None => {
                        proof {
                            lemma_not_fits(flen, q as nat, f);
                        }
                        return None;
                    },
                };
                q = q + 1;
            }
        } else {
            assert(flen == 0) by (nonlinear_arith)
                requires
                    flen == c * (kh * kw),
                    c == 0,
            ;
        }
        acc.checked_add(bias.data[o])
    }

    /// The convolution of the tensor with each filter of `kernels`, plus the bias of the filter.
    pub fn conv2d(&self, kernels: &Tensor<Element>, bias: &Tensor<Element>, stride: usize) -> (r:
        Tensor<Element>)
        requires
            conv2d_ok(self@, kernels@, bias@, stride as int),
            ({
                let out = conv2d_out(self@, kernels@, stride as int);
                let total = out[0] * (out[1] * (out[2] * out[3]));
                &&& total <= usize::MAX
                &&& forall|t: int|
                    0 <= t < total ==> #[trigger] conv2d_entry_fits(
                        self@,
                        kernels@,
                        bias@,
                        stride as int,
                        t,
                    )
            }),
        ensures
            ({
                let out = conv2d_out(self@, kernels@, stride as int);
                let total = out[0] * (out[1] * (out[2] * out[3]));
                &&& r@.plain()
                &&& r@.shape.len() == 4
                &&& forall|d: int| 0 <= d < 4 ==> #[trigger] r@.shape[d] == out[d]
                &&& r@.data.len() == total
                &&& forall|t: int|
                    0 <= t < total ==> #[trigger] r@.data[t] == conv2d_entry(
                        self@,
                        kernels@,
                        bias@,
                        stride as int,
                        t,
                    )
            }),
    {
        match self.checked_conv2d(kernels, bias, stride) {
            Some(y) => y,
            None => self.copy(),
        }
    }

    /// The maximum of each window of `k` by `k` entries of the matrices of the last two
    /// dimensions, in steps of `stride`.
    pub fn maxpool2d(&self, k: usize, stride: usize) -> (r: Tensor<Element>)
        requires
            self@.plain(),
            self@.shape.len() >= 2,
            stride > 0,
            0 < k <= self@.shape[self@.shape.len() - 2],
            k <= self@.shape[self@.shape.len() - 1],
            k * k <= usize::MAX,
        ensures
            ({
                let d = self@.shape.len() as int;
                let h = self@.shape[d - 2] as int;
                let w = self@.shape[d - 1] as int;
                let oh = window_places(h, k as int, stride as int);
                let ow = window_places(w, k as int, stride as int);
                &&& r@.plain()
                &&& r@.shape == self@.shape.update(d - 2, oh as usize).update(d - 1, ow as usize)
                &&& forall|t: int|
                    0 <= t < r@.data.len() ==> #[trigger] r@.data[t] == pool_entry(
                        self@.data,
                        h,
                        w,
                        k as int,
                        stride as int,
                        t,
                    )
            }),
    {
        let d = self.shape.len();
        let h = self.shape[d - 2];
        let w = self.shape[d - 1];
        proof {
            lemma_window_places(h as int, k as int, stride as int);
            lemma_window_places(w as int, k as int, stride as int);
        }
        let oh = (h - k) / stride + 1;
        let ow = (w - k) / stride + 1;
        let mut shape = slice_to_vec(self.shape.as_slice());
        shape.set(d - 2, oh);
        shape.set(d - 1, ow);
        let ghost outer = product(self@.shape.take(d - 2));
        let len = self.data.len();
        proof {
            lemma_product_last2(self@.shape);
            lemma_product_last2(shape@);
            assert(shape@.take(d - 2) =~= self@.shape.take(d - 2));
            assert(oh * ow <= h * w) by {
                lemma_mul_upper_bound(oh as int, h as int, ow as int, w as int);
            }
            assert(outer * (oh * ow) <= outer * (h * w)) by {
                lemma_mul_inequality((oh * ow) as int, (h * w) as int, outer as int);
                lemma_mul_is_commutative((oh * ow) as int, outer as int);
                lemma_mul_is_commutative((h * w) as int, outer as int);
            }
        }
        assert(product(shape@) == outer * (oh * ow));
        assert(len == outer * (h * w));
        let total = match checked_product(shape.as_slice()) {
            Some(total) => total,
            None => 0,
        };
        let mut data: Vec<Element> = Vec::new();
        let mut t: usize = 0;
        while t < total
            invariant
                self@.data.len() == outer * (h * w),
                oh == window_places(h as int, k as int, stride as int),
                ow == window_places(w as int, k as int, stride as int),
                1 <= oh <= h,
                1 <= ow <= w,
                oh * ow <= h * w,
                0 < k <= h,
                k <= w,
                k * k <= usize::MAX,
                stride > 0,
                total == outer * (oh * ow),
                t <= total,
                data.len() == t,
                forall|s: int|
                    0 <= s < t ==> #[trigger] data[s] == pool_entry(
                        self@.data,
                        h as int,
                        w as int,
                        k as int,
                        stride as int,
                        s,
                    ),
            decreases total - t,
        {
            proof {
                lemma_decode3(t as int, outer as int, oh as int, ow as int);
            }
            let e = self.pool_max(
                h,
                w,
                k,
                stride,
                t / (oh * ow),
                (t / ow) % oh,
                t % ow,
                Ghost(outer),
            );
            data.push(e);
            t = t + 1;
        }
        Tensor::new(shape, data)
    }

    fn pool_max(
        &self,
        h: usize,
        w: usize,
        k: usize,
        stride: usize,
        b: usize,
        i: usize,
        j: usize,
        Ghost(outer): Ghost<nat>,
    ) -> (r: Element)
        requires
            self@.data.len() == outer * (h * w),
            b < outer,
            0 < k <= h,
            k <= w,
            k * k <= usize::MAX,
            stride > 0,
            i < window_places(h as int, k as int, stride as int),
            j < window_places(w as int, k as int, stride as int),
        ensures
            r == imax(
                (k * k) as nat,
                pool_window(
                    self@.data,
                    h as int,
                    w as int,
                    k as int,
                    stride as int,
                    b as int,
                    i as int,
                    j as int,
                ),
            ),
    {
        let ghost f = pool_window(
            self@.data,
            h as int,
            w as int,
            k as int,
            stride as int,
            b as int,
            i as int,
            j as int,
        );
        let len = self.data.len();
        proof {
            assert(k * k >= 1) by (nonlinear_arith)
                requires
                    k >= 1,
            ;
            lemma_pool_index(
                outer as int,
                h as int,
                w as int,
                k as int,
                stride as int,
                b as int,
                i as int,
                j as int,
                0,
            );
            lemma_div_basics(k as int);
        }
        let mut best = self.data[(b * h + i * stride) * w + j * stride];
        assert(best == f(0));
        let mut q: usize = 1;
        while q < k * k
            invariant
                len == self@.data.len(),
                len == outer * (h * w),
                b < outer,
                0 < k <= h,
                k <= w,
                k * k <= usize::MAX,
                stride > 0,
                i < window_places(h as int, k as int, stride as int),
                j < window_places(w as int, k as int, stride as int),
                f == pool_window(
                    self@.data,
                    h as int,
                    w as int,
                    k as int,
                    stride as int,
                    b as int,
                    i as int,
                    j as int,
                ),
                1 <= q <= k * k,
                best == imax(q as nat, f),
            decreases k * k - q,
        {
            proof {
                lemma_pool_index(
                    outer as int,
                    h as int,
                    w as int,
                    k as int,
                    stride as int,
                    b as int,
                    i as int,
                    j as int,
                    q as int,
                );
            }
            let e = self.data[(b * h + (i * stride + q / k)) * w + (j * stride + q % k)];
            assert(e == f(q as int));
            if e > best {
                best = e;
            }
            q = q + 1;
        }
        best
    }
}

proof fn lemma_grows(a: int, b: int)
    requires
        0 <= a,
        1 <= b,
    ensures
        a <= a * b,
{
    assert(a <= a * b) by (nonlinear_arith)
        requires
            0 <= a,
            1 <= b,
    ;
}

proof fn lemma_pool_index(
    outer: int,
    h: int,
    w: int,
    k: int,
    stride: int,
    b: int,
    i: int,
    j: int,
    q: int,
)
    requires
        0 <= b < outer,
        0 < k <= h,
        k <= w,
        stride > 0,
        0 <= i < window_places(h, k, stride),
        0 <= j < window_places(w, k, stride),
        0 <= q < k * k,
    ensures
        0 <= q / k < k,
        0 <= q % k < k,
        0 <= i * stride,
        0 <= i * stride + q / k < h,
        0 <= j * stride,
        0 <= j * stride + q % k < w,
        0 <= b * h,
        0 <= b * h + (i * stride + q / k) < outer * h,
        0 <= b * h + (i * stride + q / k) <= (b * h + (i * stride + q / k)) * w,
        0 <= (b * h + (i * stride + q / k)) * w + (j * stride + q % k) < outer * (h * w),
{
    lemma_div_lt(q as nat, k as nat, k as nat);
    lemma_div_pos_is_pos(q, k);
    lemma_mod_bound(q, k);
    lemma_window(h, k, stride, i, q / k);
    lemma_window(w, k, stride, j, q % k);
    lemma_flat(b, i * stride + q / k, outer, h);
    lemma_flat(b * h + (i * stride + q / k), j * stride + q % k, outer * h, w);
    lemma_grows(b * h + (i * stride + q / k), w);
    lemma_mul_is_associative(outer, h, w);
}

pub proof fn lemma_conv_index(
    n: int,
    c: int,
    h: int,
    w: int,
    kh: int,
    kw: int,
    stride: int,
    b: int,
    i: int,
    j: int,
    q: int,
)
    requires
        0 <= b < n,
        0 < kh <= h,
        0 < kw <= w,
        stride > 0,
        0 <= i < window_places(h, kh, stride),
        0 <= j < window_places(w, kw, stride),
        0 <= q < c * (kh * kw),
    ensures
        kh * kw > 0,
        0 <= q / (kh * kw) < c,
        0 <= (q / kw) % kh < kh,
        0 <= q % kw < kw,
        0 <= i * stride,
        0 <= i * stride + (q / kw) % kh < h,
        0 <= j * stride,
        0 <= j * stride + q % kw < w,
        0 <= b * c,
        0 <= b * c + q / (kh * kw) < n * c,
        0 <= (b * c + q / (kh * kw)) * h,
        b * c + q / (kh * kw) <= (b * c + q / (kh * kw)) * h,
        0 <= (b * c + q / (kh * kw)) * h + (i * stride + (q / kw) % kh) < (n * c) * h,
        0 <= (b * c + q / (kh * kw)) * h + (i * stride + (q / kw) % kh) <= ((b * c + q / (kh
            * kw)) * h + (i * stride + (q / kw) % kh)) * w,
        0 <= ((b * c + q / (kh * kw)) * h + (i * stride + (q / kw) % kh)) * w + (j * stride + q
            % kw) < n * (c * (h * w)),
{
    lemma_mul_strictly_positive(kh, kw);
    let area = kh * kw;
    assert(c >= 0 ==> c * area == area * c) by (nonlinear_arith);
    assert(c > 0) by (nonlinear_arith)
        requires
            0 <= q < c * area,
            area > 0,
    ;
    lemma_div_lt(q as nat, area as nat, c as nat);
    lemma_div_pos_is_pos(q, area);
    lemma_div_pos_is_pos(q, kw);
    lemma_mod_bound(q / kw, kh);
    lemma_mod_bound(q, kw);
    let cc = q / area;
    let u = (q / kw) % kh;
    let v = q % kw;
    lemma_window(h, kh, stride, i, u);
    lemma_window(w, kw, stride, j, v);
    lemma_flat(b, cc, n, c);
    lemma_flat(b * c + cc, i * stride + u, n * c, h);
    lemma_flat((b * c + cc) * h + (i * stride + u), j * stride + v, (n * c) * h, w);
    lemma_grows(b * c + cc, h);
    lemma_grows((b * c + cc) * h + (i * stride + u), w);
    lemma_mul_is_associative(n * c, h, w);
    lemma_mul_is_associative(n, c, h * w);
}

/// Taking a place of four dimensions apart.
pub proof fn lemma_decode4(t: int, n: int, a: int, b: int, c: int)
    requires
        0 <= t < n * (a * (b * c)),
        n >= 0,
        a >= 0,
        b >= 1,
        c >= 1,
    ensures
        b * c > 0,
        a >= 1,
        a * (b * c) > 0,
        0 <= t % c < c,
        0 <= (t / c) % b < b,
        0 <= (t / (b * c)) % a < a,
        0 <= t / (a * (b * c)) < n,
        b * c <= n * (a * (b * c)),
        a * (b * c) <= n * (a * (b * c)),
{
    lemma_mul_strictly_positive(b, c);
    assert(a >= 1) by (nonlinear_arith)
        requires
            0 <= t < n * (a * (b * c)),
            a >= 0,
    ;
    lemma_mul_strictly_positive(a, b * c);
    let block = a * (b * c);
    assert(n >= 1) by (nonlinear_arith)
        requires
            0 <= t < n * block,
            n >= 0,
    ;
    lemma_mod_bound(t, c);
    lemma_mod_bound(t / c, b);
    lemma_mod_bound(t / (b * c), a);
    lemma_div_lt(t as nat, block as nat, n as nat);
    lemma_div_pos_is_pos(t, block);
    assert(block <= n * block) by (nonlinear_arith)
        requires
            n >= 1,
            block > 0,
    ;
    assert(b * c <= block) by (nonlinear_arith)
        requires
            a >= 1,
            b * c > 0,
            block == a * (b * c),
    ;
}

proof fn lemma_decode3(t: int, n: int, b: int, c: int)
    requires
        0 <= t < n * (b * c),
        n >= 0,
        b >= 1,
        c >= 1,
    ensures
        b * c > 0,
        0 <= t % c < c,
        0 <= (t / c) % b < b,
        0 <= t / (b * c) < n,
        b * c <= n * (b * c),
{
    lemma_mul_basics(b * c);
    lemma_decode4(t, n, 1, b, c);
}

/// The last two dimensions taken apart from the product.
pub proof fn lemma_product_last2(s: Seq<usize>)
    requires
        s.len() >= 2,
    ensures
        product(s) == product(s.take(s.len() - 2)) * (s[s.len() - 2] * s[s.len() - 1]),
    decreases s.len(),
{
    if s.len() == 2 {
        lemma_product2(s);
        assert(s.take(0).len() == 0);
        assert(product(s.take(0)) == 1);
        lemma_mul_basics((s[0] * s[1]) as int);
    } else {
        let t = s.skip(1);
        lemma_product_last2(t);
        let front = s.take(s.len() - 2);
        assert(front.skip(1) =~= t.take(t.len() - 2));
        assert(front[0] == s[0]);
        lemma_mul_is_associative(
            s[0] as int,
            product(front.skip(1)) as int,
            (s[s.len() - 2] * s[s.len() - 1]) as int,
        );
    }
}

} // verus!
