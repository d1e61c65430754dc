//! Proofs of convolutions that were computed as they should be.
use crate::arith::{flog2, lemma_div_lt, lemma_pow2_step, lemma_pow2_zero};
use crate::commit::{
    beta, eq1, fbits, identity, law_beta_is_identity, lemma_beta_cons, lemma_bit_shift, min_len,
};
use crate::fft::{fft_of, ifft_of, omega};
use crate::field::{
    Fe, all_fe, fadd, fint, finv, finvertible, fmul, fone, fpow, fprod, fsub, fsum, fzero, is_fe,
    lemma_fadd_assoc, lemma_fadd_comm, lemma_fadd_zero, lemma_fe_closed, lemma_fint,
    lemma_fmul_assoc, lemma_fmul_comm, lemma_fmul_one, lemma_fmul_zero, lemma_fprod_eq,
    lemma_fsub, lemma_fsum_eq, lemma_fsum_fe, lemma_fsum_scale, lemma_fsum_split, lemma_fsum_swap,
    lemma_fsum_truncate, lemma_fsum_zero,
};
use crate::layers::conv_steps::{
    aggregated, aggregated_fft, bias_value, complemented, flattened, input_claim, laid_out_eval,
    transform_point,
};
use crate::layers::convolution::{Convolution, conv_entries, conv_entry, conv_fits};
use crate::layers::fft_conv::{
    channel_prod, fft_filter, fft_input, filter_poly, input_poly, laid_out, law_fft_windows,
    lemma_size, log_size, output_prod, reversed_input, window_sum,
};
use crate::layers::provable::{betas, term_at};
use crate::mle::{
    lemma_fsum_blocks, lemma_mle_constant, lemma_mle_fe, lemma_mle_half, lemma_mle_linear,
    lemma_mle_parts, mle,
};
use crate::ops::lemma_flat;
use crate::prime::lemma_one_minus_invertible;
use crate::quantization::{Element, centered, fints, fits, lemma_fint_centered};
use crate::shape::lemma_product3;
use crate::tensor::TensorView;
use vstd::arithmetic::div_mod::*;
use vstd::arithmetic::mul::*;
use vstd::arithmetic::power2::*;
use vstd::prelude::*;

verus! {

// ---------------------------------------------------------------------------------------
// Extensions of vectors made of parts
// ---------------------------------------------------------------------------------------

/// The sum taken from the end.
proof fn lemma_fsum_reverse(n: nat, f: spec_fn(int) -> Fe, g: spec_fn(int) -> Fe)
    requires
        forall|i: int| 0 <= i < n ==> #[trigger] g(i) == f(n - 1 - i),
    ensures
        fsum(n, f) == fsum(n, g),
    decreases n,
{
    if n > 0 {
        let m = (n - 1) as nat;
        // g without its first term is the reverse of f without its last
        let h = |i: int| g(1 + i);
        assert forall|i: int| 0 <= i < m implies #[trigger] h(i) == f(m - 1 - i) by {
            assert(g(1 + i) == f(n - 1 - (1 + i)));
        }
        lemma_fsum_reverse(m, f, h);
        lemma_fsum_split(1, m, g);
        assert(fsum(1, g) == fadd(fsum(0, g), g(0)));
        assert(g(0) == f(n - 1));
        lemma_fsum_fe(m, f);
        lemma_fadd_comm(fsum(m, f), f(n - 1));
        lemma_fadd_assoc(fzero(), g(0), fsum(m, h));
        lemma_fe_closed(g(0), fsum(m, h));
        lemma_fadd_zero(fadd(g(0), fsum(m, h)));
        lemma_fadd_comm(fzero(), fadd(g(0), fsum(m, h)));
        assert(1 + m == n);
    }
}

/// Taking each coordinate from one turns the vertices round.
proof fn lemma_beta_complement(r: Seq<Fe>, k: nat)
    requires
        all_fe(r),
        k < pow2(r.len()),
    ensures
        beta(complemented(r), (pow2(r.len()) - 1 - k) as nat) == beta(r, k),
    decreases r.len(),
{
    let c = complemented(r);
    if r.len() == 0 {
        assert(c =~= r);
        lemma_pow2_zero();
    } else {
        let m = (r.len() - 1) as nat;
        let s = r.subrange(1, r.len() as int);
        let kk = (pow2(r.len()) - 1 - k) as nat;
        lemma_pow2_step(m);
        assert(c.subrange(1, c.len() as int) =~= complemented(s));
        assert(all_fe(c)) by {
            assert forall|i: int| 0 <= i < c.len() implies is_fe(#[trigger] c[i]) by {
                lemma_fe_closed(fone(), r[i]);
            }
        }
        assert(kk / 2 == pow2(m) - 1 - k / 2);
        lemma_beta_complement(s, k / 2);
        lemma_beta_cons(r, k);
        lemma_beta_cons(c, kk);
        lemma_bit_shift(k, 0);
        lemma_bit_shift(kk, 0);
        // 1 - (1 - r[0]) = r[0]
        lemma_one_minus_twice(r[0]);
    }
}

proof fn lemma_one_minus_twice(x: Fe)
    requires
        is_fe(x),
    ensures
        fsub(fone(), fsub(fone(), x)) == x,
{
    let y = fsub(fone(), x);
    // 1 = y + x
    lemma_fsub(fone(), x);
    lemma_fe_closed(fone(), x);
    lemma_fadd_comm(y, x);
    lemma_fsub(x, y);
}

/// The extension of a reversed vector.
proof fn lemma_mle_reverse(v: Seq<Fe>, w: Seq<Fe>, r: Seq<Fe>)
    requires
        all_fe(r),
        forall|t: int| 0 <= t < pow2(r.len()) ==> #[trigger] w[t] == v[pow2(r.len()) - 1 - t],
    ensures
        mle(w, complemented(r)) == mle(v, r),
{
    let n = pow2(r.len());
    let c = complemented(r);
    let f = |k: int| fmul(v[k], beta(r, k as nat));
    let g = |k: int| fmul(w[k], beta(c, k as nat));
    assert forall|i: int| 0 <= i < n implies #[trigger] g(i) == f(n - 1 - i) by {
        assert(w[i] == v[n - 1 - i]);
        lemma_beta_complement(r, (n - 1 - i) as nat);
    }
    lemma_fsum_reverse(n, f, g);
}

/// Two vectors whose parts have the same extensions have the same extension.
proof fn lemma_mle_same_parts(
    a: spec_fn(int) -> Fe,
    b: spec_fn(int) -> Fe,
    hi: Seq<Fe>,
)
    requires
        forall|i: int| 0 <= i < pow2(hi.len()) ==> #[trigger] a(i) == b(i),
    ensures
        fsum(pow2(hi.len()), |i: int| fmul(a(i), beta(hi, i as nat))) == fsum(
            pow2(hi.len()),
            |i: int| fmul(b(i), beta(hi, i as nat)),
        ),
{
    let f = |i: int| fmul(a(i), beta(hi, i as nat));
    let g = |i: int| fmul(b(i), beta(hi, i as nat));
    assert forall|i: int| 0 <= i < pow2(hi.len()) implies #[trigger] f(i) == g(i) by {
        assert(a(i) == b(i));
    }
    lemma_fsum_eq(pow2(hi.len()), f, g);
}

// ---------------------------------------------------------------------------------------
// Output
// ---------------------------------------------------------------------------------------

/// The claim about the output of a convolution, less that about the bias, is the claim about the
/// inverse transforms: the sum-check for these starts from the right value.
pub proof fn law_transform_claim(
    c: Convolution<Element>,
    x: TensorView<Element>,
    lo: Seq<Fe>,
    hi: Seq<Fe>,
)
    requires
        fft_filter(c.filter@),
        fft_input(c.filter@, x),
        conv_fits(c, x),
        c.bias@.data.len() == c.filter@.shape[0],
        pow2(lo.len()) == c.filter@.shape[2] * c.filter@.shape[2],
        pow2(hi.len()) == c.filter@.shape[0],
        all_fe(lo),
        all_fe(hi),
    ensures
        ({
            let f = c.filter@;
            let n2 = f.shape[2] * f.shape[2];
            let outputs = Seq::new(
                f.shape[0] as nat,
                |i: int| ifft_of(output_prod(f, x.data, i), log_size(f)),
            );
            fsub(
                mle(fints(conv_entries(c, x)), lo + hi),
                bias_value(c.bias@.data, hi),
            ) == mle(
                flattened(outputs, 2 * n2),
                transform_point(lo + hi, lo.len() as int, hi.len() as int),
            )
        }),
{
    let f = c.filter@;
    let n2 = f.shape[2] * f.shape[2];
    let kw = pow2(hi.len());
    let p = lo + hi;
    lemma_size(f);
    let outputs = Seq::new(
        f.shape[0] as nat,
        |i: int| ifft_of(output_prod(f, x.data, i), log_size(f)),
    );
    let windows = |i: int| Seq::new(n2 as nat, |t: int| fint(window_sum(f, x.data, i, t)));
    let all_windows = Seq::new(
        (f.shape[0] * n2) as nat,
        |t: int| fint(window_sum(f, x.data, t / n2, t % n2)),
    );
    let bias = fints(c.bias@.data);
    let all_bias = Seq::new((f.shape[0] * n2) as nat, |t: int| bias[t / n2]);
    let entries = fints(conv_entries(c, x));
    // the entries are the sums over the windows, plus the bias
    lemma_pow2_adds(hi.len(), lo.len());
    assert(p.len() == hi.len() + lo.len());
    assert(pow2(p.len()) == f.shape[0] * n2);
    assert forall|t: int| 0 <= t < pow2(p.len()) implies #[trigger] entries[t] == fadd(
        fmul(fone(), all_windows[t]),
        all_bias[t],
    ) by {
        let w = window_sum(f, x.data, t / n2, t % n2);
        let b = c.bias@.data[t / n2] as int;
        lemma_div_lt(t as nat, n2 as nat, f.shape[0] as nat);
        assert(fits(conv_entry(c, x, t)));
        lemma_fint(centered(w), b);
        lemma_fint_centered(w);
        lemma_fmul_one(fint(w));
    }
    lemma_mle_linear(fone(), all_windows, all_bias, entries, p);
    lemma_mle_fe(all_windows, p);
    lemma_fmul_one(mle(all_windows, p));
    // the bias
    let bias_parts = |i: int| Seq::new(n2 as nat, |t: int| bias[i]);
    assert forall|i: int, k: int|
        0 <= i < kw && 0 <= k < pow2(lo.len()) implies #[trigger] bias_parts(i)[k] == all_bias[i
        * pow2(lo.len()) + k] by {
        lemma_flat(i, k, kw as int, n2);
        lemma_fundamental_div_mod_converse(i * n2 + k, n2, i, k);
    }
    lemma_mle_parts(all_bias, bias_parts, lo, hi);
    let ba = |i: int| mle(bias_parts(i), lo);
    let bb = |i: int| bias[i];
    assert forall|i: int| 0 <= i < kw implies #[trigger] ba(i) == bb(i) by {
        lemma_fint(c.bias@.data[i] as int, 0);
        lemma_mle_constant(bias[i], bias_parts(i), lo);
    }
    lemma_mle_same_parts(ba, bb, hi);
    assert(mle(all_bias, p) == mle(bias, hi)) by {
        let u = |i: int| fmul(mle(bias_parts(i), lo), beta(hi, i as nat));
        let v = |i: int| fmul(ba(i), beta(hi, i as nat));
        lemma_fsum_eq(kw, u, v);
        let w = |i: int| fmul(bb(i), beta(hi, i as nat));
        let z = |i: int| fmul(bias[i], beta(hi, i as nat));
        lemma_fsum_eq(kw, w, z);
    }
    assert(bias_value(c.bias@.data, hi) == mle(bias, hi)) by {
        if hi.len() == 0 {
            lemma_pow2_zero();
            let z = |i: int| fmul(bias[i], beta(hi, i as nat));
            assert(fsum(1, z) == fadd(fsum(0, z), z(0)));
            assert(beta(hi, 0) == fone());
            lemma_fint(c.bias@.data[0] as int, 0);
            lemma_fmul_one(bias[0]);
            lemma_fadd_comm(fzero(), bias[0]);
            lemma_fadd_zero(bias[0]);
        }
    }
    lemma_mle_fe(all_bias, p);
    lemma_fsub(mle(all_windows, p), mle(all_bias, p));
    // the sums over the windows are the first halves of the inverse transforms, in reverse
    let q = complemented(lo);
    let z = q + seq![fzero()];
    let tp = transform_point(p, lo.len() as int, hi.len() as int);
    assert(tp =~= z + hi);
    assert(all_fe(q)) by {
        assert forall|i: int| 0 <= i < q.len() implies is_fe(#[trigger] q[i]) by {
            lemma_fe_closed(fone(), lo[i]);
        }
    }
    assert(all_fe(z)) by {
        assert forall|i: int| 0 <= i < z.len() implies is_fe(#[trigger] z[i]) by {
            if i < q.len() {
                assert(z[i] == q[i]);
            }
        }
    }
    let flat = flattened(outputs, 2 * n2);
    let out_parts = |i: int| outputs[i];
    lemma_pow2_step(lo.len());
    assert(pow2(z.len()) == 2 * n2);
    assert forall|i: int, k: int|
        0 <= i < kw && 0 <= k < pow2(z.len()) implies #[trigger] out_parts(i)[k] == flat[i * pow2(
        z.len(),
    ) + k] by {
        lemma_flat(i, k, kw as int, 2 * n2);
        lemma_fundamental_div_mod_converse(i * (2 * n2) + k, 2 * n2, i, k);
    }
    lemma_mle_parts(flat, out_parts, z, hi);
    assert forall|i: int, k: int|
        0 <= i < kw && 0 <= k < pow2(lo.len()) implies #[trigger] windows(i)[k] == all_windows[i
        * pow2(lo.len()) + k] by {
        lemma_flat(i, k, kw as int, n2);
        lemma_fundamental_div_mod_converse(i * n2 + k, n2, i, k);
    }
    lemma_mle_parts(all_windows, windows, lo, hi);
    let oa = |i: int| mle(out_parts(i), z);
    let ob = |i: int| mle(windows(i), lo);
    assert forall|i: int| 0 <= i < kw implies #[trigger] oa(i) == ob(i) by {
        let half = Seq::new(n2 as nat, |t: int| outputs[i][t]);
        lemma_mle_half(outputs[i], half, q, fzero());
        assert forall|t: int| 0 <= t < pow2(lo.len()) implies #[trigger] half[t] == windows(i)[pow2(
            lo.len(),
        ) - 1 - t] by {
            law_fft_windows(f, x, i, n2 - 1 - t);
        }
        lemma_mle_reverse(windows(i), half, lo);
        lemma_one_minus_zero();
        lemma_mle_fe(half, q);
        lemma_fmul_one(mle(half, q));
    }
    lemma_mle_same_parts(oa, ob, hi);
    assert(mle(flat, tp) == mle(all_windows, p)) by {
        let a1 = |i: int| fmul(mle(out_parts(i), z), beta(hi, i as nat));
        let a2 = |i: int| fmul(oa(i), beta(hi, i as nat));
        lemma_fsum_eq(kw, a1, a2);
        let b1 = |i: int| fmul(mle(windows(i), lo), beta(hi, i as nat));
        let b2 = |i: int| fmul(ob(i), beta(hi, i as nat));
        lemma_fsum_eq(kw, b1, b2);
    }
}

proof fn lemma_one_minus_zero()
    ensures
        fsub(fone(), fzero()) == fone(),
{
    lemma_one_minus_twice(fone());
    lemma_fsub(fzero(), fone());
    lemma_fadd_comm(fzero(), fone());
    lemma_fadd_zero(fone());
}

// ---------------------------------------------------------------------------------------
// Filters
// ---------------------------------------------------------------------------------------

proof fn lemma_identity_comm(a: Seq<Fe>, b: Seq<Fe>)
    ensures
        identity(a, b) == identity(b, a),
{
    let f = |i: int| eq1(a[i], b[i]);
    let g = |i: int| eq1(b[i], a[i]);
    assert forall|i: int| 0 <= i < min_len(a, b) implies #[trigger] f(i) == g(i) by {
        lemma_fmul_comm(a[i], b[i]);
        lemma_fmul_comm(fsub(fone(), a[i]), fsub(fone(), b[i]));
    }
    lemma_fprod_eq(min_len(a, b), f, g);
}

/// The value at a point of a square laid out in a larger one is what its entries give.
proof fn lemma_laid_out_eval(w: Seq<Fe>, k: int, n: int, e: nat, point: Seq<Fe>)
    requires
        0 < n == pow2(e),
        0 <= k <= n,
        flog2(n as nat) == e,
        point.len() == 2 * e,
        all_fe(point),
        w.len() == k * k,
    ensures
        mle(laid_out(w, k, n, (n * n) as nat), point) == laid_out_eval(w, k, n, point),
{
    let square = laid_out(w, k, n, (n * n) as nat);
    lemma_pow2_adds(e, e);
    let full = |b: int| fmul(square[b], beta(point, b as nat));
    let rows = |i: int| fsum(n as nat, |j: int| full(i * n + j));
    lemma_fsum_blocks(n as nat, n as nat, full, rows);
    let small = |q: int|
        fmul(
            w[q],
            identity(fbits(((q / k) * n + q % k) as nat, 2 * flog2(n as nat)), point),
        );
    let small_rows = |i: int| fsum(k as nat, |j: int| small(i * k + j));
    lemma_fsum_blocks(k as nat, k as nat, small, small_rows);
    assert forall|i: int| k <= i < n implies #[trigger] rows(i) == fzero() by {
        let row = |j: int| full(i * n + j);
        assert forall|j: int| 0 <= j < n implies #[trigger] row(j) == fzero() by {
            lemma_flat(i, j, n, n);
            lemma_fundamental_div_mod_converse(i * n + j, n, i, j);
            lemma_fmul_zero(beta(point, (i * n + j) as nat));
        }
        lemma_fsum_zero(n as nat, row);
    }
    lemma_fsum_truncate(n as nat, k as nat, rows);
    assert forall|i: int| 0 <= i < k implies #[trigger] rows(i) == small_rows(i) by {
        let row = |j: int| full(i * n + j);
        let small_row = |j: int| small(i * k + j);
        assert forall|j: int| k <= j < n implies #[trigger] row(j) == fzero() by {
            lemma_flat(i, j, n, n);
            lemma_fundamental_div_mod_converse(i * n + j, n, i, j);
            lemma_fmul_zero(beta(point, (i * n + j) as nat));
        }
        lemma_fsum_truncate(n as nat, k as nat, row);
        assert forall|j: int| 0 <= j < k implies #[trigger] row(j) == small_row(j) by {
            lemma_flat(i, j, n, n);
            lemma_flat(i, j, k, k);
            lemma_fundamental_div_mod_converse(i * n + j, n, i, j);
            lemma_fundamental_div_mod_converse(i * k + j, k, i, j);
            let b = (i * n + j) as nat;
            law_beta_is_identity(point, b);
            lemma_identity_comm(point, fbits(b, point.len()));
        }
        lemma_fsum_eq(k as nat, row, small_row);
    }
    lemma_fsum_eq(k as nat, rows, small_rows);
}

/// The check on the laid out filters holds: their value, with the last coordinate of the point
/// divided out, is what the entries of the filters give.
pub proof fn law_weights_check(f: TensorView<Element>, partial: Seq<Fe>, lo: Seq<Fe>, x: Fe)
    requires
        fft_filter(f),
        partial.len() == f.og_shape[2] * f.og_shape[2],
        lo.len() + 1 == log_size(f),
        all_fe(lo),
        is_fe(x),
        x != fone(),
    ensures
        ({
            let n = f.shape[2] as int;
            let k = f.og_shape[2] as int;
            let claim = mle(laid_out(partial, k, n, (2 * (n * n)) as nat), lo + seq![x]);
            fmul(claim, finv(fsub(fone(), x))) == laid_out_eval(partial, k, n, lo)
        }),
{
    let n = f.shape[2] as int;
    let k = f.og_shape[2] as int;
    lemma_size(f);
    let e = flog2(n as nat);
    lemma_pow2_adds(e, e);
    let whole = laid_out(partial, k, n, (2 * (n * n)) as nat);
    let half = laid_out(partial, k, n, (n * n) as nat);
    assert(lo.len() == e + e);
    assert forall|t: int| n * n <= t < whole.len() implies #[trigger] whole[t] == fzero() by {
        lemma_div_pos_is_pos(t, n);
        assert(t / n >= n) by {
            lemma_div_is_ordered(n * n, t, n);
            lemma_div_multiples_vanish(n, n);
        }
    }
    lemma_mle_half(whole, half, lo, x);
    lemma_laid_out_eval(partial, k, n, e, lo);
    lemma_mle_fe(half, lo);
    lemma_one_minus_invertible(x);
    lemma_divide_out(fsub(fone(), x), mle(half, lo), mle(whole, lo + seq![x]));
}

/// A factor is divided out.
proof fn lemma_divide_out(y: Fe, a: Fe, b: Fe)
    requires
        finvertible(y),
        b == fmul(y, a),
        is_fe(a),
    ensures
        fmul(b, finv(y)) == a,
{
    let i = finv(y);
    assert(is_fe(i) && fmul(y, i) == fone());
    // (y a) i = a (y i)
    lemma_fmul_comm(y, a);
    lemma_fmul_assoc(a, y, i);
    lemma_fmul_one(a);
}

// ---------------------------------------------------------------------------------------
// Input
// ---------------------------------------------------------------------------------------

/// The claim about the input that a convolution leaves is true, where the transforms were proved of
/// the reversed channels of the input, each filled up to twice its length: their value at the whole
/// point, with the last coordinate of the transform divided out, is that of the input at the point
/// of the claim.
pub proof fn law_input_claim(
    f: TensorView<Element>,
    x: TensorView<Element>,
    lo: Seq<Fe>,
    last: Fe,
    hp: Seq<Fe>,
)
    requires
        fft_filter(f),
        fft_input(f, x),
        lo.len() + 1 == log_size(f),
        hp.len() >= log_size(f),
        pow2((hp.len() - log_size(f)) as nat) == f.shape[1],
        all_fe(lo),
        is_fe(last),
        all_fe(hp),
        last != fone(),
    ensures
        ({
            let n = f.shape[2] as int;
            let hi = hp.skip(log_size(f) as int);
            let polys = Seq::new(f.shape[1] as nat, |j: int| input_poly(x.data, n, j));
            let fft_claim = mle(flattened(polys, 2 * (n * n)), lo + seq![last] + hi);
            let c = input_claim(lo + seq![last], hp, fft_claim, log_size(f) as int);
            &&& c.point == complemented(lo) + hi
            &&& c.eval == mle(fints(x.data), c.point)
        }),
{
    let n = f.shape[2] as int;
    let n2 = n * n;
    let kx = f.shape[1] as nat;
    lemma_size(f);
    let e = flog2(n as nat);
    lemma_pow2_adds(e, e);
    assert(lo.len() == e + e);
    let hi = hp.skip(log_size(f) as int);
    assert(all_fe(hi)) by {
        assert forall|i: int| 0 <= i < hi.len() implies is_fe(#[trigger] hi[i]) by {
            assert(hi[i] == hp[i + log_size(f)]);
        }
    }
    let s = lo + seq![last];
    assert(all_fe(s)) by {
        assert forall|i: int| 0 <= i < s.len() implies is_fe(#[trigger] s[i]) by {
            if i < lo.len() {
                assert(s[i] == lo[i]);
            }
        }
    }
    let polys = Seq::new(kx, |j: int| input_poly(x.data, n, j));
    let flat = flattened(polys, 2 * n2);
    let parts = |j: int| polys[j];
    lemma_pow2_step(lo.len());
    assert(pow2(s.len()) == 2 * n2);
    assert forall|i: int, k: int|
        0 <= i < kx && 0 <= k < pow2(s.len()) implies #[trigger] parts(i)[k] == flat[i * pow2(
        s.len(),
    ) + k] by {
        lemma_flat(i, k, kx as int, 2 * n2);
        lemma_fundamental_div_mod_converse(i * (2 * n2) + k, 2 * n2, i, k);
    }
    lemma_mle_parts(flat, parts, s, hi);
    let q = complemented(lo);
    assert(all_fe(q)) by {
        assert forall|i: int| 0 <= i < q.len() implies is_fe(#[trigger] q[i]) by {
            lemma_fe_closed(fone(), lo[i]);
        }
    }
    let xs = fints(x.data);
    let channels = |j: int| Seq::new(n2 as nat, |t: int| xs[j * n2 + t]);
    assert forall|i: int, k: int|
        0 <= i < kx && 0 <= k < pow2(q.len()) implies #[trigger] channels(i)[k] == xs[i * pow2(
        q.len(),
    ) + k] by {}
    lemma_mle_parts(xs, channels, q, hi);
    let y = fsub(fone(), last);
    let b = |j: int| fmul(mle(channels(j), q), beta(hi, j as nat));
    let a = |j: int| fmul(mle(parts(j), s), beta(hi, j as nat));
    let yb = |j: int| fmul(y, b(j));
    lemma_product3(x.shape);
    assert forall|j: int| 0 <= j < kx implies #[trigger] a(j) == yb(j) by {
        let half = reversed_input(x.data, n, j);
        lemma_mle_half(polys[j], half, lo, last);
        // the channel is the half in reverse
        assert(complemented(q) =~= lo) by {
            assert forall|i: int| 0 <= i < lo.len() implies complemented(q)[i] == lo[i] by {
                lemma_one_minus_twice(lo[i]);
            }
        }
        assert forall|t: int| 0 <= t < pow2(q.len()) implies #[trigger] half[t] == channels(
            j,
        )[pow2(q.len()) - 1 - t] by {
            lemma_flat(j, n2 - 1 - t, kx as int, n2);
            assert(x.data.len() == kx * n2) by {
                lemma_mul_is_associative(kx as int, n, n);
            }
        }
        lemma_mle_reverse(channels(j), half, q);
        lemma_fmul_assoc(y, mle(channels(j), q), beta(hi, j as nat));
    }
    lemma_fsum_scale(kx, y, b);
    assert((|j: int| fmul(y, b(j))) =~= yb);
    lemma_fsum_eq(kx, a, yb);
    let total = mle(xs, q + hi);
    assert(mle(flat, s + hi) == fmul(y, total));
    lemma_mle_fe(xs, q + hi);
    lemma_one_minus_invertible(last);
    lemma_divide_out(y, total, mle(flat, s + hi));
    assert(s.take(s.len() - 1) =~= lo);
}

// ---------------------------------------------------------------------------------------
// Products of the transforms
// ---------------------------------------------------------------------------------------

/// The transform of a sum with weights is the sum of the transforms with the weights.
proof fn lemma_fft_weighted(
    n: nat,
    c: nat,
    a: spec_fn(int) -> Seq<Fe>,
    weights: Seq<Fe>,
    s: Seq<Fe>,
    t: int,
)
    requires
        s.len() == pow2(n),
        0 <= t < pow2(n),
        forall|i: int| 0 <= i < c ==> (#[trigger] a(i)).len() == pow2(n),
        forall|b: int|
            0 <= b < pow2(n) ==> #[trigger] s[b] == fsum(c, |i: int| fmul(weights[i], a(i)[b])),
    ensures
        fft_of(s, n)[t] == fsum(c, |i: int| fmul(weights[i], fft_of(a(i), n)[t])),
{
    let w = omega(n);
    let len = pow2(n);
    let pw = |b: int| fpow(w, (b * (t as nat)) as nat);
    let term = |b: int, i: int| fmul(fmul(weights[i], a(i)[b]), pw(b));
    let f1 = |b: int| fmul(s[b], pw(b));
    let f2 = |b: int| fsum(c, |i: int| term(b, i));
    assert forall|b: int| 0 <= b < len implies #[trigger] f1(b) == f2(b) by {
        let g = |i: int| fmul(weights[i], a(i)[b]);
        let h = |i: int| fmul(pw(b), g(i));
        let k = |i: int| term(b, i);
        lemma_fsum_scale(c, pw(b), g);
        lemma_fmul_comm(fsum(c, g), pw(b));
        assert forall|i: int| 0 <= i < c implies #[trigger] h(i) == k(i) by {
            lemma_fmul_comm(pw(b), g(i));
        }
        lemma_fsum_eq(c, h, k);
    }
    lemma_fsum_eq(len, f1, f2);
    lemma_fsum_swap(len, c, term);
    let r1 = |i: int| fsum(len, |b: int| term(b, i));
    let r2 = |i: int| fmul(weights[i], fft_of(a(i), n)[t]);
    assert forall|i: int| 0 <= i < c implies #[trigger] r1(i) == r2(i) by {
        let g = |b: int| fmul(a(i)[b], pw(b));
        let h = |b: int| fmul(weights[i], g(b));
        let k = |b: int| term(b, i);
        lemma_fsum_scale(len, weights[i], g);
        assert forall|b: int| 0 <= b < len implies #[trigger] h(b) == k(b) by {
            lemma_fmul_assoc(weights[i], a(i)[b], pw(b));
        }
        lemma_fsum_eq(len, h, k);
        assert(a(i).len() == len);
        assert((|b: int| fmul(a(i)[b], fpow(w, (b * (t as nat)) as nat))) =~= g);
    }
    lemma_fsum_eq(c, r1, r2);
    assert((|b: int| fmul(s[b], fpow(w, (b * (t as nat)) as nat))) =~= f1);
}

/// The transform of the added up filters of a channel is the sum of their transforms.
proof fn lemma_aggregated_fft(f: TensorView<Element>, weights: Seq<Fe>, j: int, t: int)
    requires
        fft_filter(f),
        0 <= j < f.shape[1],
        0 <= t < 2 * (f.shape[2] * f.shape[2]),
    ensures
        aggregated_fft(f, weights, j)[t] == fsum(
            f.shape[0] as nat,
            |i: int| fmul(weights[i], fft_of(filter_poly(f, i, j), log_size(f))[t]),
        ),
{
    let n = f.shape[2] as int;
    let k = f.og_shape[2] as int;
    let k2 = k * k;
    let c = f.shape[0] as nat;
    lemma_size(f);
    let a = |i: int| filter_poly(f, i, j);
    let s = laid_out(aggregated(f, weights, j), k, n, (2 * (n * n)) as nat);
    assert forall|b: int| 0 <= b < pow2(log_size(f)) implies #[trigger] s[b] == fsum(
        c,
        |i: int| fmul(weights[i], a(i)[b]),
    ) by {
        let h = |i: int| fmul(weights[i], a(i)[b]);
        lemma_div_pos_is_pos(b, n);
        lemma_mod_bound(b, n);
        if b / n < k && b % n < k {
            let q = (b / n) * k + b % n;
            lemma_flat(b / n, b % n, k, k);
            let g = |i: int| fmul(weights[i], fint(f.data[(i * f.shape[1] + j) * k2 + q] as int));
            assert forall|i: int| 0 <= i < c implies #[trigger] g(i) == h(i) by {}
            lemma_fsum_eq(c, g, h);
        } else {
            assert forall|i: int| 0 <= i < c implies #[trigger] h(i) == fzero() by {
                lemma_fmul_zero(weights[i]);
            }
            lemma_fsum_zero(c, h);
        }
    }
    lemma_fft_weighted(log_size(f), c, a, weights, s, t);
    let u = |i: int| fmul(weights[i], fft_of(a(i), log_size(f))[t]);
    let v = |i: int| fmul(weights[i], fft_of(filter_poly(f, i, j), log_size(f))[t]);
    lemma_fsum_eq(c, u, v);
}

/// What the prover puts into the sum-check for the products of the transforms: the transforms of
/// the added up filters, those of the input, and the equality polynomial, once for each channel.
pub open spec fn hadamard_factors(
    f: TensorView<Element>,
    x: Seq<Element>,
    r1: Seq<Fe>,
    r2: Seq<Fe>,
) -> Seq<Seq<Fe>> {
    let n = f.shape[2] as int;
    seq![
        flattened(
            Seq::new(f.shape[1] as nat, |j: int| aggregated_fft(f, betas(r1), j)),
            2 * (n * n),
        ),
        flattened(
            Seq::new(
                f.shape[1] as nat,
                |j: int| fft_of(input_poly(x, n, j), log_size(f)),
            ),
            2 * (n * n),
        ),
        flattened(Seq::new(f.shape[1] as nat, |j: int| betas(r2)), 2 * (n * n)),
    ]
}

/// The claim about the products of the transforms is the sum over the hypercube that the next
/// sum-check is about: adding up the filters first and multiplying then gives the same.
pub proof fn law_products_claim(
    f: TensorView<Element>,
    x: TensorView<Element>,
    r1: Seq<Fe>,
    r2: Seq<Fe>,
)
    requires
        fft_filter(f),
        fft_input(f, x),
        pow2(r1.len()) == f.shape[0],
        r2.len() == log_size(f),
        all_fe(r1),
        all_fe(r2),
    ensures
        ({
            let n = f.shape[2] as int;
            let prods = Seq::new(f.shape[0] as nat, |i: int| output_prod(f, x.data, i));
            mle(flattened(prods, 2 * (n * n)), r2 + r1) == fsum(
                (f.shape[1] * (2 * (n * n))) as nat,
                |t: int| term_at(fone(), hadamard_factors(f, x.data, r1, r2), t),
            )
        }),
{
    let n = f.shape[2] as int;
    let len = (2 * (n * n)) as nat;
    let kw = f.shape[0] as nat;
    let kx = f.shape[1] as nat;
    lemma_size(f);
    let prods = Seq::new(kw, |i: int| output_prod(f, x.data, i));
    let flat = flattened(prods, len as int);
    let parts = |i: int| prods[i];
    assert forall|i: int, k: int|
        0 <= i < kw && 0 <= k < pow2(r2.len()) implies #[trigger] parts(i)[k] == flat[i * pow2(
        r2.len(),
    ) + k] by {
        lemma_flat(i, k, kw as int, len as int);
        lemma_fundamental_div_mod_converse(i * len + k, len as int, i, k);
    }
    lemma_mle_parts(flat, parts, r2, r1);
    let wi = |i: int| beta(r1, i as nat);
    let xf = |j: int| fft_of(input_poly(x.data, n, j), log_size(f));
    let ff = |i: int, j: int| fft_of(filter_poly(f, i, j), log_size(f));
    let bt = |t: int| beta(r2, t as nat);
    // sum over i of w[i] times sum over t of prod[i][t] b[t]
    let lhs = |i: int| fmul(mle(parts(i), r2), beta(r1, i as nat));
    // the same terms, with i inside
    let cell = |t: int, i: int| fmul(fmul(prods[i][t], bt(t)), wi(i));
    let cols = |i: int| fsum(len, |t: int| cell(t, i));
    assert forall|i: int| 0 <= i < kw implies #[trigger] lhs(i) == cols(i) by {
        let g = |t: int| fmul(prods[i][t], bt(t));
        let h = |t: int| fmul(wi(i), g(t));
        let k = |t: int| cell(t, i);
        lemma_fsum_scale(len, wi(i), g);
        assert forall|t: int| 0 <= t < len implies #[trigger] h(t) == k(t) by {
            lemma_fmul_comm(wi(i), g(t));
        }
        lemma_fsum_eq(len, h, k);
        lemma_fmul_comm(mle(parts(i), r2), wi(i));
        assert((|t: int| fmul(parts(i)[t], beta(r2, t as nat))) =~= g);
    }
    lemma_fsum_eq(kw, lhs, cols);
    lemma_fsum_swap(len, kw, cell);
    // for a place t: the sum over i is a sum over the channels
    let place = |t: int| fsum(kw, |i: int| cell(t, i));
    let piece = |t: int, j: int|
        fmul(fmul(aggregated_fft(f, betas(r1), j)[t], xf(j)[t]), bt(t));
    let by_channel = |t: int| fsum(kx, |j: int| piece(t, j));
    assert forall|t: int| 0 <= t < len implies #[trigger] place(t) == by_channel(t) by {
        lemma_place(f, x, r1, t, bt(t));
        let a = |i: int| cell(t, i);
        let a2 = |i: int|
            fmul(fmul(output_prod(f, x.data, i)[t], bt(t)), beta(r1, i as nat));
        lemma_fsum_eq(kw, a, a2);
        let b = |j: int| piece(t, j);
        let b2 = |j: int|
            fmul(
                fmul(
                    aggregated_fft(f, betas(r1), j)[t],
                    fft_of(input_poly(x.data, n, j), log_size(f))[t],
                ),
                bt(t),
            );
        lemma_fsum_eq(kx, b, b2);
    }
    lemma_fsum_eq(len, place, by_channel);
    lemma_fsum_swap(len, kx, piece);
    // the sums over channels and places are one sum
    let factors = hadamard_factors(f, x.data, r1, r2);
    let full = |u: int| term_at(fone(), factors, u);
    let rows = |j: int| fsum(len, |t: int| piece(t, j));
    assert forall|j: int| 0 <= j < kx implies #[trigger] rows(j) == fsum(
        len,
        |t: int| full(j * len + t),
    ) by {
        let a = |t: int| piece(t, j);
        let b = |t: int| full(j * len + t);
        assert forall|t: int| 0 <= t < len implies #[trigger] a(t) == b(t) by {
            let u = j * len + t;
            lemma_flat(j, t, kx as int, len as int);
            lemma_fundamental_div_mod_converse(u, len as int, j, t);
            let h = |i: int| factors[i][u];
            assert(fprod(3, h) == fmul(fmul(fmul(fone(), h(0)), h(1)), h(2))) by {
                reveal_with_fuel(fprod, 4);
            }
            lemma_fmul_assoc(fone(), h(0), h(1));
            lemma_fe_closed(h(0), h(1));
            lemma_fmul_one(fmul(h(0), h(1)));
            lemma_fe_closed(fmul(h(0), h(1)), h(2));
            lemma_fmul_one(fmul(fmul(h(0), h(1)), h(2)));
        }
        lemma_fsum_eq(len, a, b);
    }
    lemma_fsum_blocks(kx, len, full, rows);
    let rows2 = |j: int| fsum(len, |t: int| piece(t, j));
    lemma_fsum_eq(kx, rows, rows2);
}

/// At one place: the products of the transforms, added up over the outputs, are the products with
/// the added up filters, added up over the channels.
proof fn lemma_place(
    f: TensorView<Element>,
    x: TensorView<Element>,
    r1: Seq<Fe>,
    t: int,
    b: Fe,
)
    requires
        fft_filter(f),
        fft_input(f, x),
        pow2(r1.len()) == f.shape[0],
        0 <= t < 2 * (f.shape[2] * f.shape[2]),
    ensures
        fsum(
            f.shape[0] as nat,
            |i: int| fmul(fmul(output_prod(f, x.data, i)[t], b), beta(r1, i as nat)),
        ) == fsum(
            f.shape[1] as nat,
            |j: int|
                fmul(
                    fmul(
                        aggregated_fft(f, betas(r1), j)[t],
                        fft_of(input_poly(x.data, f.shape[2] as int, j), log_size(f))[t],
                    ),
                    b,
                ),
        ),
{
    let n = f.shape[2] as int;
    let kw = f.shape[0] as nat;
    let kx = f.shape[1] as nat;
    let xs = |j: int| fft_of(input_poly(x.data, n, j), log_size(f))[t];
    let fs = |i: int, j: int| fft_of(filter_poly(f, i, j), log_size(f))[t];
    let w = |i: int| beta(r1, i as nat);
    let cell = |i: int, j: int| fmul(fmul(fmul(w(i), fs(i, j)), xs(j)), b);
    let a = |i: int| fmul(fmul(output_prod(f, x.data, i)[t], b), beta(r1, i as nat));
    let a2 = |i: int| fsum(kx, |j: int| cell(i, j));
    assert forall|i: int| 0 <= i < kw implies #[trigger] a(i) == a2(i) by {
        let g = |j: int| channel_prod(f, x.data, i, j)[t];
        let c = fmul(b, w(i));
        let h = |j: int| fmul(c, g(j));
        let k = |j: int| cell(i, j);
        lemma_fmul_assoc(output_prod(f, x.data, i)[t], b, w(i));
        lemma_fmul_comm(output_prod(f, x.data, i)[t], c);
        lemma_fsum_scale(kx, c, g);
        assert forall|j: int| 0 <= j < kx implies #[trigger] h(j) == k(j) by {
            // (b w) (x f) = ((w f) x) b
            assert(g(j) == fmul(xs(j), fs(i, j)));
            let wf = fmul(w(i), fs(i, j));
            lemma_fmul_comm(xs(j), fs(i, j));
            lemma_fmul_assoc(b, w(i), fmul(fs(i, j), xs(j)));
            lemma_fmul_assoc(w(i), fs(i, j), xs(j));
            lemma_fmul_comm(b, fmul(wf, xs(j)));
        }
        lemma_fsum_eq(kx, h, k);
    }
    lemma_fsum_eq(kw, a, a2);
    lemma_fsum_swap(kw, kx, cell);
    let r = |j: int| fsum(kw, |i: int| cell(i, j));
    let s = |j: int|
        fmul(
            fmul(
                aggregated_fft(f, betas(r1), j)[t],
                fft_of(input_poly(x.data, n, j), log_size(f))[t],
            ),
            b,
        );
    assert forall|j: int| 0 <= j < kx implies #[trigger] r(j) == s(j) by {
        lemma_aggregated_fft(f, betas(r1), j, t);
        let g = |i: int| fmul(w(i), fs(i, j));
        let g2 = |i: int| fmul(betas(r1)[i], fft_of(filter_poly(f, i, j), log_size(f))[t]);
        assert forall|i: int| 0 <= i < kw implies #[trigger] g(i) == g2(i) by {}
        lemma_fsum_eq(kw, g, g2);
        let c = fmul(xs(j), b);
        let h = |i: int| fmul(c, g(i));
        let k = |i: int| cell(i, j);
        lemma_fsum_scale(kw, c, g);
        assert forall|i: int| 0 <= i < kw implies #[trigger] h(i) == k(i) by {
            lemma_fmul_comm(c, g(i));
            lemma_fmul_assoc(g(i), xs(j), b);
        }
        lemma_fsum_eq(kw, h, k);
        lemma_fmul_comm(c, fsum(kw, g));
        lemma_fmul_assoc(fsum(kw, g), xs(j), b);
    }
    lemma_fsum_eq(kx, r, s);
}

} // verus!
