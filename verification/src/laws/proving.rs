//! What the prover and the verifier put into their sums.
use crate::arith::flog2;
use crate::bench::CSVBencher;
use crate::claim::{ClaimView, cviews};
use crate::commit::{eq1, fbits, identity, law_beta_is_identity};
use crate::fft::{fft_of, ifft_of};
use crate::field::{
    Fe, all_fe, fadd, fint, fmul, fone, fpow, fsub, fsum, fviews, fviews2, fzero, lemma_fmul_comm,
    lemma_fprod_eq, lemma_fsum_eq,
};
use crate::iop::claims::{claim_known, claim_views, is_input_claim, takes_input};
use crate::iop::session::Verifier;
use crate::layers::conv_steps::{aggregated, flattened, reduced, refers_to, transform_point};
use crate::layers::fft_conv::{
    ConvData, channel_prod, conv_data_is, filter_poly, input_poly, laid_out, log_size,
    output_prod, reversed_input,
};
use crate::layers::provable::{NodeId, ProductTerm, SumcheckProof, betas, rlc, term_is};
use crate::layers::requant_steps::{accumulation, final_values, initial_values};
use crate::ops::lemma_flat;
use crate::quantization::{Element, fints};
use crate::tensor::TensorView;
use vstd::arithmetic::div_mod::*;
use vstd::arithmetic::mul::*;
use vstd::arithmetic::power2::*;
use vstd::prelude::*;

verus! {

/// Values added up with powers as weights: nothing adds up to zero, and each further value comes
/// with the next power.
pub proof fn law_combination(v: Seq<Fe>, x: Fe, c: Fe)
    ensures
        rlc(Seq::<Fe>::empty(), c) == fzero(),
        rlc(v.push(x), c) == fadd(rlc(v, c), fmul(fpow(c, v.len()), x)),
{
    let w = v.push(x);
    let f = |i: int| fmul(fpow(c, i as nat), v[i]);
    let g = |i: int| fmul(fpow(c, i as nat), w[i]);
    assert forall|i: int| 0 <= i < v.len() implies #[trigger] f(i) == g(i) by {}
    lemma_fsum_eq(v.len(), f, g);
    assert(g(v.len() as int) == fmul(fpow(c, v.len()), x));
}

/// What the verifier of a requantisation adds up before the sum-check: the claim that it was
/// handed, those about the outputs and the inputs of the clamping, and those about the chunks.
pub proof fn law_initial_values(last: Fe, clamping: Seq<Fe>, shifted: Seq<Fe>, j: int)
    requires
        clamping.len() >= 2,
        0 <= j < shifted.len(),
    ensures
        ({
            let v = initial_values(last, clamping, shifted);
            &&& v.len() == 3 + shifted.len()
            &&& v[0] == last
            &&& v[1] == clamping[1]
            &&& v[2] == clamping[0]
            &&& v[3 + j] == shifted[j]
        }),
{
}

/// What it adds up after the sum-check: the values of the columns at the new point, in the same
/// order, each times the equality polynomial of its claim.
pub proof fn law_final_values(last: Fe, clamping: Fe, shifted: Fe, evals: Seq<Fe>, j: int)
    requires
        evals.len() >= 2,
        0 <= j < evals.len() - 2,
    ensures
        ({
            let v = final_values(last, clamping, shifted, evals);
            &&& v.len() == 1 + evals.len()
            &&& v[0] == fmul(last, evals[1])
            &&& v[1] == fmul(clamping, evals[1])
            &&& v[2] == fmul(clamping, evals[0])
            &&& v[3 + j] == fmul(shifted, evals[2 + j])
        }),
{
}

/// The summands of the sum-check of a requantisation, in the same order: each is a column times
/// the equality polynomial of the point of its claim.
pub proof fn law_accumulation(
    last: Seq<Fe>,
    clamping_point: Seq<Fe>,
    shifted_point: Seq<Fe>,
    clamping: Seq<Seq<Fe>>,
    shifted: Seq<Seq<Fe>>,
    j: int,
    k: int,
)
    requires
        clamping.len() == 2,
        0 <= j < shifted.len(),
        0 <= k < pow2(shifted_point.len()),
        all_fe(shifted_point),
    ensures
        ({
            let t = accumulation(last, clamping_point, shifted_point, clamping, shifted);
            &&& t.len() == 3 + shifted.len()
            &&& t[0].len() == 2 && t[0][0] == clamping[1] && t[0][1] == betas(last)
            &&& t[1].len() == 2 && t[1][0] == clamping[1] && t[1][1] == betas(clamping_point)
            &&& t[2].len() == 2 && t[2][0] == clamping[0] && t[2][1] == betas(clamping_point)
            &&& t[3 + j].len() == 2 && t[3 + j][0] == betas(shifted_point) && t[3 + j][1]
                == shifted[j]
            &&& betas(shifted_point).len() == pow2(shifted_point.len())
            &&& betas(shifted_point)[k] == identity(
                fbits(k as nat, shifted_point.len()),
                shifted_point,
            )
        }),
{
    law_beta_is_identity(shifted_point, k as nat);
    lemma_identity_turned(shifted_point, fbits(k as nat, shifted_point.len()));
}

/// The equality polynomial of two points does not depend on their order.
pub proof fn lemma_identity_turned(a: Seq<Fe>, b: Seq<Fe>)
    requires
        a.len() == b.len(),
    ensures
        identity(a, b) == identity(b, a),
{
    let f = |i: int| eq1(a[i], b[i]);
    let g = |i: int| eq1(b[i], a[i]);
    assert forall|i: int| 0 <= i < a.len() implies #[trigger] f(i) == g(i) by {
        lemma_fmul_comm(a[i], b[i]);
        lemma_fmul_comm(fsub(fone(), a[i]), fsub(fone(), b[i]));
    }
    lemma_fprod_eq(a.len(), f, g);
}

/// Sequences one after the other: entry `j` of sequence `i` stands behind those of the sequences
/// before.
pub proof fn law_flattened(s: Seq<Seq<Fe>>, len: int, i: int, j: int)
    requires
        0 <= i < s.len(),
        0 <= j < len,
    ensures
        flattened(s, len).len() == s.len() * len,
        0 <= i * len + j < flattened(s, len).len(),
        flattened(s, len)[i * len + j] == s[i][j],
{
    lemma_flat(i, j, s.len() as int, len);
    lemma_mul_nonnegative(s.len() as int, len);
    lemma_fundamental_div_mod_converse(i * len + j, len, i, j);
}

/// A square laid out in the rows of a larger one: each entry keeps its row and its column, and all
/// other entries are zero.
pub proof fn law_laid_out(w: Seq<Fe>, k: int, n: int, len: nat, u: int, v: int)
    requires
        0 <= u,
        0 <= v < n,
        u * n + v < len,
    ensures
        laid_out(w, k, n, len).len() == len,
        laid_out(w, k, n, len)[u * n + v] == if u < k && v < k {
            w[u * k + v]
        } else {
            fzero()
        },
{
    lemma_mul_nonnegative(u, n);
    lemma_fundamental_div_mod_converse(u * n + v, n, u, v);
}

/// The point at which the inverse transform is evaluated: the coordinates within a channel, each
/// taken from one, a zero for the half that is kept, and the coordinates of the channels.
pub proof fn law_transform_point(point: Seq<Fe>, a: int, b: int, i: int)
    requires
        point.len() == a + b,
        0 <= a,
        0 <= b,
        0 <= i < point.len(),
    ensures
        ({
            let p = transform_point(point, a, b);
            &&& p.len() == a + b + 1
            &&& p[a] == fzero()
            &&& i < a ==> p[i] == fsub(fone(), point[i])
            &&& i >= a ==> p[i + 1] == point[i]
        }),
{
}

/// The claims that the verifier looks at for the inputs of the model: one for each input, which is
/// the claim about an input of some node that takes it.
pub proof fn law_input_choice<S, C>(v: Verifier<S, C>, c: Seq<ClaimView>, k: usize) -> (from: (
    NodeId,
    int,
))
    requires
        v.is_choice(c),
        k < c.len(),
    ensures
        v.nodes@.contains_key(from.0),
        0 <= from.1 < v.nodes@[from.0].inputs@.len(),
        v.nodes@[from.0].inputs@[from.1].node is None,
        v.nodes@[from.0].inputs@[from.1].index == k,
        v.claims@.contains_key(from.0),
        from.1 < v.claims@[from.0]@.len(),
        c[k as int] == v.claims@[from.0]@[from.1]@,
        forall|id: NodeId, i: int|
            #![trigger v.nodes@[id].inputs@[i]]
            v.nodes@.contains_key(id) && 0 <= i < v.nodes@[id].inputs@.len()
                && v.nodes@[id].inputs@[i].node is None ==> v.nodes@[id].inputs@[i].index < c.len(),
{
    let m = claim_views(v.claims@);
    assert(is_input_claim(v.nodes@, m, k, c[k as int]));
    let (id, i) = choose|id: NodeId, i: int| #[trigger]
        takes_input(v.nodes@, id, i, k) && claim_known(m, id, i) && c[k as int] == m[id][i];
    assert(m[id] == cviews(v.claims@[id]@));
    assert forall|id: NodeId, i: int|
        #![trigger v.nodes@[id].inputs@[i]]
        v.nodes@.contains_key(id) && 0 <= i < v.nodes@[id].inputs@.len()
            && v.nodes@[id].inputs@[i].node is None implies v.nodes@[id].inputs@[i].index
        < c.len() by {
        let e = v.nodes@[id].inputs@[i];
        assert(takes_input(v.nodes@, id, i, e.index));
    }
    (id, i)
}

/// What a convolution keeps for its proof: the images, each channel reversed, and its transform,
/// in which zeros follow.
pub proof fn law_conv_data(
    f: TensorView<Element>,
    x: TensorView<Element>,
    d: ConvData,
    j: int,
    t: int,
)
    requires
        conv_data_is(f, x, d),
        0 <= j < f.shape[1],
        0 <= t < f.shape[2] * f.shape[2],
    ensures
        ({
            let n2 = f.shape[2] * f.shape[2];
            &&& fviews(d.real_input@) == fints(x.data)
            &&& d.input@.len() == f.shape[1]
            &&& d.input@[j]@.len() == n2
            &&& d.input@[j]@[t]@ == fint(x.data[j * n2 + (n2 - 1 - t)] as int)
            &&& d.input_fft@.len() == f.shape[1]
            &&& d.prod@.len() == f.shape[0]
            &&& d.output@.len() == f.shape[0]
            &&& fviews(d.input_fft@[j]@) == fft_of(
                fviews(d.input@[j]@) + Seq::new(n2 as nat, |i: int| fzero()),
                flog2((2 * n2) as nat),
            )
        }),
{
    let n2 = f.shape[2] * f.shape[2];
    assert(fviews2(d.input@).len() == d.input@.len());
    assert(fviews2(d.input_fft@).len() == d.input_fft@.len());
    assert(fviews2(d.prod@).len() == d.prod@.len());
    assert(fviews2(d.output@).len() == d.output@.len());
    let r = fviews2(d.input@)[j];
    assert(r == reversed_input(x.data, f.shape[2] as int, j));
    assert(r == fviews(d.input@[j]@));
    assert(r.len() == n2);
    assert(r[t] == d.input@[j]@[t]@);
    assert(r + Seq::new(n2 as nat, |i: int| fzero()) =~= input_poly(
        x.data,
        f.shape[2] as int,
        j,
    ));
    assert(fviews2(d.input_fft@)[j] == fviews(d.input_fft@[j]@));
}

/// The transform that a convolution keeps of channel `i` of its output is the sum, over the
/// channels of the input, of the products of their transforms with those of the filters; the
/// output that it keeps is what the inverse transform makes of it.
pub proof fn law_conv_products(
    f: TensorView<Element>,
    x: TensorView<Element>,
    d: ConvData,
    i: int,
    t: int,
)
    requires
        conv_data_is(f, x, d),
        0 <= i < f.shape[0],
        0 <= t < 2 * (f.shape[2] * f.shape[2]),
    ensures
        ({
            let l = flog2((2 * (f.shape[2] * f.shape[2])) as nat);
            &&& d.prod@[i]@.len() == 2 * (f.shape[2] * f.shape[2])
            &&& d.prod@[i]@[t]@ == fsum(
                f.shape[1] as nat,
                |j: int|
                    fmul(fviews2(d.input_fft@)[j][t], fft_of(filter_poly(f, i, j), l)[t]),
            )
            &&& fviews(d.output@[i]@) == ifft_of(fviews(d.prod@[i]@), l)
        }),
{
    let l = log_size(f);
    assert(fviews2(d.prod@).len() == d.prod@.len());
    assert(fviews2(d.output@).len() == d.output@.len());
    let p = fviews2(d.prod@)[i];
    assert(p == output_prod(f, x.data, i));
    assert(p == fviews(d.prod@[i]@));
    assert(p[t] == d.prod@[i]@[t]@);
    assert(fviews2(d.output@)[i] == fviews(d.output@[i]@));
    let a = |j: int| channel_prod(f, x.data, i, j)[t];
    let b = |j: int| fmul(fviews2(d.input_fft@)[j][t], fft_of(filter_poly(f, i, j), l)[t]);
    assert forall|j: int| 0 <= j < f.shape[1] implies #[trigger] a(j) == b(j) by {
        assert(fviews2(d.input_fft@)[j] == fft_of(input_poly(x.data, f.shape[2] as int, j), l));
    }
    lemma_fsum_eq(f.shape[1] as nat, a, b);
}

/// A measurement can be set exactly where its column exists and has none yet.
pub proof fn law_column(b: CSVBencher, column: Seq<char>)
    ensures
        b.column_fault(column) is None <==> b.columns().contains(column)
            && !b.entries().contains_key(column),
        b.full() <==> forall|c: Seq<char>| #[trigger]
            b.columns().contains(c) ==> b.entries().contains_key(c),
{
    if b.full() {
        assert forall|c: Seq<char>| #[trigger] b.columns().contains(c) implies b.entries()
            .contains_key(c) by {
            let i = choose|i: int| 0 <= i < b.columns().len() && b.columns()[i] == c;
            assert(b.entries().contains_key(b.columns()[i]));
        }
    } else {
        let i = choose|i: int|
            0 <= i < b.columns().len() && !b.entries().contains_key(#[trigger] b.columns()[i]);
        assert(b.columns().contains(b.columns()[i]));
    }
}

/// A product of a sum-check has its coefficient, and its factors entry by entry.
pub proof fn law_term(t: ProductTerm, coefficient: Fe, factors: Seq<Seq<Fe>>, i: int, k: int)
    requires
        term_is(t, coefficient, factors),
        0 <= i < factors.len(),
        0 <= k < factors[i].len(),
    ensures
        t.coefficient@ == coefficient,
        t.factors@.len() == factors.len(),
        t.factors@[i]@.len() == factors[i].len(),
        t.factors@[i]@[k]@ == factors[i][k],
{
    let v = fviews2(t.factors@);
    assert(v.len() == t.factors@.len());
    assert(v[i] == fviews(t.factors@[i]@));
}

/// The sum-checks that the verifier goes through are those of the proof.
pub proof fn law_refers<S>(r: Seq<&SumcheckProof<S>>, s: Seq<SumcheckProof<S>>, i: int)
    requires
        refers_to(r, s),
        0 <= i < s.len(),
    ensures
        r.len() == s.len(),
        *r[i] == s[i],
{
}

/// The filters added up with weights over the outputs, and over outputs and channels: each entry is
/// the sum of the entries in its place, each times the weight of its output, or of its output and
/// channel.
pub proof fn law_added_filters(f: TensorView<Element>, w: Seq<Fe>, i: int, e: int)
    requires
        0 <= e < f.og_shape[2] * f.og_shape[2],
    ensures
        ({
            let k2 = f.og_shape[2] * f.og_shape[2];
            let ch = f.shape[1] as int;
            &&& aggregated(f, w, i).len() == k2
            &&& aggregated(f, w, i)[e] == fsum(
                f.shape[0] as nat,
                |o: int| fmul(w[o], fint(f.data[(o * ch + i) * k2 + e] as int)),
            )
            &&& reduced(f, w).len() == k2
            &&& reduced(f, w)[e] == fsum(
                (f.shape[0] * f.shape[1]) as nat,
                |c: int| fmul(w[c], fint(f.data[c * k2 + e] as int)),
            )
        }),
{
    let k2 = f.og_shape[2] * f.og_shape[2];
    let ch = f.shape[1] as int;
    let g = |o: int| fmul(w[o], fint(f.data[(o * ch + i) * k2 + e] as int));
    let h = |j: int| fmul(w[j], fint(f.data[(j * f.shape[1] + i) * k2 + e] as int));
    lemma_fsum_eq(f.shape[0] as nat, g, h);
    assert(g =~= h);
}

} // verus!
