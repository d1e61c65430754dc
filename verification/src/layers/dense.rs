//! The dense layer: a matrix times the input, plus a bias.
use crate::arith::{
    ceil_log2, clog2, flog2, ilog2, lemma_clog2_usize, lemma_flog2, lemma_flog2_usize,
    lemma_pow2_mono, lemma_pow2_step,
};
use crate::claim::{Claim, ClaimView};
use crate::commit::beta;
use crate::field::{
    Fe, GoldilocksExt2, all_fe, fadd, fint, fmul, fone, fprod, fsub, fsum, fviews, lemma_fint,
    lemma_fmul_assoc, lemma_fmul_comm, lemma_fmul_one, lemma_fsub, lemma_fsum_eq,
    lemma_fsum_scale, lemma_fsum_swap,
};
use crate::iop::context::ContextAux;
use crate::layers::conv_laws::lemma_source2;
use crate::layers::conv_steps::concat_points;
use crate::layers::conv_verify::{has_size, poly_entries, poly_fits, poly_of, repeat_shape};
use crate::layers::provable::{
    LayerOut, NodeId, PaddingMode, PolyID, ProductTerm, SubClaim, SumcheckProof, VPAuxInfo,
    single_output, term_is,
};
use crate::layers::provable::error::{
    ProvableOpError, generic_err, generic_error, parameter_err, parameter_error,
};
use crate::layers::requant_steps::pair_term;
use crate::mle::{fix_high, fix_high_variables, lemma_mle_fe, lemma_mle_linear, mle, mle_evaluate};
use crate::ops::{checked_dot, dot_terms, lemma_flat};
use crate::quantization::{BIT_LEN, Element, fints, fits, lemma_pow2_127, power_of_two};
use crate::shape::{
    law_pow2_shape, lemma_product1, lemma_product2, next_power_of_two_shape, pow2_shape,
    pow2_shape_fits, product, shapes, within,
};
use crate::sums::{
    isum, lemma_fint_isum, lemma_isum_bound, lemma_isum_eq, lemma_isum_truncate, lemma_sum_fits,
    sum_fits,
};
use crate::tensor::{
    Tensor, TensorView, cols_2d, has_cols_2d, has_rows_2d, lemma_pow2_shape, padded, rows_2d,
    tensor,
};
use crate::text::{append_decimal, decimal};
use vstd::arithmetic::div_mod::*;
use vstd::arithmetic::mul::*;
use vstd::arithmetic::power2::*;
use vstd::prelude::*;
use vstd::slice::slice_to_vec;
use vstd::string::*;

verus! {

/// A dense layer.
#[derive(Clone, Debug)]
pub struct Dense<T> {
    pub matrix: Tensor<T>,
    pub bias: Tensor<T>,
    /// The shape of the matrix before padding; its shape where it is not padded.
    pub unpadded_matrix_shape: Vec<usize>,
}

/// What the set-up keeps of a dense layer.
#[derive(Clone, Debug)]
pub struct DenseCtx {
    pub node_id: PolyID,
    pub matrix_poly_aux: VPAuxInfo,
    pub unpadded_matrix_shape: Vec<usize>,
    pub padded_matrix_shape: Vec<usize>,
}

/// The proof of a dense layer.
#[derive(Clone, Debug)]
pub struct DenseProof<S> {
    /// The sum-check for the product of the matrix with the input.
    pub sumcheck: SumcheckProof<S>,
    /// The value of the bias at the point of the claim about the output.
    pub bias_eval: GoldilocksExt2,
    /// The values of the matrix and of the input at the point of the sum-check.
    pub individual_claims: Vec<GoldilocksExt2>,
}

/// What the prover of a dense layer starts from: the value of the bias, and the product of
/// polynomials that the sum-check is about.
#[derive(Clone, Debug)]
pub struct DenseStart {
    pub bias_eval: GoldilocksExt2,
    pub term: ProductTerm,
}

/// The claims that a dense layer ends with.
#[derive(Clone, Debug)]
pub struct DenseOutcome {
    pub weights_claim: Claim<GoldilocksExt2>,
    pub bias_claim: Claim<GoldilocksExt2>,
    pub next_claim: Claim<GoldilocksExt2>,
}

/// The output of a dense layer can be told from the shapes.
pub open spec fn dense_shape_ok(input: Seq<usize>, matrix: Seq<usize>) -> bool {
    &&& matrix.len() >= 2
    &&& product(input) == matrix[1]
}

/// The shape of the matrix, in the given mode.
pub open spec fn matrix_shape_in(shape: Seq<usize>, mode: PaddingMode) -> Seq<usize> {
    match mode {
        PaddingMode::NoPadding => shape,
        PaddingMode::Padding => pow2_shape(shape),
    }
}

/// Entry `i` of the output of a dense layer.
pub open spec fn dense_entry(
    m: TensorView<Element>,
    b: TensorView<Element>,
    x: Seq<Element>,
    i: int,
) -> int {
    isum(x.len(), dot_terms(m.data, i * x.len(), x)) + b.data[i]
}

/// Entry `i` of the output of a dense layer, and all that is added up for it, can be held.
pub open spec fn dense_entry_fits(
    m: TensorView<Element>,
    b: TensorView<Element>,
    x: Seq<Element>,
    i: int,
) -> bool {
    &&& sum_fits(x.len(), dot_terms(m.data, i * x.len(), x))
    &&& fits(dense_entry(m, b, x, i))
}

/// Matrix, bias and input go together.
pub open spec fn dense_ready(
    m: TensorView<Element>,
    b: TensorView<Element>,
    x: TensorView<Element>,
) -> bool {
    &&& m.plain()
    &&& m.shape.len() == 2
    &&& m.shape[1] == x.data.len()
    &&& b.data.len() == m.shape[0]
}

/// The outputs of the layer can be held.
pub open spec fn dense_fits(
    m: TensorView<Element>,
    b: TensorView<Element>,
    x: TensorView<Element>,
) -> bool {
    forall|i: int| 0 <= i < m.shape[0] ==> #[trigger] dense_entry_fits(m, b, x.data, i)
}

/// The output of a dense layer.
pub open spec fn dense_result(
    m: TensorView<Element>,
    b: TensorView<Element>,
    x: TensorView<Element>,
) -> TensorView<Element> {
    tensor(
        seq![m.shape[0]],
        Seq::new(m.shape[0] as nat, |i: int| dense_entry(m, b, x.data, i) as i128),
    )
}

/// `r` is the layer with matrix and bias padded to powers of two.
pub open spec fn is_padded(d: Dense<Element>, r: Dense<Element>) -> bool {
    let big = pow2_shape(d.matrix@.shape);
    let b = d.bias@.data;
    &&& r.matrix@ == tensor(big, padded(d.matrix@.data, d.matrix@.shape, big, 0))
    &&& r.bias@ == tensor(
        seq![big[0]],
        b + Seq::new((big[0] - b.len()) as nat, |i: int| 0i128),
    )
    &&& r.unpadded_matrix_shape == d.unpadded_matrix_shape
}

/// The layer can be set up.
pub open spec fn dense_step_ok(d: Dense<Element>) -> bool {
    &&& d.matrix@.shape.len() == 2
    &&& d.matrix@.shape[1] > 0
    &&& poly_fits(d.matrix@)
    &&& poly_fits(d.bias@)
}

/// What the set-up of a dense layer gives.
pub open spec fn dense_step_is(
    d: Dense<Element>,
    id: NodeId,
    aux: ContextAux,
    ctx: DenseCtx,
    out: ContextAux,
) -> bool {
    &&& ctx.node_id == id
    &&& ctx.matrix_poly_aux == (VPAuxInfo {
        max_degree: 2,
        num_variables: flog2(d.matrix@.shape[1] as nat) as usize,
    })
    &&& ctx.unpadded_matrix_shape@ == d.unpadded_matrix_shape@
    &&& ctx.padded_matrix_shape@ == d.matrix@.shape
    &&& out.tables == aux.tables
    &&& shapes(out.last_output_shape@) == Seq::new(
        aux.last_output_shape@.len(),
        |i: int| seq![d.matrix@.shape[0]],
    )
    &&& out.model_polys@.len() == 2
    &&& out.model_polys@[0]@ == poly_entries(d.matrix@)
    &&& out.model_polys@[1]@ == poly_entries(d.bias@)
}

// ---------------------------------------------------------------------------------------
// Laws
// ---------------------------------------------------------------------------------------

/// The layer with matrix, bias and input padded with zeros gives the same outputs in the places of
/// the unpadded layer, and zeros in the others.
pub proof fn law_padded_dense(
    m: TensorView<Element>,
    b: TensorView<Element>,
    x: TensorView<Element>,
    mp: TensorView<Element>,
    bp: TensorView<Element>,
    xp: Seq<Element>,
    i: int,
)
    requires
        dense_ready(m, b, x),
        mp.shape.len() == 2,
        within(m.shape, mp.shape),
        mp == tensor(mp.shape, padded(m.data, m.shape, mp.shape, 0)),
        bp.data.len() == mp.shape[0],
        xp.len() == mp.shape[1],
        forall|j: int|
            0 <= j < bp.data.len() ==> #[trigger] bp.data[j] == if j < b.data.len() {
                b.data[j]
            } else {
                0
            },
        forall|j: int|
            0 <= j < xp.len() ==> #[trigger] xp[j] == if j < x.data.len() {
                x.data[j]
            } else {
                0
            },
        0 <= i < mp.shape[0],
    ensures
        dense_entry(mp, bp, xp, i) == if i < m.shape[0] {
            dense_entry(m, b, x.data, i)
        } else {
            0
        },
        i < m.shape[0] && dense_entry_fits(m, b, x.data, i) ==> dense_entry_fits(mp, bp, xp, i),
        i >= m.shape[0] ==> dense_entry_fits(mp, bp, xp, i),
{
    let n = x.data.len();
    let np = xp.len();
    let fp = dot_terms(mp.data, i * np, xp);
    lemma_product2(mp.shape);
    lemma_product2(m.shape);
    assert(m.shape[1] <= mp.shape[1] && m.shape[0] <= mp.shape[0]);
    assert(bp.data[i] == if i < b.data.len() {
        b.data[i]
    } else {
        0
    });
    assert forall|j: int| 0 <= j < np && !(i < m.shape[0] && j < n) implies #[trigger] fp(j) == 0 by {
        lemma_flat(i, j, mp.shape[0] as int, np as int);
        lemma_source2(m.shape, mp.shape, i, j);
        assert(mp.data[i * np + j] == 0);
        lemma_mul_basics(xp[j] as int);
    }
    if i < m.shape[0] {
        let f = dot_terms(m.data, i * n, x.data);
        lemma_isum_truncate(np, n, fp);
        assert forall|j: int| 0 <= j < n implies #[trigger] f(j) == fp(j) by {
            lemma_flat(i, j, mp.shape[0] as int, np as int);
            lemma_flat(i, j, m.shape[0] as int, n as int);
            lemma_source2(m.shape, mp.shape, i, j);
            assert(xp[j] == x.data[j]);
        }
        lemma_isum_eq(n, f, fp);
    } else {
        lemma_isum_truncate(np, 0, fp);
    }
}

/// The claim about the output, less that about the bias, is the sum over the columns of the matrix,
/// with its rows fixed at the point of the claim, times the input.
pub proof fn law_dense_claim(
    m: TensorView<Element>,
    b: TensorView<Element>,
    x: TensorView<Element>,
    point: Seq<Fe>,
)
    requires
        dense_ready(m, b, x),
        dense_fits(m, b, x),
        pow2(point.len()) == m.shape[0],
        all_fe(point),
    ensures
        fsub(
            mle(fints(dense_result(m, b, x).data), point),
            mle(fints(b.data), point),
        ) == fsum(
            x.data.len(),
            |k: int|
                fmul(fix_high(fints(m.data), x.data.len(), point)[k], fints(x.data)[k]),
        ),
{
    let rows = pow2(point.len());
    let n = x.data.len();
    let y = fints(dense_result(m, b, x).data);
    let bf = fints(b.data);
    let mf = fints(m.data);
    let xf = fints(x.data);
    lemma_product2(m.shape);
    // y[i] = sum over k of M[i n + k] x[k], plus b[i]
    let dots = Seq::new(rows, |i: int| fsum(n, |k: int| fmul(mf[i * n + k], xf[k])));
    assert forall|i: int| 0 <= i < rows implies #[trigger] y[i] == fadd(
        fmul(fone(), dots[i]),
        bf[i],
    ) by {
        let f = dot_terms(m.data, i * n, x.data);
        let g = |k: int| fmul(mf[i * n + k], xf[k]);
        assert forall|k: int| 0 <= k < n implies #[trigger] g(k) == fint(f(k)) by {
            lemma_flat(i, k, rows as int, n as int);
            lemma_fint(m.data[i * n + k] as int, x.data[k] as int);
        }
        lemma_fint_isum(n, f, g);
        lemma_fint(isum(n, f), b.data[i] as int);
        lemma_fmul_one(dots[i]);
        assert(dense_entry_fits(m, b, x.data, i));
    }
    lemma_mle_linear(fone(), dots, bf, y, point);
    lemma_mle_fe(dots, point);
    lemma_fmul_one(mle(dots, point));
    lemma_fsub(mle(dots, point), mle(bf, point));
    // exchange the sums
    let term = |i: int, k: int| fmul(fmul(mf[i * n + k], xf[k]), beta(point, i as nat));
    let lhs = |i: int| fmul(dots[i], beta(point, i as nat));
    let lhs2 = |i: int| fsum(n, |k: int| term(i, k));
    assert forall|i: int| 0 <= i < rows implies #[trigger] lhs(i) == lhs2(i) by {
        let g = |k: int| fmul(mf[i * n + k], xf[k]);
        let c = beta(point, i as nat);
        lemma_fsum_scale(n, c, g);
        lemma_fmul_comm(fsum(n, g), c);
        let p = |k: int| fmul(c, g(k));
        let q = |k: int| term(i, k);
        assert forall|k: int| 0 <= k < n implies #[trigger] p(k) == q(k) by {
            lemma_fmul_comm(c, g(k));
        }
        lemma_fsum_eq(n, p, q);
    }
    lemma_fsum_eq(rows, lhs, lhs2);
    lemma_fsum_swap(rows, n, term);
    let fixed = fix_high(mf, n, point);
    let r1 = |k: int| fsum(rows, |i: int| term(i, k));
    let r2 = |k: int| fmul(fixed[k], xf[k]);
    assert forall|k: int| 0 <= k < n implies #[trigger] r1(k) == r2(k) by {
        let h = |i: int| fmul(mf[i * n + k], beta(point, i as nat));
        lemma_fsum_scale(rows, xf[k], h);
        lemma_fmul_comm(fsum(rows, h), xf[k]);
        let p = |i: int| fmul(xf[k], h(i));
        let q = |i: int| term(i, k);
        assert forall|i: int| 0 <= i < rows implies #[trigger] p(i) == q(i) by {
            let a = mf[i * n + k];
            let c = beta(point, i as nat);
            lemma_fmul_assoc(xf[k], a, c);
            lemma_fmul_comm(xf[k], a);
        }
        lemma_fsum_eq(rows, p, q);
    }
    lemma_fsum_eq(n, r1, r2);
}

/// A padded layer gives on a padded input the outputs of the layer, followed by zeros, and gives
/// them wherever the layer does.
pub proof fn law_padded_layer(
    d: Dense<Element>,
    p: Dense<Element>,
    x: TensorView<Element>,
    xp: TensorView<Element>,
)
    requires
        dense_ready(d.matrix@, d.bias@, x),
        dense_fits(d.matrix@, d.bias@, x),
        is_padded(d, p),
        pow2_shape_fits(d.matrix@.shape),
        product(p.matrix@.shape) <= usize::MAX,
        xp.data == x.data + Seq::new(
            (p.matrix@.shape[1] - x.data.len()) as nat,
            |i: int| 0i128,
        ),
    ensures
        ({
            let y = dense_result(d.matrix@, d.bias@, x).data;
            let z = dense_result(p.matrix@, p.bias@, xp).data;
            &&& dense_ready(p.matrix@, p.bias@, xp)
            &&& dense_fits(p.matrix@, p.bias@, xp)
            &&& z.len() == p.matrix@.shape[0]
            &&& z.take(y.len() as int) == y
            &&& forall|i: int| y.len() <= i < z.len() ==> #[trigger] z[i] == 0
        }),
{
    let (m, b) = (d.matrix@, d.bias@);
    let (mp, bp) = (p.matrix@, p.bias@);
    let y = dense_result(m, b, x).data;
    let z = dense_result(mp, bp, xp).data;
    lemma_pow2_shape(m.shape);
    law_pow2_shape(m.shape);
    assert(m.shape[1] <= mp.shape[1] && m.shape[0] <= mp.shape[0]);
    assert(mp.plain());
    assert forall|i: int| 0 <= i < mp.shape[0] implies #[trigger] dense_entry_fits(
        mp,
        bp,
        xp.data,
        i,
    ) by {
        law_padded_dense(m, b, x, mp, bp, xp.data, i);
        if i < m.shape[0] {
            assert(dense_entry_fits(m, b, x.data, i));
        }
    }
    assert forall|i: int| 0 <= i < mp.shape[0] implies #[trigger] z[i] == if i < y.len() {
        y[i]
    } else {
        0
    } by {
        law_padded_dense(m, b, x, mp, bp, xp.data, i);
        if i < y.len() {
            assert(dense_entry_fits(m, b, x.data, i));
        }
    }
    assert(z.take(y.len() as int) =~= y);
}

/// The bound of the range that a layer with `n` columns states: the products of two quantised
/// values, added up over the columns, with one bit more for the bias.
pub open spec fn dense_bound(n: nat) -> nat {
    pow2((2 * (BIT_LEN - 1) + flog2(n) + 1) as nat)
}

/// For a matrix and an input up to `2^7` in absolute value and a bias up to `2^14`, the output can
/// be held, and every entry lies in the range that the layer states. A bias that uses twice the
/// number of bits of a quantised value may lead beyond the range.
pub proof fn law_dense_range(
    m: TensorView<Element>,
    b: TensorView<Element>,
    x: TensorView<Element>,
)
    requires
        dense_ready(m, b, x),
        x.data.len() > 0,
        forall|k: int| 0 <= k < x.data.len() ==> -128 <= #[trigger] x.data[k] <= 128,
        forall|k: int| 0 <= k < m.data.len() ==> -128 <= #[trigger] m.data[k] <= 128,
        forall|k: int| 0 <= k < b.data.len() ==> -16384 <= #[trigger] b.data[k] <= 16384,
    ensures
        dense_fits(m, b, x),
        forall|i: int|
            0 <= i < m.shape[0] ==> -dense_bound(m.shape[1] as nat)
                <= #[trigger] dense_result(m, b, x).data[i] <= dense_bound(m.shape[1] as nat),
{
    assert forall|i: int| 0 <= i < m.shape[0] implies #[trigger] dense_entry_fits(m, b, x.data, i)
        && -dense_bound(m.shape[1] as nat) <= dense_entry(m, b, x.data, i) <= dense_bound(
        m.shape[1] as nat,
    ) by {
        lemma_dense_range(m, b, x, i);
    }
    assert forall|i: int| 0 <= i < m.shape[0] implies -dense_bound(m.shape[1] as nat)
        <= #[trigger] dense_result(m, b, x).data[i] <= dense_bound(m.shape[1] as nat) by {
        assert(dense_entry_fits(m, b, x.data, i));
    }
}

proof fn lemma_dense_range(
    m: TensorView<Element>,
    b: TensorView<Element>,
    x: TensorView<Element>,
    i: int,
)
    requires
        dense_ready(m, b, x),
        x.data.len() > 0,
        0 <= i < m.shape[0],
        forall|k: int| 0 <= k < x.data.len() ==> -128 <= #[trigger] x.data[k] <= 128,
        forall|k: int| 0 <= k < m.data.len() ==> -128 <= #[trigger] m.data[k] <= 128,
        forall|k: int| 0 <= k < b.data.len() ==> -16384 <= #[trigger] b.data[k] <= 16384,
    ensures
        dense_entry_fits(m, b, x.data, i),
        -dense_bound(m.shape[1] as nat) <= dense_entry(m, b, x.data, i) <= dense_bound(
            m.shape[1] as nat,
        ),
{
    let n = x.data.len();
    let f = dot_terms(m.data, i * n, x.data);
    lemma_product2(m.shape);
    assert forall|k: int| 0 <= k < n implies -16384 <= #[trigger] f(k) <= 16384 by {
        lemma_flat(i, k, m.shape[0] as int, n as int);
        let a = m.data[i * n + k] as int;
        let c = x.data[k] as int;
        assert(-128 <= m.data[i * n + k] <= 128);
        assert(-128 <= x.data[k] <= 128);
        assert(-16384 <= a * c <= 16384) by (nonlinear_arith)
            requires
                -128 <= a <= 128,
                -128 <= c <= 128,
        ;
    }
    assert(-16384 <= b.data[i] <= 16384);
    lemma_isum_bound(n, f, 16384);
    lemma_sum_fits(n, f, 16384);
    lemma_flog2(n);
    lemma_pow2_adds(14, flog2(n) + 1);
    lemma2_to64();
    let p = pow2(flog2(n) + 1) as int;
    assert((n + 1) * 16384 <= 16384 * p) by (nonlinear_arith)
        requires
            n < p,
            n >= 0,
    ;
}

// ---------------------------------------------------------------------------------------
// The layer
// ---------------------------------------------------------------------------------------

/// The shape of the output of a dense layer.
fn dense_output_shape(matrix_shape: &[usize]) -> (r: Vec<usize>)
    requires
        matrix_shape@.len() >= 1,
    ensures
        r@ == seq![matrix_shape@[0]],
{
    let mut r: Vec<usize> = Vec::new();
    r.push(matrix_shape[0]);
    assert(r@ =~= seq![matrix_shape@[0]]);
    r
}

impl<T> Dense<T> {
    /// Creates a dense layer from a matrix that is not padded.
    pub fn new(matrix: Tensor<T>, bias: Tensor<T>) -> (r: Self)
        requires
            matrix@.shape.len() == 2 || matrix@.shape.len() == 4,
            bias@.shape.len() >= 1,
            rows_2d(matrix@.shape) == bias@.shape[0],
        ensures
            r.matrix == matrix,
            r.bias == bias,
            r.unpadded_matrix_shape@ == matrix@.shape,
    {
        let unpadded_matrix_shape = matrix.get_shape();
        Dense { matrix, bias, unpadded_matrix_shape }
    }

    /// Creates a dense layer from its weights, without looking at their shapes.
    pub fn new_from_weights(weights: Tensor<T>, bias: Tensor<T>) -> (r: Self)
        ensures
            r.matrix == weights,
            r.bias == bias,
            r.unpadded_matrix_shape@ == weights@.shape,
    {
        let unpadded_matrix_shape = weights.get_shape();
        Dense { matrix: weights, bias, unpadded_matrix_shape }
    }

    /// The layer with the quantised values of its matrix and of its bias in their place.
    pub fn quantize(self, matrix: Tensor<Element>, bias: Tensor<Element>) -> (r: Dense<Element>)
        ensures
            r.matrix == matrix,
            r.bias == bias,
            r.unpadded_matrix_shape == self.unpadded_matrix_shape,
    {
        Dense { matrix, bias, unpadded_matrix_shape: self.unpadded_matrix_shape }
    }

    pub fn ncols(&self) -> (r: usize)
        requires
            has_cols_2d(self.matrix@.shape),
        ensures
            r == cols_2d(self.matrix@.shape),
    {
        self.matrix.ncols_2d()
    }

    pub fn nrows(&self) -> (r: usize)
        requires
            has_rows_2d(self.matrix@.shape),
        ensures
            r == rows_2d(self.matrix@.shape),
    {
        self.matrix.nrows_2d()
    }

    /// The shape of the output.
    pub fn output_shape(&self, input_shape: &[usize], padding_mode: PaddingMode) -> (r: Vec<usize>)
        requires
            padding_mode == PaddingMode::Padding ==> pow2_shape_fits(self.unpadded_matrix_shape@),
            dense_shape_ok(
                input_shape@,
                matrix_shape_in(self.unpadded_matrix_shape@, padding_mode),
            ),
        ensures
            r@ == seq![matrix_shape_in(self.unpadded_matrix_shape@, padding_mode)[0]],
    {
        match padding_mode {
            PaddingMode::NoPadding => dense_output_shape(self.unpadded_matrix_shape.as_slice()),
            PaddingMode::Padding => dense_output_shape(
                next_power_of_two_shape(self.unpadded_matrix_shape.as_slice()).as_slice(),
            ),
        }
    }

    /// The shapes of the outputs.
    pub fn output_shapes(&self, input_shapes: &[Vec<usize>], padding_mode: PaddingMode) -> (r: Vec<
        Vec<usize>,
    >)
        requires
            padding_mode == PaddingMode::Padding ==> pow2_shape_fits(self.unpadded_matrix_shape@),
            forall|i: int|
                0 <= i < input_shapes@.len() ==> dense_shape_ok(
                    #[trigger] shapes(input_shapes@)[i],
                    matrix_shape_in(self.unpadded_matrix_shape@, padding_mode),
                ),
        ensures
            shapes(r@) == Seq::new(
                input_shapes@.len(),
                |i: int| seq![matrix_shape_in(self.unpadded_matrix_shape@, padding_mode)[0]],
            ),
    {
        let mut r: Vec<Vec<usize>> = Vec::new();
        let mut i: usize = 0;
        while i < input_shapes.len()
            invariant
                padding_mode == PaddingMode::Padding ==> pow2_shape_fits(
                    self.unpadded_matrix_shape@,
                ),
                forall|i: int|
                    0 <= i < input_shapes@.len() ==> dense_shape_ok(
                        #[trigger] shapes(input_shapes@)[i],
                        matrix_shape_in(self.unpadded_matrix_shape@, padding_mode),
                    ),
                i <= input_shapes@.len(),
                r.len() == i,
                forall|j: int|
                    0 <= j < i ==> (#[trigger] r[j])@ == seq![
                        matrix_shape_in(self.unpadded_matrix_shape@, padding_mode)[0],
                    ],
            decreases input_shapes@.len() - i,
        {
            assert(dense_shape_ok(
                shapes(input_shapes@)[i as int],
                matrix_shape_in(self.unpadded_matrix_shape@, padding_mode),
            ));
            r.push(self.output_shape(input_shapes[i].as_slice(), padding_mode));
            i = i + 1;
        }
        assert(shapes(r@) =~= Seq::new(
            input_shapes@.len(),
            |i: int| seq![matrix_shape_in(self.unpadded_matrix_shape@, padding_mode)[0]],
        ));
        r
    }

    /// A dense layer has one input and one output.
    pub fn num_outputs(&self, num_inputs: usize) -> (r: usize)
        requires
            num_inputs == 1,
        ensures
            r == 1,
    {
        1
    }

    pub fn is_provable(&self) -> (r: bool)
        ensures
            r,
    {
        true
    }
}

impl Dense<Element> {
    /// Pads the matrix, and the bias with it, to powers of two.
    pub fn pad_next_power_of_two(self) -> (r: Self)
        requires
            self.matrix@.plain(),
            self.matrix@.shape.len() == 2,
            pow2_shape_fits(self.matrix@.shape),
            product(pow2_shape(self.matrix@.shape)) <= usize::MAX,
            self.bias@.plain(),
            self.bias@.shape.len() == 1,
            self.bias@.shape[0] <= pow2_shape(self.matrix@.shape)[0],
        ensures
            is_padded(self, r),
    {
        let matrix = self.matrix.pad_next_power_of_two();
        let bias = self.bias.pad_1d(matrix.nrows_2d());
        Dense { matrix, bias, unpadded_matrix_shape: self.unpadded_matrix_shape }
    }

    /// Whether some entry of the bias is not zero.
    pub open spec fn has_bias(self) -> bool {
        exists|i: int| 0 <= i < self.bias@.data.len() && #[trigger] self.bias@.data[i] != 0
    }

    /// The text that describes the layer.
    pub open spec fn text(self) -> Seq<char> {
        "Dense: ("@ + decimal(rows_2d(self.matrix@.shape) as nat) + "x"@ + decimal(
            cols_2d(self.matrix@.shape) as nat,
        ) + ") + bias ("@ + (if self.has_bias() {
            "true"@
        } else {
            "false"@
        }) + ")"@
    }

    /// Describes the layer.
    pub fn describe(&self) -> (r: String)
        requires
            has_rows_2d(self.matrix@.shape),
            has_cols_2d(self.matrix@.shape),
        ensures
            r@ == self.text(),
    {
        let mut has_bias = false;
        let mut i: usize = 0;
        while i < self.bias.data.len()
            invariant
                i <= self.bias.data.len(),
                has_bias == exists|j: int| 0 <= j < i && #[trigger] self.bias@.data[j] != 0,
            decreases self.bias.data.len() - i,
        {
            if self.bias.data[i] != 0 {
                assert(self.bias@.data[i as int] != 0);
                has_bias = true;
            }
            i = i + 1;
        }
        let mut s = String::from_str("Dense: (");
        append_decimal(&mut s, self.matrix.nrows_2d());
        s.append("x");
        append_decimal(&mut s, self.matrix.ncols_2d());
        s.append(") + bias (");
        if has_bias {
            s.append("true");
        } else {
            s.append("false");
        }
        s.append(")");
        s
    }

    /// Runs the layer on its input. Fails where there is not one input, where it does not go with
    /// the matrix, or where a result cannot be held.
    pub fn evaluate(&self, inputs: &[&Tensor<Element>]) -> (r: Result<
        LayerOut<Element>,
        ProvableOpError,
    >)
        ensures
            inputs@.len() != 1 ==> parameter_error(r, "Dense layer expects one input"@),
            inputs@.len() == 1 ==> {
                let x = inputs@[0]@;
                if !dense_ready(self.matrix@, self.bias@, x) {
                    generic_error(r, "The input does not go with the matrix"@)
                } else if !dense_fits(self.matrix@, self.bias@, x) {
                    generic_error(r, "A result of the dense layer is out of range"@)
                } else {
                    &&& r is Ok
                    &&& r->Ok_0.single(dense_result(self.matrix@, self.bias@, x))
                    &&& r->Ok_0.proving_data is None
                }
            },
    {
        if inputs.len() != 1 {
            return parameter_err("Dense layer expects one input");
        }
        let input = inputs[0];
        let ghost m = self.matrix@;
        let ghost b = self.bias@;
        let ghost x = input@;
        if !self.matrix.is_plain() || self.matrix.shape.len() != 2 || self.matrix.shape[1]
            != input.data.len() || self.bias.data.len() != self.matrix.shape[0] {
            return generic_err("The input does not go with the matrix");
        }
        let nrows = self.matrix.shape[0];
        let ncols = self.matrix.shape[1];
        let len = self.matrix.data.len();
        proof {
            lemma_product2(m.shape);
        }
        let mut out: Vec<Element> = Vec::new();
        let mut i: usize = 0;
        let mut start: usize = 0;
        while i < nrows
            invariant
                m == self.matrix@,
                b == self.bias@,
                inputs@.len() == 1,
                x == inputs@[0]@,
                x == input@,
                dense_ready(m, b, x),
                nrows == m.shape[0],
                ncols == m.shape[1],
                len == m.data.len(),
                len == nrows * ncols,
                i <= nrows,
                start == i * ncols,
                out.len() == i,
                forall|k: int| 0 <= k < i ==> #[trigger] dense_entry_fits(m, b, x.data, k),
                forall|k: int| 0 <= k < i ==> #[trigger] out[k] == dense_entry(m, b, x.data, k),
            decreases nrows - i,
        {
            proof {
                assert(i * ncols + ncols <= nrows * ncols) by (nonlinear_arith)
                    requires
                        i + 1 <= nrows,
                ;
                assert((i + 1) * ncols == i * ncols + ncols) by (nonlinear_arith);
            }
            let dot = match checked_dot(self.matrix.data.as_slice(), start, input.data.as_slice()) {
                Some(d) => d,
                None => {
                    assert(!dense_entry_fits(m, b, x.data, i as int));
                    return generic_err("A result of the dense layer is out of range");
                },
            };
            match dot.checked_add(self.bias.data[i]) {
                Some(s) => {
                    out.push(s);
                },
                None => {
                    assert(!dense_entry_fits(m, b, x.data, i as int));
                    return generic_err("A result of the dense layer is out of range");
                },
            }
            start = start + ncols;
            i = i + 1;
        }
        let mut shape: Vec<usize> = Vec::new();
        shape.push(nrows);
        proof {
            lemma_product1(shape@);
            assert(shape@ =~= seq![m.shape[0]]);
            assert(out@ =~= dense_result(m, b, x).data);
        }
        Ok(single_output(Tensor::new(shape, out)))
    }

    /// The least and the greatest value that the layer may give.
    pub fn output_range(&self, _min_input: Element, _max_input: Element) -> (r: (Element, Element))
        requires
            has_cols_2d(self.matrix@.shape),
            0 < cols_2d(self.matrix@.shape),
        ensures
            r.1 == dense_bound(cols_2d(self.matrix@.shape) as nat),
            r.0 == -r.1,
    {
        let ncols = self.matrix.ncols_2d();
        proof {
            lemma_flog2_usize(ncols as nat);
        }
        let power = 2 * (BIT_LEN - 1) + ilog2(ncols) + 1;
        proof {
            lemma_pow2_mono(power as nat, 126);
            lemma_pow2_127();
            lemma_pow2_step(126);
        }
        let max = power_of_two(power) as i128;
        (-max, max)
    }

    /// The number of bits of the values that the layer may give.
    pub fn output_bitsize(&self) -> (r: usize)
        requires
            has_cols_2d(self.matrix@.shape),
            cols_2d(self.matrix@.shape) > 0,
        ensures
            r == 2 * (BIT_LEN - 1) + clog2(cols_2d(self.matrix@.shape) as nat) + 1,
    {
        let ncols = self.matrix.ncols_2d();
        proof {
            lemma_clog2_usize(ncols as nat);
        }
        2 * (BIT_LEN - 1) + ceil_log2(ncols) + 1
    }

    /// Sets up the layer.
    pub fn step_info(&self, id: NodeId, aux: ContextAux) -> (r: (DenseCtx, ContextAux))
        requires
            dense_step_ok(*self),
        ensures
            dense_step_is(*self, id, aux, r.0, r.1),
    {
        let ncols = self.matrix.ncols_2d();
        let out_shape = dense_output_shape(self.matrix.shape.as_slice());
        let last_output_shape = repeat_shape(out_shape.as_slice(), aux.last_output_shape.len());
        let ctx = DenseCtx {
            node_id: id,
            matrix_poly_aux: VPAuxInfo { max_degree: 2, num_variables: ilog2(ncols) },
            unpadded_matrix_shape: slice_to_vec(self.unpadded_matrix_shape.as_slice()),
            padded_matrix_shape: self.matrix.get_shape(),
        };
        let mut model_polys: Vec<Vec<Element>> = Vec::new();
        model_polys.push(poly_of(&self.matrix));
        model_polys.push(poly_of(&self.bias));
        (ctx, ContextAux { tables: aux.tables, last_output_shape, model_polys })
    }

    /// The polynomials that the layer commits to, with their numbers.
    pub fn commit_info(&self, id: NodeId) -> (r: Vec<(PolyID, Vec<GoldilocksExt2>)>)
        requires
            id * 100 <= usize::MAX,
        ensures
            r@.len() == 2,
            r@[0].0 == id,
            fviews(r@[0].1@) == fints(self.matrix@.data),
            r@[1].0 == id * 100,
            fviews(r@[1].1@) == fints(self.bias@.data),
    {
        let mut r: Vec<(PolyID, Vec<GoldilocksExt2>)> = Vec::new();
        r.push((id, self.matrix.evals_flat()));
        r.push((id * 100, self.bias.evals_flat()));
        r
    }

    /// What goes into the sum-check: the value of the bias at the point of the claim, and the
    /// matrix with its rows fixed at that point, times the input. Fails where output, claim, input
    /// or bias have not the size of the matrix.
    pub fn start_proving(
        &self,
        last_claim: &Claim<GoldilocksExt2>,
        input: &[GoldilocksExt2],
        output: &[GoldilocksExt2],
    ) -> (r: Result<DenseStart, ProvableOpError>)
        requires
            self.matrix@.plain(),
            self.matrix@.shape.len() == 2,
        ensures
            ({
                let s = self.matrix@.shape;
                let p = last_claim@.point;
                if output@.len() != s[0] {
                    generic_error(r, "dense proving: the output has not the size of the matrix"@)
                } else if pow2(p.len()) != s[0] {
                    generic_error(r, "something's wrong with the randomness"@)
                } else if input@.len() != s[1] {
                    generic_error(r, "something's wrong with the input"@)
                } else if self.bias@.data.len() != s[0] {
                    generic_error(r, "something's wrong with the bias"@)
                } else {
                    &&& r is Ok
                    &&& r->Ok_0.bias_eval@ == mle(fints(self.bias@.data), p)
                    &&& term_is(
                        r->Ok_0.term,
                        fone(),
                        seq![
                            fix_high(fints(self.matrix@.data), s[1] as nat, p),
                            fviews(input@),
                        ],
                    )
                }
            }),
    {
        let nrows = self.matrix.shape[0];
        let ncols = self.matrix.shape[1];
        let point = last_claim.point.as_slice();
        if output.len() != nrows {
            return generic_err("dense proving: the output has not the size of the matrix");
        }
        if !has_size(point, nrows) {
            return generic_err("something's wrong with the randomness");
        }
        if input.len() != ncols {
            return generic_err("something's wrong with the input");
        }
        if self.bias.data.len() != nrows {
            return generic_err("something's wrong with the bias");
        }
        let bias = self.bias.evals_flat();
        assert(fviews(bias@).len() == bias@.len());
        let bias_eval = mle_evaluate(bias.as_slice(), point);
        let evals = self.matrix.evals_flat();
        proof {
            lemma_product2(self.matrix@.shape);
            assert(fviews(evals@).len() == evals@.len());
            lemma_pow2_pos(point@.len());
            lemma_mod_multiples_basic(ncols as int, nrows as int);
            lemma_mul_is_commutative(ncols as int, nrows as int);
            lemma_div_by_multiple(ncols as int, nrows as int);
        }
        let fixed = fix_high_variables(evals.as_slice(), point);
        Ok(
            DenseStart {
                bias_eval,
                term: pair_term(GoldilocksExt2::one(), fixed.as_slice(), input),
            },
        )
    }

    /// The claims that are left at the end of the proof: about the matrix, about the bias, and
    /// about the input.
    pub fn finish_proving(
        last_point: &[GoldilocksExt2],
        bias_eval: GoldilocksExt2,
        sumcheck_point: &[GoldilocksExt2],
        final_evals: &[GoldilocksExt2],
    ) -> (r: DenseOutcome)
        requires
            final_evals@.len() >= 2,
        ensures
            dense_outcome_is(
                r,
                fviews(last_point@),
                bias_eval@,
                fviews(sumcheck_point@),
                fviews(final_evals@),
            ),
    {
        dense_outcome(last_point, bias_eval, sumcheck_point, final_evals)
    }
}

/// The claims that a dense layer ends with.
pub open spec fn dense_outcome_is(
    o: DenseOutcome,
    last_point: Seq<Fe>,
    bias_eval: Fe,
    point: Seq<Fe>,
    evals: Seq<Fe>,
) -> bool {
    &&& o.weights_claim@ == (ClaimView { point: point + last_point, eval: evals[0] })
    &&& o.bias_claim@ == (ClaimView { point: last_point, eval: bias_eval })
    &&& o.next_claim@ == (ClaimView { point, eval: evals[1] })
}

fn dense_outcome(
    last_point: &[GoldilocksExt2],
    bias_eval: GoldilocksExt2,
    point: &[GoldilocksExt2],
    evals: &[GoldilocksExt2],
) -> (r: DenseOutcome)
    requires
        evals@.len() >= 2,
    ensures
        dense_outcome_is(
            r,
            fviews(last_point@),
            bias_eval@,
            fviews(point@),
            fviews(evals@),
        ),
{
    DenseOutcome {
        weights_claim: Claim::new(concat_points(point, last_point), evals[0]),
        bias_claim: Claim::new(slice_to_vec(last_point), bias_eval),
        next_claim: Claim::new(slice_to_vec(point), evals[1]),
    }
}

impl<S> DenseProof<S> {
    /// The values of the polynomials of the sum-check, multiplied.
    pub fn individual_to_virtual_claim(&self) -> (r: GoldilocksExt2)
        ensures
            r@ == fprod(
                self.individual_claims@.len(),
                |i: int| fviews(self.individual_claims@)[i],
            ),
    {
        let mut acc = GoldilocksExt2::one();
        let mut i: usize = 0;
        let ghost f = |i: int| fviews(self.individual_claims@)[i];
        while i < self.individual_claims.len()
            invariant
                i <= self.individual_claims@.len(),
                f == (|i: int| fviews(self.individual_claims@)[i]),
                acc@ == fprod(i as nat, f),
            decreases self.individual_claims@.len() - i,
        {
            assert(f(i as int) == self.individual_claims@[i as int]@);
            acc = acc.times(self.individual_claims[i]);
            i = i + 1;
        }
        acc
    }
}

impl DenseCtx {
    /// The shape of the matrix, in the given mode.
    pub open spec fn shape_for(self, mode: PaddingMode) -> Seq<usize> {
        match mode {
            PaddingMode::NoPadding => self.unpadded_matrix_shape@,
            PaddingMode::Padding => self.padded_matrix_shape@,
        }
    }

    /// The shape of the output.
    pub fn output_shape(&self, input_shape: &[usize], mode: PaddingMode) -> (r: Vec<usize>)
        requires
            dense_shape_ok(input_shape@, self.shape_for(mode)),
        ensures
            r@ == seq![self.shape_for(mode)[0]],
    {
        match mode {
            PaddingMode::NoPadding => dense_output_shape(self.unpadded_matrix_shape.as_slice()),
            PaddingMode::Padding => dense_output_shape(self.padded_matrix_shape.as_slice()),
        }
    }

    /// The value that the sum-check starts from: that of the output, without the bias.
    pub fn initial_evaluation<S>(last_claim: &Claim<GoldilocksExt2>, proof: &DenseProof<S>) -> (r:
        GoldilocksExt2)
        ensures
            r@ == fsub(last_claim@.eval, proof.bias_eval@),
    {
        last_claim.eval.minus(proof.bias_eval)
    }

    /// Checks that the values that the prover sent give the value that the sum-check expects, and
    /// derives the claims from them. Fails where they do not, or where there are less than two.
    pub fn finish_verifying<S>(
        &self,
        last_claim: &Claim<GoldilocksExt2>,
        proof: &DenseProof<S>,
        subclaim: &SubClaim,
    ) -> (r: Result<DenseOutcome, ProvableOpError>)
        ensures
            ({
                let evals = fviews(proof.individual_claims@);
                if evals.len() < 2 {
                    generic_error(r, "The values of matrix and input are expected"@)
                } else if fprod(evals.len(), |i: int| evals[i])
                    != subclaim.expected_evaluation@ {
                    generic_error(r, "sumcheck claim failed"@)
                } else {
                    r is Ok && dense_outcome_is(
                        r->Ok_0,
                        last_claim@.point,
                        proof.bias_eval@,
                        fviews(subclaim.point@),
                        evals,
                    )
                }
            }),
    {
        if proof.individual_claims.len() < 2 {
            return generic_err("The values of matrix and input are expected");
        }
        if !proof.individual_to_virtual_claim().same(&subclaim.expected_evaluation) {
            return generic_err("sumcheck claim failed");
        }
        Ok(
            dense_outcome(
                last_claim.point.as_slice(),
                proof.bias_eval,
                subclaim.point.as_slice(),
                proof.individual_claims.as_slice(),
            ),
        )
    }
}

} // verus!
