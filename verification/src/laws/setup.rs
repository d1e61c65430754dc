//! What the set-up of a layer keeps, and the claims that a layer ends with.
use crate::arith::{lemma_flog2_unique, lemma_pow2_above, lemma_pow2_step};
use crate::claim::{ClaimView, cviews};
use crate::field::{
    Fe, fadd, fint, fmul, fsub, fsum, fviews, fzero, lemma_fe_closed, lemma_fint, lemma_fsum_eq,
};
use crate::iop::context::{ContextAux, with_table};
use crate::laws::algebra::law_division;
use crate::laws::places::{has_coordinates, law_padding, row_major};
use crate::layers::{Layer, LayerCtx, layer_fault};
use crate::layers::activation::{
    Activation, ActivationOutcome, activation_outcome, same_vars, shape_vars,
};
use crate::layers::conv_verify::{conv_ctx_is, poly_entries};
use crate::layers::convolution::Convolution;
use crate::layers::dense::{Dense, DenseOutcome, dense_outcome_is};
use crate::layers::flatten::Flatten;
use crate::layers::pooling::{Pooling, pooled_shapes};
use crate::layers::provable::{PaddingMode, PolyID};
use crate::layers::provable::error::ProvableOpError;
use crate::layers::quantize::{has_weights, scaling_fault};
use crate::layers::requant::{Requant, RequantOutcome, chunk_sum};
use crate::layers::requant_steps::outcome_is;
use crate::lookup::context::TableType;
use crate::quantization::Element;
use crate::shape::{pow2_shape, pow2_shape_fits, product, shapes};
use crate::tensor::TensorView;
use vstd::arithmetic::power2::*;
use vstd::prelude::*;

verus! {

/// What is committed to of a tensor keeps each entry at its coordinates, and is zero elsewhere.
pub proof fn law_poly_entries(t: TensorView<Element>, at: Seq<int>)
    requires
        pow2_shape_fits(t.og_shape),
        has_coordinates(pow2_shape(t.og_shape), at),
    ensures
        ({
            let big = pow2_shape(t.og_shape);
            &&& poly_entries(t).len() == product(big)
            &&& poly_entries(t)[row_major(big, at)] == if has_coordinates(t.og_shape, at) {
                t.data[row_major(t.og_shape, at)]
            } else {
                0
            }
        }),
{
    law_padding(t.data, t.og_shape, pow2_shape(t.og_shape), 0i128, at);
}

/// The set-up of a dense layer keeps the shapes of its matrix. Its sum-check is over products of
/// two factors, in as many variables as the columns need, and it hands on the entries of the
/// matrix and of the bias, and the number of rows for every input.
pub proof fn law_dense_set_up(
    d: Dense<Element>,
    id: PolyID,
    aux: ContextAux,
    r: Result<(LayerCtx, ContextAux), ProvableOpError>,
    e: nat,
    i: int,
)
    requires
        Layer::Dense(d).set_up_is(id, aux, r),
        d.matrix@.shape.len() == 2,
        pow2(e) <= d.matrix@.shape[1] < 2 * pow2(e),
        0 <= i < aux.last_output_shape@.len(),
    ensures
        r is Ok,
        (r->Ok_0).0 is Dense,
        ({
            let ctx = (r->Ok_0).0->Dense_0;
            let out = (r->Ok_0).1;
            &&& ctx.node_id == id
            &&& ctx.matrix_poly_aux.max_degree == 2
            &&& ctx.matrix_poly_aux.num_variables == e
            &&& ctx.unpadded_matrix_shape@ == d.unpadded_matrix_shape@
            &&& ctx.padded_matrix_shape@ == d.matrix@.shape
            &&& out.tables == aux.tables
            &&& out.last_output_shape@.len() == aux.last_output_shape@.len()
            &&& out.last_output_shape@[i]@ == seq![d.matrix@.shape[0]]
            &&& out.model_polys@.len() == 2
            &&& out.model_polys@[0]@ == poly_entries(d.matrix@)
            &&& out.model_polys@[1]@ == poly_entries(d.bias@)
        }),
{
    let n = d.matrix@.shape[1] as nat;
    let out = (r->Ok_0).1;
    lemma_pow2_step(e);
    lemma_flog2_unique(n, e);
    lemma_pow2_above(e);
    assert(shapes(out.last_output_shape@).len() == aux.last_output_shape@.len());
    assert(shapes(out.last_output_shape@)[i] == out.last_output_shape@[i]@);
}

/// The set-up of a convolution hands on the entries of the filters and of the bias, and for every
/// input the shape of the filters without the channels.
pub proof fn law_convolution_set_up(
    c: Convolution<Element>,
    id: PolyID,
    aux: ContextAux,
    r: Result<(LayerCtx, ContextAux), ProvableOpError>,
    i: int,
)
    requires
        Layer::Convolution(c).set_up_is(id, aux, r),
        c.filter@.shape.len() == 4,
        0 <= i < aux.last_output_shape@.len(),
    ensures
        r is Ok,
        (r->Ok_0).0 is Convolution,
        conv_ctx_is(c, id, (r->Ok_0).0->Convolution_0),
        ({
            let out = (r->Ok_0).1;
            let s = c.filter@.shape;
            &&& out.tables == aux.tables
            &&& out.last_output_shape@.len() == aux.last_output_shape@.len()
            &&& out.last_output_shape@[i]@ == seq![s[0], s[2], s[3]]
            &&& out.model_polys@.len() == 2
            &&& out.model_polys@[0]@ == poly_entries(c.filter@)
            &&& out.model_polys@[1]@ == poly_entries(c.bias@)
        }),
{
    let out = (r->Ok_0).1;
    let s = c.filter@.shape;
    assert(shapes(out.last_output_shape@).len() == aux.last_output_shape@.len());
    assert(shapes(out.last_output_shape@)[i] == out.last_output_shape@[i]@);
    assert(s.remove(1) =~= seq![s[0], s[2], s[3]]);
}

/// The set-up of an activation, of a requantisation or of a pooling succeeds exactly where all its
/// outputs have as many variables as the first. It keeps this number, asks for the tables that the
/// layer looks up, and commits to nothing.
pub proof fn law_lookup_set_up(
    op: Layer<Element>,
    id: PolyID,
    aux: ContextAux,
    r: Result<(LayerCtx, ContextAux), ProvableOpError>,
)
    requires
        op is Activation || op is Requant || op is Pooling,
        op.set_up_is(id, aux, r),
        aux.last_output_shape@.len() > 0,
    ensures
        ({
            let outs = Seq::new(
                aux.last_output_shape@.len(),
                |i: int| op.shape_of(aux.last_output_shape@[i]@, PaddingMode::Padding),
            );
            let tables = aux.tables@;
            let (ctx, out) = r->Ok_0;
            &&& r is Ok <==> forall|i: int|
                0 <= i < outs.len() ==> shape_vars(#[trigger] outs[i]) == shape_vars(outs[0])
            &&& r is Ok ==> {
                &&& shapes(out.last_output_shape@) == outs
                &&& out.model_polys@.len() == 0
                &&& match op {
                    Layer::Activation(a) => {
                        &&& ctx is Activation
                        &&& ctx->Activation_0.op == a
                        &&& ctx->Activation_0.node_id == id
                        &&& ctx->Activation_0.num_vars == shape_vars(outs[0])
                        &&& out.tables@ == with_table(tables, TableType::Relu)
                    },
                    Layer::Requant(q) => {
                        &&& ctx is Requant
                        &&& ctx->Requant_0.requant == q
                        &&& ctx->Requant_0.node_id == id
                        &&& ctx->Requant_0.num_vars == shape_vars(outs[0])
                        &&& out.tables@ == with_table(
                            with_table(tables, TableType::Range),
                            TableType::Clamping(q.clamping_bits() as usize),
                        )
                    },
                    Layer::Pooling(p) => {
                        &&& ctx is Pooling
                        &&& p == Pooling::Maxpool2D(ctx->Pooling_0.poolinfo)
                        &&& ctx->Pooling_0.node_id == id
                        &&& ctx->Pooling_0.num_vars == shape_vars(outs[0])
                        &&& out.tables@ == with_table(tables, TableType::Range)
                    },
                    _ => false,
                }
            }
        }),
{
    let s = aux.last_output_shape@;
    let outs = Seq::new(s.len(), |i: int| op.shape_of(s[i]@, PaddingMode::Padding));
    if let Layer::Pooling(p) = op {
        assert(pooled_shapes(p.info(), s) =~= outs);
    } else {
        assert(shapes(s) =~= outs);
        if same_vars(s) {
            assert forall|i: int| 0 <= i < outs.len() implies shape_vars(#[trigger] outs[i])
                == shape_vars(outs[0]) by {
                assert(shape_vars(shapes(s)[i]) == shape_vars(s[0]@));
            }
        } else {
            let i = choose|i: int|
                0 <= i < s.len() && shape_vars(#[trigger] shapes(s)[i]) != shape_vars(s[0]@);
            assert(shape_vars(outs[i]) != shape_vars(outs[0]));
        }
    }
}

/// The set-up of a flattening and of a direct convolution always succeeds. The former hands on the
/// number of entries for every input, the latter all that it was handed.
pub proof fn law_other_set_up(
    op: Layer<Element>,
    id: PolyID,
    aux: ContextAux,
    r: Result<(LayerCtx, ContextAux), ProvableOpError>,
    i: int,
)
    requires
        op is Flatten || op is SchoolBookConvolution,
        op.set_up_is(id, aux, r),
        0 <= i < aux.last_output_shape@.len(),
    ensures
        r is Ok,
        op is SchoolBookConvolution ==> (r->Ok_0).0 is SchoolBookConvolution && (r->Ok_0).1 == aux,
        op is Flatten ==> {
            let out = (r->Ok_0).1;
            &&& (r->Ok_0).0 is Flatten
            &&& out.tables == aux.tables
            &&& out.last_output_shape@.len() == aux.last_output_shape@.len()
            &&& out.last_output_shape@[i]@ == seq![product(aux.last_output_shape@[i]@) as usize]
            &&& out.model_polys@.len() == 0
        },
{
    if op is Flatten {
        let out = (r->Ok_0).1;
        assert(shapes(out.last_output_shape@).len() == aux.last_output_shape@.len());
        assert(shapes(out.last_output_shape@)[i] == out.last_output_shape@[i]@);
    }
}

/// A layer other than a flattening runs on one input only. A convolution by transforms needs the
/// unpadded shape of this input.
pub proof fn law_layer_arity(
    op: Layer<Element>,
    xs: Seq<TensorView<Element>>,
    s: Seq<Seq<usize>>,
)
    ensures
        !(op is Flatten) && xs.len() != 1 ==> layer_fault(op, xs, s) is Some && (layer_fault(
            op,
            xs,
            s,
        )->0).0,
        op is Convolution && xs.len() == 1 && s.len() != 1 ==> layer_fault(op, xs, s) is Some && (
        layer_fault(op, xs, s)->0).0,
        op.arity_ok(xs.len()) <==> xs.len() == 1 || !(op is Dense || op is Convolution
            || op is SchoolBookConvolution),
{
}

/// Which layers can be proved, and which bring weights.
pub proof fn law_layer_kinds(op: Layer<Element>, ctx: LayerCtx)
    ensures
        op.provable() <==> op is Dense || op is Convolution || op is Activation || op is Requant
            || op is Pooling,
        ctx.provable() <==> ctx is Dense || ctx is Convolution || ctx is Activation || ctx
            is Requant || ctx is Pooling,
        has_weights(op) <==> op is Dense || op is Convolution,
{
}

/// The numbers of scaling factors matter for layers with weights alone, which need one for the
/// input and one for the output.
pub proof fn law_scaling_fault(op: Layer<Element>, inputs: nat, outputs: nat)
    ensures
        scaling_fault(op, inputs, outputs) is None <==> !(op is Dense || op is Convolution) || (
        inputs == 1 && outputs == 1),
{
}

/// A dense layer ends with a claim about the matrix, at the point of the sum-check followed by the
/// point of the output, one about the bias, at the point of the output, and one about the input,
/// at the point of the sum-check.
pub proof fn law_dense_outcome(
    o: DenseOutcome,
    last_point: Seq<Fe>,
    bias_eval: Fe,
    point: Seq<Fe>,
    evals: Seq<Fe>,
)
    requires
        dense_outcome_is(o, last_point, bias_eval, point, evals),
    ensures
        fviews(o.weights_claim.point@) == point + last_point,
        o.weights_claim.eval@ == evals[0],
        fviews(o.bias_claim.point@) == last_point,
        o.bias_claim.eval@ == bias_eval,
        fviews(o.next_claim.point@) == point,
        o.next_claim.eval@ == evals[1],
{
}

/// An activation ends with the claims about its two columns, of which that about the inputs goes
/// on.
pub proof fn law_activation_outcome(
    o: ActivationOutcome,
    input: ClaimView,
    accumulated: ClaimView,
)
    requires
        activation_outcome(o, input, accumulated),
    ensures
        o.witness_claims@.len() == 2,
        o.witness_claims@[0]@ == input,
        o.witness_claims@[1]@ == accumulated,
        o.next_claim@ == input,
{
    let v = cviews(o.witness_claims@);
    assert(v.len() == 2);
    assert(v[0] == o.witness_claims@[0]@);
    assert(v[1] == o.witness_claims@[1]@);
}

/// A requantisation ends with a claim about each of its columns at the same point, and with one
/// about its input, there too: the multiplier times it is the value after the shift times `2^s`,
/// plus the chunks, each at its place, minus half a unit.
pub proof fn law_requant_outcome(
    r: Requant,
    o: RequantOutcome,
    point: Seq<Fe>,
    evals: Seq<Fe>,
    i: int,
)
    requires
        outcome_is(r, o, point, evals),
        0 <= i < evals.len(),
        evals.len() >= 2,
        r.fp_scale + r.right_shift >= 1,
        fint(r.fixed_point_multiplier as int) != fzero(),
    ensures
        o.witness_claims@.len() == evals.len(),
        fviews(o.witness_claims@[i].point@) == point,
        o.witness_claims@[i].eval@ == evals[i],
        fviews(o.next_claim.point@) == point,
        fmul(o.next_claim.eval@, fint(r.fixed_point_multiplier as int)) == fsub(
            fadd(
                fmul(fint(pow2((r.fp_scale + r.right_shift) as nat) as int), evals[0]),
                fsum(
                    (evals.len() - 2) as nat,
                    |j: int| fmul(evals[2 + j], fint(pow2(8 * (j as nat)) as int)),
                ),
            ),
            fint(pow2((r.fp_scale + r.right_shift - 1) as nat) as int),
        ),
{
    let v = cviews(o.witness_claims@);
    assert(v.len() == evals.len());
    assert(v[i] == o.witness_claims@[i]@);
    let m = fint(r.fixed_point_multiplier as int);
    let rest = evals.skip(2);
    let f = |j: int| fmul(evals[2 + j], fint(pow2(8 * (j as nat)) as int));
    let g = |j: int| fmul(rest[j], fint(pow2(8 * (j as nat)) as int));
    assert forall|j: int| 0 <= j < rest.len() implies #[trigger] g(j) == f(j) by {}
    lemma_fsum_eq(rest.len(), g, f);
    let whole = fsub(
        fadd(fmul(fint(pow2(r.total_shift()) as int), evals[0]), chunk_sum(rest)),
        fint(pow2((r.total_shift() - 1) as nat) as int),
    );
    lemma_fe_closed(
        fadd(fmul(fint(pow2(r.total_shift()) as int), evals[0]), chunk_sum(rest)),
        fint(pow2((r.total_shift() - 1) as nat) as int),
    );
    lemma_fint(r.fixed_point_multiplier as int, 0);
    law_division(whole, m);
}

} // verus!
