//! The layers of a model.
pub mod activation;
pub mod conv_accepted;
pub mod conv_honest;
pub mod conv_laws;
pub mod conv_steps;
pub mod conv_verify;
pub mod convolution;
pub mod delegation;
pub mod delegation_laws;
pub mod dense;
pub mod fft_conv;
pub mod flatten;
pub mod garbage;
pub mod honest;
pub mod pooling;
pub mod provable;
pub mod quantize;
pub mod requant;
pub mod requant_steps;

use crate::claim::Claim;
use crate::field::{Fe, GoldilocksExt2, fviews};
use crate::iop::context::{ContextAux, ShapeStep, TableCtx, copy_shapes};
use crate::layers::activation::{
    Activation, ActivationCtx, activation_step_is, lookup_shapes_ok, relu_out, same_vars,
};
use crate::layers::conv_steps::{ConvProof, concat_points};
use crate::layers::conv_verify::{conv_step_is, conv_step_ok, pow2_fits, shapes_go_together};
use crate::layers::convolution::{
    ConvCtx, Convolution, SchoolBookConv, SchoolBookConvCtx, conv2d_fits, conv2d_result,
    conv2d_shape, conv_entries, conv_fits, conv_mode_ok, conv_ready, conv_result, conv_shape_in,
};
use crate::layers::dense::{
    Dense, DenseCtx, DenseProof, dense_fits, dense_ready, dense_result, dense_shape_ok,
    dense_step_is, dense_step_ok, matrix_shape_in,
};
use crate::layers::fft_conv::conv_data_is;
use crate::layers::flatten::{Flatten, flattened_tensor};
use crate::layers::pooling::{
    Pooling, PoolingCtx, pooled_vars_differ, pooling_step_is, pooling_step_ok,
};
use crate::layers::provable::{LayerOut, NodeId, PaddingMode, PolyID, SumcheckProof};
use crate::layers::provable::error::{
    ProvableOpError, generic_error, parameter_err, parameter_error,
};
use crate::layers::requant::{Requant, RequantCtx, requant_out};
use crate::layers::requant_steps::requant_step_is;
use crate::ops::conv2d_ok;
use crate::quantization::{Element, fints};
use crate::shape::{checked_product, next_power_of_two_shape, pow2_shape_fits, product, shapes};
use crate::tensor::{Tensor, TensorView, has_cols_2d, has_rows_2d, tviews};
use crate::text::decimal;
use vstd::prelude::*;
use vstd::slice::slice_to_vec;
use vstd::string::*;

verus! {

/// A layer of a model.
#[derive(Clone, Debug)]
pub enum Layer<T> {
    Dense(Dense<T>),
    Convolution(Convolution<T>),
    /// A convolution that is computed entry by entry, to compare with. It cannot be proved.
    SchoolBookConvolution(SchoolBookConv<T>),
    Activation(Activation),
    Requant(Requant),
    Pooling(Pooling),
    Flatten(Flatten),
}

/// What the set-up keeps of a layer. The verifier knows from it the sequence of the layers and the
/// kind of each.
#[derive(Clone, Debug)]
pub enum LayerCtx {
    Dense(DenseCtx),
    Convolution(ConvCtx),
    SchoolBookConvolution(SchoolBookConvCtx),
    Activation(ActivationCtx),
    Requant(RequantCtx),
    Pooling(PoolingCtx),
    Table(TableCtx),
    Flatten,
}

/// The proof of a lookup argument: the fractions that it leaves, the claims about its columns, and,
/// for the protocol alone, its messages.
#[derive(Clone, Debug)]
pub struct LogUpProof<S> {
    pub numerators: Vec<GoldilocksExt2>,
    pub denominators: Vec<GoldilocksExt2>,
    pub output_claims: Vec<Claim<GoldilocksExt2>>,
    pub messages: S,
}

/// The proof of an activation.
#[derive(Clone, Debug)]
pub struct ActivationProof<S, C> {
    /// The accumulation of the claims about the output.
    pub io_accumulation: SumcheckProof<S>,
    pub lookup: LogUpProof<S>,
    pub commits: Vec<C>,
}

/// The proof of a requantisation.
#[derive(Clone, Debug)]
pub struct RequantProof<S, C> {
    /// The sum-check that brings all claims to one point.
    pub io_accumulation: SumcheckProof<S>,
    /// The values of the columns at that point.
    pub accumulation_evals: Vec<GoldilocksExt2>,
    /// The lookup into the clamping table.
    pub clamping_lookup: LogUpProof<S>,
    /// The range checks of the chunks that are shifted away.
    pub shifted_lookup: LogUpProof<S>,
    /// The commitments, those of the clamping lookup first.
    pub commitments: Vec<C>,
}

/// The proof of a pooling.
#[derive(Clone, Debug)]
pub struct PoolingProof<S, C> {
    pub lookup: LogUpProof<S>,
    pub commits: Vec<C>,
}

/// The proof of a layer. `S` is what a sum-check sends, `C` is a commitment.
#[derive(Clone, Debug)]
pub enum LayerProof<S, C> {
    Dense(DenseProof<S>),
    Convolution(ConvProof<S>),
    Activation(ActivationProof<S, C>),
    Requant(RequantProof<S, C>),
    Pooling(PoolingProof<S, C>),
    /// Stands for the proof of a layer that cannot be proved.
    Dummy,
}

// ---------------------------------------------------------------------------------------
// Contexts
// ---------------------------------------------------------------------------------------

impl LayerCtx {
    pub open spec fn name(self) -> Seq<char> {
        match self {
            LayerCtx::Dense(_) => "Dense"@,
            LayerCtx::SchoolBookConvolution(_) => "Traditional Convolution"@,
            LayerCtx::Convolution(_) => "Convolution"@,
            LayerCtx::Activation(_) => "Activation"@,
            LayerCtx::Requant(_) => "Requant"@,
            LayerCtx::Pooling(_) => "Pooling"@,
            LayerCtx::Table(_) => "Table"@,
            LayerCtx::Flatten => "Reshape"@,
        }
    }

    /// The kind of the layer.
    pub fn variant_name(&self) -> (r: String)
        ensures
            r@ == self.name(),
    {
        match self {
            LayerCtx::Dense(_) => String::from_str("Dense"),
            LayerCtx::SchoolBookConvolution(_) => String::from_str("Traditional Convolution"),
            LayerCtx::Convolution(_) => String::from_str("Convolution"),
            LayerCtx::Activation(_) => String::from_str("Activation"),
            LayerCtx::Requant(_) => String::from_str("Requant"),
            LayerCtx::Pooling(_) => String::from_str("Pooling"),
            LayerCtx::Table(_) => String::from_str("Table"),
            LayerCtx::Flatten => String::from_str("Reshape"),
        }
    }

    pub open spec fn provable(self) -> bool {
        !(self is Flatten || self is Table || self is SchoolBookConvolution)
    }

    /// Whether there is a proof for the layer.
    pub fn has_proof(&self) -> (r: bool)
        ensures
            r == self.provable(),
    {
        match self {
            LayerCtx::Flatten => false,
            LayerCtx::Table(_) => false,
            LayerCtx::SchoolBookConvolution(_) => false,
            _ => true,
        }
    }

    /// The shape of the output can be told from that of the input.
    pub open spec fn shape_ok(self, s: Seq<usize>, mode: PaddingMode) -> bool {
        match self {
            LayerCtx::Dense(c) => dense_shape_ok(s, c.shape_for(mode)),
            LayerCtx::Convolution(c) => conv_mode_ok(s, c.shape_for(mode), mode),
            LayerCtx::SchoolBookConvolution(_) => false,
            LayerCtx::Activation(_) => true,
            LayerCtx::Requant(_) => true,
            LayerCtx::Pooling(c) => c.poolinfo.ok(s),
            LayerCtx::Table(_) => false,
            LayerCtx::Flatten => product(s) <= usize::MAX,
        }
    }

    /// The shape of the output.
    pub open spec fn shape_of(self, s: Seq<usize>, mode: PaddingMode) -> Seq<usize> {
        match self {
            LayerCtx::Dense(c) => seq![c.shape_for(mode)[0]],
            LayerCtx::Convolution(c) => conv_shape_in(s, c.shape_for(mode), mode),
            LayerCtx::Pooling(c) => c.poolinfo.shape_of(s),
            LayerCtx::Flatten => seq![product(s) as usize],
            _ => s,
        }
    }

    /// The shape of the output.
    pub fn output_shape(&self, input_shape: &[usize], padding_mode: PaddingMode) -> (r: Vec<usize>)
        requires
            self.shape_ok(input_shape@, padding_mode),
        ensures
            r@ == self.shape_of(input_shape@, padding_mode),
    {
        match self {
            LayerCtx::Dense(dense) => dense.output_shape(input_shape, padding_mode),
            LayerCtx::Convolution(filter) => filter.output_shape(input_shape, padding_mode),
            LayerCtx::Pooling(pooling) => pooling.output_shape(input_shape),
            LayerCtx::Flatten => Flatten.output_shape(input_shape),
            _ => slice_to_vec(input_shape),
        }
    }

    /// Whether the shape of the output can be told from that of the input.
    pub fn accepts_shape(&self, s: &[usize], mode: PaddingMode) -> (r: bool)
        ensures
            r == self.shape_ok(s@, mode),
    {
        match self {
            LayerCtx::Dense(dense) => match mode {
                PaddingMode::NoPadding => dense_accepts(s, dense.unpadded_matrix_shape.as_slice()),
                PaddingMode::Padding => dense_accepts(s, dense.padded_matrix_shape.as_slice()),
            },
            LayerCtx::Convolution(c) => match mode {
                PaddingMode::NoPadding => conv_accepts(
                    s,
                    c.unpadded_filter_shape.as_slice(),
                    mode,
                ),
                PaddingMode::Padding => conv_accepts(s, c.padded_filter_shape.as_slice(), mode),
            },
            LayerCtx::SchoolBookConvolution(_) => false,
            LayerCtx::Activation(_) => true,
            LayerCtx::Requant(_) => true,
            LayerCtx::Pooling(p) => p.poolinfo.accepts(s),
            LayerCtx::Table(_) => false,
            LayerCtx::Flatten => checked_product(s).is_some(),
        }
    }

    /// The shapes of the outputs can be told.
    pub open spec fn shapes_ok(self, s: Seq<Seq<usize>>, mode: PaddingMode) -> bool {
        forall|i: int| 0 <= i < s.len() ==> self.shape_ok(#[trigger] s[i], mode)
    }

    /// The shapes of the outputs.
    pub open spec fn shapes_of(self, s: Seq<Seq<usize>>, mode: PaddingMode) -> Seq<Seq<usize>> {
        Seq::new(s.len(), |i: int| self.shape_of(s[i], mode))
    }

    fn outputs(&self, s: &[Vec<usize>], mode: PaddingMode) -> (r: Vec<Vec<usize>>)
        requires
            self.shapes_ok(shapes(s@), mode),
        ensures
            shapes(r@) == self.shapes_of(shapes(s@), mode),
    {
        let mut r: Vec<Vec<usize>> = Vec::new();
        let mut i: usize = 0;
        while i < s.len()
            invariant
                self.shapes_ok(shapes(s@), mode),
                i <= s@.len(),
                r.len() == i,
                forall|j: int| 0 <= j < i ==> (#[trigger] r[j])@ == self.shape_of(s@[j]@, mode),
            decreases s@.len() - i,
        {
            assert(self.shape_ok(shapes(s@)[i as int], mode));
            r.push(self.output_shape(s[i].as_slice(), mode));
            i = i + 1;
        }
        assert(shapes(r@) =~= self.shapes_of(shapes(s@), mode));
        r
    }

    /// The shapes of the layer that follows `last_step`.
    pub fn next_shape_step(&self, last_step: &ShapeStep) -> (r: ShapeStep)
        requires
            self.shapes_ok(shapes(last_step.unpadded_output_shape@), PaddingMode::NoPadding),
            self.shapes_ok(shapes(last_step.padded_output_shape@), PaddingMode::Padding),
        ensures
            shapes(r.unpadded_input_shape@) == shapes(last_step.unpadded_output_shape@),
            shapes(r.padded_input_shape@) == shapes(last_step.padded_output_shape@),
            shapes(r.unpadded_output_shape@) == self.shapes_of(
                shapes(last_step.unpadded_output_shape@),
                PaddingMode::NoPadding,
            ),
            shapes(r.padded_output_shape@) == self.shapes_of(
                shapes(last_step.padded_output_shape@),
                PaddingMode::Padding,
            ),
    {
        let unpadded_output = self.outputs(
            last_step.unpadded_output_shape.as_slice(),
            PaddingMode::NoPadding,
        );
        let padded_output = self.outputs(
            last_step.padded_output_shape.as_slice(),
            PaddingMode::Padding,
        );
        ShapeStep::next_step(last_step, unpadded_output, padded_output)
    }

    /// The shapes of the layer with the given shapes of the inputs.
    pub fn shape_step(&self, unpadded_input: &[Vec<usize>], padded_input: &[Vec<usize>]) -> (r:
        ShapeStep)
        requires
            self.shapes_ok(shapes(unpadded_input@), PaddingMode::NoPadding),
            self.shapes_ok(shapes(padded_input@), PaddingMode::Padding),
        ensures
            shapes(r.unpadded_input_shape@) == shapes(unpadded_input@),
            shapes(r.padded_input_shape@) == shapes(padded_input@),
            shapes(r.unpadded_output_shape@) == self.shapes_of(
                shapes(unpadded_input@),
                PaddingMode::NoPadding,
            ),
            shapes(r.padded_output_shape@) == self.shapes_of(
                shapes(padded_input@),
                PaddingMode::Padding,
            ),
    {
        let unpadded_output = self.outputs(unpadded_input, PaddingMode::NoPadding);
        let padded_output = self.outputs(padded_input, PaddingMode::Padding);
        ShapeStep::new(
            copy_shapes(unpadded_input),
            copy_shapes(padded_input),
            unpadded_output,
            padded_output,
        )
    }
}

/// Whether an input of shape `s` goes with a matrix.
fn dense_accepts(s: &[usize], matrix: &[usize]) -> (r: bool)
    ensures
        r == dense_shape_ok(s@, matrix@),
{
    if matrix.len() < 2 {
        return false;
    }
    match checked_product(s) {
        Some(p) => p == matrix[1],
        None => false,
    }
}

/// Whether an input of shape `s` goes with the filters.
fn conv_accepts(s: &[usize], filter: &[usize], mode: PaddingMode) -> (r: bool)
    ensures
        r == conv_mode_ok(s@, filter@, mode),
{
    if !shapes_go_together(s, filter) {
        return false;
    }
    match mode {
        PaddingMode::NoPadding => true,
        PaddingMode::Padding => pow2_fits(conv2d_shape(s, filter).as_slice()),
    }
}

// ---------------------------------------------------------------------------------------
// Layers
// ---------------------------------------------------------------------------------------

impl<T> Layer<T> {
    /// The layer accepts the number of inputs.
    pub open spec fn arity_ok(self, num_inputs: nat) -> bool {
        match self {
            Layer::Dense(_) => num_inputs == 1,
            Layer::Convolution(_) => num_inputs == 1,
            Layer::SchoolBookConvolution(_) => num_inputs == 1,
            _ => true,
        }
    }

    /// The number of outputs: as many as inputs.
    pub fn num_outputs(&self, num_inputs: usize) -> (r: usize)
        requires
            self.arity_ok(num_inputs as nat),
        ensures
            r == num_inputs,
    {
        match self {
            Layer::Dense(dense) => dense.num_outputs(num_inputs),
            Layer::Convolution(convolution) => convolution.num_outputs(num_inputs),
            Layer::SchoolBookConvolution(convolution) => convolution.num_outputs(num_inputs),
            Layer::Activation(activation) => activation.num_outputs(num_inputs),
            Layer::Requant(requant) => requant.num_outputs(num_inputs),
            Layer::Pooling(pooling) => pooling.num_outputs(num_inputs),
            Layer::Flatten(reshape) => reshape.num_outputs(num_inputs),
        }
    }

    pub open spec fn provable(self) -> bool {
        !(self is SchoolBookConvolution || self is Flatten)
    }

    /// Whether the layer can be proved.
    pub fn is_provable(&self) -> (r: bool)
        ensures
            r == self.provable(),
    {
        match self {
            Layer::Dense(dense) => dense.is_provable(),
            Layer::Convolution(convolution) => convolution.is_provable(),
            Layer::SchoolBookConvolution(convolution) => convolution.is_provable(),
            Layer::Activation(activation) => activation.is_provable(),
            Layer::Requant(requant) => requant.is_provable(),
            Layer::Pooling(pooling) => pooling.is_provable(),
            Layer::Flatten(reshape) => reshape.is_provable(),
        }
    }

    /// The shape of the output can be told from that of the input.
    pub open spec fn shape_ok(self, s: Seq<usize>, mode: PaddingMode) -> bool {
        match self {
            Layer::Dense(d) => {
                &&& mode == PaddingMode::Padding ==> pow2_shape_fits(d.unpadded_matrix_shape@)
                &&& dense_shape_ok(s, matrix_shape_in(d.unpadded_matrix_shape@, mode))
            },
            Layer::Convolution(c) => conv_mode_ok(s, c.shape_for(mode), mode),
            Layer::SchoolBookConvolution(c) => conv_mode_ok(s, c.0.shape_for(mode), mode),
            Layer::Pooling(p) => p.info().ok(s),
            Layer::Flatten(_) => product(s) <= usize::MAX,
            _ => true,
        }
    }

    /// The shape of the output.
    pub open spec fn shape_of(self, s: Seq<usize>, mode: PaddingMode) -> Seq<usize> {
        match self {
            Layer::Dense(d) => seq![matrix_shape_in(d.unpadded_matrix_shape@, mode)[0]],
            Layer::Convolution(c) => conv_shape_in(s, c.shape_for(mode), mode),
            Layer::SchoolBookConvolution(c) => conv_shape_in(s, c.0.shape_for(mode), mode),
            Layer::Pooling(p) => p.info().shape_of(s),
            Layer::Flatten(_) => seq![product(s) as usize],
            _ => s,
        }
    }

    pub open spec fn shapes_ok(self, s: Seq<Seq<usize>>, mode: PaddingMode) -> bool {
        forall|i: int| 0 <= i < s.len() ==> self.shape_ok(#[trigger] s[i], mode)
    }

    pub open spec fn shapes_of(self, s: Seq<Seq<usize>>, mode: PaddingMode) -> Seq<Seq<usize>> {
        Seq::new(s.len(), |i: int| self.shape_of(s[i], mode))
    }

    fn output_shape(&self, s: &[usize], mode: PaddingMode) -> (r: Vec<usize>)
        requires
            self.shape_ok(s@, mode),
        ensures
            r@ == self.shape_of(s@, mode),
    {
        match self {
            Layer::Dense(dense) => dense.output_shape(s, mode),
            Layer::Convolution(convolution) => convolution.output_shape(s, mode),
            Layer::SchoolBookConvolution(convolution) => convolution.0.output_shape(s, mode),
            Layer::Pooling(Pooling::Maxpool2D(info)) => info.output_shape(s),
            Layer::Flatten(reshape) => reshape.output_shape(s),
            _ => slice_to_vec(s),
        }
    }

    /// Whether the shape of the output can be told from that of the input.
    pub fn accepts_shape(&self, s: &[usize], mode: PaddingMode) -> (r: bool)
        ensures
            r == self.shape_ok(s@, mode),
    {
        match self {
            Layer::Dense(dense) => match mode {
                PaddingMode::NoPadding => dense_accepts(s, dense.unpadded_matrix_shape.as_slice()),
                PaddingMode::Padding => {
                    if !pow2_fits(dense.unpadded_matrix_shape.as_slice()) {
                        return false;
                    }
                    let m = next_power_of_two_shape(dense.unpadded_matrix_shape.as_slice());
                    dense_accepts(s, m.as_slice())
                },
            },
            Layer::Convolution(c) => match mode {
                PaddingMode::NoPadding => conv_accepts(s, c.unpadded_shape.as_slice(), mode),
                PaddingMode::Padding => conv_accepts(s, c.filter.og_shape.as_slice(), mode),
            },
            Layer::SchoolBookConvolution(c) => match mode {
                PaddingMode::NoPadding => conv_accepts(s, c.0.unpadded_shape.as_slice(), mode),
                PaddingMode::Padding => conv_accepts(s, c.0.filter.og_shape.as_slice(), mode),
            },
            Layer::Pooling(Pooling::Maxpool2D(info)) => info.accepts(s),
            Layer::Flatten(_) => checked_product(s).is_some(),
            _ => true,
        }
    }

    /// Whether the shapes of the outputs can be told from those of the inputs.
    pub fn accepts_shapes(&self, s: &[Vec<usize>], mode: PaddingMode) -> (r: bool)
        ensures
            r == self.shapes_ok(shapes(s@), mode),
    {
        let mut i: usize = 0;
        while i < s.len()
            invariant
                i <= s@.len(),
                forall|j: int| 0 <= j < i ==> self.shape_ok(#[trigger] shapes(s@)[j], mode),
            decreases s@.len() - i,
        {
            if !self.accepts_shape(s[i].as_slice(), mode) {
                assert(!self.shape_ok(shapes(s@)[i as int], mode));
                return false;
            }
            i = i + 1;
        }
        true
    }

    /// The shapes of the outputs.
    pub fn output_shapes(&self, input_shapes: &[Vec<usize>], padding_mode: PaddingMode) -> (r: Vec<
        Vec<usize>,
    >)
        requires
            self.shapes_ok(shapes(input_shapes@), padding_mode),
        ensures
            shapes(r@) == self.shapes_of(shapes(input_shapes@), padding_mode),
    {
        let mut r: Vec<Vec<usize>> = Vec::new();
        let mut i: usize = 0;
        while i < input_shapes.len()
            invariant
                self.shapes_ok(shapes(input_shapes@), padding_mode),
                i <= input_shapes@.len(),
                r.len() == i,
                forall|j: int|
                    0 <= j < i ==> (#[trigger] r[j])@ == self.shape_of(
                        input_shapes@[j]@,
                        padding_mode,
                    ),
            decreases input_shapes@.len() - i,
        {
            assert(self.shape_ok(shapes(input_shapes@)[i as int], padding_mode));
            r.push(self.output_shape(input_shapes[i].as_slice(), padding_mode));
            i = i + 1;
        }
        assert(shapes(r@) =~= self.shapes_of(shapes(input_shapes@), padding_mode));
        r
    }

    /// Checks that what the set-up kept belongs to a layer of this kind. Fails where it does not.
    pub fn check_ctx(&self, ctx: &LayerCtx) -> (r: Result<(), ProvableOpError>)
        requires
            self.provable(),
        ensures
            match *self {
                Layer::Dense(_) => if ctx is Dense {
                    r is Ok
                } else {
                    parameter_error(r, "No dense ctx found for dense layer"@)
                },
                Layer::Convolution(_) => if ctx is Convolution {
                    r is Ok
                } else {
                    parameter_error(r, "No convolution ctx found for convolution layer"@)
                },
                Layer::Activation(_) => if ctx is Activation {
                    r is Ok
                } else {
                    parameter_error(r, "No activation ctx found for activation layer"@)
                },
                Layer::Requant(_) => if ctx is Requant {
                    r is Ok
                } else {
                    parameter_error(r, "No requant ctx found for requant layer"@)
                },
                Layer::Pooling(_) => if ctx is Pooling {
                    r is Ok
                } else {
                    parameter_error(r, "No pooling ctx found for pooling layer"@)
                },
                _ => true,
            },
    {
        match self {
            Layer::Dense(_) => match ctx {
                LayerCtx::Dense(_) => Ok(()),
                _ => parameter_err("No dense ctx found for dense layer"),
            },
            Layer::Convolution(_) => match ctx {
                LayerCtx::Convolution(_) => Ok(()),
                _ => parameter_err("No convolution ctx found for convolution layer"),
            },
            Layer::Activation(_) => match ctx {
                LayerCtx::Activation(_) => Ok(()),
                _ => parameter_err("No activation ctx found for activation layer"),
            },
            Layer::Requant(_) => match ctx {
                LayerCtx::Requant(_) => Ok(()),
                _ => parameter_err("No requant ctx found for requant layer"),
            },
            Layer::Pooling(_) => match ctx {
                LayerCtx::Pooling(_) => Ok(()),
                _ => parameter_err("No pooling ctx found for pooling layer"),
            },
            _ => Ok(()),
        }
    }
}

/// What goes wrong when a layer runs on its inputs, if anything does: whether the parameters are
/// to blame, and the message.
pub open spec fn layer_fault(
    op: Layer<Element>,
    xs: Seq<TensorView<Element>>,
    s: Seq<Seq<usize>>,
) -> Option<(bool, Seq<char>)> {
    match op {
        Layer::Dense(d) => if xs.len() != 1 {
            Some((true, "Dense layer expects one input"@))
        } else if !dense_ready(d.matrix@, d.bias@, xs[0]) {
            Some((false, "The input does not go with the matrix"@))
        } else if !dense_fits(d.matrix@, d.bias@, xs[0]) {
            Some((false, "A result of the dense layer is out of range"@))
        } else {
            None
        },
        Layer::Convolution(c) => if xs.len() != 1 {
            Some((true, "Convolution layer expects 1 input"@))
        } else if s.len() != 1 {
            Some((true, "Convolution layer expects 1 input shape"@))
        } else if !conv_ready(c, xs[0], s[0]) {
            Some((false, "The input does not go with the filters"@))
        } else if !conv_fits(c, xs[0]) {
            Some((false, "A result of the convolution is out of range"@))
        } else {
            None
        },
        Layer::SchoolBookConvolution(c) => if xs.len() != 1 {
            Some((true, "Convolution layer expects 1 input"@))
        } else if !conv2d_ok(xs[0], c.0.filter@, c.0.bias@, 1) {
            Some((false, "The input does not go with the filters"@))
        } else if !conv2d_fits(xs[0], c.0.filter@, c.0.bias@) {
            Some((false, "A result of the convolution is out of range"@))
        } else {
            None
        },
        Layer::Activation(_) => if xs.len() != 1 {
            Some((true, "Activation layer expects one input"@))
        } else if !xs[0].plain() {
            Some((false, "The input has not one entry for each place"@))
        } else {
            None
        },
        Layer::Requant(q) => if xs.len() != 1 {
            Some((true, "Requant layer expects one input"@))
        } else if !q.ready(xs[0]) {
            Some((false, "The input cannot be requantised"@))
        } else if !q.holds_all(xs[0]) {
            Some((false, "A value to requantise is out of range"@))
        } else {
            None
        },
        Layer::Pooling(p) => if xs.len() != 1 {
            Some((true, "Pooling layer expects one input"@))
        } else if !(xs[0].plain() && p.info().ok(xs[0].shape)) {
            Some((false, "The windows do not fit into the input"@))
        } else {
            None
        },
        Layer::Flatten(_) => None,
    }
}

/// The outputs of a layer, where nothing goes wrong.
pub open spec fn layer_result(
    op: Layer<Element>,
    xs: Seq<TensorView<Element>>,
    s: Seq<Seq<usize>>,
) -> Seq<TensorView<Element>> {
    match op {
        Layer::Dense(d) => seq![dense_result(d.matrix@, d.bias@, xs[0])],
        Layer::Convolution(c) => seq![conv_result(c, xs[0], s[0])],
        Layer::SchoolBookConvolution(c) => seq![conv2d_result(xs[0], c.0.filter@, c.0.bias@)],
        Layer::Activation(_) => seq![relu_out(xs[0])],
        Layer::Requant(q) => seq![requant_out(q, xs[0])],
        Layer::Pooling(p) => seq![p.info().result(xs[0])],
        Layer::Flatten(_) => Seq::new(xs.len(), |i: int| flattened_tensor(xs[i])),
    }
}

/// The contents of a sequence of references to tensors.
pub open spec fn ref_views(xs: Seq<&Tensor<Element>>) -> Seq<TensorView<Element>> {
    Seq::new(xs.len(), |i: int| xs[i]@)
}

/// `r` failed as told.
pub open spec fn failed<T>(r: Result<T, ProvableOpError>, fault: (bool, Seq<char>)) -> bool {
    if fault.0 {
        parameter_error(r, fault.1)
    } else {
        generic_error(r, fault.1)
    }
}

impl Layer<Element> {
    /// Runs the layer on its inputs. Fails exactly where `layer_fault` tells that something goes
    /// wrong, and with that message. A convolution also gives what its proof needs.
    pub fn evaluate(&self, inputs: &[&Tensor<Element>], unpadded_input_shapes: &[Vec<usize>]) -> (r:
        Result<LayerOut<Element>, ProvableOpError>)
        ensures
            match layer_fault(*self, ref_views(inputs@), shapes(unpadded_input_shapes@)) {
                Some(fault) => failed(r, fault),
                None => {
                    &&& r is Ok
                    &&& tviews(r->Ok_0.outputs@) == layer_result(
                        *self,
                        ref_views(inputs@),
                        shapes(unpadded_input_shapes@),
                    )
                    &&& r->Ok_0.proving_data is Some <==> self is Convolution
                    &&& *self matches Layer::Convolution(c) ==> conv_data_is(
                        c.filter@,
                        inputs@[0]@,
                        r->Ok_0.proving_data->0,
                    ) && r->Ok_0.proving_data->0.output_as_element@ == conv_entries(
                        c,
                        inputs@[0]@,
                    )
                },
            },
    {
        proof {
            if inputs@.len() == 1 {
                assert(ref_views(inputs@)[0] == inputs@[0]@);
            }
        }
        match self {
            Layer::Dense(dense) => dense.evaluate(inputs),
            Layer::Convolution(convolution) => convolution.evaluate(inputs, unpadded_input_shapes),
            Layer::SchoolBookConvolution(school_book_conv) => school_book_conv.evaluate(inputs),
            Layer::Activation(activation) => activation.evaluate(inputs),
            Layer::Requant(requant) => requant.evaluate(inputs),
            Layer::Pooling(pooling) => pooling.evaluate(inputs),
            Layer::Flatten(reshape) => {
                let r = reshape.evaluate(inputs);
                assert(tviews(r.outputs@) =~= layer_result(
                    *self,
                    ref_views(inputs@),
                    shapes(unpadded_input_shapes@),
                ));
                Ok(r)
            },
        }
    }

    /// The layer can be described.
    pub open spec fn describable(self) -> bool {
        match self {
            Layer::Dense(d) => has_rows_2d(d.matrix@.shape) && has_cols_2d(d.matrix@.shape),
            Layer::Convolution(c) => c.filter@.shape.len() >= 3,
            Layer::SchoolBookConvolution(c) => c.0.filter@.shape.len() >= 3,
            Layer::Requant(q) => q.total_shift() <= usize::MAX,
            _ => true,
        }
    }

    /// The text that describes the layer; `scale` is the scaling factor of a requantisation.
    pub open spec fn text(self, scale: Seq<char>) -> Seq<char> {
        match self {
            Layer::Dense(d) => d.text(),
            Layer::Convolution(c) => c.text(),
            Layer::SchoolBookConvolution(c) => c.0.text(),
            Layer::Activation(_) => "RELU: "@ + decimal(256),
            Layer::Requant(q) => "Requant: right shift: "@ + decimal(q.total_shift())
                + ", scale: "@ + scale,
            Layer::Pooling(p) => "MaxPool2D{ kernel size: "@ + decimal(
                p.info().kernel_size as nat,
            ) + ", stride: "@ + decimal(p.info().stride as nat) + " }"@,
            Layer::Flatten(_) => "Flatten"@,
        }
    }

    /// Describes the layer; `scale` is the scaling factor of a requantisation, in decimal notation.
    pub fn describe(&self, scale: &str) -> (r: String)
        requires
            self.describable(),
        ensures
            r@ == self.text(scale@),
    {
        match self {
            Layer::Dense(dense) => dense.describe(),
            Layer::Convolution(convolution) => convolution.describe(),
            Layer::SchoolBookConvolution(convolution) => convolution.0.describe(),
            Layer::Activation(activation) => activation.describe(),
            Layer::Requant(requant) => requant.describe(scale),
            Layer::Pooling(pooling) => pooling.describe(),
            Layer::Flatten(reshape) => reshape.describe(),
        }
    }

    /// The polynomials that the layer commits to, with their numbers.
    pub fn commit_info(&self, id: NodeId) -> (r: Vec<(PolyID, Vec<GoldilocksExt2>)>)
        requires
            (self is Dense || self is Convolution) ==> id * 100 <= usize::MAX,
        ensures
            match *self {
                Layer::Dense(d) => {
                    &&& r@.len() == 2
                    &&& r@[0].0 == id
                    &&& fviews(r@[0].1@) == fints(d.matrix@.data)
                    &&& r@[1].0 == id * 100
                    &&& fviews(r@[1].1@) == fints(d.bias@.data)
                },
                Layer::Convolution(c) => {
                    &&& r@.len() == 2
                    &&& r@[0].0 == id
                    &&& fviews(r@[0].1@) == fints(c.filter@.data)
                    &&& r@[1].0 == id * 100
                    &&& fviews(r@[1].1@) == fints(c.bias@.data)
                },
                _ => r@.len() == 0,
            },
    {
        match self {
            Layer::Dense(dense) => dense.commit_info(id),
            Layer::Convolution(convolution) => convolution.commit_info(id),
            _ => Vec::new(),
        }
    }
}

impl Layer<Element> {
    /// The layer can be set up after layers with the given output shapes.
    pub open spec fn set_up_ok(self, s: Seq<Vec<usize>>) -> bool {
        match self {
            Layer::Dense(d) => dense_step_ok(d),
            Layer::Convolution(c) => conv_step_ok(c),
            Layer::Activation(_) => lookup_shapes_ok(s),
            Layer::Requant(q) => q.clamping_ok() && lookup_shapes_ok(s),
            Layer::Pooling(p) => pooling_step_ok(p.info(), s),
            Layer::Flatten(_) => forall|i: int|
                0 <= i < s.len() ==> product(#[trigger] shapes(s)[i]) <= usize::MAX,
            _ => true,
        }
    }

    /// What the set-up of the layer gives, or why it fails.
    pub open spec fn set_up_is(
        self,
        id: PolyID,
        aux: ContextAux,
        r: Result<(LayerCtx, ContextAux), ProvableOpError>,
    ) -> bool {
        match self {
            Layer::Dense(d) => {
                &&& r matches Ok((LayerCtx::Dense(ctx), out))
                &&& dense_step_is(d, id, aux, ctx, out)
            },
            Layer::Convolution(c) => {
                &&& r matches Ok((LayerCtx::Convolution(ctx), out))
                &&& conv_step_is(c, id, aux, ctx, out)
            },
            Layer::SchoolBookConvolution(_) => {
                &&& r matches Ok((LayerCtx::SchoolBookConvolution(_), out))
                &&& out == aux
            },
            Layer::Activation(a) => if same_vars(aux.last_output_shape@) {
                &&& r matches Ok((LayerCtx::Activation(ctx), out))
                &&& activation_step_is(a, id, aux, ctx, out)
            } else {
                generic_error(
                    r,
                    "All input shapes for activation must have the same number of variables"@,
                )
            },
            Layer::Requant(q) => if same_vars(aux.last_output_shape@) {
                &&& r matches Ok((LayerCtx::Requant(ctx), out))
                &&& requant_step_is(q, id, aux, ctx, out)
            } else {
                generic_error(
                    r,
                    "All input shapes for requant layer must have the same number of variables"@,
                )
            },
            Layer::Pooling(p) => if pooled_vars_differ(p.info(), aux.last_output_shape@) {
                generic_error(
                    r,
                    "All input shapes for pooling must have the same number of variables"@,
                )
            } else {
                &&& r matches Ok((LayerCtx::Pooling(ctx), out))
                &&& pooling_step_is(p.info(), id, aux, ctx, out)
            },
            Layer::Flatten(_) => {
                &&& r matches Ok((LayerCtx::Flatten, out))
                &&& out.tables == aux.tables
                &&& shapes(out.last_output_shape@) == Seq::new(
                    aux.last_output_shape@.len(),
                    |i: int| seq![product(aux.last_output_shape@[i]@) as usize],
                )
                &&& out.model_polys@.len() == 0
            },
        }
    }

    /// Sets up the layer.
    pub fn step_info(&self, id: PolyID, aux: ContextAux) -> (r: Result<
        (LayerCtx, ContextAux),
        ProvableOpError,
    >)
        requires
            self.set_up_ok(aux.last_output_shape@),
        ensures
            self.set_up_is(id, aux, r),
    {
        match self {
            Layer::Dense(dense) => {
                let (ctx, out) = dense.step_info(id, aux);
                Ok((LayerCtx::Dense(ctx), out))
            },
            Layer::Convolution(convolution) => {
                let (ctx, out) = convolution.step_info(id, aux);
                Ok((LayerCtx::Convolution(ctx), out))
            },
            Layer::SchoolBookConvolution(convolution) => {
                let (ctx, out) = convolution.step_info(id, aux);
                Ok((LayerCtx::SchoolBookConvolution(ctx), out))
            },
            Layer::Activation(activation) => match activation.step_info(id, aux) {
                Ok((ctx, out)) => Ok((LayerCtx::Activation(ctx), out)),
                Err(e) => Err(e),
            },
            Layer::Requant(requant) => match requant.step_info(id, aux) {
                Ok((ctx, out)) => Ok((LayerCtx::Requant(ctx), out)),
                Err(e) => Err(e),
            },
            Layer::Pooling(pooling) => match pooling.step_info(id, aux) {
                Ok((ctx, out)) => Ok((LayerCtx::Pooling(ctx), out)),
                Err(e) => Err(e),
            },
            Layer::Flatten(reshape) => {
                let out = reshape.step_info(aux);
                Ok((LayerCtx::Flatten, out))
            },
        }
    }
}

// ---------------------------------------------------------------------------------------
// Proofs
// ---------------------------------------------------------------------------------------

impl<S> LogUpProof<S> {
    /// The fractions that the argument leaves: numerators and denominators.
    pub fn fractional_outputs(&self) -> (r: (Vec<GoldilocksExt2>, Vec<GoldilocksExt2>))
        ensures
            fviews(r.0@) == fviews(self.numerators@),
            fviews(r.1@) == fviews(self.denominators@),
    {
        (slice_to_vec(self.numerators.as_slice()), slice_to_vec(self.denominators.as_slice()))
    }
}

impl<S, C> LayerProof<S, C> {
    pub open spec fn name(self) -> Seq<char> {
        match self {
            LayerProof::Dense(_) => "Dense"@,
            LayerProof::Convolution(_) => "Convolution"@,
            LayerProof::Activation(_) => "Activation"@,
            LayerProof::Requant(_) => "Requant"@,
            LayerProof::Pooling(_) => "Pooling"@,
            LayerProof::Dummy => "Dummy"@,
        }
    }

    /// The kind of the layer.
    pub fn variant_name(&self) -> (r: String)
        ensures
            r@ == self.name(),
    {
        match self {
            LayerProof::Dense(_) => String::from_str("Dense"),
            LayerProof::Convolution(_) => String::from_str("Convolution"),
            LayerProof::Activation(_) => String::from_str("Activation"),
            LayerProof::Requant(_) => String::from_str("Requant"),
            LayerProof::Pooling(_) => String::from_str("Pooling"),
            LayerProof::Dummy => String::from_str("Dummy"),
        }
    }

    /// The fractions that the lookups of the layer leave: numerators and denominators.
    pub open spec fn fractions(self) -> Option<(Seq<Fe>, Seq<Fe>)> {
        match self {
            LayerProof::Activation(p) => Some(
                (fviews(p.lookup.numerators@), fviews(p.lookup.denominators@)),
            ),
            LayerProof::Pooling(p) => Some(
                (fviews(p.lookup.numerators@), fviews(p.lookup.denominators@)),
            ),
            LayerProof::Requant(p) => Some(
                (
                    fviews(p.clamping_lookup.numerators@) + fviews(p.shifted_lookup.numerators@),
                    fviews(p.clamping_lookup.denominators@) + fviews(
                        p.shifted_lookup.denominators@,
                    ),
                ),
            ),
            _ => None,
        }
    }

    /// The fractions that the lookups of the layer leave, where it has lookups.
    pub fn get_lookup_data(&self) -> (r: Option<(Vec<GoldilocksExt2>, Vec<GoldilocksExt2>)>)
        ensures
            match self.fractions() {
                Some((nums, denoms)) => r is Some && fviews((r->0).0@) == nums && fviews((r->0).1@)
                    == denoms,
                None => r is None,
            },
    {
        match self {
            LayerProof::Dense(_) => None,
            LayerProof::Convolution(_) => None,
            LayerProof::Dummy => None,
            LayerProof::Activation(p) => Some(p.lookup.fractional_outputs()),
            LayerProof::Pooling(p) => Some(p.lookup.fractional_outputs()),
            LayerProof::Requant(p) => Some(
                (
                    concat_points(
                        p.clamping_lookup.numerators.as_slice(),
                        p.shifted_lookup.numerators.as_slice(),
                    ),
                    concat_points(
                        p.clamping_lookup.denominators.as_slice(),
                        p.shifted_lookup.denominators.as_slice(),
                    ),
                ),
            ),
        }
    }
}

} // verus!
