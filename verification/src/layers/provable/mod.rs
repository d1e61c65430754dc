//! What the operations of a model have in common.
pub mod error;

use crate::commit::{beta, compute_betas_eval};
use crate::field::{Fe, GoldilocksExt2, fmul, fpow, fprod, fsum, fviews, fviews2};
use crate::iop::context::ContextAux;
use crate::layers::{Layer, LayerCtx, failed, layer_fault, layer_result, ref_views};
use crate::layers::convolution::{Convolution, conv_entries};
use crate::layers::fft_conv::{ConvData, conv_data_is};
use crate::layers::provable::error::ProvableOpError;
use crate::quantization::Element;
use crate::shape::shapes;
use crate::tensor::{Tensor, TensorView, tviews};
use vstd::arithmetic::power2::*;
use vstd::prelude::*;

verus! {

/// The number of a node of a model.
pub type NodeId = usize;

/// The number of a committed polynomial.
pub type PolyID = usize;

/// Whether shapes are those of the model as it was given, or padded to powers of two.
#[derive(Clone, Copy, Debug, PartialEq, Eq, Structural)]
pub enum PaddingMode {
    NoPadding,
    Padding,
}

/// A product of polynomials, each given by its values over the hypercube, times a coefficient: one
/// summand of the polynomial that a sumcheck is about.
#[derive(Clone, Debug)]
pub struct ProductTerm {
    pub coefficient: GoldilocksExt2,
    pub factors: Vec<Vec<GoldilocksExt2>>,
}

/// What a sum-check proof consists of for the layers: the random point that it ends at, and, for
/// the sum-check protocol alone, its messages.
#[derive(Clone, Debug, Default)]
pub struct SumcheckProof<S> {
    pub point: Vec<GoldilocksExt2>,
    pub messages: S,
}

/// What is left of a sum-check after its verification: the polynomial must take the value
/// `expected_evaluation` at `point`.
#[derive(Clone, Debug)]
pub struct SubClaim {
    pub point: Vec<GoldilocksExt2>,
    pub expected_evaluation: GoldilocksExt2,
}

/// The size of the polynomial that a sum-check is about: the number of its variables, and the
/// number of factors of its products.
#[derive(Clone, Copy, Debug, PartialEq, Eq, Structural)]
pub struct VPAuxInfo {
    pub max_degree: usize,
    pub num_variables: usize,
}

/// The value at place `k` of the hypercube of a product of polynomials.
pub open spec fn term_at(coefficient: Fe, factors: Seq<Seq<Fe>>, k: int) -> Fe {
    fmul(coefficient, fprod(factors.len(), |i: int| factors[i][k]))
}

/// What a product of polynomials is made of.
pub open spec fn term_is(t: ProductTerm, coefficient: Fe, factors: Seq<Seq<Fe>>) -> bool {
    t.coefficient@ == coefficient && fviews2(t.factors@) == factors
}

/// The values of `beta` over the hypercube.
pub open spec fn betas(r: Seq<Fe>) -> Seq<Fe> {
    Seq::new(pow2(r.len()), |k: int| beta(r, k as nat))
}

/// The values added up with the powers of `c` as weights: `v[0] + c v[1] + c^2 v[2] + ...`.
pub open spec fn rlc(v: Seq<Fe>, c: Fe) -> Fe {
    fsum(v.len(), |i: int| fmul(fpow(c, i as nat), v[i]))
}

/// The values added up with the powers of `c` as weights.
pub fn power_combination(v: &[GoldilocksExt2], c: GoldilocksExt2) -> (r: GoldilocksExt2)
    ensures
        r@ == rlc(fviews(v@), c@),
{
    let mut acc = GoldilocksExt2::zero();
    let mut power = GoldilocksExt2::one();
    let mut i: usize = 0;
    let ghost f = |i: int| fmul(fpow(c@, i as nat), fviews(v@)[i]);
    while i < v.len()
        invariant
            i <= v@.len(),
            f == (|i: int| fmul(fpow(c@, i as nat), fviews(v@)[i])),
            power@ == fpow(c@, i as nat),
            acc@ == fsum(i as nat, f),
        decreases v@.len() - i,
    {
        acc = acc.plus(power.times(v[i]));
        power = power.times(c);
        i = i + 1;
    }
    acc
}

/// The values of `beta` over the hypercube, as a vector.
pub fn betas_of(r: &[GoldilocksExt2]) -> (b: Vec<GoldilocksExt2>)
    requires
        pow2(r@.len()) <= usize::MAX,
    ensures
        fviews(b@) == betas(fviews(r@)),
{
    let b = compute_betas_eval(r);
    assert(fviews(b@) =~= betas(fviews(r@)));
    b
}

/// What a layer gives: its outputs, and for a convolution what its proof needs.
#[derive(Clone, Debug)]
pub struct LayerOut<T> {
    pub outputs: Vec<Tensor<T>>,
    pub proving_data: Option<ConvData>,
}

impl<T> LayerOut<T> {
    pub fn from_vec(outputs: Vec<Tensor<T>>) -> (r: Self)
        ensures
            r.outputs == outputs,
            r.proving_data is None,
    {
        LayerOut { outputs, proving_data: None }
    }

    /// The outputs.
    pub fn outputs(&self) -> (r: &[Tensor<T>])
        ensures
            r@ == self.outputs@,
    {
        self.outputs.as_slice()
    }

    /// The layer gave the one output `t`.
    pub open spec fn single(self, t: TensorView<T>) -> bool {
        tviews(self.outputs@) == seq![t]
    }
}

/// The outputs of a layer that has one.
pub fn single_output<T>(t: Tensor<T>) -> (r: LayerOut<T>)
    ensures
        r.single(t@),
        r.proving_data is None,
{
    let mut outputs: Vec<Tensor<T>> = Vec::new();
    outputs.push(t);
    assert(tviews(outputs@) =~= seq![t@]);
    LayerOut::from_vec(outputs)
}

// ---------------------------------------------------------------------------------------
// Nodes
// ---------------------------------------------------------------------------------------

/// One end of a connection between nodes. For an input of a node: the node, and its output, that
/// the input comes from. For an output: the node, and its input, that the output goes to. Without a
/// node: an input or output of the model.
#[derive(Clone, Copy, Debug, PartialEq, Eq)]
pub struct Edge {
    pub node: Option<NodeId>,
    pub index: usize,
}

/// All that one output of a node goes to.
#[derive(Clone, Debug, Default, PartialEq, Eq)]
pub struct OutputWire {
    pub edges: Vec<Edge>,
}

/// A node of a model: a layer, where its inputs come from, and where its outputs go.
#[derive(Clone, Debug)]
pub struct Node<N> {
    pub inputs: Vec<Edge>,
    pub outputs: Vec<OutputWire>,
    pub operation: Layer<N>,
}

/// What the set-up keeps of a node.
#[derive(Clone, Debug)]
pub struct NodeCtx {
    pub inputs: Vec<Edge>,
    pub outputs: Vec<OutputWire>,
    pub ctx: LayerCtx,
}

/// What a sequence of outputs goes to.
pub open spec fn wires(s: Seq<OutputWire>) -> Seq<Seq<Edge>> {
    Seq::new(s.len(), |i: int| s[i].edges@)
}

/// `n` outputs that go nowhere.
pub fn empty_wires(n: usize) -> (r: Vec<OutputWire>)
    ensures
        wires(r@) == Seq::new(n as nat, |i: int| Seq::<Edge>::empty()),
{
    let mut r: Vec<OutputWire> = Vec::new();
    let mut i: usize = 0;
    while i < n
        invariant
            i <= n,
            r.len() == i,
            forall|j: int| 0 <= j < i ==> (#[trigger] r[j]).edges@ == Seq::<Edge>::empty(),
        decreases n - i,
    {
        r.push(OutputWire { edges: Vec::new() });
        i = i + 1;
    }
    assert(wires(r@) =~= Seq::new(n as nat, |i: int| Seq::<Edge>::empty()));
    r
}

impl<N> Node<N> {
    /// Creates a node whose outputs go nowhere yet.
    pub fn new(inputs: Vec<Edge>, operation: Layer<N>) -> (r: Self)
        requires
            operation.arity_ok(inputs@.len()),
        ensures
            r.inputs == inputs,
            r.operation == operation,
            wires(r.outputs@) == Seq::new(inputs@.len(), |i: int| Seq::<Edge>::empty()),
    {
        let outputs = empty_wires(operation.num_outputs(inputs.len()));
        Node::new_with_outputs(inputs, operation, outputs)
    }

    /// Creates a node with given outputs.
    pub fn new_with_outputs(
        inputs: Vec<Edge>,
        operation: Layer<N>,
        outputs: Vec<OutputWire>,
    ) -> (r: Self)
        ensures
            r.inputs == inputs,
            r.operation == operation,
            r.outputs == outputs,
    {
        Node { inputs, outputs, operation }
    }

    /// Whether the node can be proved.
    pub fn is_provable(&self) -> (r: bool)
        ensures
            r == self.operation.provable(),
    {
        self.operation.is_provable()
    }
}

impl Node<Element> {
    /// Describes the node; `scale` is the scaling factor of a requantisation, in decimal notation.
    pub fn describe(&self, scale: &str) -> (r: String)
        requires
            self.operation.describable(),
        ensures
            r@ == self.operation.text(scale@),
    {
        self.operation.describe(scale)
    }

    /// Sets up the node's layer.
    pub fn step_info(&self, id: NodeId, aux: ContextAux) -> (r: Result<
        (LayerCtx, ContextAux),
        ProvableOpError,
    >)
        requires
            self.operation.set_up_ok(aux.last_output_shape@),
        ensures
            self.operation.set_up_is(id, aux, r),
    {
        self.operation.step_info(id, aux)
    }

    /// Runs the node's layer on its inputs.
    pub fn run(&self, inputs: &[&Tensor<Element>], unpadded_input_shapes: &[Vec<usize>]) -> (r:
        Result<LayerOut<Element>, ProvableOpError>)
        ensures
            match layer_fault(
                self.operation,
                ref_views(inputs@),
                shapes(unpadded_input_shapes@),
            ) {
                Some(fault) => failed(r, fault),
                None => {
                    &&& r is Ok
                    &&& tviews(r->Ok_0.outputs@) == layer_result(
                        self.operation,
                        ref_views(inputs@),
                        shapes(unpadded_input_shapes@),
                    )
                    &&& r->Ok_0.proving_data is Some <==> self.operation is Convolution
                    &&& self.operation matches Layer::Convolution(c) ==> conv_data_is(
                        c.filter@,
                        inputs@[0]@,
                        r->Ok_0.proving_data->0,
                    ) && r->Ok_0.proving_data->0.output_as_element@ == conv_entries(
                        c,
                        inputs@[0]@,
                    )
                },
            },
    {
        self.operation.evaluate(inputs, unpadded_input_shapes)
    }
}

} // verus!
