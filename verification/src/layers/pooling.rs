//! The pooling layer.
use crate::iop::context::{ContextAux, with_table};
use crate::layers::activation::{common_vars, shape_vars};
use crate::layers::provable::{LayerOut, NodeId, single_output};
use crate::layers::provable::error::{
    ProvableOpError, generic_err, generic_error, parameter_err, parameter_error,
};
use crate::lookup::context::TableType;
use crate::ops::{lemma_window_places, pool_entry, window_places};
use crate::quantization::Element;
use crate::shape::{positive, product, shapes};
use crate::tensor::{Tensor, TensorView, tensor};
use crate::text::{append_decimal, decimal};
use vstd::prelude::*;
use vstd::string::*;

verus! {

/// The width of the windows of the maximum pooling.
pub const MAXPOOL2D_KERNEL_SIZE: usize = 2;

/// The kinds of pooling.
#[derive(Clone, Copy, Debug)]
pub enum Pooling {
    Maxpool2D(Maxpool2D),
}

/// The maximum over square windows.
#[derive(Clone, Copy, Debug)]
pub struct Maxpool2D {
    pub kernel_size: usize,
    pub stride: usize,
}

/// What the set-up keeps of a pooling layer.
#[derive(Clone, Debug)]
pub struct PoolingCtx {
    pub poolinfo: Maxpool2D,
    pub node_id: NodeId,
    pub num_vars: usize,
}

impl Default for Maxpool2D {
    fn default() -> (r: Self)
        ensures
            r.kernel_size == MAXPOOL2D_KERNEL_SIZE,
            r.stride == MAXPOOL2D_KERNEL_SIZE,
    {
        Maxpool2D { kernel_size: MAXPOOL2D_KERNEL_SIZE, stride: MAXPOOL2D_KERNEL_SIZE }
    }
}

impl Maxpool2D {
    /// The windows fit into matrices of the last two dimensions.
    pub open spec fn ok(self, s: Seq<usize>) -> bool {
        &&& s.len() >= 2
        &&& self.stride > 0
        &&& 0 < self.kernel_size <= s[s.len() - 2]
        &&& self.kernel_size <= s[s.len() - 1]
        &&& self.kernel_size * self.kernel_size <= usize::MAX
    }

    /// The shape of the result.
    pub open spec fn shape_of(self, s: Seq<usize>) -> Seq<usize> {
        let d = s.len() as int;
        s.update(
            d - 2,
            window_places(s[d - 2] as int, self.kernel_size as int, self.stride as int) as usize,
        ).update(
            d - 1,
            window_places(s[d - 1] as int, self.kernel_size as int, self.stride as int) as usize,
        )
    }

    /// The result of the pooling of a tensor.
    pub open spec fn result(self, x: TensorView<Element>) -> TensorView<Element> {
        let d = x.shape.len() as int;
        let shape = self.shape_of(x.shape);
        tensor(
            shape,
            Seq::new(
                product(shape),
                |t: int|
                    pool_entry(
                        x.data,
                        x.shape[d - 2] as int,
                        x.shape[d - 1] as int,
                        self.kernel_size as int,
                        self.stride as int,
                        t,
                    ) as i128,
            ),
        )
    }

    /// Whether the windows fit into tensors of the given shape.
    pub fn accepts(&self, s: &[usize]) -> (r: bool)
        ensures
            r == self.ok(s@),
    {
        let d = s.len();
        d >= 2 && self.stride > 0 && 0 < self.kernel_size && self.kernel_size <= s[d - 2]
            && self.kernel_size <= s[d - 1] && self.kernel_size.checked_mul(
            self.kernel_size,
        ).is_some()
    }

    /// The shape of the result.
    pub fn output_shape(&self, s: &[usize]) -> (r: Vec<usize>)
        requires
            self.ok(s@),
        ensures
            r@ == self.shape_of(s@),
    {
        let d = s.len();
        proof {
            lemma_window_places(s@[d - 2] as int, self.kernel_size as int, self.stride as int);
            lemma_window_places(s@[d - 1] as int, self.kernel_size as int, self.stride as int);
        }
        let h = (s[d - 2] - self.kernel_size) / self.stride + 1;
        let w = (s[d - 1] - self.kernel_size) / self.stride + 1;
        let mut r = vstd::slice::slice_to_vec(s);
        r.set(d - 2, h);
        r.set(d - 1, w);
        r
    }

    /// The maximum of each window.
    pub fn op(&self, input: &Tensor<Element>) -> (r: Tensor<Element>)
        requires
            input@.plain(),
            self.ok(input@.shape),
        ensures
            r@ == self.result(input@),
            r@.plain(),
    {
        let r = input.maxpool2d(self.kernel_size, self.stride);
        assert(r@.data =~= self.result(input@).data);
        r
    }
}

/// The shape of the result of the default pooling of a tensor of three dimensions.
pub fn maxpool2d_shape(input_shape: &[usize]) -> (r: Vec<usize>)
    requires
        input_shape@.len() == 3,
        input_shape@[1] >= 2,
        input_shape@[2] >= 2,
    ensures
        r@ == seq![
            input_shape@[0],
            (input_shape@[1] / 2) as usize,
            (input_shape@[2] / 2) as usize,
        ],
{
    let info = Maxpool2D { kernel_size: MAXPOOL2D_KERNEL_SIZE, stride: MAXPOOL2D_KERNEL_SIZE };
    let r = info.output_shape(input_shape);
    assert(r@ =~= seq![
        input_shape@[0],
        (input_shape@[1] / 2) as usize,
        (input_shape@[2] / 2) as usize,
    ]);
    r
}

impl Pooling {
    pub open spec fn info(self) -> Maxpool2D {
        match self {
            Pooling::Maxpool2D(info) => info,
        }
    }

    /// A pooling has as many outputs as inputs.
    pub fn num_outputs(&self, num_inputs: usize) -> (r: usize)
        ensures
            r == num_inputs,
    {
        num_inputs
    }

    /// Describes the layer.
    pub fn describe(&self) -> (r: String)
        ensures
            r@ == "MaxPool2D{ kernel size: "@ + decimal(self.info().kernel_size as nat)
                + ", stride: "@ + decimal(self.info().stride as nat) + " }"@,
    {
        match self {
            Pooling::Maxpool2D(info) => {
                let mut s = String::from_str("MaxPool2D{ kernel size: ");
                append_decimal(&mut s, info.kernel_size);
                s.append(", stride: ");
                append_decimal(&mut s, info.stride);
                s.append(" }");
                s
            },
        }
    }

    pub fn is_provable(&self) -> (r: bool)
        ensures
            r,
    {
        true
    }

    /// The maximum of each window.
    pub fn op(&self, input: &Tensor<Element>) -> (r: Tensor<Element>)
        requires
            input@.plain(),
            self.info().ok(input@.shape),
        ensures
            r@ == self.info().result(input@),
            r@.plain(),
    {
        match self {
            Pooling::Maxpool2D(info) => info.op(input),
        }
    }

    /// Runs the layer on its input. Fails where there is not one input, or where the windows do not
    /// fit into it.
    pub fn evaluate(&self, inputs: &[&Tensor<Element>]) -> (r: Result<
        LayerOut<Element>,
        ProvableOpError,
    >)
        ensures
            inputs@.len() != 1 ==> parameter_error(r, "Pooling layer expects one input"@),
            inputs@.len() == 1 ==> {
                let x = inputs@[0]@;
                if x.plain() && self.info().ok(x.shape) {
                    r is Ok && r->Ok_0.single(self.info().result(x)) && r->Ok_0.proving_data is None
                } else {
                    generic_error(r, "The windows do not fit into the input"@)
                }
            },
    {
        if inputs.len() != 1 {
            return parameter_err("Pooling layer expects one input");
        }
        let input = inputs[0];
        let fit = match self {
            Pooling::Maxpool2D(info) => info.accepts(input.shape.as_slice()),
        };
        if !input.is_plain() || !fit {
            return generic_err("The windows do not fit into the input");
        }
        Ok(single_output(self.op(input)))
    }
}

/// The shapes of the outputs of a pooling.
pub open spec fn pooled_shapes(info: Maxpool2D, s: Seq<Vec<usize>>) -> Seq<Seq<usize>> {
    Seq::new(s.len(), |i: int| info.shape_of(s[i]@))
}

/// The layer can be set up.
pub open spec fn pooling_step_ok(info: Maxpool2D, s: Seq<Vec<usize>>) -> bool {
    &&& s.len() > 0
    &&& forall|i: int|
        0 <= i < s.len() ==> info.ok(#[trigger] shapes(s)[i]) && positive(
            info.shape_of(shapes(s)[i]),
        ) && shape_vars(info.shape_of(shapes(s)[i])) <= usize::MAX
}

/// The shapes of the outputs differ in their numbers of variables.
pub open spec fn pooled_vars_differ(info: Maxpool2D, s: Seq<Vec<usize>>) -> bool {
    let out = pooled_shapes(info, s);
    exists|i: int| 0 <= i < out.len() && shape_vars(#[trigger] out[i]) != shape_vars(out[0])
}

/// What the set-up of a pooling gives.
pub open spec fn pooling_step_is(
    info: Maxpool2D,
    id: NodeId,
    aux: ContextAux,
    ctx: PoolingCtx,
    out: ContextAux,
) -> bool {
    let s = pooled_shapes(info, aux.last_output_shape@);
    &&& ctx.poolinfo == info
    &&& ctx.node_id == id
    &&& ctx.num_vars == shape_vars(s[0])
    &&& out.tables@ == with_table(aux.tables@, TableType::Range)
    &&& shapes(out.last_output_shape@) == s
    &&& out.model_polys@.len() == 0
}

impl Pooling {
    /// Sets up the layer. Fails where the shapes of the outputs differ in their numbers of
    /// variables.
    pub fn step_info(&self, id: NodeId, aux: ContextAux) -> (r: Result<
        (PoolingCtx, ContextAux),
        ProvableOpError,
    >)
        requires
            pooling_step_ok(self.info(), aux.last_output_shape@),
        ensures
            pooled_vars_differ(self.info(), aux.last_output_shape@) ==> generic_error(
                r,
                "All input shapes for pooling must have the same number of variables"@,
            ),
            !pooled_vars_differ(self.info(), aux.last_output_shape@) ==> r is Ok
                && pooling_step_is(self.info(), id, aux, (r->Ok_0).0, (r->Ok_0).1),
    {
        let info = match self {
            Pooling::Maxpool2D(info) => *info,
        };
        let mut aux = aux;
        aux.insert_table(TableType::Range);
        let ghost ins = aux.last_output_shape@;
        let ghost out = pooled_shapes(info, ins);
        let mut outs: Vec<Vec<usize>> = Vec::new();
        let mut i: usize = 0;
        while i < aux.last_output_shape.len()
            invariant
                ins == aux.last_output_shape@,
                i <= ins.len(),
                forall|j: int| 0 <= j < ins.len() ==> info.ok(#[trigger] shapes(ins)[j]),
                outs.len() == i,
                forall|j: int| 0 <= j < i ==> (#[trigger] outs@[j])@ == info.shape_of(ins[j]@),
            decreases ins.len() - i,
        {
            assert(info.ok(shapes(ins)[i as int]));
            outs.push(info.output_shape(aux.last_output_shape[i].as_slice()));
            i = i + 1;
        }
        proof {
            assert(shapes(outs@) =~= out);
            assert forall|j: int| 0 <= j < outs@.len() implies positive(
                #[trigger] shapes(outs@)[j],
            ) && shape_vars(shapes(outs@)[j]) <= usize::MAX by {
                assert(info.ok(shapes(ins)[j]));
            }
        }
        let num_vars = match common_vars(outs.as_slice()) {
            Some(n) => n,
            None => {
                proof {
                    let k = choose|k: int|
                        0 <= k < outs@.len() && shape_vars(#[trigger] shapes(outs@)[k])
                            != shape_vars(outs@[0]@);
                    assert(shape_vars(out[k]) != shape_vars(out[0]));
                }
                return generic_err(
                    "All input shapes for pooling must have the same number of variables",
                );
            },
        };
        proof {
            assert forall|k: int| 0 <= k < out.len() implies shape_vars(#[trigger] out[k])
                == num_vars by {
                assert(shape_vars(shapes(outs@)[k]) == num_vars);
            }
        }
        let ctx = PoolingCtx { poolinfo: info, node_id: id, num_vars };
        Ok(
            (
                ctx,
                ContextAux {
                    tables: aux.tables,
                    last_output_shape: outs,
                    model_polys: Vec::new(),
                },
            ),
        )
    }
}

impl PoolingCtx {
    /// The shape of the output.
    pub fn output_shape(&self, input_shape: &[usize]) -> (r: Vec<usize>)
        requires
            self.poolinfo.ok(input_shape@),
        ensures
            r@ == self.poolinfo.shape_of(input_shape@),
    {
        self.poolinfo.output_shape(input_shape)
    }
}

} // verus!
