//! The layer that lays its inputs out in one dimension.
use crate::iop::context::ContextAux;
use crate::layers::provable::LayerOut;
use crate::quantization::Element;
use crate::shape::{checked_product, product, shapes};
use crate::tensor::{Tensor, TensorView, tensor, tviews};
use vstd::prelude::*;
use vstd::string::*;

verus! {

/// The layer that lays its inputs out in one dimension.
#[derive(Clone, Copy, Debug)]
pub struct Flatten;

/// A tensor laid out in one dimension.
pub open spec fn flattened_tensor(x: TensorView<Element>) -> TensorView<Element> {
    tensor(seq![x.data.len() as usize], x.data)
}

impl Flatten {
    /// It has as many outputs as inputs.
    pub fn num_outputs(&self, num_inputs: usize) -> (r: usize)
        ensures
            r == num_inputs,
    {
        num_inputs
    }

    /// Describes the layer.
    pub fn describe(&self) -> (r: String)
        ensures
            r@ == "Flatten"@,
    {
        String::from_str("Flatten")
    }

    pub fn is_provable(&self) -> (r: bool)
        ensures
            !r,
    {
        false
    }

    /// The shape of the output.
    pub fn output_shape(&self, input_shape: &[usize]) -> (r: Vec<usize>)
        requires
            product(input_shape@) <= usize::MAX,
        ensures
            r@ == seq![product(input_shape@) as usize],
    {
        let n = match checked_product(input_shape) {
            Some(n) => n,
            None => 0,
        };
        let mut r: Vec<usize> = Vec::new();
        r.push(n);
        assert(r@ =~= seq![product(input_shape@) as usize]);
        r
    }

    /// Lays out each input in one dimension.
    pub fn evaluate(&self, inputs: &[&Tensor<Element>]) -> (r: LayerOut<Element>)
        ensures
            tviews(r.outputs@) == Seq::new(
                inputs@.len(),
                |i: int| flattened_tensor(inputs@[i]@),
            ),
            r.proving_data is None,
    {
        let mut outputs: Vec<Tensor<Element>> = Vec::new();
        let mut i: usize = 0;
        while i < inputs.len()
            invariant
                i <= inputs@.len(),
                outputs.len() == i,
                forall|j: int|
                    0 <= j < i ==> #[trigger] outputs@[j]@ == flattened_tensor(inputs@[j]@),
            decreases inputs@.len() - i,
        {
            outputs.push(inputs[i].flatten());
            i = i + 1;
        }
        assert(tviews(outputs@) =~= Seq::new(
            inputs@.len(),
            |i: int| flattened_tensor(inputs@[i]@),
        ));
        LayerOut::from_vec(outputs)
    }

    /// Sets up the layer: each shape becomes one of one dimension.
    pub fn step_info(&self, aux: ContextAux) -> (r: ContextAux)
        requires
            forall|i: int|
                0 <= i < aux.last_output_shape@.len() ==> product(
                    #[trigger] shapes(aux.last_output_shape@)[i],
                ) <= usize::MAX,
        ensures
            r.tables == aux.tables,
            shapes(r.last_output_shape@) == Seq::new(
                aux.last_output_shape@.len(),
                |i: int| seq![product(aux.last_output_shape@[i]@) as usize],
            ),
            r.model_polys@.len() == 0,
    {
        let ghost s = aux.last_output_shape@;
        let mut outs: Vec<Vec<usize>> = Vec::new();
        let mut i: usize = 0;
        while i < aux.last_output_shape.len()
            invariant
                s == aux.last_output_shape@,
                forall|i: int|
                    0 <= i < s.len() ==> product(#[trigger] shapes(s)[i]) <= usize::MAX,
                i <= s.len(),
                outs.len() == i,
                forall|j: int|
                    0 <= j < i ==> (#[trigger] outs@[j])@ == seq![product(s[j]@) as usize],
            decreases s.len() - i,
        {
            assert(product(shapes(s)[i as int]) <= usize::MAX);
            outs.push(self.output_shape(aux.last_output_shape[i].as_slice()));
            i = i + 1;
        }
        assert(shapes(outs@) =~= Seq::new(s.len(), |i: int| seq![product(s[i]@) as usize]));
        ContextAux { tables: aux.tables, last_output_shape: outs, model_polys: Vec::new() }
    }
}

} // verus!
