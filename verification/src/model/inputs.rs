//! Preparing the inputs of a model.
use crate::bench::rows;
use crate::model::{Model, ModelError, model_error};
use crate::quantization::Element;
use crate::shape::{positive, product, same_shape, shapes, within};
use crate::tensor::{Tensor, TensorView, padded, tensor, tviews};
use crate::text::{append_decimal, decimal};
use vstd::prelude::*;
use vstd::slice::slice_to_vec;
use vstd::string::*;

verus! {

/// The tensor has the shape already, or can be padded to it.
pub open spec fn can_prepare(t: TensorView<Element>, shape: Seq<usize>) -> bool {
    t.shape == shape || (t.plain() && within(t.shape, shape) && positive(shape) && product(shape)
        <= usize::MAX)
}

/// The tensor as the model expects it.
pub open spec fn prepared(t: TensorView<Element>, shape: Seq<usize>) -> TensorView<Element> {
    if t.shape == shape {
        t
    } else {
        tensor(shape, padded(t.data, t.shape, shape, 0))
    }
}

/// The message on a wrong number of inputs.
pub open spec fn input_count_message(expected: nat, found: nat) -> Seq<char> {
    "Unexpected number of inputs tensors: expected "@ + decimal(expected) + ", found "@ + decimal(
        found,
    )
}

/// The shorter of two lengths.
pub open spec fn shorter(a: nat, b: nat) -> nat {
    if a <= b {
        a
    } else {
        b
    }
}

/// What preparing inputs for a model that expects the given shapes leads to.
pub open spec fn prepare_result(
    expected: Seq<Seq<usize>>,
    inputs: Seq<TensorView<Element>>,
    r: Result<Vec<Tensor<Element>>, ModelError>,
) -> bool {
    if expected.len() == inputs.len() {
        r is Ok && tviews(r->Ok_0@) == Seq::new(
            inputs.len(),
            |i: int| prepared(inputs[i], expected[i]),
        )
    } else {
        model_error(r, input_count_message(expected.len(), inputs.len()))
    }
}

/// The tensors of the given shapes that flat data makes.
pub open spec fn laid_out_inputs(unpadded: Seq<Seq<usize>>, flat: Seq<Seq<Element>>) -> Seq<
    TensorView<Element>,
> {
    Seq::new(shorter(flat.len(), unpadded.len()), |i: int| tensor(unpadded[i], flat[i]))
}

/// Loading flat data is making tensors of the unpadded shapes and preparing these: `loaded` and
/// `made` are what the two lead to. The tensors have the shapes that the model expects. Where
/// there is no more data than the model has inputs, loading fails exactly where there is less.
pub proof fn law_load_inputs(
    expected: Seq<Seq<usize>>,
    unpadded: Seq<Seq<usize>>,
    flat: Seq<Seq<Element>>,
    loaded: Result<Vec<Tensor<Element>>, ModelError>,
    made: Result<Vec<Tensor<Element>>, ModelError>,
)
    requires
        prepare_result(expected, laid_out_inputs(unpadded, flat), loaded),
        prepare_result(expected, laid_out_inputs(unpadded, flat), made),
    ensures
        loaded is Ok <==> made is Ok,
        loaded is Ok ==> tviews(loaded->Ok_0@) == tviews(made->Ok_0@),
        loaded is Ok ==> loaded->Ok_0@.len() == expected.len() && forall|i: int|
            0 <= i < expected.len() ==> (#[trigger] tviews(loaded->Ok_0@)[i]).shape == expected[i],
        unpadded.len() == expected.len() && flat.len() <= unpadded.len() ==> (loaded is Err
            <==> flat.len() < expected.len()),
{
    if loaded is Ok {
        assert(tviews(loaded->Ok_0@).len() == loaded->Ok_0@.len());
    }
}

impl Model<Element> {
    /// Pads the inputs to the shapes that the model expects. Fails exactly on a wrong number of
    /// inputs.
    pub fn prepare_inputs(&self, inputs: Vec<Tensor<Element>>) -> (r: Result<
        Vec<Tensor<Element>>,
        ModelError,
    >)
        requires
            self.input_shapes@.len() == inputs@.len() ==> forall|i: int|
                0 <= i < inputs@.len() ==> can_prepare(
                    #[trigger] inputs@[i]@,
                    self.input_shapes@[i]@,
                ),
        ensures
            prepare_result(shapes(self.input_shapes@), tviews(inputs@), r),
    {
        if self.input_shapes.len() != inputs.len() {
            let mut s = String::from_str("Unexpected number of inputs tensors: expected ");
            append_decimal(&mut s, self.input_shapes.len());
            s.append(", found ");
            append_decimal(&mut s, inputs.len());
            return Err(ModelError { message: s });
        }
        let mut r: Vec<Tensor<Element>> = Vec::new();
        let mut i: usize = 0;
        while i < inputs.len()
            invariant
                self.input_shapes@.len() == inputs@.len(),
                forall|i: int|
                    0 <= i < inputs@.len() ==> can_prepare(
                        #[trigger] inputs@[i]@,
                        self.input_shapes@[i]@,
                    ),
                i <= inputs@.len(),
                r.len() == i,
                forall|j: int|
                    0 <= j < i ==> (#[trigger] r@[j])@ == prepared(
                        inputs@[j]@,
                        self.input_shapes@[j]@,
                    ),
            decreases inputs@.len() - i,
        {
            assert(can_prepare(inputs@[i as int]@, self.input_shapes@[i as int]@));
            let mut t = inputs[i].copy();
            if !same_shape(t.get_shape().as_slice(), self.input_shapes[i].as_slice()) {
                t.pad_to_shape(slice_to_vec(self.input_shapes[i].as_slice()));
            }
            r.push(t);
            i = i + 1;
        }
        assert(tviews(r@) =~= Seq::new(
            inputs@.len(),
            |i: int| prepared(tviews(inputs@)[i], shapes(self.input_shapes@)[i]),
        ));
        Ok(r)
    }

    /// Makes tensors of the unpadded shapes from flat data, and pads them to the shapes that the
    /// model expects. Data beyond the number of unpadded shapes is not looked at. Fails exactly on
    /// a wrong number of inputs.
    pub fn load_input_flat(&self, input: Vec<Vec<Element>>) -> (r: Result<
        Vec<Tensor<Element>>,
        ModelError,
    >)
        requires
            forall|i: int|
                0 <= i < input@.len() && i < self.unpadded_input_shapes@.len() ==> product(
                    (#[trigger] self.unpadded_input_shapes@[i])@,
                ) == input@[i]@.len(),
            self.input_shapes@.len() == shorter(input@.len(), self.unpadded_input_shapes@.len())
                ==> forall|i: int|
                0 <= i < self.input_shapes@.len() ==> can_prepare(
                    tensor(self.unpadded_input_shapes@[i]@, (#[trigger] input@[i])@),
                    self.input_shapes@[i]@,
                ),
        ensures
            prepare_result(
                shapes(self.input_shapes@),
                laid_out_inputs(shapes(self.unpadded_input_shapes@), rows(input@)),
                r,
            ),
    {
        let ghost n = shorter(input@.len(), self.unpadded_input_shapes@.len());
        let mut tensors: Vec<Tensor<Element>> = Vec::new();
        let mut i: usize = 0;
        while i < input.len() && i < self.unpadded_input_shapes.len()
            invariant
                forall|i: int|
                    0 <= i < input@.len() && i < self.unpadded_input_shapes@.len() ==> product(
                        (#[trigger] self.unpadded_input_shapes@[i])@,
                    ) == input@[i]@.len(),
                n == shorter(input@.len(), self.unpadded_input_shapes@.len()),
                i <= n,
                tensors.len() == i,
                forall|j: int|
                    0 <= j < i ==> (#[trigger] tensors@[j])@ == tensor(
                        self.unpadded_input_shapes@[j]@,
                        input@[j]@,
                    ),
            decreases n - i,
        {
            assert(product(self.unpadded_input_shapes@[i as int]@) == input@[i as int]@.len());
            tensors.push(
                Tensor::new(
                    slice_to_vec(self.unpadded_input_shapes[i].as_slice()),
                    slice_to_vec(input[i].as_slice()),
                ),
            );
            i = i + 1;
        }
        proof {
            assert(tensors@.len() == n);
            if self.input_shapes@.len() == n {
                assert forall|j: int| 0 <= j < tensors@.len() implies can_prepare(
                    #[trigger] tensors@[j]@,
                    self.input_shapes@[j]@,
                ) by {
                    assert(can_prepare(
                        tensor(self.unpadded_input_shapes@[j]@, input@[j]@),
                        self.input_shapes@[j]@,
                    ));
                }
            }
        }
        assert(tviews(tensors@) =~= laid_out_inputs(
            shapes(self.unpadded_input_shapes@),
            rows(input@),
        ));
        self.prepare_inputs(tensors)
    }
}

} // verus!
