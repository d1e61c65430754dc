//! What becomes of the data that is handed to a model.
use crate::bench::rows;
use crate::laws::places::{has_coordinates, law_padding, row_major};
use crate::model::{Model, ModelError};
use crate::model::inputs::{laid_out_inputs, prepare_result};
use crate::quantization::Element;
use crate::shape::{product, shapes};
use crate::tensor::{Tensor, tviews};
use vstd::prelude::*;

verus! {

/// Where loading flat data succeeds, the entry of tensor `i` with the coordinates `at` is that of
/// the caller's data `i` at the place, row by row, of these coordinates in the unpadded shape.
/// Where the coordinates are outside the unpadded shape it is zero.
pub proof fn law_loaded_entries(
    model: Model<Element>,
    input: Vec<Vec<Element>>,
    loaded: Result<Vec<Tensor<Element>>, ModelError>,
    i: int,
    at: Seq<int>,
)
    requires
        prepare_result(
            shapes(model.input_shapes@),
            laid_out_inputs(shapes(model.unpadded_input_shapes@), rows(input@)),
            loaded,
        ),
        loaded is Ok,
        0 <= i < model.input_shapes@.len(),
        model.unpadded_input_shapes@[i]@.len() == model.input_shapes@[i]@.len(),
        has_coordinates(model.input_shapes@[i]@, at),
    ensures
        ({
            let small = model.unpadded_input_shapes@[i]@;
            let big = model.input_shapes@[i]@;
            let t = loaded->Ok_0@[i]@;
            &&& loaded->Ok_0@.len() == model.input_shapes@.len()
            &&& i < input@.len()
            &&& i < model.unpadded_input_shapes@.len()
            &&& t.shape == big
            &&& t.og_shape == big
            &&& small == big || t.data.len() == product(big)
            &&& small == big ==> t.data == input@[i]@
            &&& t.data[row_major(big, at)] == if has_coordinates(small, at) {
                input@[i]@[row_major(small, at)]
            } else {
                0
            }
        }),
{
    let small = model.unpadded_input_shapes@[i]@;
    let big = model.input_shapes@[i]@;
    law_padding(input@[i]@, small, big, 0i128, at);
    assert(tviews(loaded->Ok_0@).len() == loaded->Ok_0@.len());
    assert(tviews(loaded->Ok_0@)[i] == loaded->Ok_0@[i]@);
}

/// Loading flat data succeeds exactly where there is data for each tensor that the model expects,
/// and an unpadded shape for it, and not both for one more.
pub proof fn law_loading_succeeds(
    model: Model<Element>,
    input: Vec<Vec<Element>>,
    loaded: Result<Vec<Tensor<Element>>, ModelError>,
)
    requires
        prepare_result(
            shapes(model.input_shapes@),
            laid_out_inputs(shapes(model.unpadded_input_shapes@), rows(input@)),
            loaded,
        ),
    ensures
        loaded is Ok <==> ({
            let n = model.input_shapes@.len();
            &&& n <= input@.len()
            &&& n <= model.unpadded_input_shapes@.len()
            &&& n == input@.len() || n == model.unpadded_input_shapes@.len()
        }),
{
}

/// Preparing tensors keeps each entry at its coordinates, and puts zero at all others.
pub proof fn law_prepared_entries(
    model: Model<Element>,
    inputs: Vec<Tensor<Element>>,
    made: Result<Vec<Tensor<Element>>, ModelError>,
    i: int,
    at: Seq<int>,
)
    requires
        prepare_result(shapes(model.input_shapes@), tviews(inputs@), made),
        0 <= i < model.input_shapes@.len(),
        0 <= i < inputs@.len(),
        inputs@[i]@.shape.len() == model.input_shapes@[i]@.len(),
        has_coordinates(model.input_shapes@[i]@, at),
    ensures
        made is Ok <==> inputs@.len() == model.input_shapes@.len(),
        made is Ok ==> ({
            let big = model.input_shapes@[i]@;
            let x = inputs@[i]@;
            let t = made->Ok_0@[i]@;
            &&& made->Ok_0@.len() == model.input_shapes@.len()
            &&& t.shape == big
            &&& x.shape == big ==> t == x
            &&& x.shape != big ==> t.og_shape == big && t.data.len() == product(big)
            &&& t.data[row_major(big, at)] == if has_coordinates(x.shape, at) {
                x.data[row_major(x.shape, at)]
            } else {
                0
            }
        }),
{
    let big = model.input_shapes@[i]@;
    let x = inputs@[i]@;
    law_padding(x.data, x.shape, big, 0i128, at);
    if made is Ok {
        assert(tviews(made->Ok_0@).len() == made->Ok_0@.len());
        assert(tviews(made->Ok_0@)[i] == made->Ok_0@[i]@);
    }
}

} // verus!
