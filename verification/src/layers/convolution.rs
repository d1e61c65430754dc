//! The convolution layer.
use crate::arith::{
    ceil_log2, clog2, ilog2, is_pow2, is_power_of_two, lemma_clog2_usize, lemma_div_lt,
    lemma_npow2, lemma_pow2_mono, npow2,
};
use crate::field::{GoldilocksExt2, fviews};
use crate::iop::context::ContextAux;
use crate::layers::fft_conv::{
    ConvData, conv_data_is, fft_filter, fft_input, lemma_size, window_sum,
};
use crate::layers::provable::{LayerOut, NodeId, PaddingMode, PolyID, VPAuxInfo, single_output};
use crate::layers::provable::error::{
    ProvableOpError, generic_err, generic_error, parameter_err, parameter_error,
};
use crate::ops::{conv2d_entry, conv2d_entry_fits, conv2d_ok, conv2d_out, lemma_flat, products};
use crate::quantization::{BIT_LEN, Element, centered, fints, fits, power_of_two};
use crate::shape::{
    checked_product, lemma_product1, lemma_product2, lemma_product3, lemma_product4,
    next_power_of_two_shape, pow2_shape, pow2_shape_fits, product, shapes,
};
use crate::tensor::{
    Tensor, TensorView, cols_2d, dim_or_one, lemma_pow2_shape, padded, rows_2d, tensor,
};
use crate::text::{append_decimal, decimal};
use vstd::arithmetic::div_mod::*;
use vstd::arithmetic::mul::*;
use vstd::arithmetic::power2::*;
use vstd::prelude::*;
use vstd::slice::slice_to_vec;
use vstd::string::*;

verus! {

/// A convolution layer.
#[derive(Clone, Debug)]
pub struct Convolution<T> {
    /// The filters. Those of a quantised layer are adapted to the convolution by transforms.
    pub filter: Tensor<T>,
    /// The bias of each filter.
    pub bias: Tensor<T>,
    /// The shape of the filters before padding; the shape of `filter` where there is none.
    pub unpadded_shape: Vec<usize>,
}

/// A convolution that is computed entry by entry. It is there to compare with, and cannot be
/// proved.
#[derive(Clone, Debug)]
pub struct SchoolBookConv<T>(pub Convolution<T>);

/// What the set-up keeps of a convolution that is computed entry by entry.
#[derive(Clone, Copy, Debug)]
pub struct SchoolBookConvCtx;

/// What the set-up keeps of a convolution layer.
#[derive(Clone, Debug)]
pub struct ConvCtx {
    pub node_id: NodeId,
    pub fft_aux: VPAuxInfo,
    pub fft_weights_aux: VPAuxInfo,
    pub ifft_aux: VPAuxInfo,
    pub delegation_fft: Vec<VPAuxInfo>,
    pub delegation_fft_weights: Vec<VPAuxInfo>,
    pub delegation_ifft: Vec<VPAuxInfo>,
    pub hadamard: VPAuxInfo,
    pub kw: usize,
    pub kx: usize,
    pub real_nw: usize,
    pub nw: usize,
    pub filter_size: usize,
    pub unpadded_filter_shape: Vec<usize>,
    pub padded_filter_shape: Vec<usize>,
}

// ---------------------------------------------------------------------------------------
// Shapes
// ---------------------------------------------------------------------------------------

/// The height of the images of a shape with or without a batch dimension.
pub open spec fn image_height(s: Seq<usize>) -> usize {
    if s.len() == 3 {
        s[1]
    } else {
        s[2]
    }
}

/// The filters fit into the images.
pub open spec fn conv_shape_ok(input: Seq<usize>, filter: Seq<usize>) -> bool {
    &&& input.len() >= 3
    &&& filter.len() >= 3
    &&& 1 <= filter[2] <= image_height(input)
}

/// The shape of the result of a convolution.
pub open spec fn conv_shape(input: Seq<usize>, filter: Seq<usize>) -> Seq<usize> {
    let d = (image_height(input) - filter[2] + 1) as usize;
    seq![filter[0], d, d]
}

/// The shape of the result of a convolution can be told, in the given mode.
pub open spec fn conv_mode_ok(input: Seq<usize>, filter: Seq<usize>, mode: PaddingMode) -> bool {
    &&& conv_shape_ok(input, filter)
    &&& mode == PaddingMode::Padding ==> pow2_shape_fits(conv_shape(input, filter))
}

/// The shape of the result of a convolution, in the given mode.
pub open spec fn conv_shape_in(
    input: Seq<usize>,
    filter: Seq<usize>,
    mode: PaddingMode,
) -> Seq<usize> {
    match mode {
        PaddingMode::NoPadding => conv_shape(input, filter),
        PaddingMode::Padding => pow2_shape(conv_shape(input, filter)),
    }
}

/// The shape of the result of a convolution with stride one, without padding and dilation.
pub fn conv2d_shape(input_shape: &[usize], filter_shape: &[usize]) -> (r: Vec<usize>)
    requires
        conv_shape_ok(input_shape@, filter_shape@),
    ensures
        r@ == conv_shape(input_shape@, filter_shape@),
{
    let h_in = if input_shape.len() == 3 {
        input_shape[1]
    } else {
        input_shape[2]
    };
    let h_out = h_in - filter_shape[2] + 1;
    let mut r: Vec<usize> = Vec::new();
    r.push(filter_shape[0]);
    r.push(h_out);
    r.push(h_out);
    assert(r@ =~= conv_shape(input_shape@, filter_shape@));
    r
}

/// The shape of the result of a convolution, each dimension raised to the next power of two, as
/// padded inference and proving expect it.
pub fn padded_conv2d_shape(input_shape: &[usize], filter_shape: &[usize]) -> (r: Vec<usize>)
    requires
        conv_shape_ok(input_shape@, filter_shape@),
        pow2_shape_fits(conv_shape(input_shape@, filter_shape@)),
    ensures
        r@ == pow2_shape(conv_shape(input_shape@, filter_shape@)),
{
    next_power_of_two_shape(conv2d_shape(input_shape, filter_shape).as_slice())
}

/// The shape of the result of a convolution, padded or not.
pub fn conv2d_shape_mode(
    input_shape: &[usize],
    filter_shape: &[usize],
    padding_mode: PaddingMode,
) -> (r: Vec<usize>)
    requires
        conv_mode_ok(input_shape@, filter_shape@, padding_mode),
    ensures
        r@ == conv_shape_in(input_shape@, filter_shape@, padding_mode),
{
    match padding_mode {
        PaddingMode::NoPadding => conv2d_shape(input_shape, filter_shape),
        PaddingMode::Padding => padded_conv2d_shape(input_shape, filter_shape),
    }
}

/// The shapes of the results of convolutions of several inputs.
pub fn conv_shapes(
    input_shapes: &[Vec<usize>],
    filter_shape: &[usize],
    padding_mode: PaddingMode,
) -> (r: Vec<Vec<usize>>)
    requires
        forall|i: int|
            0 <= i < input_shapes@.len() ==> conv_mode_ok(
                #[trigger] shapes(input_shapes@)[i],
                filter_shape@,
                padding_mode,
            ),
    ensures
        shapes(r@) == Seq::new(
            input_shapes@.len(),
            |i: int| conv_shape_in(input_shapes@[i]@, filter_shape@, padding_mode),
        ),
{
    let mut r: Vec<Vec<usize>> = Vec::new();
    let mut i: usize = 0;
    while i < input_shapes.len()
        invariant
            i <= input_shapes@.len(),
            forall|j: int|
                0 <= j < input_shapes@.len() ==> conv_mode_ok(
                    #[trigger] shapes(input_shapes@)[j],
                    filter_shape@,
                    padding_mode,
                ),
            r.len() == i,
            forall|j: int|
                0 <= j < i ==> (#[trigger] r[j])@ == conv_shape_in(
                    input_shapes@[j]@,
                    filter_shape@,
                    padding_mode,
                ),
        decreases input_shapes@.len() - i,
    {
        assert(conv_mode_ok(shapes(input_shapes@)[i as int], filter_shape@, padding_mode));
        r.push(conv2d_shape_mode(input_shapes[i].as_slice(), filter_shape, padding_mode));
        i = i + 1;
    }
    assert(shapes(r@) =~= Seq::new(
        input_shapes@.len(),
        |i: int| conv_shape_in(input_shapes@[i]@, filter_shape@, padding_mode),
    ));
    r
}

// ---------------------------------------------------------------------------------------
// Clearing
// ---------------------------------------------------------------------------------------

/// A shape without its batch dimension.
pub open spec fn without_batch(s: Seq<usize>) -> Seq<usize> {
    if s.len() == 4 {
        s.skip(1)
    } else {
        s
    }
}

/// The entry at place `t` of a tensor of shape `padded` lies within the shape `og`.
pub open spec fn inside(padded: Seq<usize>, og: Seq<usize>, t: int) -> bool {
    let b = padded[1] as int;
    let c = padded[2] as int;
    t / (b * c) < og[0] && (t / c) % b < og[1] && t % c < og[2]
}

/// The entries outside the shape `og` set to zero.
pub open spec fn cleared(data: Seq<Element>, padded: Seq<usize>, og: Seq<usize>) -> Seq<Element> {
    Seq::new(
        data.len(),
        |t: int|
            if inside(padded, og, t) {
                data[t]
            } else {
                0
            },
    )
}

/// One inside the shape `og`, zero outside.
pub open spec fn clearing(padded: Seq<usize>, og: Seq<usize>) -> Seq<Element> {
    Seq::new(
        product(padded),
        |t: int|
            if inside(padded, og, t) {
                1
            } else {
                0
            },
    )
}

proof fn lemma_place3(s: Seq<usize>, t: int)
    requires
        s.len() == 3,
        0 <= t < product(s),
    ensures
        s[1] > 0,
        s[2] > 0,
        0 < s[1] * s[2] <= product(s),
{
    lemma_product3(s);
    let a = s[0] as int;
    let b = s[1] as int;
    let c = s[2] as int;
    assert(b > 0 && c > 0 && 0 < b * c <= a * (b * c)) by (nonlinear_arith)
        requires
            0 <= t < a * (b * c),
            a >= 0,
            b >= 0,
            c >= 0,
    ;
}

fn is_inside(padded: &[usize], og: &[usize], t: usize) -> (r: bool)
    requires
        padded@.len() == 3,
        og@.len() >= 3,
        t < product(padded@),
        product(padded@) <= usize::MAX,
    ensures
        r == inside(padded@, og@, t as int),
{
    proof {
        lemma_place3(padded@, t as int);
    }
    let b = padded[1];
    let c = padded[2];
    t / (b * c) < og[0] && (t / c) % b < og[1] && t % c < og[2]
}

/// Sets to zero the entries of a padded output that lie outside the unpadded shape, where a
/// convolution by transforms leaves values without meaning.
pub fn clear_garbage(output_tensor: &Tensor<Element>, unpadded_output_shape: &[usize]) -> (r:
    Tensor<Element>)
    requires
        output_tensor@.plain(),
        output_tensor@.shape.len() == 3,
        without_batch(unpadded_output_shape@).len() >= 3,
    ensures
        r@ == tensor(
            output_tensor@.shape,
            cleared(
                output_tensor@.data,
                output_tensor@.shape,
                without_batch(unpadded_output_shape@),
            ),
        ),
        r@.plain(),
{
    let og = if unpadded_output_shape.len() == 4 {
        vstd::slice::slice_subrange(unpadded_output_shape, 1, 4)
    } else {
        unpadded_output_shape
    };
    assert(og@ =~= without_batch(unpadded_output_shape@));
    let n = output_tensor.data.len();
    let mut data: Vec<Element> = Vec::new();
    let mut t: usize = 0;
    while t < n
        invariant
            n == output_tensor@.data.len(),
            output_tensor@.plain(),
            output_tensor@.shape.len() == 3,
            og@.len() >= 3,
            t <= n,
            data.len() == t,
            forall|s: int|
                0 <= s < t ==> #[trigger] data[s] == cleared(
                    output_tensor@.data,
                    output_tensor@.shape,
                    og@,
                )[s],
        decreases n - t,
    {
        let x = if is_inside(output_tensor.shape.as_slice(), og, t) {
            output_tensor.data[t]
        } else {
            0
        };
        data.push(x);
        t = t + 1;
    }
    assert(data@ =~= cleared(output_tensor@.data, output_tensor@.shape, og@));
    Tensor::new(slice_to_vec(output_tensor.shape.as_slice()), data)
}

/// The tensor, of one dimension, that is one inside the shape `og_shape` and zero outside: the
/// entry-wise product with it clears a padded output.
pub fn new_clearing_tensor(og_shape: &[usize], padded_shape: &[usize]) -> (r: Tensor<Element>)
    requires
        padded_shape@.len() == 3,
        without_batch(og_shape@).len() == 3,
        product(padded_shape@) <= usize::MAX,
    ensures
        r@ == tensor(
            seq![product(padded_shape@) as usize],
            clearing(padded_shape@, without_batch(og_shape@)),
        ),
        r@.plain(),
{
    let og = if og_shape.len() == 4 {
        vstd::slice::slice_subrange(og_shape, 1, 4)
    } else {
        og_shape
    };
    assert(og@ =~= without_batch(og_shape@));
    let n = match checked_product(padded_shape) {
        Some(n) => n,
        None => 0,
    };
    let mut data: Vec<Element> = Vec::new();
    let mut t: usize = 0;
    while t < n
        invariant
            n == product(padded_shape@),
            padded_shape@.len() == 3,
            og@.len() == 3,
            t <= n,
            data.len() == t,
            forall|s: int| 0 <= s < t ==> #[trigger] data[s] == clearing(padded_shape@, og@)[s],
        decreases n - t,
    {
        let x: Element = if is_inside(padded_shape, og, t) {
            1
        } else {
            0
        };
        data.push(x);
        t = t + 1;
    }
    assert(data@ =~= clearing(padded_shape@, og@));
    let mut shape: Vec<usize> = Vec::new();
    shape.push(n);
    proof {
        lemma_product1(shape@);
        assert(shape@ =~= seq![product(padded_shape@) as usize]);
    }
    Tensor::new(shape, data)
}

/// Clearing a tensor is multiplying it, entry by entry, by the clearing tensor.
pub proof fn law_clearing(data: Seq<Element>, padded: Seq<usize>, og: Seq<usize>)
    requires
        data.len() == product(padded),
    ensures
        forall|t: int|
            0 <= t < data.len() ==> #[trigger] cleared(data, padded, og)[t] == products(
                data,
                clearing(padded, og),
            )[t],
{
    assert forall|t: int| 0 <= t < data.len() implies #[trigger] cleared(data, padded, og)[t]
        == products(data, clearing(padded, og))[t] by {
        lemma_mul_basics(data[t] as int);
    }
}

/// Clearing twice is clearing once.
pub proof fn law_clearing_idempotent(data: Seq<Element>, padded: Seq<usize>, og: Seq<usize>)
    ensures
        cleared(cleared(data, padded, og), padded, og) == cleared(data, padded, og),
{
    assert(cleared(cleared(data, padded, og), padded, og) =~= cleared(data, padded, og));
}

// ---------------------------------------------------------------------------------------
// The layer
// ---------------------------------------------------------------------------------------

impl<T> Convolution<T> {
    /// Creates a convolution layer from filters that are not padded.
    pub fn new(filter: Tensor<T>, bias: Tensor<T>) -> (r: Self)
        requires
            filter@.shape.len() == 4,
            bias@.shape.len() >= 1,
            filter@.shape[0] == bias@.shape[0],
        ensures
            r.filter == filter,
            r.bias == bias,
            r.unpadded_shape@ == filter@.shape,
    {
        let filter_shape = filter.get_shape();
        Convolution::new_padded(filter, bias, filter_shape.as_slice())
    }

    /// The layer with the quantised values of its filters and of its bias in their place. The
    /// quantised filters count as not padded.
    pub fn quantize(self, filter: Tensor<Element>, bias: Tensor<Element>) -> (r: Convolution<
        Element,
    >)
        requires
            filter@.shape.len() == 4,
            bias@.shape.len() >= 1,
            filter@.shape[0] == bias@.shape[0],
        ensures
            r.filter == filter,
            r.bias == bias,
            r.unpadded_shape@ == filter@.shape,
    {
        Convolution::<Element>::new(filter, bias)
    }

    /// Creates a convolution layer from filters that are padded.
    pub fn new_padded(filter: Tensor<T>, bias: Tensor<T>, unpadded_shape: &[usize]) -> (r: Self)
        requires
            filter@.shape.len() >= 1,
            bias@.shape.len() >= 1,
            filter@.shape[0] == bias@.shape[0],
        ensures
            r.filter == filter,
            r.bias == bias,
            r.unpadded_shape@ == unpadded_shape@,
    {
        Convolution { filter, bias, unpadded_shape: slice_to_vec(unpadded_shape) }
    }

    /// The shape that decides the shape of the output, in the given mode.
    pub open spec fn shape_for(self, mode: PaddingMode) -> Seq<usize> {
        match mode {
            PaddingMode::NoPadding => self.unpadded_shape@,
            PaddingMode::Padding => self.filter@.og_shape,
        }
    }

    /// The shape of the output.
    pub fn output_shape(&self, input_shape: &[usize], padding_mode: PaddingMode) -> (r: Vec<usize>)
        requires
            conv_mode_ok(input_shape@, self.shape_for(padding_mode), padding_mode),
        ensures
            r@ == conv_shape_in(input_shape@, self.shape_for(padding_mode), padding_mode),
    {
        match padding_mode {
            PaddingMode::NoPadding => conv2d_shape(input_shape, self.unpadded_shape.as_slice()),
            PaddingMode::Padding => padded_conv2d_shape(
                input_shape,
                self.filter.og_shape.as_slice(),
            ),
        }
    }

    /// The shapes of the outputs.
    pub fn output_shapes(&self, input_shapes: &[Vec<usize>], padding_mode: PaddingMode) -> (r: Vec<
        Vec<usize>,
    >)
        requires
            forall|i: int|
                0 <= i < input_shapes@.len() ==> conv_mode_ok(
                    #[trigger] shapes(input_shapes@)[i],
                    self.shape_for(padding_mode),
                    padding_mode,
                ),
        ensures
            shapes(r@) == Seq::new(
                input_shapes@.len(),
                |i: int|
                    conv_shape_in(
                        input_shapes@[i]@,
                        self.shape_for(padding_mode),
                        padding_mode,
                    ),
            ),
    {
        match padding_mode {
            PaddingMode::NoPadding => conv_shapes(
                input_shapes,
                self.unpadded_shape.as_slice(),
                padding_mode,
            ),
            PaddingMode::Padding => conv_shapes(
                input_shapes,
                self.filter.og_shape.as_slice(),
                padding_mode,
            ),
        }
    }

    /// A convolution has one input and one output.
    pub fn num_outputs(&self, num_inputs: usize) -> (r: usize)
        requires
            num_inputs == 1,
        ensures
            r == 1,
    {
        1
    }

    /// The text that describes the layer.
    pub open spec fn text(self) -> Seq<char> {
        let s = self.filter@.shape;
        "Conv: ("@ + decimal(s[0] as nat) + ","@ + decimal(s[1] as nat) + ","@ + decimal(
            s[2] as nat,
        ) + ","@ + decimal(s[2] as nat) + ")"@
    }

    /// Describes the layer.
    pub fn describe(&self) -> (r: String)
        requires
            self.filter@.shape.len() >= 3,
        ensures
            r@ == self.text(),
    {
        let mut s = String::from_str("Conv: (");
        append_decimal(&mut s, self.filter.kw());
        s.append(",");
        append_decimal(&mut s, self.filter.kx());
        s.append(",");
        append_decimal(&mut s, self.filter.nw());
        s.append(",");
        append_decimal(&mut s, self.filter.nw());
        s.append(")");
        s
    }

    pub fn is_provable(&self) -> (r: bool)
        ensures
            r,
    {
        true
    }

    pub fn get_shape(&self) -> (r: Vec<usize>)
        ensures
            r@ == self.filter@.shape,
    {
        self.filter.get_shape()
    }

    pub fn kw(&self) -> (r: usize)
        requires
            self.filter@.shape.len() >= 1,
        ensures
            r == self.filter@.shape[0],
    {
        self.filter.kw()
    }

    pub fn kx(&self) -> (r: usize)
        requires
            self.filter@.shape.len() >= 2,
        ensures
            r == self.filter@.shape[1],
    {
        self.filter.kx()
    }

    pub fn nw(&self) -> (r: usize)
        requires
            self.filter@.shape.len() >= 3,
        ensures
            r == self.filter@.shape[2],
    {
        self.filter.nw()
    }

    pub fn ncols_2d(&self) -> (r: usize)
        requires
            self.filter@.shape.len() == 2 || self.filter@.shape.len() == 4,
            cols_2d(self.filter@.shape) <= usize::MAX,
            self.filter@.shape.len() == 4 ==> self.filter@.shape[1] * self.filter@.shape[2]
                <= usize::MAX,
        ensures
            r == cols_2d(self.filter@.shape),
    {
        self.filter.ncols_2d()
    }

    pub fn nrows_2d(&self) -> (r: usize)
        requires
            self.filter@.shape.len() == 2 || self.filter@.shape.len() == 4,
            rows_2d(self.filter@.shape) <= usize::MAX,
            self.filter@.shape.len() == 4 ==> self.filter@.shape[0] * self.filter@.shape[2]
                <= usize::MAX,
        ensures
            r == rows_2d(self.filter@.shape),
    {
        self.filter.nrows_2d()
    }

    pub fn filter_size(&self) -> (r: usize)
        requires
            self.filter@.shape.len() >= 3,
            self.filter@.shape[2] * self.filter@.shape[2] <= usize::MAX,
        ensures
            r == self.filter@.shape[2] * self.filter@.shape[2],
    {
        self.filter.filter_size()
    }
}

/// The place of an entry of a tensor of up to four dimensions.
pub open spec fn place4(s: Seq<usize>, n: int, c: int, h: int, w: int) -> int {
    let cs = dim_or_one(s, 1);
    let hs = dim_or_one(s, 2);
    let ws = dim_or_one(s, 3);
    n * (cs * (hs * ws)) + (c * (hs * ws) + (h * ws + w))
}

proof fn lemma_place4(s: Seq<usize>, n: int, c: int, h: int, w: int)
    requires
        s.len() <= 4,
        0 <= n < dim_or_one(s, 0),
        0 <= c < dim_or_one(s, 1),
        0 <= h < dim_or_one(s, 2),
        0 <= w < dim_or_one(s, 3),
    ensures
        ({
            let cs = dim_or_one(s, 1);
            let hs = dim_or_one(s, 2);
            let ws = dim_or_one(s, 3);
            &&& 0 <= place4(s, n, c, h, w) < product(s)
            &&& hs * ws <= cs * (hs * ws) <= product(s)
            &&& 0 <= h * ws + w < hs * ws
            &&& 0 <= h * ws
            &&& 0 <= c * (hs * ws) + (h * ws + w) < cs * (hs * ws)
            &&& 0 <= c * (hs * ws)
            &&& 0 <= n * (cs * (hs * ws))
        }),
{
    let ns = dim_or_one(s, 0) as int;
    let cs = dim_or_one(s, 1) as int;
    let hs = dim_or_one(s, 2) as int;
    let ws = dim_or_one(s, 3) as int;
    lemma_flat(h, w, hs, ws);
    lemma_flat(c, h * ws + w, cs, hs * ws);
    lemma_flat(n, c * (hs * ws) + (h * ws + w), ns, cs * (hs * ws));
    assert(hs * ws <= cs * (hs * ws)) by (nonlinear_arith)
        requires
            cs >= 1,
            hs * ws > 0,
    ;
    assert(cs * (hs * ws) <= ns * (cs * (hs * ws))) by (nonlinear_arith)
        requires
            ns >= 1,
            cs * (hs * ws) > 0,
    ;
    lemma_mul_basics(hs);
    lemma_mul_basics(cs);
    lemma_mul_basics(ns);
    if s.len() == 1 {
        lemma_product1(s);
    } else if s.len() == 2 {
        lemma_product2(s);
    } else if s.len() == 3 {
        lemma_product3(s);
    } else if s.len() == 4 {
        lemma_product4(s);
    }
}

impl<T: Copy> Convolution<T> {
    /// The entry of a filter, by filter, channel, row and column.
    pub fn get(&self, n: usize, c: usize, h: usize, w: usize) -> (r: T)
        requires
            self.filter@.plain(),
            self.filter@.shape.len() <= 4,
            n < dim_or_one(self.filter@.shape, 0),
            c < dim_or_one(self.filter@.shape, 1),
            h < dim_or_one(self.filter@.shape, 2),
            w < dim_or_one(self.filter@.shape, 3),
        ensures
            r == self.filter@.data[place4(
                self.filter@.shape,
                n as int,
                c as int,
                h as int,
                w as int,
            )],
    {
        let (_n_size, c_size, h_size, w_size) = self.filter.get4d();
        let len = self.filter.data.len();
        proof {
            lemma_place4(self.filter@.shape, n as int, c as int, h as int, w as int);
        }
        let area = h_size * w_size;
        let flat_index = n * (c_size * area) + (c * area + (h * w_size + w));
        self.filter.data[flat_index]
    }
}

/// The entry at place `t` of an output with the bias of its channel added; a channel has `size`
/// entries.
pub open spec fn biased(data: Seq<Element>, bias: Seq<Element>, size: int, t: int) -> int {
    data[t] + bias[t / size]
}

/// The operands of adding the bias go together.
pub open spec fn bias_ok(conv_out: TensorView<Element>, bias: TensorView<Element>) -> bool {
    &&& conv_out.plain()
    &&& conv_out.shape.len() >= 3
    &&& conv_out.data.len() == conv_out.shape[0] * (conv_out.shape[2] * conv_out.shape[2])
    &&& conv_out.shape[0] <= bias.data.len()
}

/// The convolution can be computed for the input.
pub open spec fn conv_ready(
    c: Convolution<Element>,
    x: TensorView<Element>,
    unpadded_input: Seq<usize>,
) -> bool {
    let f = c.filter@;
    &&& fft_filter(f)
    &&& fft_input(f, x)
    &&& f.shape[0] * (f.shape[2] * f.shape[2]) <= usize::MAX
    &&& f.shape[0] <= c.bias@.data.len()
    &&& conv_shape_ok(unpadded_input, c.unpadded_shape@)
}

/// The entry at place `t` of the result before it is cleared.
pub open spec fn conv_entry(c: Convolution<Element>, x: TensorView<Element>, t: int) -> int {
    let f = c.filter@;
    let n2 = f.shape[2] * f.shape[2];
    centered(window_sum(f, x.data, t / n2, t % n2)) + c.bias@.data[t / n2]
}

/// The results of the convolution can be held.
pub open spec fn conv_fits(c: Convolution<Element>, x: TensorView<Element>) -> bool {
    let f = c.filter@;
    forall|t: int|
        0 <= t < f.shape[0] * (f.shape[2] * f.shape[2]) ==> fits(#[trigger] conv_entry(c, x, t))
}

/// The results of the convolution, with the bias, before they are cleared.
pub open spec fn conv_entries(c: Convolution<Element>, x: TensorView<Element>) -> Seq<Element> {
    let f = c.filter@;
    Seq::new(
        (f.shape[0] * (f.shape[2] * f.shape[2])) as nat,
        |t: int| conv_entry(c, x, t) as i128,
    )
}

/// The result of the convolution.
pub open spec fn conv_result(
    c: Convolution<Element>,
    x: TensorView<Element>,
    unpadded_input: Seq<usize>,
) -> TensorView<Element> {
    let f = c.filter@;
    let shape = seq![f.shape[0], f.shape[2], f.shape[2]];
    tensor(
        shape,
        cleared(conv_entries(c, x), shape, conv_shape(unpadded_input, c.unpadded_shape@)),
    )
}

/// `r` is the layer with padded filters and bias, and with filters adapted to images of the given
/// shape.
pub open spec fn is_adapted(
    c: Convolution<Element>,
    unpadded_input: Seq<usize>,
    r: Convolution<Element>,
) -> bool {
    let k = pow2_shape(c.filter@.shape);
    let x = pow2_shape(unpadded_input);
    let n = npow2((x[1] - k[2] + 1) as nat) as usize;
    &&& r.filter@.data == padded(c.filter@.data, c.filter@.shape, k, 0)
    &&& r.filter@.og_shape == k
    &&& r.filter@.shape == seq![k[0], k[1], n, n]
    &&& r.bias@ == tensor(
        pow2_shape(c.bias@.shape),
        padded(c.bias@.data, c.bias@.shape, pow2_shape(c.bias@.shape), 0),
    )
    &&& r.unpadded_shape == c.unpadded_shape
}

/// The filters and the bias can be padded, and the filters adapted to images of the given shape.
pub open spec fn can_adapt(c: Convolution<Element>, unpadded_input: Seq<usize>) -> bool {
    let k = pow2_shape(c.filter@.shape);
    let x = pow2_shape(unpadded_input);
    &&& c.filter@.plain()
    &&& c.bias@.plain()
    &&& c.filter@.shape.len() == 4
    &&& pow2_shape_fits(c.filter@.shape)
    &&& product(k) <= usize::MAX
    &&& pow2_shape_fits(c.bias@.shape)
    &&& product(pow2_shape(c.bias@.shape)) <= usize::MAX
    &&& unpadded_input.len() >= 2
    &&& pow2_shape_fits(unpadded_input)
    &&& k[2] <= x[1]
}

impl Convolution<Element> {
    /// Creates a convolution layer without bias.
    pub fn new_without_bias(filter: Tensor<Element>) -> (r: Self)
        requires
            filter@.shape.len() == 4,
        ensures
            r.filter == filter,
            r.bias@ == tensor(
                seq![filter@.shape[0]],
                Seq::new(filter@.shape[0] as nat, |i: int| 0i128),
            ),
            r.unpadded_shape@ == filter@.shape,
    {
        let mut shape: Vec<usize> = Vec::new();
        shape.push(filter.kw());
        proof {
            lemma_product1(shape@);
            assert(shape@ =~= seq![filter@.shape[0]]);
        }
        let bias = Tensor::zeros(shape);
        Convolution::new(filter, bias)
    }

    /// Adds the bias of each filter to its channel of `conv_out`, unless a result cannot be held.
    pub fn checked_add_bias(&self, conv_out: &Tensor<Element>) -> (r: Option<Tensor<Element>>)
        requires
            bias_ok(conv_out@, self.bias@),
        ensures
            ({
                let size = conv_out@.shape[2] * conv_out@.shape[2];
                &&& r is Some <==> forall|t: int|
                    0 <= t < conv_out@.data.len() ==> fits(
                        #[trigger] biased(conv_out@.data, self.bias@.data, size, t),
                    )
                &&& r is Some ==> r->0@ == tensor(
                    conv_out@.shape,
                    Seq::new(
                        conv_out@.data.len(),
                        |t: int| biased(conv_out@.data, self.bias@.data, size, t) as i128,
                    ),
                )
            }),
    {
        let n = conv_out.data.len();
        let ghost size = conv_out@.shape[2] * conv_out@.shape[2];
        let mut arr: Vec<Element> = Vec::new();
        let mut t: usize = 0;
        while t < n
            invariant
                n == conv_out@.data.len(),
                bias_ok(conv_out@, self.bias@),
                size == conv_out@.shape[2] * conv_out@.shape[2],
                t <= n,
                arr.len() == t,
                forall|s: int|
                    0 <= s < t ==> #[trigger] arr[s] == biased(
                        conv_out@.data,
                        self.bias@.data,
                        size,
                        s,
                    ),
            decreases n - t,
        {
            proof {
                let a = conv_out@.shape[0] as int;
                assert(0 < size <= n) by (nonlinear_arith)
                    requires
                        0 <= t < a * size,
                        n == a * size,
                        size >= 0,
                        a >= 0,
                {
                    assert(size > 0);
                    assert(a >= 1);
                }
                assert(size >= 0);
                lemma_div_lt(t as nat, size as nat, a as nat);
                lemma_div_pos_is_pos(t as int, size);
            }
            let i = t / (conv_out.shape[2] * conv_out.shape[2]);
            match conv_out.data[t].checked_add(self.bias.data[i]) {
                Some(s) => {
                    arr.push(s);
                },
                None => {
                    assert(!fits(biased(conv_out@.data, self.bias@.data, size, t as int)));
                    return None;
                },
            }
            t = t + 1;
        }
        assert forall|t: int| 0 <= t < conv_out@.data.len() implies fits(
            #[trigger] biased(conv_out@.data, self.bias@.data, size, t),
        ) by {
            assert(arr[t] == biased(conv_out@.data, self.bias@.data, size, t));
        }
        assert(arr@ =~= Seq::new(
            conv_out@.data.len(),
            |t: int| biased(conv_out@.data, self.bias@.data, size, t) as i128,
        ));
        Some(Tensor::new(slice_to_vec(conv_out.shape.as_slice()), arr))
    }

    /// Adds the bias of each filter to its channel of `conv_out`.
    pub fn add_bias(&self, conv_out: &Tensor<Element>) -> (r: Tensor<Element>)
        requires
            bias_ok(conv_out@, self.bias@),
            forall|t: int|
                0 <= t < conv_out@.data.len() ==> fits(
                    #[trigger] biased(
                        conv_out@.data,
                        self.bias@.data,
                        conv_out@.shape[2] * conv_out@.shape[2],
                        t,
                    ),
                ),
        ensures
            r@ == tensor(
                conv_out@.shape,
                Seq::new(
                    conv_out@.data.len(),
                    |t: int|
                        biased(
                            conv_out@.data,
                            self.bias@.data,
                            conv_out@.shape[2] * conv_out@.shape[2],
                            t,
                        ) as i128,
                ),
            ),
    {
        match self.checked_add_bias(conv_out) {
            Some(r) => r,
            None => conv_out.copy(),
        }
    }

    /// Pads the filters and the bias, and adapts the filters to the convolution by transforms with
    /// images of the given shape.
    pub fn into_padded_and_ffted(self, unpadded_input_shape: &[usize]) -> (r: Self)
        requires
            can_adapt(self, unpadded_input_shape@),
        ensures
            is_adapted(self, unpadded_input_shape@, r),
    {
        let filter = self.filter.pad_next_power_of_two();
        let bias = self.bias.pad_next_power_of_two();
        let padded_input_shape = next_power_of_two_shape(unpadded_input_shape);
        proof {
            let k = pow2_shape(self.filter@.shape);
            let x = pow2_shape(unpadded_input_shape@);
            lemma_pow2_shape(self.filter@.shape);
            assert(k[2] > 0);
            // the next power of two of a number up to a power of two is no more than that
            assert(npow2(unpadded_input_shape@[1] as nat) <= usize::MAX);
            lemma_npow2(unpadded_input_shape@[1] as nat);
            let e = choose|e: nat| x[1] as nat == #[trigger] pow2(e);
            assert(x[1] as nat == npow2(unpadded_input_shape@[1] as nat));
            lemma_npow2((x[1] - k[2] + 1) as nat);
            assert((x[1] - k[2] + 1) as nat <= pow2(e));
        }
        Convolution {
            filter: filter.into_fft_conv(padded_input_shape.as_slice()),
            bias,
            unpadded_shape: self.unpadded_shape,
        }
    }

    /// Whether the convolution can be computed for the input.
    pub fn ready(&self, input: &Tensor<Element>, unpadded_input_shape: &[usize]) -> (r: bool)
        ensures
            r == conv_ready(*self, input@, unpadded_input_shape@),
    {
        let f = &self.filter;
        let x = input;
        if f.shape.len() != 4 || f.og_shape.len() != 4 {
            return false;
        }
        if f.og_shape[0] != f.shape[0] || f.og_shape[1] != f.shape[1] || f.og_shape[2]
            != f.og_shape[3] || f.shape[2] != f.shape[3] || f.og_shape[2] > f.shape[2] {
            return false;
        }
        let n = f.shape[2];
        proof {
            lemma_product4(f@.og_shape);
            if n == 0 && is_pow2(0) {
                let e = choose|e: nat| 0 == #[trigger] pow2(e);
                lemma_pow2_pos(e);
            }
        }
        if n == 0 || !is_power_of_two(n) || ilog2(n) > 15 {
            return false;
        }
        let data_len = f.data.len();
        match checked_product(f.og_shape.as_slice()) {
            Some(len) => {
                if len != data_len {
                    return false;
                }
            },
            None => {
                return false;
            },
        }
        assert(fft_filter(self.filter@));
        if !x.is_plain() || x.shape.len() != 3 || x.shape[0] != f.shape[1] || x.shape[1] != n
            || x.shape[2] != n {
            return false;
        }
        let mut out_shape: Vec<usize> = Vec::new();
        out_shape.push(f.shape[0]);
        out_shape.push(n);
        out_shape.push(n);
        proof {
            lemma_product3(out_shape@);
        }
        if checked_product(out_shape.as_slice()).is_none() {
            return false;
        }
        if f.shape[0] > self.bias.data.len() {
            return false;
        }
        let s = unpadded_input_shape;
        if s.len() < 3 || self.unpadded_shape.len() < 3 {
            return false;
        }
        let h = if s.len() == 3 {
            s[1]
        } else {
            s[2]
        };
        1 <= self.unpadded_shape[2] && self.unpadded_shape[2] <= h
    }

    /// The convolution of `input`, with the bias added, and with zeros outside the unpadded
    /// output. Gives nothing where a result cannot be held. The entries before clearing are
    /// kept for the proof.
    pub fn checked_op(&self, input: &Tensor<Element>, unpadded_input_shape: &[usize]) -> (r: Option<
        (Tensor<Element>, ConvData),
    >)
        requires
            conv_ready(*self, input@, unpadded_input_shape@),
        ensures
            r is Some <==> conv_fits(*self, input@),
            r is Some ==> {
                let (y, d) = r->0;
                &&& y@ == conv_result(*self, input@, unpadded_input_shape@)
                &&& y@.plain()
                &&& conv_data_is(self.filter@, input@, d)
                &&& d.output_as_element@ == conv_entries(*self, input@)
            },
    {
        let ghost f = self.filter@;
        let ghost n2 = f.shape[2] * f.shape[2];
        let (output, proving_data) = self.filter.fft_conv(input);
        proof {
            lemma_size(f);
            let a = f.shape[0] as int;
            assert forall|t: int| 0 <= t < a * n2 implies #[trigger] biased(
                output@.data,
                self.bias@.data,
                n2,
                t,
            ) == conv_entry(*self, input@, t) by {
                lemma_fundamental_div_mod(t, n2);
                lemma_mod_bound(t, n2);
                lemma_div_lt(t as nat, n2 as nat, a as nat);
                lemma_div_pos_is_pos(t, n2);
                lemma_mul_is_commutative(n2, t / n2);
                assert(output@.data[(t / n2) * n2 + t % n2] == centered(
                    window_sum(f, input@.data, t / n2, t % n2),
                ));
            }
            assert forall|t: int| 0 <= t < a * n2 implies (fits(
                #[trigger] conv_entry(*self, input@, t),
            ) <==> fits(biased(output@.data, self.bias@.data, n2, t))) by {
                assert(biased(output@.data, self.bias@.data, n2, t) == conv_entry(
                    *self,
                    input@,
                    t,
                ));
            }
        }
        let conv_output = match self.checked_add_bias(&output) {
            Some(y) => y,
            None => {
                return None;
            },
        };
        assert(conv_output@.data =~= conv_entries(*self, input@));
        let unpadded_output_shape = conv2d_shape(
            unpadded_input_shape,
            self.unpadded_shape.as_slice(),
        );
        let cleared_tensor = clear_garbage(&conv_output, unpadded_output_shape.as_slice());
        let conv_data = ConvData {
            real_input: proving_data.real_input,
            input: proving_data.input,
            input_fft: proving_data.input_fft,
            prod: proving_data.prod,
            output: proving_data.output,
            output_as_element: conv_output.data,
        };
        Some((cleared_tensor, conv_data))
    }

    /// The convolution of `input`, with the bias added, and with zeros outside the unpadded
    /// output, and what its proof needs.
    pub fn op(&self, input: &Tensor<Element>, unpadded_input_shape: &[usize]) -> (r: (
        Tensor<Element>,
        ConvData,
    ))
        requires
            conv_ready(*self, input@, unpadded_input_shape@),
            conv_fits(*self, input@),
        ensures
            r.0@ == conv_result(*self, input@, unpadded_input_shape@),
            r.0@.plain(),
            conv_data_is(self.filter@, input@, r.1),
            r.1.output_as_element@ == conv_entries(*self, input@),
    {
        match self.checked_op(input, unpadded_input_shape) {
            Some(r) => r,
            None => self.filter.fft_conv(input),
        }
    }

    /// Runs the layer on its input. Fails where there is not one input with one shape, where the
    /// input does not go with the filters, or where a result cannot be held.
    pub fn evaluate(&self, inputs: &[&Tensor<Element>], unpadded_input_shapes: &[Vec<usize>]) -> (r:
        Result<LayerOut<Element>, ProvableOpError>)
        ensures
            inputs@.len() != 1 ==> parameter_error(r, "Convolution layer expects 1 input"@),
            inputs@.len() == 1 && unpadded_input_shapes@.len() != 1 ==> parameter_error(
                r,
                "Convolution layer expects 1 input shape"@,
            ),
            inputs@.len() == 1 && unpadded_input_shapes@.len() == 1 ==> {
                let x = inputs@[0]@;
                let s = unpadded_input_shapes@[0]@;
                if !conv_ready(*self, x, s) {
                    generic_error(r, "The input does not go with the filters"@)
                } else if !conv_fits(*self, x) {
                    generic_error(r, "A result of the convolution is out of range"@)
                } else {
                    &&& r is Ok
                    &&& r->Ok_0.single(conv_result(*self, x, s))
                    &&& r->Ok_0.proving_data is Some
                    &&& conv_data_is(self.filter@, x, r->Ok_0.proving_data->0)
                    &&& r->Ok_0.proving_data->0.output_as_element@ == conv_entries(*self, x)
                }
            },
    {
        if inputs.len() != 1 {
            return parameter_err("Convolution layer expects 1 input");
        }
        if unpadded_input_shapes.len() != 1 {
            return parameter_err("Convolution layer expects 1 input shape");
        }
        let input = inputs[0];
        let shape = unpadded_input_shapes[0].as_slice();
        if !self.ready(input, shape) {
            return generic_err("The input does not go with the filters");
        }
        match self.checked_op(input, shape) {
            Some((output, proving_data)) => {
                let mut out = single_output(output);
                out.proving_data = Some(proving_data);
                Ok(out)
            },
            None => generic_err("A result of the convolution is out of range"),
        }
    }

    /// The number of entries of one filter, and one more.
    pub open spec fn window_size(self) -> nat {
        let s = self.filter@.shape;
        (dim_or_one(s, 2) * dim_or_one(s, 3) * dim_or_one(s, 1) + 1) as nat
    }

    /// The least and the greatest value that the layer may give.
    pub fn output_range(&self, _min_input: Element, _max_input: Element) -> (r: (Element, Element))
        requires
            self.window_size() <= usize::MAX,
            dim_or_one(self.filter@.shape, 2) * dim_or_one(self.filter@.shape, 3) <= usize::MAX,
            2 * BIT_LEN + clog2(self.window_size()) <= 63,
        ensures
            r.1 == pow2((2 * BIT_LEN + clog2(self.window_size())) as nat),
            r.0 == -r.1,
    {
        let (_k_n, k_c, k_h, k_w) = self.filter.get4d();
        let exp = 2 * BIT_LEN + ceil_log2(k_h * k_w * k_c + 1);
        proof {
            lemma2_to64();
            lemma2_to64_rest();
            lemma_pow2_mono(exp as nat, 63);
        }
        let max = power_of_two(exp) as i128;
        (-max, max)
    }

    /// The number of bits of the values that the layer may give.
    pub fn output_bitsize(&self) -> (r: usize)
        requires
            self.window_size() <= usize::MAX,
            dim_or_one(self.filter@.shape, 2) * dim_or_one(self.filter@.shape, 3) <= usize::MAX,
        ensures
            r == 2 * (BIT_LEN - 1) + clog2(self.window_size()),
    {
        let (_k_n, k_c, k_h, k_w) = self.filter.get4d();
        let n = k_h * k_w * k_c + 1;
        proof {
            lemma_clog2_usize(n as nat);
        }
        2 * (BIT_LEN - 1) + ceil_log2(n)
    }

    /// The polynomials that the layer commits to, with their numbers.
    pub fn commit_info(&self, id: NodeId) -> (r: Vec<(PolyID, Vec<GoldilocksExt2>)>)
        requires
            id * 100 <= usize::MAX,
        ensures
            r@.len() == 2,
            r@[0].0 == id,
            fviews(r@[0].1@) == fints(self.filter@.data),
            r@[1].0 == id * 100,
            fviews(r@[1].1@) == fints(self.bias@.data),
    {
        let mut r: Vec<(PolyID, Vec<GoldilocksExt2>)> = Vec::new();
        r.push((id, self.filter.evals_flat()));
        r.push((id * 100, self.bias.evals_flat()));
        r
    }
}

impl<T> SchoolBookConv<T> {
    /// It has one input and one output.
    pub fn num_outputs(&self, num_inputs: usize) -> (r: usize)
        requires
            num_inputs == 1,
        ensures
            r == 1,
    {
        self.0.num_outputs(num_inputs)
    }

    /// The shapes of the outputs.
    pub fn output_shapes(&self, input_shapes: &[Vec<usize>], padding_mode: PaddingMode) -> (r: Vec<
        Vec<usize>,
    >)
        requires
            forall|i: int|
                0 <= i < input_shapes@.len() ==> conv_mode_ok(
                    #[trigger] shapes(input_shapes@)[i],
                    self.0.shape_for(padding_mode),
                    padding_mode,
                ),
        ensures
            shapes(r@) == Seq::new(
                input_shapes@.len(),
                |i: int|
                    conv_shape_in(
                        input_shapes@[i]@,
                        self.0.shape_for(padding_mode),
                        padding_mode,
                    ),
            ),
    {
        self.0.output_shapes(input_shapes, padding_mode)
    }

    pub fn is_provable(&self) -> (r: bool)
        ensures
            !r,
    {
        false
    }

    /// Sets up the layer: nothing is kept of it.
    pub fn step_info(&self, _id: PolyID, aux: ContextAux) -> (r: (SchoolBookConvCtx, ContextAux))
        ensures
            r.1 == aux,
    {
        (SchoolBookConvCtx, aux)
    }
}

/// The results of a convolution can be held.
pub open spec fn conv2d_fits(
    x: TensorView<Element>,
    k: TensorView<Element>,
    bias: TensorView<Element>,
) -> bool {
    let out = conv2d_out(x, k, 1);
    let total = out[0] * (out[1] * (out[2] * out[3]));
    &&& total <= usize::MAX
    &&& forall|t: int| 0 <= t < total ==> #[trigger] conv2d_entry_fits(x, k, bias, 1, t)
}

/// The result of a convolution.
pub open spec fn conv2d_result(
    x: TensorView<Element>,
    k: TensorView<Element>,
    bias: TensorView<Element>,
) -> TensorView<Element> {
    let out = conv2d_out(x, k, 1);
    tensor(
        Seq::new(4, |d: int| out[d] as usize),
        Seq::new(
            (out[0] * (out[1] * (out[2] * out[3]))) as nat,
            |t: int| conv2d_entry(x, k, bias, 1, t) as i128,
        ),
    )
}

impl SchoolBookConv<Element> {
    /// Runs the layer on its input. Fails where there is not one input, where it does not go with
    /// the filters, or where a result cannot be held.
    pub fn evaluate(&self, inputs: &[&Tensor<Element>]) -> (r: Result<
        LayerOut<Element>,
        ProvableOpError,
    >)
        ensures
            inputs@.len() != 1 ==> parameter_error(r, "Convolution layer expects 1 input"@),
            inputs@.len() == 1 ==> {
                let x = inputs@[0]@;
                let k = self.0.filter@;
                let b = self.0.bias@;
                if !conv2d_ok(x, k, b, 1) {
                    generic_error(r, "The input does not go with the filters"@)
                } else if !conv2d_fits(x, k, b) {
                    generic_error(r, "A result of the convolution is out of range"@)
                } else {
                    r is Ok && r->Ok_0.single(conv2d_result(x, k, b)) && r->Ok_0.proving_data is None
                }
            },
    {
        if inputs.len() != 1 {
            return parameter_err("Convolution layer expects 1 input");
        }
        let input = inputs[0];
        let k = &self.0.filter;
        if !input.is_plain() || !k.is_plain() || k.shape.len() != 4 || (input.shape.len() != 3
            && input.shape.len() != 4) {
            return generic_err("The input does not go with the filters");
        }
        let (c, h, w) = if input.shape.len() == 3 {
            (input.shape[0], input.shape[1], input.shape[2])
        } else {
            (input.shape[1], input.shape[2], input.shape[3])
        };
        if c != k.shape[1] || k.shape[2] == 0 || k.shape[2] > h || k.shape[3] == 0 || k.shape[3]
            > w || self.0.bias.data.len() != k.shape[0] {
            return generic_err("The input does not go with the filters");
        }
        match input.checked_conv2d(k, &self.0.bias, 1) {
            Some(y) => {
                proof {
                    let want = conv2d_result(input@, k@, self.0.bias@);
                    assert(y@.shape =~= want.shape);
                    assert(y@.data =~= want.data);
                }
                Ok(single_output(y))
            },
            None => generic_err("A result of the convolution is out of range"),
        }
    }
}

} // verus!
