//! Quantising layers: what is decided about scaling factors, whatever these are.
use crate::arith::clog2;
use crate::layers::Layer;
use crate::layers::convolution::Convolution;
use crate::layers::dense::Dense;
use crate::layers::requant::{FIXED_POINT_SCALE, Requant, scale_for};
use crate::quantization::{BIT_LEN, Element};
use crate::tensor::{cols_2d, dim_or_one, has_cols_2d};
use vstd::arithmetic::power2::*;
use vstd::prelude::*;
use vstd::slice::slice_to_vec;
use vstd::string::*;

verus! {

/// A quantised layer, the scaling factors of its outputs, and the requantisation that is to follow
/// it, if any. `S` is a scaling factor.
#[derive(Debug)]
pub struct QuantizeOutput<S> {
    pub quanzited_op: Layer<Element>,
    pub output_scalings: Vec<S>,
    pub requant_layer: Option<Requant>,
}

/// The least and the greatest value of a quantised bias: a bias is quantised over twice the number
/// of bits.
pub open spec fn bias_bounds() -> (int, int) {
    let bound = pow2((2 * BIT_LEN - 1) as nat) - 1;
    (-bound, bound)
}

/// The least and the greatest value of a quantised bias.
pub fn bias_range() -> (r: (Element, Element))
    ensures
        (r.0 as int, r.1 as int) == bias_bounds(),
{
    proof {
        lemma2_to64();
    }
    (-32767, 32767)
}

/// The layer adds up products with weights, and needs a requantisation.
pub open spec fn has_weights<T>(op: Layer<T>) -> bool {
    op is Dense || op is Convolution
}

/// What is wrong with the numbers of the scaling factors of the inputs and of the outputs of a
/// layer, if anything is.
pub open spec fn scaling_fault<T>(op: Layer<T>, inputs: nat, outputs: nat) -> Option<Seq<char>> {
    if !has_weights(op) {
        None
    } else if outputs != 1 {
        Some("Output scaling for convolution layer different from 1"@)
    } else if inputs != 1 {
        if op is Dense {
            Some("Number of input scaling factor for dense layer different from 1"@)
        } else {
            Some("Number of input scaling factor for convolution layer different from 1"@)
        }
    } else {
        None
    }
}

impl<T> Layer<T> {
    /// Checks the numbers of the scaling factors of the inputs and of the outputs.
    pub fn check_scalings(&self, inputs: usize, outputs: usize) -> (r: Result<(), String>)
        ensures
            match scaling_fault(*self, inputs as nat, outputs as nat) {
                Some(m) => r matches Err(s) && s@ == m,
                None => r is Ok,
            },
    {
        let dense = match self {
            Layer::Dense(_) => true,
            Layer::Convolution(_) => false,
            _ => {
                return Ok(());
            },
        };
        if outputs != 1 {
            return Err(String::from_str("Output scaling for convolution layer different from 1"));
        }
        if inputs != 1 {
            if dense {
                return Err(
                    String::from_str(
                        "Number of input scaling factor for dense layer different from 1",
                    ),
                );
            }
            return Err(
                String::from_str(
                    "Number of input scaling factor for convolution layer different from 1",
                ),
            );
        }
        Ok(())
    }
}

impl Layer<Element> {
    /// The number of bits of what the layer adds up can be told.
    pub open spec fn bitsize_ok(self) -> bool {
        match self {
            Layer::Dense(d) => has_cols_2d(d.matrix@.shape) && cols_2d(d.matrix@.shape) > 0,
            Layer::Convolution(c) => c.window_size() <= usize::MAX && dim_or_one(
                c.filter@.shape,
                2,
            ) * dim_or_one(c.filter@.shape, 3) <= usize::MAX,
            _ => true,
        }
    }

    /// The number of bits of what a layer with weights adds up.
    pub open spec fn intermediate_bits(self) -> nat {
        match self {
            Layer::Dense(d) => (2 * (BIT_LEN - 1) + clog2(cols_2d(d.matrix@.shape) as nat)
                + 1) as nat,
            Layer::Convolution(c) => (2 * (BIT_LEN - 1) + clog2(c.window_size())) as nat,
            _ => 0,
        }
    }

    /// Completes the quantisation of a layer whose weights are quantised. A layer with weights is
    /// to be followed by a requantisation with the given right shift and multiplier, and its
    /// output has the scaling factor that was told for it. Other layers keep the scaling factors
    /// of their inputs. Fails where the numbers of scaling factors are wrong.
    pub fn quantize_op<S: Copy>(
        self,
        input_scaling: &[S],
        output_scalings: Vec<S>,
        right_shift: usize,
        fixed_point_multiplier: Element,
    ) -> (r: Result<QuantizeOutput<S>, String>)
        requires
            self.bitsize_ok(),
            right_shift + FIXED_POINT_SCALE + BIT_LEN <= usize::MAX,
        ensures
            match scaling_fault(self, input_scaling@.len(), output_scalings@.len()) {
                Some(m) => r matches Err(s) && s@ == m,
                None => {
                    &&& r is Ok
                    &&& r->Ok_0.quanzited_op == self
                    &&& if has_weights(self) {
                        &&& r->Ok_0.output_scalings@ == output_scalings@
                        &&& r->Ok_0.requant_layer == Some(
                            Requant {
                                right_shift,
                                fixed_point_multiplier,
                                fp_scale: scale_for(right_shift as nat) as usize,
                                intermediate_bit_size: self.intermediate_bits() as usize,
                            },
                        )
                        &&& self.intermediate_bits() <= usize::MAX
                    } else {
                        &&& r->Ok_0.output_scalings@ == input_scaling@
                        &&& r->Ok_0.requant_layer is None
                    }
                },
            },
    {
        match self.check_scalings(input_scaling.len(), output_scalings.len()) {
            Ok(_) => {},
            Err(e) => {
                return Err(e);
            },
        }
        let bits = match &self {
            Layer::Dense(dense) => dense.output_bitsize(),
            Layer::Convolution(convolution) => convolution.output_bitsize(),
            _ => {
                return Ok(
                    QuantizeOutput {
                        quanzited_op: self,
                        output_scalings: slice_to_vec(input_scaling),
                        requant_layer: None,
                    },
                );
            },
        };
        let requant = Requant::new(right_shift, fixed_point_multiplier, bits);
        Ok(QuantizeOutput { quanzited_op: self, output_scalings, requant_layer: Some(requant) })
    }
}

} // verus!
