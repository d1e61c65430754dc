//! Arithmetic, tensors, layers and protocol checks of a verifiable neural network inference.

pub mod arith;
pub mod bench;
pub mod claim;
pub mod commit;
pub mod fft;
pub mod field;
pub mod iop;
pub mod laws;
pub mod layers;
pub mod lookup;
pub mod mle;
pub mod model;
pub mod ops;
pub mod prime;
pub mod quantization;
pub mod shape;
pub mod sums;
pub mod tensor;
pub mod text;
pub mod vector;

pub use claim::Claim;
pub use iop::session::Verifier;
pub use iop::verify::IO;
pub use model::Model;
pub use quantization::Element;
pub use tensor::Tensor;
pub use vector::{NextPowerOfTwo, VectorTranscript, argmax, pad_vector};
