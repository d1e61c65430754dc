//! What the operations of the library do, stated over the entries of their operands and results.

pub mod algebra;
pub mod convolution;
pub mod descriptions;
pub mod graph;
pub mod inputs;
pub mod layers;
pub mod lookups;
pub mod places;
pub mod proving;
pub mod run;
pub mod setup;
pub mod shapes;
pub mod texts;
pub mod transforms;
pub mod values;
pub mod verification;
