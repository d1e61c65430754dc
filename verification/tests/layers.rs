//! Layers: activation, requantisation, pooling, flattening, lookups, set-up.
use std::collections::HashMap;
use zkml::commit::error::PCSError;
use zkml::field::GoldilocksExt2;
use zkml::iop::ChallengeStorage;
use zkml::iop::context::{ContextAux, ShapeStep};
use zkml::layers::activation::{Activation, Relu};
use zkml::layers::convolution::Convolution;
use zkml::layers::dense::Dense;
use zkml::layers::flatten::Flatten;
use zkml::layers::pooling::{Maxpool2D, Pooling};
use zkml::layers::provable::PaddingMode;
use zkml::layers::provable::error::ProvableOpError;
use zkml::layers::requant::{Requant, RequantCtx};
use zkml::layers::{Layer, LayerCtx, LayerProof};
use zkml::lookup::context::TableType;
use zkml::lookup::logup_gkr::error::LogUpError;
use zkml::lookup::witness::{LogUpInput, LogUpWitness, LookupWitnessGen};
use zkml::quantization::{Element, clamp, to_element, to_field};
use zkml::{Tensor, VectorTranscript};

type F = GoldilocksExt2;

#[test]
fn test_activation_relu_apply() {
    struct TestCase {
        input: Element,
        output: Element,
    }

    impl TestCase {
        pub fn from(input: Element, output: Element) -> Self {
            Self { input, output }
        }
    }
    for case in [
        TestCase::from(-24, 0),
        TestCase::from(0, 0),
        TestCase::from(124, 124),
        TestCase::from(-127, 0),
    ] {
        assert_eq!(Relu::apply(case.input), case.output);
    }
}

#[test]
fn relu_of_a_tensor() {
    let relu = Activation::Relu(Relu::new());
    let t = Tensor::new(vec![4], vec![-3, 0, 5, -1]);
    let out = relu.evaluate(&[&t]).unwrap();
    assert_eq!(out.outputs()[0].get_data().to_vec(), vec![0, 0, 5, 0]);
    assert_eq!(relu.describe(), "RELU: 256");
    assert_eq!(Relu::num_vars(), 8);
    assert_eq!(Relu::poly_len(), 256);
    assert_eq!(Relu::shape(), vec![2, 256]);
    assert!(relu.is_provable());
}

#[test]
fn relu_columns_and_witness() {
    let relu = Activation::Relu(Relu::new());
    let input = Tensor::new(vec![2], vec![-3, 5]);
    let output = Tensor::new(vec![2], vec![0, 5]);
    let columns = relu.lookup_columns(&input, &output);
    assert_eq!(columns.merged, vec![-3, 5 + (5 << 32)]);
    assert!(columns.columns[0][0].same(&to_field(-3)));
    assert!(columns.columns[1][1].same(&to_field(5)));
    let mut gen = LookupWitnessGen {
        new_lookups: vec![(TableType::Relu, vec![7])],
        logup_witnesses: HashMap::new(),
    };
    relu.gen_lookup_witness(3, &mut gen, columns.clone(), vec!["c".to_string()]).unwrap();
    assert_eq!(gen.new_lookups[0].1, vec![7, -3, 5 + (5 << 32)]);
    assert_eq!(gen.logup_witnesses[&3].len(), 1);
    let mut none: LookupWitnessGen<String> =
        LookupWitnessGen { new_lookups: vec![], logup_witnesses: HashMap::new() };
    let e = relu.gen_lookup_witness(3, &mut none, columns, vec![]).unwrap_err();
    assert_eq!(
        e.message(),
        "Incorrect parameters passed to ProvableOp: No table of type Relu was expected"
    );
}

/// The requantisation that divides by four.
fn quarter() -> Requant {
    let scale = Requant::fixed_point_scale(2);
    Requant::new(2, 1 << scale, 16)
}

#[test]
fn requantisation_of_known_values() {
    let r = quarter();
    assert_eq!(r.shift(), 32);
    assert_eq!(r.fp_scale, 30);
    assert_eq!(r.apply(&8), 2);
    // halves are rounded up
    assert_eq!(r.apply(&10), 3);
    assert_eq!(r.apply(&-10), -2);
    // out of range values are brought back
    assert_eq!(r.apply(&30000), 127);
    assert_eq!(r.apply(&-30000), -127);
    assert_eq!(clamp(300), 127);
    let t = r.op(&Tensor::new(vec![2], vec![8, 10]));
    assert_eq!(t.get_data().to_vec(), vec![2, 3]);
    assert_eq!(r.describe("0.25"), "Requant: right shift: 32, scale: 0.25");
    assert_eq!(r.clamping_size(), 16 + 30 - 32);
}

#[test]
fn values_recombine_from_their_columns() {
    let r = quarter();
    let input = Tensor::new(vec![4], vec![8, -10, 77, 4000]);
    let columns = r.lookup_columns(&[input.clone()], 1).unwrap();
    assert_eq!(columns.clamping.len(), 2);
    assert_eq!(columns.shifted.len(), 4);
    for i in 0..4 {
        let chunks: Vec<F> = columns.shifted.iter().map(|c| c[i]).collect();
        let back = r.recombine_claims(columns.clamping[0][i], &chunks);
        assert!(back.same(&to_field(input.get_data()[i])));
        assert!(columns.clamping[1][i].same(&to_field(r.apply(&input.get_data()[i]))));
        for c in &chunks {
            let x = to_element(c);
            assert!(0 <= x && x < 256);
        }
    }
    let e = r.lookup_columns(&[], 1).unwrap_err();
    assert_eq!(
        e.message(),
        "Incorrect parameters passed to ProvableOp: Requant layer expects exactly one input tensor"
    );
    let e = r.lookup_columns(&[input], 2).unwrap_err();
    assert_eq!(
        e.message(),
        "Incorrect parameters passed to ProvableOp: Requant layer expects exactly one output tensor"
    );
}

#[test]
fn requantisation_witnesses_need_both_tables() {
    let r = quarter();
    let columns = r.lookup_columns(&[Tensor::new(vec![1], vec![8])], 1).unwrap();
    let mut gen: LookupWitnessGen<u8> = LookupWitnessGen {
        new_lookups: vec![(TableType::Range, vec![])],
        logup_witnesses: HashMap::new(),
    };
    let e = r.gen_lookup_witness(1, &mut gen, columns.clone(), vec![], vec![]).unwrap_err();
    assert_eq!(
        e.message(),
        "Incorrect parameters passed to ProvableOp: No table of type Clamping: 14 was expected"
    );
    let mut gen: LookupWitnessGen<u8> = LookupWitnessGen {
        new_lookups: vec![(TableType::Clamping(14), vec![]), (TableType::Range, vec![])],
        logup_witnesses: HashMap::new(),
    };
    r.gen_lookup_witness(1, &mut gen, columns.clone(), vec![1], vec![2, 3]).unwrap();
    assert_eq!(gen.new_lookups[0].1, columns.merged_clamping);
    assert_eq!(gen.new_lookups[1].1, columns.merged_shifted);
    assert_eq!(gen.logup_witnesses[&1].len(), 2);
    let mut none: LookupWitnessGen<u8> =
        LookupWitnessGen { new_lookups: vec![], logup_witnesses: HashMap::new() };
    assert!(r.gen_lookup_witness(1, &mut none, columns, vec![], vec![]).is_err());
    assert!(Requant::check_witnesses(4, 2).is_ok());
    assert_eq!(
        Requant::check_witnesses(4, 3).unwrap_err().message(),
        "ProvableOp generic error: There should be two lookup witnesses during requantisation, node: 4, number of witnesses: 3"
    );
}

fn storage() -> ChallengeStorage {
    ChallengeStorage {
        constant_challenge: F::from_u64(11),
        challenge_map: vec![("Relu".to_string(), F::from_u64(12))],
    }
}

#[test]
fn witnesses_find_their_challenges() {
    let w = LogUpWitness::new_lookup(vec![5u8], vec![vec![F::one()]], 1, TableType::Relu);
    match w.get_logup_input(&storage()).unwrap() {
        LogUpInput::Lookup {
            constant_challenge, column_separation_challenge, columns_per_instance, ..
        } => {
            assert!(constant_challenge.same(&F::from_u64(11)));
            assert!(column_separation_challenge.same(&F::from_u64(12)));
            assert_eq!(columns_per_instance, 1);
        }
        _ => panic!("not a lookup"),
    }
    assert_eq!(w.get_commitments(), vec![&5u8]);
    let t = LogUpWitness::new_table(6u8, vec![F::one()], vec![vec![F::one()]], TableType::Range);
    assert_eq!(t.table_type(), TableType::Range);
    assert_eq!(t.get_commitments(), vec![&6u8]);
    match t.get_logup_input(&storage()) {
        Err(e) => assert_eq!(
            e.message(),
            "Parameters were incorrect: No challenges for table type: Range"
        ),
        Ok(_) => panic!("no challenges were stored for the table"),
    }
    let ctx = RequantCtx { requant: quarter(), node_id: 1, num_vars: 2 };
    assert_eq!(
        ctx.challenges(&storage()).unwrap_err().message(),
        "ProvableOp generic error: Couldn't get challenges for LookupType: Clamping: 14"
    );
}

#[test]
fn texts_of_errors() {
    let e: LogUpError = PCSError::ParameterError("bad \n".to_string()).into();
    assert_eq!(
        e.message(),
        "Error occurred with commitments: ParameterError(\"bad \\n\")"
    );
    assert_eq!(
        LogUpError::ProvingError("p".to_string()).message(),
        "Error during LogUp proving: p"
    );
    assert_eq!(
        LogUpError::VerifierError("v".to_string()).message(),
        "Error while verifying LogUp proof: v"
    );
    assert_eq!(
        LogUpError::PolynomialError("q".to_string()).message(),
        "Polynomial related error: q"
    );
    let e: ProvableOpError = PCSError::MPCSError("m".to_string()).into();
    assert_eq!(
        e.message(),
        "Commitment Error: Error in mpcs crate method, internal error: m"
    );
    assert_eq!(
        ProvableOpError::TypeError("t".to_string()).message(),
        "Incompatible type used in ProvableOp: t"
    );
    assert_eq!(
        ProvableOpError::NotProvableLayer("n".to_string()).message(),
        "Trying to prove or verify a non provable layer: n"
    );
    assert_eq!(
        ProvableOpError::ConversionError("c".to_string()).message(),
        "Provable Op conversion error: c"
    );
    assert_eq!(
        ProvableOpError::OnnxParsingError("o".to_string()).message(),
        "Error parsing ONNX model: o"
    );
}

#[test]
fn layers_by_kind() {
    let dense = Dense::new(Tensor::new(vec![2, 2], vec![1, 2, 3, 4]), Tensor::zeros(vec![2]));
    let layer = Layer::Dense(dense);
    assert_eq!(layer.num_outputs(1), 1);
    assert!(layer.is_provable());
    assert_eq!(layer.describe(""), "Dense: (2x2) + bias (false)");
    let flatten: Layer<Element> = Layer::Flatten(Flatten);
    assert!(!flatten.is_provable());
    assert_eq!(
        flatten.output_shapes(&[vec![2, 3, 4]], PaddingMode::NoPadding),
        vec![vec![24]]
    );
    let pool: Layer<Element> = Layer::Pooling(Pooling::Maxpool2D(Maxpool2D::default()));
    assert_eq!(pool.describe(""), "MaxPool2D{ kernel size: 2, stride: 2 }");
    assert_eq!(
        pool.output_shapes(&[vec![3, 8, 8]], PaddingMode::NoPadding),
        vec![vec![3, 4, 4]]
    );
    let relu = Activation::Relu(Relu::new());
    let act: Layer<Element> = Layer::Activation(relu);
    assert_eq!(
        act.check_ctx(&LayerCtx::Flatten).unwrap_err().message(),
        "Incorrect parameters passed to ProvableOp: No activation ctx found for activation layer"
    );
    assert_eq!(LayerCtx::Flatten.variant_name(), "Reshape");
    assert!(!LayerCtx::Flatten.has_proof());
    let dummy: LayerProof<(), ()> = LayerProof::Dummy;
    assert_eq!(dummy.variant_name(), "Dummy");
    assert!(dummy.get_lookup_data().is_none());
}

#[test]
fn set_up_of_a_dense_layer() {
    let dense = Dense::new(
        Tensor::new(vec![4, 2], vec![1, 2, 3, 4, 5, 6, 7, 8]),
        Tensor::new(vec![4], vec![1, 1, 1, 1]),
    );
    let aux = ContextAux {
        tables: vec![],
        last_output_shape: vec![vec![2]],
        model_polys: vec![],
    };
    let (ctx, out) = dense.step_info(5, aux);
    assert_eq!(ctx.node_id, 5);
    assert_eq!(ctx.matrix_poly_aux.num_variables, 1);
    assert_eq!(out.last_output_shape, vec![vec![4]]);
    let layer = LayerCtx::Dense(ctx);
    let step: ShapeStep = layer.shape_step(&[vec![2]], &[vec![2]]);
    assert_eq!(step.unpadded_output_shape, vec![vec![4]]);
    let next = layer.accepts_shape(&[3], PaddingMode::NoPadding);
    assert!(!next);
}

#[test]
fn set_up_of_a_requantisation_asks_for_tables() {
    let aux = ContextAux {
        tables: vec![TableType::Range],
        last_output_shape: vec![vec![4]],
        model_polys: vec![],
    };
    let (ctx, out) = quarter().step_info(2, aux).unwrap();
    assert_eq!(ctx.num_vars, 2);
    assert_eq!(out.tables, vec![TableType::Range, TableType::Clamping(14)]);
    let relu = Activation::Relu(Relu::new());
    let (_, out) = relu.step_info(3, out).unwrap();
    assert_eq!(out.tables.len(), 3);
}

#[test]
fn set_up_of_a_convolution() {
    let conv = Convolution::new(
        Tensor::new(vec![2, 1, 2, 2], vec![1, 0, 0, -1, 2, 2, 2, 2]),
        Tensor::new(vec![2], vec![1, 2]),
    )
    .into_padded_and_ffted(&[1, 3, 3]);
    let aux = ContextAux {
        tables: vec![],
        last_output_shape: vec![vec![1, 4, 4]],
        model_polys: vec![],
    };
    let (ctx, out) = conv.step_info(9, aux);
    assert_eq!(ctx.kw, 2);
    assert_eq!(ctx.kx, 1);
    assert_eq!(ctx.real_nw, 2);
    assert_eq!(ctx.nw, 4);
    assert_eq!(ctx.filter_size, 16);
    assert_eq!(out.last_output_shape, vec![vec![2, 4, 4]]);
    assert_eq!(conv.describe(), "Conv: (2,1,4,4)");
}

struct Zeros;

impl zkml::vector::Transcript for Zeros {
    fn read_challenge(&mut self) -> F {
        F::zero()
    }
}

#[test]
fn as_many_challenges_as_asked_for() {
    assert_eq!(Zeros.read_challenges(5).len(), 5);
}
