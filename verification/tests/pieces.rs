//! Small pieces of layers and models.
use std::collections::HashMap;
use zkml::field::GoldilocksExt2;
use zkml::iop::context::{ContextAux, ShapeStep};
use zkml::layers::activation::{Activation, ActivationCtx, Relu};
use zkml::layers::convolution::{
    Convolution, clear_garbage, conv2d_shape, padded_conv2d_shape,
};
use zkml::layers::dense::{Dense, DenseProof};
use zkml::layers::flatten::Flatten;
use zkml::layers::provable::{Node, NodeId, PaddingMode, SumcheckProof};
use zkml::layers::quantize::bias_range;
use zkml::layers::requant::Requant;
use zkml::layers::{Layer, LayerCtx};
use zkml::mle::mle_evaluate;
use zkml::quantization::{Element, to_field};
use zkml::vector::try_unzip;
use zkml::{Claim, Model, NextPowerOfTwo, Tensor};

type F = GoldilocksExt2;

#[test]
fn a_convolution_without_bias() {
    let filter = Tensor::new(vec![2, 1, 1, 1], vec![3, -2]);
    let conv = Convolution::new_without_bias(filter);
    assert_eq!(conv.bias.get_shape(), vec![2]);
    assert_eq!(conv.bias.get_data().to_vec(), vec![0, 0]);
    assert_eq!(conv.unpadded_shape, vec![2, 1, 1, 1]);
}

#[test]
fn the_bias_goes_to_its_channel() {
    let conv = Convolution::new(
        Tensor::new(vec![2, 1, 1, 1], vec![1, 1]),
        Tensor::new(vec![2], vec![10, -1]),
    );
    let out = Tensor::new(vec![2, 2, 2], vec![1, 2, 3, 4, 5, 6, 7, 8]);
    let biased = conv.add_bias(&out);
    assert_eq!(biased.get_data().to_vec(), vec![11, 12, 13, 14, 4, 5, 6, 7]);
    let huge = Tensor::new(vec![2, 2, 2], vec![Element::MAX; 8]);
    assert!(conv.checked_add_bias(&huge).is_none());
}

#[test]
fn commitments_to_weights() {
    let dense = Dense::new_from_weights(
        Tensor::new(vec![2, 2], vec![1, -2, 3, 4]),
        Tensor::new(vec![2], vec![5, 6]),
    );
    let layer = Layer::Dense(dense);
    let info = layer.commit_info(7);
    assert_eq!(info.len(), 2);
    assert_eq!(info[0].0, 7);
    assert_eq!(info[1].0, 700);
    let want: Vec<F> = [1, -2, 3, 4].iter().map(|x| to_field(*x)).collect();
    assert!(info[0].1.iter().zip(&want).all(|(a, b)| a.same(b)));
    assert!(info[1].1[1].same(&F::from_u64(6)));
    assert!(Layer::<Element>::Flatten(Flatten).commit_info(7).is_empty());
}

#[test]
fn the_value_of_a_product() {
    let proof = DenseProof {
        sumcheck: SumcheckProof { point: vec![], messages: () },
        bias_eval: F::zero(),
        individual_claims: vec![F::from_u64(6), F::from_u64(7)],
    };
    assert!(proof.individual_to_virtual_claim().same(&F::from_u64(42)));
}

#[test]
fn a_requantisation_in_the_transcript() {
    let requant = Requant::new(3, 12, 16);
    let v = requant.transcript_elements();
    assert_eq!(v.len(), 2);
    assert!(v[0].same(&F::from_u64(3)));
    assert!(v[1].same(&F::from_u64(12)));
}

#[test]
fn shapes_go_from_layer_to_layer() {
    let dense = Dense::new(
        Tensor::new(vec![3, 5], vec![0; 15]),
        Tensor::new(vec![3], vec![0; 3]),
    );
    let aux = ContextAux { tables: vec![], last_output_shape: vec![vec![8]], model_polys: vec![] };
    let (ctx, _) = dense.pad_next_power_of_two().step_info(1, aux);
    let ctx = LayerCtx::Dense(ctx);
    let before = ShapeStep {
        unpadded_input_shape: vec![],
        padded_input_shape: vec![],
        unpadded_output_shape: vec![vec![5]],
        padded_output_shape: vec![vec![8]],
    };
    let step = ctx.next_shape_step(&before);
    assert_eq!(step.unpadded_input_shape, vec![vec![5]]);
    assert_eq!(step.padded_input_shape, vec![vec![8]]);
    assert_eq!(step.unpadded_output_shape, vec![vec![3]]);
    assert_eq!(step.padded_output_shape, vec![vec![4]]);
}

#[test]
fn raising_a_shape_twice_is_raising_it_once() {
    let shape: Vec<usize> = vec![1, 3, 8, 17];
    let padded = NextPowerOfTwo::next_power_of_two(&shape);
    assert_eq!(padded, vec![1, 4, 8, 32]);
    assert_eq!(NextPowerOfTwo::next_power_of_two(&padded), padded);
}

#[test]
fn models_from_their_parts() {
    let nodes: HashMap<NodeId, Node<Element>> = HashMap::new();
    let model = Model::new_from_shapes(vec![vec![3, 5]], vec![vec![4, 8]], nodes);
    assert_eq!(model.padded_input_shapes(), vec![vec![4, 8]]);
    assert!(model.node_ids().is_empty());
    let mut model =
        Model::new_from_input_shapes(vec![vec![3]], PaddingMode::NoPadding);
    let relu: Layer<Element> = Layer::Activation(Activation::Relu(Relu::new()));
    let id = model.add_consecutive_layer(relu, None).unwrap();
    assert_eq!(model.node_ids(), vec![id]);
    assert!(!model.nodes[&id].gives_output());
    model.route_output(None).unwrap();
    assert!(model.nodes[&id].gives_output());
}

#[test]
fn layers_with_weights_are_requantised() {
    let dense = Dense::new(
        Tensor::new(vec![1, 2], vec![0.5, 0.25]),
        Tensor::new(vec![1], vec![0.125]),
    )
    .quantize(Tensor::new(vec![1, 2], vec![127, 64]), Tensor::new(vec![1], vec![9]));
    assert_eq!(dense.unpadded_matrix_shape, vec![1, 2]);
    let layer = Layer::Dense(dense);
    assert_eq!(
        layer.check_scalings(2, 1).unwrap_err(),
        "Number of input scaling factor for dense layer different from 1"
    );
    assert_eq!(
        layer.check_scalings(1, 2).unwrap_err(),
        "Output scaling for convolution layer different from 1"
    );
    let out = layer.quantize_op(&[0.5], vec![0.75], 3, 1 << 20).unwrap();
    assert_eq!(out.output_scalings, vec![0.75]);
    let requant = out.requant_layer.unwrap();
    assert_eq!(requant.right_shift, 3);
    // two products of seven bits each, and the bias
    assert_eq!(requant.intermediate_bit_size, 16);
    assert_eq!((requant.fp_scale + 3) % 8, 0);
    assert_eq!(bias_range(), (-32767, 32767));
}

#[test]
fn other_layers_keep_their_scaling_factors() {
    let relu: Layer<Element> = Layer::Activation(Activation::Relu(Relu::new()));
    let out = relu.quantize_op(&[7, 8], vec![], 0, 1).unwrap();
    assert_eq!(out.output_scalings, vec![7, 8]);
    assert!(out.requant_layer.is_none());
    let conv = Convolution::new(
        Tensor::new(vec![1, 1, 1, 1], vec![0.5]),
        Tensor::new(vec![1], vec![0.5]),
    )
    .quantize(Tensor::new(vec![1, 1, 1, 1], vec![64]), Tensor::new(vec![1], vec![1]));
    assert_eq!(
        Layer::Convolution(conv).quantize_op(&[1, 2], vec![3], 0, 1).unwrap_err(),
        "Number of input scaling factor for convolution layer different from 1"
    );
}

#[test]
fn results_of_a_dense_layer_stay_in_its_range() {
    // the greatest values, with both signs
    let dense = Dense::new(
        Tensor::new(vec![2, 3], vec![128, 128, 128, -128, -128, -128]),
        Tensor::new(vec![2], vec![16384, -16384]),
    );
    assert_eq!(dense.output_range(-127, 127), (-65536, 65536));
    let out = dense.evaluate(&[&Tensor::new(vec![3], vec![128, 128, 128])]).unwrap();
    assert_eq!(out.outputs()[0].get_data().to_vec(), vec![65536, -65536]);
}

#[test]
fn a_filter_as_a_matrix() {
    let dense = Dense::new(
        Tensor::new(vec![1, 2, 2, 2], vec![1; 8]),
        Tensor::new(vec![4], vec![0, 0, 3, 0]),
    );
    assert_eq!(dense.describe(), "Dense: (4x8) + bias (true)");
    assert_eq!(dense.output_bitsize(), 18);
    assert_eq!(dense.output_range(0, 0), (-(1 << 18), 1 << 18));
}

#[test]
fn the_output_of_a_convolution_is_cleared() {
    let filter = Tensor::new(vec![1, 1, 2, 2], vec![1, 2, 3, 4]);
    let conv = Convolution::new(filter, Tensor::new(vec![1], vec![5]))
        .into_padded_and_ffted(&[1, 3, 3]);
    let data = vec![1, 2, 3, 0, 4, 5, 6, 0, 7, 8, 9, 0, 0, 0, 0, 0];
    let input = Tensor::new(vec![1, 4, 4], data);
    let (out, proving) = conv.op(&input, &[1, 3, 3]);
    let real = conv.filter.real_shape();
    assert_eq!(out.get_shape(), padded_conv2d_shape(&input.get_shape(), &real));
    let before = Tensor::new(out.get_shape(), proving.output_as_element);
    let cleared = clear_garbage(&before, &conv2d_shape(&[1, 3, 3], &conv.unpadded_shape));
    assert_eq!(cleared.get_data().to_vec(), out.get_data().to_vec());
    // 1 + 4 + 12 + 20 + 5
    assert_eq!(out.get_data()[0], 42);
}

#[test]
fn pairs_come_apart_up_to_the_first_error() {
    let good: Vec<Result<(u8, char), &str>> = vec![Ok((1, 'a')), Ok((2, 'b'))];
    assert_eq!(try_unzip(good), Ok((vec![1, 2], vec!['a', 'b'])));
    let bad: Vec<Result<(u8, char), &str>> = vec![Ok((1, 'a')), Err("x"), Err("y")];
    assert_eq!(try_unzip(bad), Err("x"));
}

#[test]
fn the_range_of_a_very_wide_matrix() {
    let shape: Vec<usize> = vec![1, 1 << 33];
    let matrix: Tensor<Element> = Tensor { data: vec![], shape: shape.clone(), og_shape: shape };
    let dense = Dense::new(matrix, Tensor::new(vec![1], vec![0]));
    assert_eq!(dense.output_range(0, 0), (-(1 << 48), 1 << 48));
}

#[test]
fn all_but_zero_have_inverses() {
    assert!(F::zero().invert().is_none());
    // the modulus stands for zero
    assert!(F { c0: 0xFFFF_FFFF_0000_0001, c1: 0 }.invert().is_none());
    for x in [F::from_u64(7), F { c0: 0, c1: 1 }, F { c0: 3, c1: 5 }] {
        assert!(x.times(x.invert().unwrap()).same(&F::one()));
    }
}

#[test]
fn claims_about_an_activation_go_together() {
    let relu = Activation::Relu(Relu::new());
    let input = Tensor::new(vec![4], vec![-3, 0, 5, -1]);
    let output = relu.evaluate(&[&input]).unwrap().outputs()[0].clone();
    let columns = relu.lookup_columns(&input, &output);
    let claim = |column: &[F], a: u64, b: u64| {
        let point = vec![F::from_u64(a), F::from_u64(b)];
        let eval = mle_evaluate(column, &point);
        Claim::new(point, eval)
    };
    let last = claim(&output.evals_flat(), 2, 3);
    let lookup = vec![claim(&columns.columns[0], 5, 7), claim(&columns.columns[1], 5, 7)];
    let accumulated = claim(&columns.columns[1], 11, 13);
    // what is accumulated is about the output
    for c in ActivationCtx::claims_to_accumulate(&last, &lookup) {
        assert!(c.eval.same(&mle_evaluate(&output.evals_flat(), &c.point)));
    }
    let outcome = ActivationCtx::finish(&lookup[0], &accumulated);
    let c = &outcome.next_claim;
    assert!(c.eval.same(&mle_evaluate(&input.evals_flat(), &c.point)));
    for (c, column) in outcome.witness_claims.iter().zip(&columns.columns) {
        assert!(c.eval.same(&mle_evaluate(column, &c.point)));
    }
}

#[test]
fn loading_is_laying_out_and_preparing() {
    let model: Model<Element> =
        Model::new_from_input_shapes(vec![vec![1, 3]], PaddingMode::Padding);
    let loaded = model.load_input_flat(vec![vec![7, 8, 9]]).unwrap();
    let made = model.prepare_inputs(vec![Tensor::new(vec![1, 3], vec![7, 8, 9])]).unwrap();
    assert_eq!(loaded[0].get_shape(), vec![1, 4]);
    assert_eq!(loaded[0].get_shape(), made[0].get_shape());
    assert_eq!(loaded[0].get_data().to_vec(), vec![7, 8, 9, 0]);
    assert_eq!(loaded[0].get_data().to_vec(), made[0].get_data().to_vec());
    assert_eq!(
        model.load_input_flat(vec![]).unwrap_err().message,
        "Unexpected number of inputs tensors: expected 1, found 0"
    );
}
