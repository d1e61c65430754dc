//! Models: building, running, describing.
use std::collections::HashMap;
use zkml::layers::Layer;
use zkml::layers::activation::{Activation, Relu};
use zkml::layers::convolution::{Convolution, SchoolBookConv};
use zkml::layers::dense::Dense;
use zkml::layers::flatten::Flatten;
use zkml::layers::pooling::{Maxpool2D, Pooling};
use zkml::layers::provable::{Edge, Node, NodeId, PaddingMode};
use zkml::layers::requant::Requant;
use zkml::mle::{fix_high_variables, mle_evaluate};
use zkml::model::order::forward_order;
use zkml::field::GoldilocksExt2;
use zkml::{Element, Model, Tensor};

/// A source of numbers that look random.
struct Source(u64);

impl Source {
    fn next(&mut self) -> u64 {
        self.0 ^= self.0 << 13;
        self.0 ^= self.0 >> 7;
        self.0 ^= self.0 << 17;
        self.0
    }

    fn range(&mut self, from: usize, to: usize) -> usize {
        from + (self.next() as usize) % (to - from)
    }

    fn tensor(&mut self, shape: &[usize]) -> Tensor<Element> {
        let n: usize = shape.iter().product();
        let data = (0..n).map(|_| (self.next() % 255) as Element - 127).collect();
        Tensor::new(shape.to_vec(), data)
    }

    fn dense(&mut self, nrows: usize, ncols: usize) -> Dense<Element> {
        let matrix = self.tensor(&[nrows, ncols]);
        let bias = self.tensor(&[nrows]);
        Dense::new(matrix, bias)
    }
}

/// The requantisation that brings the outputs of the layer back into range.
fn requant_for(dense: &Dense<Element>) -> Requant {
    let (min_output, max_output) = dense.output_range(-127, 127);
    let output_scale = ((max_output - min_output) as f64 / 254.0) as f32;
    let max_model = dense
        .matrix
        .get_data()
        .iter()
        .chain(dense.bias.get_data().iter())
        .map(|x| x.abs())
        .max()
        .unwrap() as f32;
    let m = (max_model * 2.0 / 254.0) / output_scale;
    let log_m = m.log2();
    let int_part = log_m.trunc().abs() as usize;
    let epsilon = 2.0f32.powf(log_m.fract());
    let fp_scale = Requant::fixed_point_scale(int_part);
    let multiplier = (epsilon * (1u64 << fp_scale) as f32).round() as Element;
    Requant::new(int_part, multiplier, dense.output_bitsize())
}

/// A model with the given number of layers, and an input for it.
fn random_model(num_dense_layers: usize, source: &mut Source) -> (Model<Element>, Vec<Tensor<Element>>) {
    let mut last_row: usize = source.range(3, 15);
    let mut model = Model::new_from_input_shapes(
        vec![vec![last_row.next_power_of_two()]],
        PaddingMode::NoPadding,
    );
    let mut last_node_id = None;
    for selector in 0..num_dense_layers {
        if selector % 2 == 0 {
            let (nrows, ncols) = (source.range(3, 15), last_row);
            last_row = nrows;
            let dense = source.dense(nrows.next_power_of_two(), ncols.next_power_of_two());
            let requant = requant_for(&dense);
            last_node_id =
                Some(model.add_consecutive_layer(Layer::Dense(dense), last_node_id).unwrap());
            last_node_id =
                Some(model.add_consecutive_layer(Layer::Requant(requant), last_node_id).unwrap());
        } else {
            last_node_id = Some(
                model
                    .add_consecutive_layer(
                        Layer::Activation(Activation::Relu(Relu::new())),
                        last_node_id,
                    )
                    .unwrap(),
            );
        }
    }
    model.route_output(None).unwrap();
    let inputs = model.input_shapes().iter().map(|shape| source.tensor(shape)).collect();
    (model, inputs)
}

#[test]
fn test_model_long() {
    let (model, input) = random_model(3, &mut Source(11));
    let trace = model.run(&input).unwrap();
    // the last layer is a requantisation
    for x in trace.outputs().unwrap()[0].get_data() {
        assert!(-127 <= *x && *x <= 127);
    }
}

fn check_tensor_consistency(real_tensor: &Tensor<Element>, padded_tensor: &Tensor<Element>) {
    let shape = real_tensor.get_shape();
    let n_x = padded_tensor.get_shape()[1];
    for i in 0..shape[0] {
        for j in 0..shape[1] {
            for k in 0..shape[1] {
                assert!(
                    real_tensor.get_data()[i * shape[1] * shape[1] + j * shape[1] + k]
                        == padded_tensor.get_data()[i * n_x * n_x + j * n_x + k],
                    "Error in tensor consistency"
                );
            }
        }
    }
}

#[test]
fn test_cnn() {
    let mut source = Source(12);
    let mut in_dimensions: Vec<Vec<usize>> =
        vec![vec![1, 32, 32], vec![16, 29, 29], vec![4, 26, 26]];

    for i in 0..in_dimensions.len() {
        for j in 0..in_dimensions[0].len() {
            in_dimensions[i][j] = (in_dimensions[i][j]).next_power_of_two();
        }
    }

    let shape1 = vec![1 << 4, 1 << 0, 1 << 2, 1 << 2]; // [16, 1, 4, 4]
    let shape2 = vec![1 << 2, 1 << 4, 1 << 2, 1 << 2]; // [4, 16, 4, 4]
    let shape3 = vec![1 << 1, 1 << 2, 1 << 2, 1 << 2]; // [2, 4, 4, 4]
    let bias1: Tensor<Element> = Tensor::zeros(vec![shape1[0]]);
    let bias2: Tensor<Element> = Tensor::zeros(vec![shape2[0]]);
    let bias3: Tensor<Element> = Tensor::zeros(vec![shape3[0]]);

    let trad_conv1: Tensor<Element> = source.tensor(&shape1);
    let trad_conv2: Tensor<Element> = source.tensor(&shape2);
    let trad_conv3: Tensor<Element> = source.tensor(&shape3);

    let input_shape = vec![1, 32, 32];

    let mut model = Model::new_from_input_shapes(vec![input_shape.clone()], PaddingMode::Padding);
    let input = source.tensor(&model.input_shapes()[0]);
    let first_id = model
        .add_consecutive_layer(
            Layer::Convolution(
                Convolution::new(trad_conv1.clone(), bias1.clone())
                    .into_padded_and_ffted(&in_dimensions[0]),
            ),
            None,
        )
        .unwrap();
    let second_id = model
        .add_consecutive_layer(
            Layer::Convolution(
                Convolution::new(trad_conv2.clone(), bias2.clone())
                    .into_padded_and_ffted(&in_dimensions[1]),
            ),
            Some(first_id),
        )
        .unwrap();
    let _third_id = model
        .add_consecutive_layer(
            Layer::Convolution(
                Convolution::new(trad_conv3.clone(), bias3.clone())
                    .into_padded_and_ffted(&in_dimensions[2]),
            ),
            Some(second_id),
        )
        .unwrap();
    model.route_output(None).unwrap();

    // END TEST
    let trace = model.run(&vec![input.clone()]).unwrap();

    let mut model2 = Model::new_from_input_shapes(vec![input_shape], PaddingMode::NoPadding);
    let first_id = model2
        .add_consecutive_layer(
            Layer::SchoolBookConvolution(SchoolBookConv(Convolution::new(trad_conv1, bias1))),
            None,
        )
        .unwrap();
    let second_id = model2
        .add_consecutive_layer(
            Layer::SchoolBookConvolution(SchoolBookConv(Convolution::new(trad_conv2, bias2))),
            Some(first_id),
        )
        .unwrap();
    let _third_id = model2
        .add_consecutive_layer(
            Layer::SchoolBookConvolution(SchoolBookConv(Convolution::new(trad_conv3, bias3))),
            Some(second_id),
        )
        .unwrap();
    model2.route_output(None).unwrap();
    let trace2 = model.run(&vec![input]).unwrap();

    check_tensor_consistency(&trace2.outputs().unwrap()[0], &trace.outputs().unwrap()[0]);
}

#[test]
fn test_conv_maxpool() {
    let mut source = Source(13);
    let input_shape = vec![3usize, 32, 32];
    let shape1 = vec![6, 3, 5, 5];
    let filter = source.tensor(&shape1);
    let bias1 = source.tensor(&[shape1[0]]);

    let mut model = Model::new_from_input_shapes(vec![input_shape.clone()], PaddingMode::Padding);
    let conv_layer = model
        .add_consecutive_layer(
            Layer::Convolution(
                Convolution::new(filter.clone(), bias1.clone()).into_padded_and_ffted(&input_shape),
            ),
            None,
        )
        .unwrap();
    let _pool_layer = model
        .add_consecutive_layer(
            Layer::Pooling(Pooling::Maxpool2D(Maxpool2D::default())),
            Some(conv_layer),
        )
        .unwrap();
    model.route_output(None).unwrap();

    let input = source.tensor(&input_shape);
    let input_padded = model.prepare_inputs(vec![input]).unwrap();
    let _ = model.run(&input_padded).unwrap();
}

#[test]
fn test_model_manual_run() {
    let mut source = Source(14);
    let dense1 = source.dense(10usize.next_power_of_two(), 11usize.next_power_of_two());
    let dense2 = source.dense(7usize.next_power_of_two(), dense1.ncols().next_power_of_two());
    let input_shape = vec![dense1.ncols()];
    let input = source.tensor(&input_shape);
    let output1 = dense1.evaluate(&[&input]).unwrap().outputs()[0].clone();
    let final_output = dense2.evaluate(&[&output1]).unwrap().outputs()[0].clone();

    let mut model =
        Model::<Element>::new_from_input_shapes(vec![input_shape], PaddingMode::NoPadding);
    let first_id = model.add_consecutive_layer(Layer::Dense(dense1.clone()), None).unwrap();
    let second_id =
        model.add_consecutive_layer(Layer::Dense(dense2.clone()), Some(first_id)).unwrap();
    model.route_output(None).unwrap();

    let trace = model.run(&vec![input]).unwrap();
    assert_eq!(trace.steps.len(), 2);
    // Verify first step
    assert_eq!(trace.get_step(&first_id).unwrap().outputs()[0], output1);

    // Verify second step
    assert_eq!(trace.get_step(&second_id).unwrap().outputs()[0], final_output.clone());
    let (nrow, _) = (dense2.nrows(), dense2.ncols());
    assert_eq!(final_output.get_data().len(), nrow);
}

#[test]
fn test_model_sequential() {
    let mut source = Source(15);
    let (model, input) = random_model(1, &mut source);
    assert!(model.describe(&HashMap::new()).is_some());
    let trace = model.run(&input).unwrap();
    let dense_layers: Vec<(NodeId, Dense<Element>)> = model
        .to_unstable_iterator()
        .into_iter()
        .filter_map(|(id, l)| match l.operation {
            Layer::Dense(ref dense) => Some((id, dense.clone())),
            _ => None,
        })
        .collect();
    assert_eq!(dense_layers.len(), 1);
    let dense = &dense_layers[0].1;
    let vars = dense.matrix.nrows_2d().ilog2() as usize;
    let point1: Vec<GoldilocksExt2> = (0..vars)
        .map(|_| {
            if source.next() % 2 == 0 {
                GoldilocksExt2::zero()
            } else {
                GoldilocksExt2::one()
            }
        })
        .collect();
    let step = trace.get_step(&dense_layers[0].0).expect("Node not found");
    let output = step.outputs()[0].evals_flat();
    let computed_eval1 = mle_evaluate(&output, &point1);
    let flatten_mat1 = fix_high_variables(&dense.matrix.evals_flat(), &point1);
    let bias_eval = mle_evaluate(&dense.bias.evals_flat(), &point1);
    let computed_eval1_no_bias = computed_eval1.minus(bias_eval);
    let input_vector = trace.input[0].evals_flat();
    // since y = SUM M(j,i) x(i) + B(j)
    // then
    // y(r) - B(r) = SUM_i m(r,i) x(i)
    let mut given_eval1 = GoldilocksExt2::zero();
    for (m, x) in flatten_mat1.iter().zip(input_vector.iter()) {
        given_eval1 = given_eval1.plus(m.times(*x));
    }
    assert!(computed_eval1_no_bias.same(&given_eval1));
}

fn build_test_model(input_size: usize, source: &mut Source) -> Model<Element> {
    let input_shape = vec![input_size];
    let mut model = Model::<Element>::new_from_input_shapes(
        vec![input_shape.clone()],
        PaddingMode::NoPadding,
    );
    // add input dense layer
    // generate random dense matrix
    let ncols = input_shape[0];
    let nrows = 42;
    let dense = source.dense(nrows, ncols);
    let dense_out_shape =
        dense.output_shapes(&model.unpadded_input_shapes(), PaddingMode::NoPadding)[0].clone();
    let input_node = model
        .add_consecutive_layer(
            Layer::Dense(dense),
            None, // it's connected to the inputs of the model
        )
        .unwrap();
    // add activation layer
    let relu = Activation::Relu(Relu::new());
    let relu_node =
        model.add_consecutive_layer(Layer::Activation(relu), Some(input_node)).unwrap();
    // add another dense layer as output
    let nrows = 37;
    let ncols = dense_out_shape[0]; // it's a vector, so it has only one dimension
    let dense = source.dense(nrows, ncols);
    let output_node = model.add_consecutive_layer(Layer::Dense(dense), Some(relu_node)).unwrap();
    model.route_output(None).unwrap();

    assert_eq!(model.output_nodes()[0].0, output_node);

    model
}

#[test]
fn test_model_inference() {
    let mut source = Source(16);
    let model = build_test_model(45, &mut source);
    let input_shape = model.input_shapes()[0].clone();

    let input_tensor = source.tensor(&input_shape);
    let trace = model.run(&[input_tensor]).unwrap();
    assert_eq!(trace.steps.len(), 3);
}

#[test]
fn test_model_multiple_outputs() {
    let mut source = Source(17);
    const FIRST_INPUT_SIZE: usize = 27;
    const SECOND_INPUT_SIZE: usize = 49;
    let input_shapes = vec![vec![FIRST_INPUT_SIZE], vec![SECOND_INPUT_SIZE]];
    let mut model = Model::<Element>::new_from_input_shapes(input_shapes, PaddingMode::NoPadding);
    // add first dense layer
    // generate random dense matrix
    let dense = source.dense(42, FIRST_INPUT_SIZE);
    let first_dense_out_shape = dense.output_shapes(
        &vec![model.unpadded_input_shapes()[0].clone()],
        PaddingMode::NoPadding,
    )[0]
    .clone();
    let first_input_dense = model
        .add_node(Node::new(vec![Edge { node: None, index: 0 }], Layer::Dense(dense)))
        .unwrap();
    // add second input dense layer
    let dense = source.dense(47, SECOND_INPUT_SIZE);
    let second_dense_out_shape = dense.output_shapes(
        &vec![model.unpadded_input_shapes()[1].clone()],
        PaddingMode::NoPadding,
    )[0]
    .clone();
    let second_input_dense = model
        .add_node(Node::new(vec![Edge { node: None, index: 1 }], Layer::Dense(dense)))
        .unwrap();
    // add Relu nodes
    let relu = Activation::Relu(Relu::new());
    let first_relu_node = model
        .add_consecutive_layer(Layer::Activation(relu.clone()), Some(first_input_dense))
        .unwrap();
    let second_relu_node =
        model.add_consecutive_layer(Layer::Activation(relu), Some(second_input_dense)).unwrap();
    // add other dense nodes
    let ncols = second_dense_out_shape[0]; // it's a vector, so it has only one dimension
    let dense = source.dense(52, ncols);
    let first_output_node =
        model.add_consecutive_layer(Layer::Dense(dense), Some(second_relu_node)).unwrap();
    let ncols = first_dense_out_shape[0];
    let dense = source.dense(17, ncols);
    let second_output_node =
        model.add_consecutive_layer(Layer::Dense(dense), Some(first_relu_node)).unwrap();

    model
        .route_output(Some(vec![
            Edge { node: Some(first_output_node), index: 0 },
            Edge { node: Some(second_output_node), index: 0 },
        ]))
        .unwrap();

    let out_node_ids: Vec<NodeId> = model.output_nodes().into_iter().map(|(id, _)| id).collect();

    assert_eq!(out_node_ids.len(), 2);
    assert!(out_node_ids.contains(&first_output_node));
    assert!(out_node_ids.contains(&second_output_node));

    assert!(model.describe(&HashMap::new()).is_some());

    // the outputs come in the order in which they were routed
    let inputs = vec![source.tensor(&[FIRST_INPUT_SIZE]), source.tensor(&[SECOND_INPUT_SIZE])];
    let trace = model.run(&inputs).unwrap();
    assert_eq!(trace.outputs().unwrap()[0].get_shape(), vec![52]);
    assert_eq!(trace.outputs().unwrap()[1].get_shape(), vec![17]);
}

/// A model of two layers that double and flatten.
fn small_model() -> (Model<Element>, NodeId, NodeId) {
    let matrix = Tensor::matix_from_coeffs(vec![vec![2, 0], vec![0, 2]]).unwrap();
    let dense = Dense::new(matrix, Tensor::new(vec![2], vec![0, 1]));
    let mut model = Model::new_from_input_shapes(vec![vec![2]], PaddingMode::NoPadding);
    let a = model.add_consecutive_layer(Layer::Dense(dense), None).unwrap();
    let b = model.add_consecutive_layer(Layer::Flatten(Flatten), Some(a)).unwrap();
    (model, a, b)
}

#[test]
fn known_values_run_through_a_model() {
    let (mut model, a, b) = small_model();
    assert_eq!((a, b), (0, 1));
    model.route_output(None).unwrap();
    let trace = model.run(&[Tensor::new(vec![2], vec![5, -3])]).unwrap();
    assert_eq!(trace.outputs().unwrap()[0].get_data().to_vec(), vec![10, -5]);
    assert_eq!(trace.get_step(&a).unwrap().outputs()[0].get_data().to_vec(), vec![10, -5]);
    assert!(trace.get_step(&7).is_none());
    assert_eq!(model.num_inputs(), 1);
    assert_eq!(model.provable_nodes().len(), 1);
}

#[test]
fn a_model_without_outputs_does_not_run() {
    let (model, _, _) = small_model();
    let e = model.run(&[Tensor::new(vec![2], vec![5, -3])]).unwrap_err();
    assert_eq!(e.message, "No outputs found for the model");
}

fn message_of_run(model: &Model<Element>) -> String {
    model.run(&[Tensor::new(vec![2], vec![5, -3])]).unwrap_err().message
}

#[test]
fn outputs_with_a_gap_do_not_run() {
    let (mut model, a, b) = small_model();
    model.route_output(None).unwrap();
    // the second edge has number one, and number zero is taken twice
    model
        .route_output(Some(vec![
            Edge { node: Some(a), index: 0 },
            Edge { node: Some(b), index: 0 },
        ]))
        .unwrap();
    assert_eq!(
        message_of_run(&model),
        "Trying to insert twice an output value for the same index 0"
    );
    let (mut model, _, b) = small_model();
    model.route_output(None).unwrap();
    model.nodes.get_mut(&b).unwrap().outputs[0].edges[0].index = 1;
    assert_eq!(
        message_of_run(&model),
        "Condition failed: `*outputs.first_key_value().unwrap().0 == 0 \
         && *outputs.last_key_value().unwrap().0 == outputs.len() - 1`"
    );
    // a wire for an output that the layer does not give
    let (mut model, _, b) = small_model();
    model.route_output(None).unwrap();
    let wires = &mut model.nodes.get_mut(&b).unwrap().outputs;
    wires.push(wires[0].clone());
    assert_eq!(
        message_of_run(&model),
        "Number of outputs found in trace for node 1 is different from the number of expected \
         outputs\n                for the node"
    );
}

#[test]
fn a_node_that_fails_stops_the_run() {
    let (mut model, a, b) = small_model();
    model.route_output(None).unwrap();
    // three entries do not go with two columns
    let e = model.run(&[Tensor::new(vec![3], vec![5, -3, 1])]).unwrap_err();
    assert_eq!(
        e.message,
        "ProvableOp generic error: The input does not go with the matrix"
    );
    let e = model.run(&[]).unwrap_err();
    assert_eq!(e.message, "Required input 0 of model, but there are only 0 inputs");
    model.nodes.get_mut(&b).unwrap().inputs[0].index = 3;
    assert_eq!(
        message_of_run(&model),
        "Requested output 3 for node 0, which has only 1 outputs"
    );
    model.nodes.get_mut(&b).unwrap().inputs[0].index = 0;
    model.nodes.get_mut(&a).unwrap().inputs[0].node = Some(b);
    assert_eq!(message_of_run(&model), "The nodes of the model cannot be put in order");
    model.nodes.get_mut(&a).unwrap().inputs[0].node = None;
    model.unpadded_input_shapes[0] = vec![7];
    assert_eq!(
        message_of_run(&model),
        "The shapes of the inputs do not go with the layer"
    );
}

#[test]
fn an_output_node_needs_one_output_only() {
    // a node with two outputs of which one is an output of the model
    let mut model: Model<Element> =
        Model::new_from_input_shapes(vec![vec![1], vec![1]], PaddingMode::NoPadding);
    let requant = Requant::new(0, 1 << 8, 16);
    let id = model.add_consecutive_layer(Layer::Requant(requant), None).unwrap();
    model.route_output(Some(vec![Edge { node: Some(id), index: 1 }])).unwrap();
    let nodes: Vec<NodeId> = model.output_nodes().into_iter().map(|(i, _)| i).collect();
    assert_eq!(nodes, vec![id]);
}

#[test]
fn messages_on_wrong_connections() {
    let (mut model, a, _) = small_model();
    let e = model
        .add_node(Node::new(vec![Edge { node: Some(9), index: 0 }], Layer::Flatten(Flatten)))
        .unwrap_err();
    assert_eq!(e.message, "Node 9 for input 0 of new node not found in model");
    let e = model
        .add_node(Node::new(vec![Edge { node: Some(a), index: 4 }], Layer::Flatten(Flatten)))
        .unwrap_err();
    assert_eq!(e.message, "Specified output number 4 for node 0, which has only 1 outputs");
    let e = model.add_consecutive_layer(Layer::Flatten(Flatten), Some(12)).unwrap_err();
    assert_eq!(e.message, "Node 12 not found in model");
    let e = model.route_output(Some(vec![Edge { node: None, index: 0 }])).unwrap_err();
    assert_eq!(e.message, "Provided output edge with no input node");
    let e = model.route_output(Some(vec![Edge { node: Some(8), index: 0 }])).unwrap_err();
    assert_eq!(e.message, "Node 8 not found");
    let e = model.route_output(Some(vec![Edge { node: Some(a), index: 3 }])).unwrap_err();
    assert_eq!(e.message, "Specified output 3 for node 0, but only 1 outputs found");
    model.route_output(None).unwrap();
    let e = model.route_output(None).unwrap_err();
    assert_eq!(e.message, "No output node found for model");
}

#[test]
fn a_requantisation_stands_between() {
    let (mut model, a, b) = small_model();
    model.route_output(None).unwrap();
    // multiplies by one half: shifts by 32 bits, one of them on account of the factor
    let right_shift = 1;
    let scale = Requant::fixed_point_scale(right_shift);
    let requant = Requant::new(right_shift, 1 << scale, 16);
    let id = model.add_requant_node(requant, a).unwrap();
    assert_eq!(id, 2);
    assert_eq!(model.nodes[&b].inputs, vec![Edge { node: Some(id), index: 0 }]);
    assert_eq!(model.nodes[&id].inputs, vec![Edge { node: Some(a), index: 0 }]);
    assert_eq!(model.nodes[&a].outputs[0].edges, vec![Edge { node: Some(id), index: 0 }]);
    assert_eq!(model.nodes[&id].outputs[0].edges, vec![Edge { node: Some(b), index: 0 }]);
    let trace = model.run(&[Tensor::new(vec![2], vec![50, -3])]).unwrap();
    assert_eq!(trace.outputs().unwrap()[0].get_data().to_vec(), vec![50, -2]);
    let e = model.add_requant_node(Requant::new(1, 1, 16), 77).unwrap_err();
    assert_eq!(e.message, "Node 77 not found in the model");
}

#[test]
fn a_requantisation_needs_consistent_connections() {
    let (mut model, a, b) = small_model();
    model.nodes.get_mut(&b).unwrap().inputs[0] = Edge { node: None, index: 0 };
    let e = model.add_requant_node(Requant::new(1, 1, 16), a).unwrap_err();
    assert_eq!(e.message, "0 input of node 1 should not be an input of the model");
    let (mut model, a, b) = small_model();
    model.nodes.get_mut(&b).unwrap().inputs[0] = Edge { node: Some(5), index: 0 };
    let e = model.add_requant_node(Requant::new(1, 1, 16), a).unwrap_err();
    assert_eq!(e.message, "0 input of node 1 should be 0");
    let (mut model, a, b) = small_model();
    model.nodes.get_mut(&b).unwrap().inputs.clear();
    let e = model.add_requant_node(Requant::new(1, 1, 16), a).unwrap_err();
    assert_eq!(e.message, "Node 1 has 0 inputs, so cannot access input 0");
    let (mut model, a, _) = small_model();
    model.nodes.get_mut(&a).unwrap().outputs[0].edges[0].node = Some(9);
    let e = model.add_requant_node(Requant::new(1, 1, 16), a).unwrap_err();
    assert_eq!(
        e.message,
        "Node 9, which should use an output of requant node 2, not found in model"
    );
}

#[test]
fn inputs_are_padded_to_what_the_model_expects() {
    let model: Model<Element> =
        Model::new_from_input_shapes(vec![vec![3], vec![2, 2]], PaddingMode::Padding);
    let inputs = model.load_input_flat(vec![vec![1, 2, 3], vec![4, 5, 6, 7]]).unwrap();
    assert_eq!(inputs[0].get_shape(), vec![4]);
    assert_eq!(inputs[0].get_data().to_vec(), vec![1, 2, 3, 0]);
    assert_eq!(inputs[1].get_data().to_vec(), vec![4, 5, 6, 7]);
    let e = model.prepare_inputs(vec![]).unwrap_err();
    assert_eq!(e.message, "Unexpected number of inputs tensors: expected 2, found 0");
    // what is beyond the number of shapes is not looked at
    let more = model.load_input_flat(vec![vec![1, 2, 3], vec![4, 5, 6, 7], vec![8]]).unwrap();
    assert_eq!(more.len(), 2);
}

#[test]
fn a_model_describes_itself() {
    let (mut model, _, _) = small_model();
    model.route_output(None).unwrap();
    assert_eq!(
        model.describe(&HashMap::new()).unwrap(),
        vec![
            "Model description:",
            "Unpadded input shapes: [[2]]",
            "Padded input shapes: [[2]]",
            "\t- 0: [Edge { node: None, index: 0 }]",
            "\t- 0: Dense: (2x2) + bias (true)",
            "\t- 1: [Edge { node: Some(0), index: 0 }]",
            "\t- 1: Flatten",
            "Output nodes:",
            "\t- 1:[OutputWire { edges: [Edge { node: None, index: 0 }] }]",
        ]
    );
}

#[test]
fn a_circle_has_no_order() {
    let (mut model, a, b) = small_model();
    assert_eq!(forward_order(&model.nodes), Some(vec![a, b]));
    model.nodes.get_mut(&a).unwrap().inputs[0] = Edge { node: Some(b), index: 0 };
    assert_eq!(forward_order(&model.nodes), None);
    assert!(model.describe(&HashMap::new()).is_none());
}
