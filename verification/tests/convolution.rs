//! Convolutions: by transforms and entry by entry, padded and not.
use zkml::Tensor;
use zkml::layers::activation::{Activation, Relu};
use zkml::layers::convolution::{
    Convolution, clear_garbage, conv2d_shape, conv2d_shape_mode, new_clearing_tensor,
    padded_conv2d_shape,
};
use zkml::layers::dense::Dense;
use zkml::layers::pooling::{Maxpool2D, Pooling, maxpool2d_shape};
use zkml::layers::provable::PaddingMode;
use zkml::quantization::Element;
use zkml::{NextPowerOfTwo, argmax};

/// A source of numbers that look random.
struct Source(u64);

impl Source {
    fn next(&mut self) -> u64 {
        self.0 ^= self.0 << 13;
        self.0 ^= self.0 >> 7;
        self.0 ^= self.0 << 17;
        self.0
    }

    fn tensor(&mut self, shape: &[usize]) -> Tensor<Element> {
        let n: usize = shape.iter().product();
        let data = (0..n).map(|_| (self.next() % 255) as Element - 127).collect();
        Tensor::new(shape.to_vec(), data)
    }
}

fn split_garbage(
    fft_output: &Tensor<Element>,
    not_padded_shape: &[usize],
) -> (Vec<Element>, Vec<Element>) {
    let mut not_padded_shape = not_padded_shape.to_vec();
    not_padded_shape.remove(0);
    let shape = fft_output.get_shape();
    let mut garbage = Vec::new();
    let mut valid = Vec::new();
    for i in 0..shape[0] {
        for j in 0..shape[1] {
            for k in 0..shape[2] {
                let index = i * shape[1] * shape[2] + j * shape[2] + k;
                let elem = fft_output.get_data()[index];
                if i < not_padded_shape[0] && j < not_padded_shape[1] && k < not_padded_shape[2] {
                    valid.push(elem);
                } else {
                    garbage.push(elem);
                }
            }
        }
    }
    (valid, garbage)
}

fn subtest_clearing_methods(padded_tensor: &Tensor<Element>, unpadded_shape: &[usize]) {
    let clearing_tensor = new_clearing_tensor(unpadded_shape, &padded_tensor.get_shape());
    let cleared_tensor = padded_tensor.flatten().mul(&clearing_tensor);
    let auto_cleared_tensor = clear_garbage(padded_tensor, unpadded_shape);
    assert_eq!(cleared_tensor.get_data(), auto_cleared_tensor.get_data());
}

#[test]
fn test_conv_clearing_garbage() {
    let shape: Vec<usize> = vec![5, 18, 18];
    let padded_shape = shape.iter().map(|x| x.next_power_of_two()).collect::<Vec<usize>>();
    let tensor = Source(1).tensor(&padded_shape);
    subtest_clearing_methods(&tensor, &shape);
}

#[test]
fn test_conv2d_shape() {
    let input_shape: Vec<usize> = vec![1, 23, 23];
    let conv_shape_og: Vec<usize> = vec![7, 1, 3, 3];
    let output_shape = conv2d_shape(&input_shape, &conv_shape_og);
    assert_eq!(output_shape, vec![7, 21, 21]);
}

#[test]
fn test_conv_unpadded_to_padded() {
    let mut source = Source(2);
    let input_shape: Vec<usize> = vec![1, 23, 23];
    let conv_shape_og: Vec<usize> = vec![7, 1, 3, 3];
    let weight = source.tensor(&conv_shape_og);
    let bias: Tensor<Element> = Tensor::zeros(vec![conv_shape_og[0]]);
    let input = source.tensor(&input_shape);
    let output = input.conv2d(&weight, &bias, 1);
    // now try to pad the input and conv and use the fft one
    let padded_input = input.pad_next_power_of_two();
    let fft_conv = Convolution::new(weight.clone(), bias).into_padded_and_ffted(&input_shape);
    let (fft_output, conv_data) = fft_conv.op(&padded_input, &input_shape);
    let (valid, _garbage) = split_garbage(&fft_output, &output.get_shape());
    assert_eq!(
        valid,
        output.get_data().to_vec(),
        "valid {:?} is not equal to {:?}",
        &valid[..40],
        &output.get_data()[..40]
    );
    // make sure the shape matches between what we can compute from unpadded and the actual fft output
    let exp_output_shape = conv2d_shape(&input_shape, &conv_shape_og);
    let mut given_output_shape = output.get_shape();
    given_output_shape.remove(0);
    assert_eq!(given_output_shape, exp_output_shape);

    // make sure we can reconstruct the fft output purely from conv_data since it's needed for proving
    let weight_padded_shape =
        weight.get_shape().iter().map(|x| x.next_power_of_two()).collect::<Vec<_>>();
    let fft_output_shape = conv2d_shape(&padded_input.get_shape(), &weight_padded_shape);
    let fft_output_shape =
        fft_output_shape.into_iter().map(|x| x.next_power_of_two()).collect::<Vec<usize>>();
    assert_eq!(fft_output.get_shape(), fft_output_shape);
    let fft_output_data = conv_data.output_as_element;
    let reconstructed_fft_tensor = Tensor::new(fft_output_shape.clone(), fft_output_data);
    subtest_clearing_methods(&reconstructed_fft_tensor, &output.get_shape());
    let hadamard_clearing = new_clearing_tensor(&output.get_shape(), &fft_output_shape);
    let hadamard_cleared = reconstructed_fft_tensor.flatten().mul(&hadamard_clearing);
    assert_eq!(hadamard_cleared.get_data(), fft_output.get_data());
}

#[test]
fn test_conv_padding_garbage() {
    let mut source = Source(3);
    let input_shape: Vec<usize> = vec![1, 23, 23];
    let conv_shape_og: Vec<usize> = vec![7, 1, 3, 3];

    // wieght of the filter
    let w1 = source.tensor(&conv_shape_og);
    let bias1: Tensor<Element> = Tensor::zeros(vec![conv_shape_og[0]]);
    // creation of the padded and fft'd convolution
    let fft_conv = Convolution::new(w1.clone(), bias1.clone()).into_padded_and_ffted(&input_shape);
    let input = source.tensor(&input_shape);
    let padded_input = input.pad_next_power_of_two();
    let (fft_output, _) = fft_conv.op(&padded_input, &input_shape);
    // just normal convolution
    let normal_output = input.conv2d(&w1, &bias1, 1);

    // Flatten for the dense layer
    let flat_fft_output = fft_output.flatten();
    let flat_normal_output = normal_output.flatten();
    // Check that the garbage and valid parts are correct
    let (valid, garbage) = split_garbage(&fft_output, &normal_output.get_shape());
    assert!(valid.len() == flat_normal_output.get_data().len());
    assert_eq!(valid, flat_normal_output.get_data().to_vec());
    assert!(!garbage.is_empty());
    let (valid, garbage) = split_garbage(
        &Tensor::new(fft_output.get_shape(), flat_fft_output.get_data().to_vec()),
        &normal_output.get_shape(),
    );
    // at this point the garbage should be all zeros and the valid should be the same as the non fft output as before
    assert!(garbage.iter().all(|x| *x == 0));
    assert!(valid == flat_normal_output.get_data().to_vec());

    // dense output to REMOVE garbage - even tho it is only zero now we still need to remove it to get the right shape
    // dense layer should have exactly the same number of columns as the flat normal output
    let ncols = flat_normal_output.get_shape()[0];
    let nrows = 10usize;
    let dense_shape = vec![nrows, ncols];
    let dense = Dense::new(
        Tensor::new(dense_shape.clone(), vec![1; dense_shape.iter().product()]),
        Tensor::zeros(vec![dense_shape[0]]),
    );
    // create the padded version:
    // take the "conv2d"input shape
    let conv_input_shape = conv2d_shape(&input_shape, &w1.get_shape());
    let conv_input_shape_padded = NextPowerOfTwo::next_power_of_two(&conv_input_shape);
    let dense_shape_padded =
        vec![nrows.next_power_of_two(), flat_fft_output.get_shape()[0].next_power_of_two()];
    let mut padded_dense = dense.clone();
    padded_dense.matrix = padded_dense.matrix.pad_matrix_to_ignore_garbage(
        &conv_input_shape,
        &conv_input_shape_padded,
        &dense_shape_padded,
    );
    let padded_nrows = padded_dense.nrows();
    padded_dense.bias = padded_dense.bias.pad_1d(padded_nrows);
    let no_garbage_fft_output =
        padded_dense.evaluate(&[&flat_fft_output]).unwrap().outputs()[0].clone();
    let no_garbage_normal_output =
        dense.evaluate(&[&flat_normal_output]).unwrap().outputs()[0].clone();
    let max_rows = dense.nrows();
    assert_eq!(
        &no_garbage_fft_output.get_data()[..max_rows],
        &no_garbage_normal_output.get_data()[..]
    );
    assert!(no_garbage_fft_output.get_data()[max_rows..].iter().all(|x| *x == 0));
}

#[test]
fn test_conv_fft_vs_naive() {
    let mut source = Source(4);
    let n_w = 1 << 2;
    let k_w = 1 << 0;
    let k_x = 1 << 0;

    let mut input_shape_og = vec![k_x, 256, 256];
    let mut input_shape_padded = NextPowerOfTwo::next_power_of_two(&input_shape_og);
    let filter = source.tensor(&[k_w, k_x, n_w, n_w]);
    let bias = source.tensor(&[k_w]);
    let input = source.tensor(&input_shape_og);

    let output = input.conv2d(&filter, &bias, 1);
    let dims = filter.get_shape();
    let fft_conv =
        Convolution::new(filter.clone(), bias).into_padded_and_ffted(&input_shape_padded);
    let mut fft_input = input.clone();
    fft_input.pad_to_shape(input_shape_padded.clone());
    let (fft_output, _proving_data) = fft_conv.op(&fft_input, &input_shape_og);

    input_shape_og = conv2d_shape(&input_shape_og, &filter.get_shape());
    input_shape_padded =
        NextPowerOfTwo::next_power_of_two(&conv2d_shape(&input_shape_padded, &dims));

    // add a RELU layer
    let relu = Activation::Relu(Relu::new());
    let output = relu.evaluate(&[&output]).unwrap().outputs()[0].clone();
    let fft_output = relu.evaluate(&[&fft_output]).unwrap().outputs()[0].clone();

    // make a pooled output
    let pool = Pooling::Maxpool2D(Maxpool2D::default());
    let output = pool.op(&output);
    let fft_output = pool.op(&fft_output);
    input_shape_og = maxpool2d_shape(&input_shape_og);
    input_shape_padded = maxpool2d_shape(&input_shape_padded);

    // again another conv
    let filter = source.tensor(&[k_w, k_x, n_w, n_w]);
    let bias = source.tensor(&[k_w]);
    let output = output.conv2d(&filter, &bias, 1);
    let dims = filter.get_shape();
    let fft_conv =
        Convolution::new(filter.clone(), bias).into_padded_and_ffted(&input_shape_padded);
    let mut fft_input = fft_output;
    fft_input.pad_to_shape(input_shape_padded.clone());
    let (fft_output, _proving_data) = fft_conv.op(&fft_input, &input_shape_og);

    input_shape_og = conv2d_shape(&input_shape_og, &filter.get_shape());
    input_shape_padded =
        NextPowerOfTwo::next_power_of_two(&conv2d_shape(&input_shape_padded, &dims));

    // Add another RELU
    let relu = Activation::Relu(Relu::new());
    let output = relu.evaluate(&[&output]).unwrap().outputs()[0].clone();
    let fft_output = relu.evaluate(&[&fft_output]).unwrap().outputs()[0].clone();

    // make a pooled output
    let pool = Pooling::Maxpool2D(Maxpool2D::default());
    let output = pool.op(&output);
    let fft_output = pool.op(&fft_output);
    input_shape_og = maxpool2d_shape(&input_shape_og);
    input_shape_padded = maxpool2d_shape(&input_shape_padded);

    // now dense layer - first there is a "reshape" that flattens the input
    let ignore_garbage_pad = (input_shape_og.clone(), input_shape_padded.clone());
    input_shape_og = vec![input_shape_og.iter().product()];
    input_shape_padded = vec![input_shape_padded.iter().product()];

    let nrows = 10usize;
    let ncols = input_shape_og[0];
    let weight = source.tensor(&[nrows, ncols]);
    let bias = source.tensor(&[nrows]);
    let mut new_cols = ncols.next_power_of_two();
    let new_rows = nrows.next_power_of_two();
    if new_cols < input_shape_padded[0] {
        // must make sure that we can apply the input to this padded dense
        new_cols = input_shape_padded[0];
    }
    let conv_shape_og = ignore_garbage_pad.0.clone();
    let conv_shape_pad = ignore_garbage_pad.1.clone();
    let dense = Dense::new(weight.clone(), bias.clone());
    let dense_output = dense.evaluate(&[&output]).unwrap().outputs()[0].clone();

    let fft_weight =
        weight.pad_matrix_to_ignore_garbage(&conv_shape_og, &conv_shape_pad, &[new_rows, new_cols]);
    let fft_bias = bias.pad_1d(new_rows);
    let fft_dense = Dense::new(fft_weight.clone(), fft_bias.clone());
    let fft_dense_output = fft_dense.evaluate(&[&fft_output]).unwrap().outputs()[0].clone();
    assert_eq!(
        dense_output.get_data()[..weight.nrows_2d()],
        fft_dense_output.get_data()[..weight.nrows_2d()]
    );
}

#[test]
fn convolution_of_known_values() {
    // one filter that adds up the corners of 2 x 2 windows, with a bias
    let input = Tensor::new(vec![1, 3, 3], vec![1, 2, 3, 4, 5, 6, 7, 8, 9]);
    let filter = Tensor::new(vec![1, 1, 2, 2], vec![1, 0, 0, -1]);
    let bias = Tensor::new(vec![1], vec![10]);
    let output = input.conv2d(&filter, &bias, 1);
    assert_eq!(output.get_shape(), vec![1, 1, 2, 2]);
    assert_eq!(output.get_data().to_vec(), vec![6, 6, 6, 6]);
    // the same by transforms
    let conv = Convolution::new(filter, bias).into_padded_and_ffted(&[1, 3, 3]);
    let (fft_output, _) = conv.op(&input.pad_next_power_of_two(), &[1, 3, 3]);
    let (valid, garbage) = split_garbage(&fft_output, &[1, 1, 2, 2]);
    assert_eq!(valid, vec![6, 6, 6, 6]);
    assert!(garbage.iter().all(|x| *x == 0));
}

#[test]
fn shapes_of_convolutions() {
    assert_eq!(padded_conv2d_shape(&[1, 23, 23], &[7, 1, 3, 3]), vec![8, 32, 32]);
    assert_eq!(
        conv2d_shape_mode(&[1, 23, 23], &[7, 1, 3, 3], PaddingMode::NoPadding),
        vec![7, 21, 21]
    );
    assert_eq!(
        conv2d_shape_mode(&[1, 23, 23], &[7, 1, 3, 3], PaddingMode::Padding),
        vec![8, 32, 32]
    );
}

#[test]
fn a_transformed_filter_keeps_its_shape_in_mind() {
    let conv = Convolution::new(Source(5).tensor(&[3, 2, 3, 3]), Tensor::zeros(vec![3]))
        .into_padded_and_ffted(&[2, 9, 9]);
    assert_eq!(conv.kw(), 4);
    assert_eq!(conv.kx(), 2);
    assert!(conv.is_provable());
    // too many inputs
    let x = Source(6).tensor(&[2, 16, 16]);
    assert!(conv.evaluate(&[&x, &x], &[vec![2, 9, 9]]).is_err());
    let out = conv.evaluate(&[&x], &[vec![2, 9, 9]]);
    assert!(out.is_ok());
}

#[test]
fn clearing_twice_is_clearing_once() {
    let t = Source(7).tensor(&[2, 4, 4]);
    let once = clear_garbage(&t, &[2, 3, 3]);
    let twice = clear_garbage(&once, &[2, 3, 3]);
    assert_eq!(once.get_data(), twice.get_data());
    assert_eq!(once.get_data()[3], 0);
    assert_eq!(once.get_data()[0], t.get_data()[0]);
}

#[test]
fn pooling_takes_the_greatest() {
    let t = Tensor::new(vec![1, 2, 4], vec![1, 7, 3, 4, 5, 2, 9, -1]);
    let pooled = Pooling::Maxpool2D(Maxpool2D::default()).op(&t);
    assert_eq!(pooled.get_shape(), vec![1, 1, 2]);
    assert_eq!(pooled.get_data().to_vec(), vec![7, 9]);
    assert_eq!(argmax(pooled.get_data()), Some(1));
}
