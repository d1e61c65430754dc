//! Dense layers and their padding.
use zkml::Tensor;
use zkml::layers::dense::Dense;
use zkml::layers::provable::PaddingMode;
use zkml::quantization::Element;

#[test]
fn test_dense_pad_next_power_of_two() {
    // Create a Dense layer with non-power-of-two dimensions
    let matrix =
        Tensor::<Element>::matix_from_coeffs(vec![vec![1, 2, 3], vec![4, 5, 6], vec![7, 8, 9]])
            .unwrap();

    let bias = Tensor::<Element>::new(vec![3], vec![10, 11, 12]);

    let dense = Dense::new(matrix, bias);

    // Pad to next power of two
    let padded = dense.pad_next_power_of_two();

    // Check padded dimensions are powers of two
    let padded_dims = padded.matrix.get_shape();
    assert_eq!(padded_dims[0], 4); // Next power of 2 after 3
    assert_eq!(padded_dims[1], 4); // Next power of 2 after 3

    // Check bias is padded
    let bias_dims = padded.bias.get_shape();
    assert_eq!(bias_dims[0], 4); // Next power of 2 after 3

    // Check original values are preserved
    assert_eq!(padded.matrix.get_data()[0], 1);
    assert_eq!(padded.matrix.get_data()[1], 2);
    assert_eq!(padded.matrix.get_data()[2], 3);
    assert_eq!(padded.matrix.get_data()[4], 4);
    assert_eq!(padded.matrix.get_data()[8], 7);

    // Check added values are zeros
    assert_eq!(padded.matrix.get_data()[3], 0);
    assert_eq!(padded.matrix.get_data()[7], 0);
    assert_eq!(padded.matrix.get_data()[15], 0);

    // Check bias values
    assert_eq!(padded.bias.get_data()[0], 10);
    assert_eq!(padded.bias.get_data()[1], 11);
    assert_eq!(padded.bias.get_data()[2], 12);
    assert_eq!(padded.bias.get_data()[3], 0); // Padding
}

#[test]
fn test_dense_pad_already_power_of_two() {
    // Create a Dense layer with power-of-two dimensions
    let matrix = Tensor::<Element>::matix_from_coeffs(vec![
        vec![1, 2, 3, 4],
        vec![5, 6, 7, 8],
        vec![9, 10, 11, 12],
        vec![13, 14, 15, 16],
    ])
    .unwrap();

    let bias = Tensor::<Element>::new(vec![4], vec![20, 21, 22, 23]);

    let dense = Dense::new(matrix, bias);

    // Pad to next power of two
    let padded = dense.clone().pad_next_power_of_two();

    // Check dimensions remain the same
    let padded_dims = padded.matrix.get_shape();
    assert_eq!(padded_dims[0], 4);
    assert_eq!(padded_dims[1], 4);

    // Check bias dimensions remain the same
    let bias_dims = padded.bias.get_shape();
    assert_eq!(bias_dims[0], 4);

    // Check values are preserved
    for i in 0..16 {
        assert_eq!(padded.matrix.get_data()[i], dense.matrix.get_data()[i]);
    }

    for i in 0..4 {
        assert_eq!(padded.bias.get_data()[i], dense.bias.get_data()[i]);
    }
}

#[test]
fn test_dense_pad_mixed_dimensions() {
    // Create a Dense layer with one power-of-two dimension and one non-power-of-two
    let matrix = Tensor::<Element>::matix_from_coeffs(vec![
        vec![1, 2, 3, 4],
        vec![5, 6, 7, 8],
        vec![9, 10, 11, 12],
    ])
    .unwrap();

    let bias = Tensor::<Element>::new(vec![3], vec![20, 21, 22]);

    let dense = Dense::new(matrix, bias);

    // Pad to next power of two
    let padded = dense.pad_next_power_of_two();

    // Check dimensions are padded correctly
    let padded_dims = padded.matrix.get_shape();
    assert_eq!(padded_dims[0], 4); // Next power of 2 after 3
    assert_eq!(padded_dims[1], 4); // Already a power of 2

    // Check bias is padded
    let bias_dims = padded.bias.get_shape();
    assert_eq!(bias_dims[0], 4); // Next power of 2 after 3

    // Check original values are preserved and padding is zeros
    assert_eq!(padded.matrix.get_data()[0], 1);
    assert_eq!(padded.matrix.get_data()[4], 5);
    assert_eq!(padded.matrix.get_data()[8], 9);
    assert_eq!(padded.matrix.get_data()[12], 0); // Padding

    // Check bias values
    assert_eq!(padded.bias.get_data()[0], 20);
    assert_eq!(padded.bias.get_data()[1], 21);
    assert_eq!(padded.bias.get_data()[2], 22);
    assert_eq!(padded.bias.get_data()[3], 0); // Padding
}

#[test]
fn test_quantization_with_padded_dense() {
    // Create input data that needs quantization
    let input_data = vec![0.5f32, -0.3f32, 0.1f32];

    // Quantize the input: the range from -1 to 1 goes to the range from -127 to 127
    let quantized_input: Vec<Element> =
        input_data.iter().map(|x| (x * 127.0f32).round() as Element).collect();
    assert_eq!(quantized_input, vec![64, -38, 13]);

    // Create a Dense layer
    let matrix = Tensor::<Element>::matix_from_coeffs(vec![vec![1, 2, 3], vec![4, 5, 6]]).unwrap();

    let bias = Tensor::<Element>::new(vec![2], vec![10, 11]);

    let dense = Dense::new(matrix, bias);

    // Pad the dense layer
    let padded = dense.clone().pad_next_power_of_two();

    // Create input tensor
    let input_tensor = Tensor::<Element>::new(vec![3], quantized_input);

    // Apply the dense operation on both original and padded
    let output = dense.evaluate(&[&input_tensor]).unwrap().outputs()[0].clone();
    let padded_output = padded.evaluate(&[&input_tensor.pad_1d(4)]).unwrap().outputs()[0].clone();

    // Check that the result is correct (for the non-padded parts)
    for i in 0..2 {
        assert_eq!(output.get_data()[i], padded_output.get_data()[i]);
    }
    assert_eq!(output.get_data().to_vec(), vec![37, 155]);
    assert_eq!(padded_output.get_data().to_vec(), vec![37, 155]);
}

#[test]
fn dense_sizes_and_text() {
    let matrix = Tensor::<Element>::matix_from_coeffs(vec![vec![1, 2, 3], vec![4, 5, 6]]).unwrap();
    let dense = Dense::new(matrix, Tensor::new(vec![2], vec![0, 0]));
    assert_eq!(dense.nrows(), 2);
    assert_eq!(dense.ncols(), 3);
    assert_eq!(dense.output_shape(&[3], PaddingMode::NoPadding), vec![2]);
    assert_eq!(dense.describe(), "Dense: (2x3) + bias (false)");
    assert!(dense.is_provable());
}

#[test]
fn dense_fails_on_two_inputs_and_on_overflow() {
    let matrix = Tensor::<Element>::matix_from_coeffs(vec![vec![Element::MAX]]).unwrap();
    let dense = Dense::new(matrix, Tensor::new(vec![1], vec![0]));
    let x = Tensor::new(vec![1], vec![2]);
    assert!(dense.evaluate(&[&x, &x]).is_err());
    assert!(dense.evaluate(&[&x]).is_err());
    let y = Tensor::new(vec![1], vec![1]);
    assert_eq!(
        dense.evaluate(&[&y]).unwrap().outputs()[0].get_data().to_vec(),
        vec![Element::MAX]
    );
}

#[test]
fn ragged_rows_are_no_matrix() {
    assert!(Tensor::<Element>::matix_from_coeffs(vec![vec![1, 2], vec![3]]).is_none());
}
