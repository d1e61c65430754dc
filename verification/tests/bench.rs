//! Samples and rows of measurements.
use zkml::bench::{
    CSVBencher, SampleError, Samples, Strategy, parse_strategy, parse_usize,
};

#[test]
fn rows_become_csv() {
    let mut b = CSVBencher::from_headers(vec!["setup (ms)".to_string(), "note".to_string()]);
    assert!(b.check("note").is_ok());
    b.set("note", "a, \"b\"".to_string());
    assert!(b.row().is_none());
    assert!(b.to_bytes(true).is_none());
    b.set("setup (ms)", "12".to_string());
    assert_eq!(b.row().unwrap(), vec!["12", "a, \"b\""]);
    assert_eq!(b.to_bytes(true).unwrap(), b"12,\"a, \"\"b\"\"\"\n".to_vec());
    assert_eq!(
        b.to_bytes(false).unwrap(),
        b"setup (ms),note\n12,\"a, \"\"b\"\"\"\n".to_vec()
    );
}

#[test]
fn columns_are_set_once() {
    let mut b = CSVBencher::from_headers(vec!["x".to_string()]);
    assert_eq!(b.check("y").unwrap_err(), "column y non existing");
    b.set("x", "1".to_string());
    assert_eq!(
        b.check("x").unwrap_err(),
        "CSVBencher only flushes one row at a time for now (key already registered: x)"
    );
}

#[test]
fn indices_are_parsed() {
    assert_eq!(parse_usize(" 42\n"), Ok(42));
    assert_eq!(parse_usize("+7"), Ok(7));
    assert_eq!(parse_usize("\u{3000}007"), Ok(7));
    assert_eq!(parse_usize("18446744073709551615"), Ok(usize::MAX));
    for s in ["", "  ", "+", "-3", "1x", "18446744073709551616", "99999999999999999999x"] {
        let want = s.trim().parse::<usize>().unwrap_err();
        assert_eq!(parse_usize(s).unwrap_err(), format!("Invalid index: {}", want));
    }
}

fn samples() -> Samples<f32> {
    Samples {
        input_data: vec![vec![0.5], vec![0.25], vec![-1.0]],
        output_data: vec![vec![1.0], vec![2.0], vec![3.0]],
        pytorch_output: vec![vec![1.5], vec![2.5], vec![3.5]],
    }
}

#[test]
fn samples_are_filtered() {
    let s = samples();
    let picked = s.filter(Some(&vec![2, 0]));
    assert_eq!(picked.input_data, vec![vec![-1.0], vec![0.5]]);
    assert_eq!(picked.output_data, vec![vec![3.0], vec![1.0]]);
    assert_eq!(picked.pytorch_output, vec![vec![3.5], vec![1.5]]);
    assert_eq!(s.filter(None).input_data, s.input_data);
    assert!(s.has_all(&[0, 2]));
    assert!(!s.has_all(&[3]));
}

#[test]
fn samples_are_truncated_and_checked() {
    let mut s = samples();
    s.truncate(2);
    assert_eq!(s.input_data.len(), 2);
    assert_eq!(s.pytorch_output, vec![vec![1.5], vec![2.5]]);
    s.truncate(5);
    assert_eq!(s.output_data.len(), 2);
    assert!(s.is_even());
    assert_eq!(s.validate(true), Ok(()));
    assert_eq!(s.validate(false), Err(SampleError::NotReal));
    s.truncate(0);
    assert_eq!(s.validate(true), Err(SampleError::Empty));
}

#[test]
fn strategies_by_name() {
    assert_eq!(parse_strategy("inference"), Some(Strategy::Inference));
    assert_eq!(parse_strategy("maxabs"), Some(Strategy::MaxAbs));
    assert_eq!(parse_strategy("other"), None);
}
