//! The course of a verification.
use std::collections::HashMap;
use zkml::claim::Claim;
use zkml::field::GoldilocksExt2;
use zkml::iop::ChallengeStorage;
use zkml::iop::error::VerifierError;
use zkml::iop::fractions::check_fractions;
use zkml::iop::verify::{
    check_inputs, check_table, multiplicity_claim, output_challenges, output_claims,
};
use zkml::layers::activation::{Activation, ActivationCtx, Relu};
use zkml::layers::provable::error::ProvableOpError;
use zkml::layers::provable::{Edge, NodeCtx, NodeId, OutputWire, SumcheckProof};
use zkml::layers::{ActivationProof, LayerCtx, LayerProof, LogUpProof};
use zkml::lookup::context::TableType;
use zkml::mle::mle_evaluate;
use zkml::{IO, Tensor, Verifier};

type F = GoldilocksExt2;

fn f(x: u64) -> F {
    F::from_u64(x)
}

fn logup(numerators: Vec<F>, denominators: Vec<F>) -> LogUpProof<()> {
    LogUpProof { numerators, denominators, output_claims: vec![], messages: () }
}

fn relu_proof(num: F, denom: F) -> LayerProof<(), ()> {
    LayerProof::Activation(ActivationProof {
        io_accumulation: SumcheckProof { point: vec![], messages: () },
        lookup: logup(vec![num], vec![denom]),
        commits: vec![],
    })
}

/// An activation followed by a flattening.
fn nodes() -> HashMap<NodeId, NodeCtx> {
    let mut m = HashMap::new();
    m.insert(
        0,
        NodeCtx {
            inputs: vec![Edge { node: None, index: 0 }],
            outputs: vec![OutputWire { edges: vec![Edge { node: Some(1), index: 0 }] }],
            ctx: LayerCtx::Activation(ActivationCtx {
                op: Activation::Relu(Relu::new()),
                node_id: 0,
                num_vars: 2,
            }),
        },
    );
    m.insert(
        1,
        NodeCtx {
            inputs: vec![Edge { node: Some(0), index: 0 }],
            outputs: vec![OutputWire { edges: vec![Edge { node: None, index: 0 }] }],
            ctx: LayerCtx::Flatten,
        },
    );
    m
}

fn tensor(v: &[u64]) -> Tensor<F> {
    Tensor::new(vec![v.len()], v.iter().map(|x| f(*x)).collect())
}

fn start(num: F) -> Result<Verifier<(), ()>, VerifierError> {
    let mut steps = HashMap::new();
    // 3/5 + num/5
    steps.insert(0, relu_proof(f(3), f(5)));
    let tables = vec![logup(vec![num], vec![f(5)])];
    let io = IO::new(vec![tensor(&[7, 8, 9, 10])], vec![tensor(&[1, 2, 3, 4])]);
    Verifier::new(
        nodes(),
        steps,
        &tables,
        &[TableType::Relu, TableType::Range],
        &[vec![4]],
        io,
        &[vec![f(20), f(30)]],
    )
}

#[test]
fn a_verification_runs_backwards() {
    let mut v = start(F::zero().minus(f(3))).unwrap();
    // the flattening comes first, with the claim about the output
    let (id, claims) = v.next_node().unwrap().unwrap();
    assert_eq!(id, 1);
    let out = tensor(&[1, 2, 3, 4]);
    let want = mle_evaluate(out.get_data(), &[f(20), f(30)]);
    assert!(claims[0].eval.same(&want));
    assert!(v.layer_proof(1).is_none());
    v.record(claims, Err(ProvableOpError::NotProvableLayer("Reshape".to_string()))).unwrap();
    // then the activation, with the same claim
    let (id, claims) = v.next_node().unwrap().unwrap();
    assert_eq!(id, 0);
    assert!(claims[0].eval.same(&want));
    assert_eq!(v.layer_proof(0).unwrap().variant_name(), "Activation");
    assert_eq!(v.shape_step(0).unwrap().padded_output_shape, vec![vec![4]]);
    let p = vec![f(40), f(50)];
    let input = tensor(&[7, 8, 9, 10]);
    let true_claim = Claim::new(p.clone(), mle_evaluate(input.get_data(), &p));
    v.record(claims, Ok(vec![true_claim])).unwrap();
    assert!(v.next_node().unwrap().is_none());
    // the table is still left
    match v.finish() {
        Err(VerifierError::Message(m)) => assert_eq!(m, "A lookup table was not verified"),
        _ => panic!("a table is left"),
    }
    assert_eq!(v.next_table(), Some((0, TableType::Relu)));
    assert!(v.record_table(&[], &[]).is_err());
    assert!(v.record_table(&[table_claim(1), table_claim(2)], &[f(3)]).is_err());
    assert_eq!(v.next_table(), Some((0, TableType::Relu)));
    // there is no proof for the second table
    check_tables(&mut v);
    assert_eq!(v.next_table(), None);
    assert!(v.finish().is_ok());
}

fn table_claim(x: u64) -> Claim<F> {
    Claim::new(vec![f(9)], f(x))
}

fn check_tables(v: &mut Verifier<(), ()>) {
    v.record_table(&[table_claim(1), table_claim(2)], &[f(2)]).unwrap();
}

#[test]
fn a_false_claim_about_the_input_is_not_accepted() {
    let mut v = start(F::zero().minus(f(3))).unwrap();
    let (_, claims) = v.next_node().unwrap().unwrap();
    v.record(claims.clone(), Ok(claims)).unwrap();
    let (_, claims) = v.next_node().unwrap().unwrap();
    v.record(claims, Ok(vec![Claim::new(vec![f(1), f(0)], f(1))])).unwrap();
    check_tables(&mut v);
    match v.finish() {
        Err(VerifierError::Message(m)) => assert_eq!(m, "input 0 not valid from proof"),
        _ => panic!("the claim is false"),
    }
}

#[test]
fn lookups_must_add_up() {
    let mut v = start(f(3)).unwrap();
    let (_, claims) = v.next_node().unwrap().unwrap();
    v.record(claims.clone(), Ok(claims)).unwrap();
    let (_, claims) = v.next_node().unwrap().unwrap();
    v.record(claims, Ok(vec![Claim::new(vec![f(0), f(0)], f(7))])).unwrap();
    check_tables(&mut v);
    match v.finish() {
        // 3/5 + 3/5 = 30/25
        Err(VerifierError::NumeratorNotZero(x)) => assert!(x.same(&f(30))),
        _ => panic!("the fractions do not add up to zero"),
    }
}

#[test]
fn a_failing_layer_stops_the_verification() {
    let mut v = start(f(3)).unwrap();
    let (_, claims) = v.next_node().unwrap().unwrap();
    let e = v.record(claims, Err(ProvableOpError::GenericError("no".to_string()))).unwrap_err();
    match e {
        VerifierError::Operation(e) => {
            assert_eq!(e.message(), "ProvableOp generic error: no")
        }
        _ => panic!("the layer failed"),
    }
    assert_eq!(v.next_node().unwrap().unwrap().0, 1);
}

#[test]
fn missing_parts_are_noticed() {
    let io = IO::new(vec![tensor(&[7, 8, 9, 10])], vec![]);
    let r: Result<Verifier<(), ()>, VerifierError> =
        Verifier::new(nodes(), HashMap::new(), &[], &[], &[vec![4]], io, &[]);
    match r {
        Err(VerifierError::Message(m)) => assert_eq!(m, "Proof for node 0 not found"),
        _ => panic!("there is no proof"),
    }
    let mut steps = HashMap::new();
    steps.insert(0, relu_proof(f(3), f(5)));
    let io = IO::new(vec![tensor(&[7, 8, 9, 10])], vec![]);
    let r: Result<Verifier<(), ()>, VerifierError> =
        Verifier::new(nodes(), steps.clone(), &[], &[], &[], io, &[]);
    match r {
        Err(VerifierError::Message(m)) => assert_eq!(
            m,
            "Required input 0 of model, but there are only 0 inputs shapes"
        ),
        _ => panic!("there is no shape"),
    }
    // without an input, and with a shape that nobody asks for
    let io = IO::new(vec![], vec![]);
    let r: Result<Verifier<(), ()>, VerifierError> =
        Verifier::new(nodes(), steps.clone(), &[], &[], &[vec![4]], io, &[]);
    match r {
        Err(VerifierError::Message(m)) => {
            assert_eq!(m, "Required input 0 of model, but there are only 0 inputs")
        }
        _ => panic!("there is no input"),
    }
    let io = IO::new(vec![tensor(&[7, 8, 9, 10])], vec![]);
    let r: Result<Verifier<(), ()>, VerifierError> =
        Verifier::new(nodes(), steps.clone(), &[], &[], &[vec![4], vec![9]], io, &[]);
    assert!(r.is_ok());
    // without claims about the outputs
    let io = IO::new(vec![tensor(&[7, 8, 9, 10])], vec![]);
    let v: Verifier<(), ()> =
        Verifier::new(nodes(), steps.clone(), &[], &[], &[vec![4]], io, &[]).unwrap();
    match v.next_node() {
        Err(VerifierError::Message(m)) => {
            assert_eq!(m, "No claim found for output 0 of the node")
        }
        _ => panic!("there is no claim"),
    }
    // nodes that wait for each other
    let mut circle = nodes();
    circle.get_mut(&0).unwrap().inputs[0] = Edge { node: Some(1), index: 0 };
    let io = IO::new(vec![], vec![]);
    let r: Result<Verifier<(), ()>, VerifierError> =
        Verifier::new(circle, steps, &[], &[], &[], io, &[]);
    assert!(r.is_err());
}

#[test]
fn fractions_are_checked() {
    assert!(check_fractions(&[], &[]).is_ok());
    assert!(check_fractions(&[f(1), F::zero().minus(f(2))], &[f(3), f(6)]).is_ok());
    match check_fractions(&[F::zero()], &[F::zero()]) {
        Err(VerifierError::DenominatorZero) => {}
        _ => panic!("the denominator is zero"),
    }
    match check_fractions(&[f(1)], &[f(3)]) {
        Err(VerifierError::NumeratorNotZero(x)) => assert!(x.same(&f(1))),
        _ => panic!("the numerator is not zero"),
    }
}

#[test]
fn tables_are_checked() {
    let c = |x: u64| Claim::new(vec![f(9)], f(x));
    assert!(check_table(&[c(1), c(2), c(3)], &[f(2), f(3)]).is_ok());
    match check_table(&[c(1), c(2)], &[f(2), f(3)]) {
        Err(VerifierError::Message(m)) => {
            assert_eq!(m, "Expected 2 table column evaluation claims, got 1")
        }
        _ => panic!("a claim is missing"),
    }
    match check_table(&[c(1), c(2), c(4)], &[f(2), f(3)]) {
        Err(VerifierError::TableEvaluation(a, b)) => {
            assert!(a.same(&f(4)));
            assert!(b.same(&f(3)));
        }
        _ => panic!("a claim is wrong"),
    }
    assert!(multiplicity_claim(&[c(5), c(6)]).unwrap().eval.same(&f(5)));
    match multiplicity_claim(&[]) {
        Err(VerifierError::Message(m)) => assert_eq!(m, "Claims was empty in table verification!"),
        _ => panic!("there are no claims"),
    }
}

#[test]
fn tables_without_challenges() {
    let storage = ChallengeStorage {
        constant_challenge: f(1),
        challenge_map: vec![("Range".to_string(), f(2))],
    };
    let (a, b) = storage.table_challenges(TableType::Range).unwrap();
    assert!(a.same(&f(1)) && b.same(&f(2)));
    match storage.table_challenges(TableType::Relu) {
        Err(VerifierError::Message(m)) => assert_eq!(
            m,
            "No challenges found for table of type: \"Relu\" during verification"
        ),
        _ => panic!("there are no challenges"),
    }
}

#[test]
fn claims_about_inputs_and_outputs() {
    let out = tensor(&[1, 2, 3, 4]);
    assert_eq!(output_challenges(&out), 2);
    // the vertex with number two
    let claims = output_claims(&[out.clone()], &[vec![F::zero(), F::one()]]);
    assert!(claims[0].eval.same(&f(3)));
    assert!(check_inputs(&[out.clone()], &claims).is_ok());
    let wrong = vec![Claim::new(vec![F::zero(), F::one()], f(4))];
    assert!(check_inputs(&[out.clone()], &wrong).is_err());
    // only pairs are looked at
    assert!(check_inputs(&[out], &[]).is_ok());
}
