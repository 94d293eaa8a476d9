//! Inference: posteriors, laws on concrete networks, and failure modes.

use bayesian_network::{BayesianNetwork, InferenceError, NodeType, Prob, QueryError};

fn p(num: u64, den: u64) -> Prob {
    Prob::new(num, den).unwrap()
}

fn approx(pr: &Prob) -> f64 {
    pr.num() as f64 / pr.den() as f64
}

fn gcd128(mut a: u128, mut b: u128) -> u128 {
    while b != 0 {
        let r = a % b;
        a = b;
        b = r;
    }
    a
}

/// Exact rational sum of a distribution; returns (num, den), reduced.
fn exact_sum(row: &[Prob]) -> (u128, u128) {
    let mut num: u128 = 0;
    let mut den: u128 = 1;
    for pr in row {
        let n2 = pr.num() as u128;
        let d2 = pr.den() as u128;
        num = num * d2 + n2 * den;
        den *= d2;
        let g = gcd128(num, den);
        if g > 0 {
            num /= g;
            den /= g;
        }
    }
    (num, den)
}

/// The two-root/one-child chain: roots A and B, intermediate C, leaves D
/// and E.  Domain {true, false} as {1, 0}; the probability of 1 is listed
/// first.
fn chain_network() -> BayesianNetwork {
    let mut net = BayesianNetwork::new(vec![1, 0]);
    net.add_node("A", NodeType::Root(vec![p(1, 100), p(99, 100)])).unwrap();
    net.add_node("B", NodeType::Root(vec![p(1, 10), p(9, 10)])).unwrap();
    net.add_node("C", NodeType::Intermediate).unwrap();
    net.add_node("D", NodeType::Leaf).unwrap();
    net.add_node("E", NodeType::Leaf).unwrap();
    let c_cpt = vec![
        (vec![1, 1], vec![p(99, 100), p(1, 100)]),
        (vec![0, 1], vec![p(6, 10), p(4, 10)]),
        (vec![1, 0], vec![p(9, 10), p(1, 10)]),
        (vec![0, 0], vec![p(1, 100), p(99, 100)]),
    ];
    net.add_dependency(&vec!["A".to_string(), "B".to_string()], "C", &c_cpt).unwrap();
    let d_cpt = vec![
        (vec![1], vec![p(3, 10), p(7, 10)]),
        (vec![0], vec![p(1, 100), p(99, 100)]),
    ];
    net.add_dependency(&vec!["C".to_string()], "D", &d_cpt).unwrap();
    let e_cpt = vec![
        (vec![1], vec![p(9, 10), p(1, 10)]),
        (vec![0], vec![p(1, 100), p(99, 100)]),
    ];
    net.add_dependency(&vec!["C".to_string()], "E", &e_cpt).unwrap();
    net
}

#[test]
fn chain_posteriors_with_observed_leaf() {
    let net = chain_network();
    let evidence = vec![("D".to_string(), 1u64)];
    let post = net.infer(&evidence).unwrap();
    let pa = net.get_inferred_probability(&post, "A", 1).unwrap();
    let pb = net.get_inferred_probability(&post, "B", 1).unwrap();
    let pc = net.get_inferred_probability(&post, "C", 1).unwrap();
    let pd = net.get_inferred_probability(&post, "D", 1).unwrap();
    let pe = net.get_inferred_probability(&post, "E", 1).unwrap();
    assert!((approx(&pa) - 0.0843).abs() < 0.002, "P(A=true) = {}", approx(&pa));
    assert!((approx(&pb) - 0.571).abs() < 0.002, "P(B=true) = {}", approx(&pb));
    assert!((approx(&pc) - 0.716).abs() < 0.002, "P(C=true) = {}", approx(&pc));
    assert_eq!((pd.num(), pd.den()), (1, 1));
    assert!((approx(&pe) - 0.647).abs() < 0.002, "P(E=true) = {}", approx(&pe));
}

#[test]
fn root_without_applicable_evidence_keeps_prior() {
    let net = chain_network();
    let post = net.infer(&vec![]).unwrap();
    let pa = net.get_inferred_probability(&post, "A", 1).unwrap();
    let pb = net.get_inferred_probability(&post, "B", 1).unwrap();
    assert_eq!((pa.num(), pa.den()), (1, 100));
    assert_eq!((pb.num(), pb.den()), (1, 10));
}

#[test]
fn observed_node_gets_indicator_distribution() {
    let net = chain_network();
    let evidence = vec![("D".to_string(), 1u64)];
    let post = net.infer(&evidence).unwrap();
    let at_observed = net.get_inferred_probability(&post, "D", 1).unwrap();
    let elsewhere = net.get_inferred_probability(&post, "D", 0).unwrap();
    assert_eq!((at_observed.num(), at_observed.den()), (1, 1));
    assert_eq!(elsewhere.num(), 0);
}

#[test]
fn posteriors_sum_to_one_exactly() {
    let net = chain_network();
    let evidence = vec![("D".to_string(), 1u64), ("B".to_string(), 0u64)];
    let post = net.infer(&evidence).unwrap();
    for row in &post {
        assert_eq!(exact_sum(row), (1, 1));
    }
}

#[test]
fn inference_is_deterministic() {
    let net = chain_network();
    let evidence = vec![("D".to_string(), 1u64)];
    let first = net.infer(&evidence).unwrap();
    let second = net.infer(&evidence).unwrap();
    assert_eq!(first, second);
}

#[test]
fn impossible_observation_reports_inconsistent_evidence() {
    // B's CPT gives probability zero to the observed value under every
    // parent combination.
    let mut net = BayesianNetwork::new(vec![1, 0]);
    net.add_node("A", NodeType::Root(vec![p(1, 2), p(1, 2)])).unwrap();
    net.add_node("B", NodeType::Leaf).unwrap();
    let cpt = vec![
        (vec![1], vec![p(0, 1), p(1, 1)]),
        (vec![0], vec![p(0, 1), p(1, 1)]),
    ];
    net.add_dependency(&vec!["A".to_string()], "B", &cpt).unwrap();
    let r = net.infer(&vec![("B".to_string(), 1u64)]);
    assert!(matches!(r, Err(InferenceError::InconsistentEvidence(_))), "{:?}", r);
}

#[test]
fn evidence_with_unknown_name_rejected() {
    let net = chain_network();
    let r = net.infer(&vec![("missing".to_string(), 1u64)]);
    assert_eq!(r, Err(InferenceError::Query(QueryError::UnknownNodeName)));
}

#[test]
fn evidence_with_value_outside_domain_rejected() {
    let net = chain_network();
    let r = net.infer(&vec![("D".to_string(), 7u64)]);
    assert_eq!(r, Err(InferenceError::Query(QueryError::ValueNotInDomain)));
}

#[test]
fn evidence_repeating_a_node_rejected() {
    let net = chain_network();
    let r = net.infer(&vec![("D".to_string(), 1u64), ("D".to_string(), 0u64)]);
    assert_eq!(r, Err(InferenceError::Query(QueryError::DuplicateEvidence)));
}

#[test]
fn cyclic_dependencies_report_non_convergence() {
    let mut net = BayesianNetwork::new(vec![1, 0]);
    net.add_node("A", NodeType::Intermediate).unwrap();
    net.add_node("B", NodeType::Intermediate).unwrap();
    let cpt = vec![
        (vec![1], vec![p(1, 2), p(1, 2)]),
        (vec![0], vec![p(1, 2), p(1, 2)]),
    ];
    net.add_dependency(&vec!["A".to_string()], "B", &cpt).unwrap();
    net.add_dependency(&vec!["B".to_string()], "A", &cpt).unwrap();
    let r = net.infer(&vec![]);
    assert_eq!(r, Err(InferenceError::NotConverged));
}

#[test]
fn unrepresentable_exact_result_reports_overflow() {
    // The observed leaf's tiny probabilities force a product whose reduced
    // denominator exceeds the representable bound.
    let b: u64 = 1 << 62;
    let d: u64 = (1 << 62) - 1;
    let mut net = BayesianNetwork::new(vec![1, 0]);
    net.add_node("A", NodeType::Root(vec![p(1, b), p(b - 1, b)])).unwrap();
    net.add_node("D", NodeType::Leaf).unwrap();
    let cpt = vec![
        (vec![1], vec![p(1, d), p(d - 1, d)]),
        (vec![0], vec![p(1, 3), p(2, 3)]),
    ];
    net.add_dependency(&vec!["A".to_string()], "D", &cpt).unwrap();
    let r = net.infer(&vec![("D".to_string(), 1u64)]);
    assert_eq!(r, Err(InferenceError::Overflow));
}

#[test]
fn lookup_errors_from_result_accessor() {
    let net = chain_network();
    let post = net.infer(&vec![]).unwrap();
    assert_eq!(
        net.get_inferred_probability(&post, "missing", 1),
        Err(QueryError::UnknownNodeName)
    );
    assert_eq!(
        net.get_inferred_probability(&post, "A", 9),
        Err(QueryError::ValueNotInDomain)
    );
}

#[test]
fn evidence_on_intermediate_node_flows_both_ways() {
    let net = chain_network();
    let evidence = vec![("C".to_string(), 1u64)];
    let post = net.infer(&evidence).unwrap();
    // P(D=true | C=true) = 0.3 and P(A=true | C=true) by Bayes' rule:
    // 0.01 * (0.99*0.1 + 0.9*0.9) / (0.01*(0.099+0.81) + 0.99*(0.06+0.009))
    let pd = net.get_inferred_probability(&post, "D", 1).unwrap();
    assert_eq!((pd.num(), pd.den()), (3, 10));
    let pa = net.get_inferred_probability(&post, "A", 1).unwrap();
    let expected = (0.01f64 * 0.909) / (0.01 * 0.909 + 0.99 * 0.069);
    assert!((approx(&pa) - expected).abs() < 1e-9, "{} vs {}", approx(&pa), expected);
}
