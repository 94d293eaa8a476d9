//! Construction API: validation, rejection and warnings.

use bayesian_network::{BayesianNetwork, ConstructionError, NodeType, Prob};

fn p(num: u64, den: u64) -> Prob {
    Prob::new(num, den).unwrap()
}

fn two_valued() -> BayesianNetwork {
    // Domain {true, false} mapped to {1, 0}; distributions list the
    // probability of 1 first.
    BayesianNetwork::new(vec![1, 0])
}

#[test]
fn add_root_node_ok() {
    let mut net = two_valued();
    let r = net.add_node("A", NodeType::Root(vec![p(1, 100), p(99, 100)]));
    assert_eq!(r, Ok(false));
    assert_eq!(net.node_count(), 1);
}

#[test]
fn add_node_duplicate_name_rejected() {
    let mut net = two_valued();
    net.add_node("A", NodeType::Leaf).unwrap();
    let r = net.add_node("A", NodeType::Intermediate);
    assert_eq!(r, Err(ConstructionError::DuplicateNodeName));
    assert_eq!(net.node_count(), 1);
}

#[test]
fn add_root_wrong_prior_length_rejected() {
    let mut net = two_valued();
    let r = net.add_node("A", NodeType::Root(vec![p(1, 2)]));
    assert_eq!(r, Err(ConstructionError::WrongPriorLength));
}

#[test]
fn add_root_prior_sum_warning() {
    let mut net = two_valued();
    // 0.5 + 0.4 is off one by far more than 1e-7: warned, not rejected.
    let r = net.add_node("A", NodeType::Root(vec![p(1, 2), p(2, 5)]));
    assert_eq!(r, Ok(true));
    assert_eq!(net.node_count(), 1);
}

#[test]
fn add_root_prior_within_tolerance_no_warning() {
    let mut net = two_valued();
    // Off one by exactly 1e-8, inside the 1e-7 tolerance.
    let r = net.add_node(
        "A",
        NodeType::Root(vec![p(1, 2), p(49_999_999, 100_000_000)]),
    );
    assert_eq!(r, Ok(false));
}

#[test]
fn dependency_from_leaf_rejected() {
    // A node already declared Leaf cannot become a parent.
    let mut net = two_valued();
    net.add_node("L", NodeType::Leaf).unwrap();
    net.add_node("C", NodeType::Leaf).unwrap();
    let cpt = vec![
        (vec![1], vec![p(1, 2), p(1, 2)]),
        (vec![0], vec![p(1, 2), p(1, 2)]),
    ];
    let r = net.add_dependency(&vec!["L".to_string()], "C", &cpt);
    assert_eq!(r, Err(ConstructionError::DependencyFromLeaf));
}

#[test]
fn dependency_into_root_rejected() {
    let mut net = two_valued();
    net.add_node("A", NodeType::Root(vec![p(1, 2), p(1, 2)])).unwrap();
    net.add_node("B", NodeType::Root(vec![p(1, 2), p(1, 2)])).unwrap();
    let cpt = vec![(vec![1], vec![p(1, 2), p(1, 2)])];
    let r = net.add_dependency(&vec!["B".to_string()], "A", &cpt);
    assert_eq!(r, Err(ConstructionError::DependencyIntoRoot));
}

#[test]
fn dependency_unknown_names_rejected() {
    let mut net = two_valued();
    net.add_node("A", NodeType::Root(vec![p(1, 2), p(1, 2)])).unwrap();
    net.add_node("C", NodeType::Leaf).unwrap();
    let cpt = vec![(vec![1], vec![p(1, 2), p(1, 2)])];
    assert_eq!(
        net.add_dependency(&vec!["A".to_string()], "missing", &cpt),
        Err(ConstructionError::UnknownNodeName)
    );
    assert_eq!(
        net.add_dependency(&vec!["missing".to_string()], "C", &cpt),
        Err(ConstructionError::UnknownNodeName)
    );
}

#[test]
fn dependency_duplicate_parent_rejected() {
    let mut net = two_valued();
    net.add_node("A", NodeType::Root(vec![p(1, 2), p(1, 2)])).unwrap();
    net.add_node("C", NodeType::Leaf).unwrap();
    let cpt = vec![(vec![1, 1], vec![p(1, 2), p(1, 2)])];
    let r = net.add_dependency(&vec!["A".to_string(), "A".to_string()], "C", &cpt);
    assert_eq!(r, Err(ConstructionError::DuplicateParent));
}

#[test]
fn dependency_redeclaration_rejected() {
    let mut net = two_valued();
    net.add_node("A", NodeType::Root(vec![p(1, 2), p(1, 2)])).unwrap();
    net.add_node("C", NodeType::Leaf).unwrap();
    let cpt = vec![
        (vec![1], vec![p(1, 2), p(1, 2)]),
        (vec![0], vec![p(1, 2), p(1, 2)]),
    ];
    net.add_dependency(&vec!["A".to_string()], "C", &cpt).unwrap();
    let r = net.add_dependency(&vec!["A".to_string()], "C", &cpt);
    assert_eq!(r, Err(ConstructionError::ChildAlreadyBound));
}

#[test]
fn cpt_wrong_key_arity_rejected() {
    let mut net = two_valued();
    net.add_node("A", NodeType::Root(vec![p(1, 2), p(1, 2)])).unwrap();
    net.add_node("C", NodeType::Leaf).unwrap();
    let cpt = vec![(vec![1, 0], vec![p(1, 2), p(1, 2)])];
    let r = net.add_dependency(&vec!["A".to_string()], "C", &cpt);
    assert_eq!(r, Err(ConstructionError::WrongKeyArity));
}

#[test]
fn cpt_key_value_outside_domain_rejected() {
    let mut net = two_valued();
    net.add_node("A", NodeType::Root(vec![p(1, 2), p(1, 2)])).unwrap();
    net.add_node("C", NodeType::Leaf).unwrap();
    let cpt = vec![(vec![7], vec![p(1, 2), p(1, 2)])];
    let r = net.add_dependency(&vec!["A".to_string()], "C", &cpt);
    assert_eq!(r, Err(ConstructionError::ValueNotInDomain));
}

#[test]
fn cpt_wrong_distribution_length_rejected() {
    let mut net = two_valued();
    net.add_node("A", NodeType::Root(vec![p(1, 2), p(1, 2)])).unwrap();
    net.add_node("C", NodeType::Leaf).unwrap();
    let cpt = vec![(vec![1], vec![p(1, 2)])];
    let r = net.add_dependency(&vec!["A".to_string()], "C", &cpt);
    assert_eq!(r, Err(ConstructionError::WrongDistributionLength));
}

#[test]
fn cpt_duplicate_row_key_rejected() {
    let mut net = two_valued();
    net.add_node("A", NodeType::Root(vec![p(1, 2), p(1, 2)])).unwrap();
    net.add_node("C", NodeType::Leaf).unwrap();
    let cpt = vec![
        (vec![1], vec![p(1, 2), p(1, 2)]),
        (vec![1], vec![p(1, 4), p(3, 4)]),
    ];
    let r = net.add_dependency(&vec!["A".to_string()], "C", &cpt);
    assert_eq!(r, Err(ConstructionError::DuplicateRowKey));
}

#[test]
fn cpt_row_sum_warning() {
    let mut net = two_valued();
    net.add_node("A", NodeType::Root(vec![p(1, 2), p(1, 2)])).unwrap();
    net.add_node("C", NodeType::Leaf).unwrap();
    let cpt = vec![
        (vec![1], vec![p(1, 2), p(1, 4)]),
        (vec![0], vec![p(1, 2), p(1, 2)]),
    ];
    let r = net.add_dependency(&vec!["A".to_string()], "C", &cpt);
    assert_eq!(r, Ok(true));
}
