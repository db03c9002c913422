use ocel_core::causal::{
    causal_role, causal_topological_order, normalized_causal_operation, validate_causal_model, validate_causal_operation,
    CausalModelEdgeRequest, CausalModelNodeRequest, CausalNodeRole,
};

fn node(id: &str, role: &str, feature: Option<&str>) -> CausalModelNodeRequest {
    CausalModelNodeRequest {
        id: id.to_owned(),
        label: format!("Node {id}"),
        role: role.to_owned(),
        feature: feature.map(str::to_owned),
        operation: "raw".to_owned(),
    }
}

fn edge(source: &str, target: &str) -> CausalModelEdgeRequest {
    CausalModelEdgeRequest { source: source.to_owned(), target: target.to_owned() }
}

fn features() -> Vec<String> {
    vec!["activity::Pay".to_owned(), "attribute::price".to_owned()]
}

fn message(nodes: &Vec<CausalModelNodeRequest>, edges: &Vec<CausalModelEdgeRequest>) -> String {
    validate_causal_model(nodes, edges, &features()).err().expect("error").message
}

#[test]
fn roles_and_transforms_are_normalised() {
    assert_eq!(causal_role("  Observable ").ok(), Some(CausalNodeRole::Observable));
    assert_eq!(causal_role("LATENT").ok(), Some(CausalNodeRole::Latent));
    assert_eq!(
        causal_role(" Cause ").err().expect("error").message,
        "unknown causal node role 'cause'; expected observable, latent, or outcome"
    );
    assert_eq!(normalized_causal_operation(" LN "), "log_e");
    assert_eq!(normalized_causal_operation(""), "identity");
    assert_eq!(normalized_causal_operation("Square_Root"), "sqrt");
    assert_eq!(normalized_causal_operation("log_10"), "log10");
    assert!(validate_causal_operation("none").is_ok());
    assert_eq!(
        validate_causal_operation("Exp").err().expect("error").message,
        "unknown causal transform 'exp'; expected identity, log10, log_e, or sqrt"
    );
}

#[test]
fn a_valid_model_is_ordered_sources_first() {
    let nodes = vec![
        node("y", "outcome", Some("attribute::price")),
        node("l", "latent", None),
        node("x", "observable", Some("activity::Pay")),
    ];
    let edges = vec![edge("l", "y"), edge("x", "l")];
    let order = validate_causal_model(&nodes, &edges, &features()).expect("order");
    assert_eq!(order, vec!["x".to_owned(), "l".to_owned(), "y".to_owned()]);
}

#[test]
fn node_problems_are_reported_in_order() {
    assert_eq!(message(&Vec::new(), &Vec::new()), "causal model must contain at least one node");
    assert_eq!(message(&vec![node(" ", "latent", None)], &Vec::new()), "causal model nodes must have non-empty ids");
    assert_eq!(
        message(&vec![node("a", "latent", None), node("a", "latent", None)], &Vec::new()),
        "duplicate causal model node id 'a'"
    );
    assert_eq!(message(&vec![node("a", "observable", None)], &Vec::new()), "node 'Node a' must reference a feature");
    assert_eq!(
        message(&vec![node("a", "observable", Some("nope"))], &Vec::new()),
        "node 'Node a' references unknown feature 'nope'"
    );
    assert_eq!(
        message(&vec![node("a", "latent", Some("activity::Pay"))], &Vec::new()),
        "latent node 'Node a' cannot reference an observed feature"
    );
}

#[test]
fn edge_problems_are_reported_in_order() {
    let nodes = vec![node("x", "observable", Some("activity::Pay")), node("l", "latent", None), node("m", "latent", None)];
    assert_eq!(message(&nodes, &vec![edge("l", "l")]), "causal model edges cannot be self-loops");
    assert_eq!(message(&nodes, &vec![edge("x", "l"), edge("x", "l")]), "duplicate causal edge 'x -> l'");
    assert_eq!(message(&nodes, &vec![edge("q", "l")]), "unknown causal edge source 'q'");
    assert_eq!(message(&nodes, &vec![edge("x", "q")]), "unknown causal edge target 'q'");
    assert_eq!(
        message(&nodes, &vec![edge("l", "x")]),
        "invalid causal edge 'Node l -> Node x': use observable -> latent, latent -> latent, or latent -> outcome"
    );
}

#[test]
fn cycles_are_refused() {
    let nodes = vec![node("l", "latent", None), node("m", "latent", None)];
    let edges = vec![edge("l", "m"), edge("m", "l")];
    assert_eq!(
        message(&nodes, &edges),
        "causal model must be a DAG; remove latent-to-latent cycles before fitting"
    );
    let order = causal_topological_order(&nodes, &vec![edge("m", "l")]).expect("order");
    assert_eq!(order, vec!["m".to_owned(), "l".to_owned()]);
}

#[test]
fn ready_nodes_are_taken_first_in_first_out() {
    let nodes = vec![node("a", "latent", None), node("b", "latent", None), node("c", "latent", None), node("d", "latent", None)];
    let edges = vec![edge("c", "a"), edge("b", "d"), edge("a", "d")];
    let order = causal_topological_order(&nodes, &edges).expect("order");
    assert_eq!(order, vec!["b".to_owned(), "c".to_owned(), "a".to_owned(), "d".to_owned()]);
}

#[test]
fn transform_names_normalise_once() {
    for raw in [" LN ", "", "Square_Root", "log_10", "cube", "  Mixed Case  "] {
        let once = normalized_causal_operation(raw);
        assert_eq!(normalized_causal_operation(&once), once);
    }
}
