use mono::dependents::{build_graph, NodeInfo};
use mono::version::{Increment, Version};

fn node(name: &str, deps: &[&str]) -> NodeInfo {
    NodeInfo {
        name: name.to_string(),
        version: Some(Version::release(0, 1, 0)),
        dependencies: deps.iter().map(|d| d.to_string()).collect(),
    }
}

#[test]
fn traverses_in_topological_order() {
    // edges a -> b and b -> c
    let g = build_graph(vec![node("a", &[]), node("b", &["a"]), node("c", &["b"])]);
    assert_eq!(g.edges, vec![(0, 1), (1, 2)]);
    let order = g.traverse(&vec![0]);
    assert_eq!(order, vec![0, 1, 2]);
    let order = g.traverse(&vec![1]);
    assert_eq!(order, vec![1, 2]);
    let order = g.traverse(&vec![]);
    assert_eq!(order, Vec::<usize>::new());
}

#[test]
fn sources_and_sinks() {
    let g = build_graph(vec![node("a", &[]), node("b", &["a"]), node("c", &["b"])]);
    assert_eq!(g.sources(), vec![0]);
    assert_eq!(g.sinks(), vec![2]);
}

#[test]
fn suggestions_offer_greater_dependency_slots() {
    let g = build_graph(vec![node("a", &[]), node("b", &["a"]), node("c", &["b"])]);
    let incs = vec![Some(Increment::Minor), None, None];
    let s = g.suggestion_for(&incs, 1);
    assert_eq!(s.name, "b");
    assert_eq!(s.increments, vec![None, Some(Increment::Minor)]);
    let s = g.suggestion_for(&incs, 0);
    assert_eq!(s.increments, vec![Some(Increment::Minor)]);
}

#[test]
fn propagation_lifts_dependents() {
    let g = build_graph(vec![node("a", &[]), node("b", &["a"]), node("c", &["b"])]);
    let mut incs = vec![Some(Increment::Minor), None, None];
    g.bump_max(&mut incs);
    assert_eq!(
        incs,
        vec![Some(Increment::Minor), Some(Increment::Minor), Some(Increment::Minor)],
    );
}

#[test]
fn propagation_keeps_higher_slots() {
    let g = build_graph(vec![node("a", &[]), node("b", &["a"])]);
    let mut incs = vec![Some(Increment::Patch), Some(Increment::Major)];
    g.bump_max(&mut incs);
    assert_eq!(incs, vec![Some(Increment::Patch), Some(Increment::Major)]);
}

#[test]
fn unresolved_dependencies_add_no_edges() {
    let g = build_graph(vec![node("a", &["serde"]), node("b", &["a", "tokio"])]);
    assert_eq!(g.edges, vec![(0, 1)]);
}
