use capslock::caps::{Capability, CapabilityType};
use capslock::function::FunctionMap;
use capslock::graph::CallGraph;
use capslock::report::{Function, FunctionName};

fn test_function(name: &str) -> Function {
    Function::new(
        FunctionName::Other {
            display_name: name.to_string(),
            language: "unknown".to_string(),
        },
        None,
    )
}

#[test]
fn bubble() {
    let mut functions = FunctionMap::new();
    let mut graph = CallGraph::new();

    // Set up a graph that looks like this:
    //
    //     a
    //    / \
    //   b   c
    //  /     \
    // d       e
    //
    // Give `d` a direct capability and check that it bubbles up as a
    // transitive capability to `a` and `b`, but not to `c` or `e`.
    let a = functions.upsert("a", test_function("a"));
    let b = functions.upsert("b", test_function("b"));
    let c = functions.upsert("c", test_function("c"));
    let mut fd = test_function("d");
    fd.insert_capability(Capability::ArbitraryExecution, CapabilityType::Direct);
    let d = functions.upsert("d", fd);
    let e = functions.upsert("e", test_function("e"));

    graph.add_edge(a, b, None);
    graph.add_edge(b, d, None);
    graph.add_edge(a, c, None);
    graph.add_edge(c, e, None);

    graph.bubble_transitive_capabilities(&mut functions);

    let cap = Capability::ArbitraryExecution;
    assert_eq!(
        functions.get_cap(a, cap),
        Some(CapabilityType::Transitive)
    );
    assert_eq!(
        functions.get_cap(b, cap),
        Some(CapabilityType::Transitive)
    );
    assert_eq!(functions.get_cap(c, cap), None);
    assert_eq!(functions.get_cap(d, cap), Some(CapabilityType::Direct));
    assert_eq!(functions.get_cap(e, cap), None);
}

#[test]
fn bubble_keeps_direct_over_transitive() {
    // A cycle where both ends hold the capability directly: neither may be
    // downgraded by propagation.
    let mut functions = FunctionMap::new();
    let mut graph = CallGraph::new();
    let mut fa = test_function("a");
    fa.insert_capability(Capability::Files, CapabilityType::Direct);
    let a = functions.upsert("a", fa);
    let mut fb = test_function("b");
    fb.insert_capability(Capability::Files, CapabilityType::Direct);
    let b = functions.upsert("b", fb);
    graph.add_edge(a, b, None);
    graph.add_edge(b, a, None);
    graph.bubble_transitive_capabilities(&mut functions);
    assert_eq!(
        functions.get_cap(a, Capability::Files),
        Some(CapabilityType::Direct)
    );
    assert_eq!(
        functions.get_cap(b, Capability::Files),
        Some(CapabilityType::Direct)
    );
}

#[test]
fn add_edge_deduplicates_pairs() {
    let mut graph = CallGraph::new();
    graph.add_edge(0, 1, None);
    graph.add_edge(0, 1, None);
    graph.add_edge(1, 0, None);
    assert_eq!(graph.edge_count(), 2);
    let edges = graph.into_edges();
    assert_eq!(edges[0].caller, 0);
    assert_eq!(edges[0].callee, 1);
    assert_eq!(edges[1].caller, 1);
    assert_eq!(edges[1].callee, 0);
}
