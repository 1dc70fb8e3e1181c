use perf_focus::graph::{CallGraph, NodeId};

fn frames(names: &[&str]) -> Vec<String> {
    names.iter().map(|f| f.to_string()).collect()
}

/// The edges of the graph as (caller, callee, count), by name.
fn edges(graph: &CallGraph) -> Vec<(String, String, usize)> {
    let mut found: Vec<(String, String, usize)> = graph
        .edges()
        .edges()
        .iter()
        .map(|e| (graph.name(e.caller()).clone(), graph.name(e.callee()).clone(), e.count()))
        .collect();
    found.sort();
    found
}

fn edge(caller: &str, callee: &str, count: usize) -> (String, String, usize) {
    (caller.to_string(), callee.to_string(), count)
}

#[test]
fn frames_are_numbered_and_counted() {
    let mut graph = CallGraph::new();
    graph.add_frames(&frames(&["a", "b", "a"]));
    graph.add_frames(&frames(&["b", "c"]));
    graph.add_frames(&frames(&[]));
    assert_eq!(graph.samples(), 2);
    assert_eq!(graph.node_count("a"), 1);
    assert_eq!(graph.node_count("b"), 2);
    assert_eq!(graph.node_count("c"), 1);
    assert_eq!(graph.node_count("d"), 0);
    assert_eq!(graph.node_id("a".to_string()), NodeId(0));
    assert_eq!(graph.node_id("b".to_string()), NodeId(1));
    assert_eq!(graph.node_id("c".to_string()), NodeId(2));
    assert_eq!(graph.node_id("new".to_string()), NodeId(3));
    assert_eq!(graph.node_count("new"), 0);
    assert_eq!(graph.name(3), "new");
}

#[test]
fn edges_are_counted_once_per_sample() {
    let mut graph = CallGraph::new();
    graph.add_frames(&frames(&["a", "b", "a", "b", "c"]));
    graph.add_frames(&frames(&["a", "b"]));
    graph.add_frames(&frames(&["x"]));
    assert!(edges(&graph).is_empty());
    graph.set_total(3, 10);
    assert_eq!(
        edges(&graph),
        vec![edge("a", "b", 2), edge("b", "a", 1), edge("b", "c", 1)]
    );
}

#[test]
fn pruning_keeps_the_most_frequent_frames() {
    let mut graph = CallGraph::new();
    graph.add_frames(&frames(&["main", "rare", "hot", "leaf"]));
    graph.add_frames(&frames(&["main", "hot", "leaf"]));
    graph.add_frames(&frames(&["main", "other", "hot"]));
    graph.set_total(3, 2);
    // `main` and `hot` occur in three samples, `leaf` in two; with the frames
    // between them gone, `main` calls `hot` in every sample.
    assert_eq!(edges(&graph), vec![edge("main", "hot", 3)]);
}

#[test]
fn ties_go_to_the_frame_seen_last() {
    let mut graph = CallGraph::new();
    graph.add_frames(&frames(&["a", "b", "c", "d"]));
    graph.set_total(1, 2);
    assert_eq!(edges(&graph), vec![edge("c", "d", 1)]);
    let mut graph = CallGraph::new();
    graph.add_frames(&frames(&["a", "b", "c", "d"]));
    graph.add_frames(&frames(&["a", "b"]));
    // Shares are 100, 100, 50 and 50 percent.
    graph.set_total(2, 3);
    assert_eq!(edges(&graph), vec![edge("a", "b", 2), edge("b", "d", 1)]);
}

#[test]
fn edge_ends_survive_the_pruning() {
    let mut graph = CallGraph::new();
    let samples = [
        frames(&["a", "b", "c", "d", "e"]),
        frames(&["a", "c", "e"]),
        frames(&["b", "d"]),
        frames(&["a", "e", "a"]),
        frames(&["e"]),
    ];
    for sample in &samples {
        graph.add_frames(sample);
    }
    graph.set_total(5, 2);
    // a: 3, b: 2, c: 2, d: 2, e: 4 samples.
    for (caller, callee, count) in edges(&graph) {
        assert!(caller == "a" || caller == "e");
        assert!(callee == "a" || callee == "e");
        assert!(count <= 5);
    }
    assert_eq!(edges(&graph), vec![edge("a", "e", 3), edge("e", "a", 1)]);
}

#[test]
fn pruning_to_nothing_leaves_no_edges() {
    let mut graph = CallGraph::new();
    graph.add_frames(&frames(&["a", "b"]));
    graph.set_total(1, 0);
    assert!(edges(&graph).is_empty());
    assert_eq!(graph.samples(), 1);
    assert_eq!(graph.dump(), "digraph G {\n  node [ shape=box ];}\n");
}

#[test]
fn graph_is_rendered_in_dot() {
    let mut graph = CallGraph::new();
    graph.add_frames(&frames(&["main", "f", "g"]));
    graph.add_frames(&frames(&["main", "f"]));
    graph.add_frames(&frames(&["lonely"]));
    graph.set_total(4, 10);
    assert_eq!(
        graph.dump(),
        "digraph G {\n  node [ shape=box ];  n0 -> n1 [label=\"50%\"];\n  n1 -> n2 [label=\"25%\"];\n  n0 [label=\"main (50%)\"];\n  n1 [label=\"f (50%)\"];\n  n2 [label=\"g (25%)\"];\n}\n"
    );
}

#[test]
fn empty_graph_is_rendered_without_lines() {
    let mut graph = CallGraph::new();
    assert_eq!(graph.dump(), "digraph G {\n  node [ shape=box ];}\n");
    graph.set_total(0, 5);
    assert_eq!(graph.dump(), "digraph G {\n  node [ shape=box ];}\n");
}
