use perf_focus::tree::{Tree, TreeNode};

fn frames(names: &[&str]) -> Vec<String> {
    names.iter().map(|f| f.to_string()).collect()
}

fn sample_tree() -> Tree {
    let mut tree = Tree::new();
    tree.add_frames(&frames(&["A", "B1", "C"]));
    tree.add_frames(&frames(&["A", "B2", "C"]));
    tree.add_frames(&frames(&["A", "B1", "D"]));
    tree
}

/// A node as text: its label, total and self hits, and its children.
fn show(node: &TreeNode) -> String {
    let children: Vec<String> = node.children().iter().map(show).collect();
    format!("{}:{}/{}[{}]", node.label(), node.hits_total(), node.hits_self(), children.join(" "))
}

/// Whether every node's total is its self hits plus the totals of its
/// children.
fn balanced(node: &TreeNode) -> bool {
    let below: usize = node.children().iter().map(|c| c.hits_total()).sum();
    node.hits_total() == node.hits_self() + below && node.children().iter().all(balanced)
}

#[test]
fn tree_counts_samples_along_their_paths() {
    let tree = sample_tree();
    assert_eq!(
        show(tree.root()),
        "<root>:3/0[A:3/0[B1:2/0[C:1/1[] D:1/1[]] B2:1/0[C:1/1[]]]]"
    );
    let root = tree.root();
    assert_eq!(root.children().len(), 1);
    let a = &root.children()[0];
    assert_eq!((a.label().as_str(), a.hits_total(), a.hits_self()), ("A", 3, 0));
    let b1 = &a.children()[0];
    assert_eq!((b1.label().as_str(), b1.hits_total(), b1.hits_self()), ("B1", 2, 0));
    assert_eq!(b1.children().len(), 2);
    let b2 = &a.children()[1];
    assert_eq!((b2.label().as_str(), b2.hits_total(), b2.hits_self()), ("B2", 1, 0));
    assert_eq!(b2.children().len(), 1);
}

#[test]
fn empty_tree_is_a_root_without_hits() {
    let tree = Tree::new();
    assert_eq!(show(tree.root()), "<root>:0/0[]");
    assert!(tree.dump(0, usize::MAX, 0).is_empty());
}

#[test]
fn sample_without_frames_ends_at_the_root() {
    let mut tree = Tree::new();
    tree.add_frames(&frames(&[]));
    tree.add_frames(&frames(&["a"]));
    tree.add_frames(&frames(&["a"]));
    tree.add_frames(&frames(&["a", "a"]));
    assert_eq!(show(tree.root()), "<root>:4/1[a:3/2[a:1/1[]]]");
}

#[test]
fn sums_are_right_after_every_step() {
    let mut tree = Tree::new();
    let samples = [
        frames(&["a", "b", "c"]),
        frames(&["a", "b"]),
        frames(&["a", "x", "c"]),
        frames(&["q"]),
        frames(&[]),
        frames(&["a", "b", "c", "d"]),
    ];
    for (seen, sample) in samples.iter().enumerate() {
        tree.add_frames(sample);
        assert!(balanced(tree.root()));
        assert_eq!(tree.root().hits_total(), seen + 1);
    }
    tree.sort();
    assert!(balanced(tree.root()));
    tree.rollup(6, 2, 20);
    assert!(balanced(tree.root()));
    assert_eq!(tree.root().hits_total(), 6);
    tree.only_leaves();
    assert!(balanced(tree.root()));
}

#[test]
fn sort_orders_children_by_descending_hits() {
    let mut tree = Tree::new();
    tree.add_frames(&frames(&["a", "x"]));
    tree.add_frames(&frames(&["b", "x"]));
    tree.add_frames(&frames(&["b", "y"]));
    tree.add_frames(&frames(&["b", "y"]));
    tree.add_frames(&frames(&["c"]));
    tree.add_frames(&frames(&["d", "p"]));
    tree.add_frames(&frames(&["d", "q"]));
    tree.add_frames(&frames(&["d", "q"]));
    assert_eq!(
        show(tree.root()),
        "<root>:8/0[a:1/0[x:1/1[]] b:3/0[x:1/1[] y:2/2[]] c:1/1[] d:3/0[p:1/1[] q:2/2[]]]"
    );
    tree.sort();
    let sorted = show(tree.root());
    assert_eq!(
        sorted,
        "<root>:8/0[b:3/0[y:2/2[] x:1/1[]] d:3/0[q:2/2[] p:1/1[]] a:1/0[x:1/1[]] c:1/1[]]"
    );
    tree.sort();
    assert_eq!(show(tree.root()), sorted);
}

#[test]
fn rollup_adds_small_nodes_to_their_parent() {
    let mut tree = Tree::new();
    for _ in 0..6 {
        tree.add_frames(&frames(&["a", "b"]));
    }
    for _ in 0..3 {
        tree.add_frames(&frames(&["a", "c", "d"]));
    }
    tree.add_frames(&frames(&["e"]));
    assert_eq!(
        show(tree.root()),
        "<root>:10/0[a:9/0[b:6/6[] c:3/0[d:3/3[]]] e:1/1[]]"
    );
    tree.rollup(10, usize::MAX, 40);
    assert_eq!(show(tree.root()), "<root>:10/1[a:9/3[b:6/6[]]]");
}

#[test]
fn rollup_cuts_below_the_greatest_depth() {
    let mut tree = sample_tree();
    tree.rollup(3, 1, 0);
    assert_eq!(show(tree.root()), "<root>:3/0[A:3/0[B1:2/2[] B2:1/1[]]]");
    let mut tree = sample_tree();
    tree.rollup(3, 0, 0);
    assert_eq!(show(tree.root()), "<root>:3/0[A:3/3[]]");
}

#[test]
fn rollup_that_cuts_nothing_changes_nothing() {
    let mut tree = sample_tree();
    tree.sort();
    let before = show(tree.root());
    tree.rollup(3, usize::MAX, 0);
    assert_eq!(show(tree.root()), before);
    tree.rollup(3, 2, 33);
    assert_eq!(show(tree.root()), before);
}

/// Asserts that every node below `node`, whose children lie at `depth`, has
/// at least `min_percent` percent of `total` and lies no deeper than
/// `max_depth`.
fn assert_within(node: &TreeNode, depth: usize, total: usize, max_depth: usize, min_percent: usize) {
    for child in node.children() {
        assert!(100 * child.hits_total() / total >= min_percent);
        assert!(depth <= max_depth);
        assert_within(child, depth + 1, total, max_depth, min_percent);
    }
}

#[test]
fn rollup_leaves_no_node_below_the_least_percentage() {
    let mut tree = Tree::new();
    let samples = [
        frames(&["a", "b", "c", "d"]),
        frames(&["a", "b", "c"]),
        frames(&["a", "b", "x"]),
        frames(&["a", "y"]),
        frames(&["z"]),
        frames(&["a", "b", "c", "d"]),
        frames(&["a", "b"]),
    ];
    for sample in &samples {
        tree.add_frames(sample);
    }
    tree.rollup(7, 2, 25);
    assert_within(tree.root(), 0, 7, 2, 25);
    assert!(balanced(tree.root()));
    assert_eq!(show(tree.root()), "<root>:7/1[a:6/1[b:5/2[c:3/3[]]]]");
}

#[test]
fn only_leaves_keeps_the_nodes_that_samples_end_at() {
    let mut tree = sample_tree();
    tree.add_frames(&frames(&["A", "B1"]));
    tree.only_leaves();
    assert_eq!(show(tree.root()), "<root>:4/0[B1:3/1[C:1/1[] D:1/1[]] C:1/1[]]");
}

#[test]
fn node_gives_way_to_its_leaves() {
    let mut node = TreeNode::new("n".to_string());
    node.add_frames(&frames(&["a", "b"]));
    node.add_frames(&frames(&["a", "c"]));
    node.add_frames(&frames(&["d"]));
    let leaves = node.into_only_leaves();
    let shown: Vec<String> = leaves.iter().map(show).collect();
    assert_eq!(shown, vec!["b:1/1[]", "c:1/1[]", "d:1/1[]"]);
    let mut node = TreeNode::new("n".to_string());
    node.add_frames(&frames(&[]));
    node.add_frames(&frames(&["a", "b"]));
    let leaves = node.into_only_leaves();
    let shown: Vec<String> = leaves.iter().map(show).collect();
    assert_eq!(shown, vec!["n:2/1[b:1/1[]]"]);
    let mut node = TreeNode::new("n".to_string());
    node.add_frames(&frames(&["a", "b"]));
    node.only_leaves();
    assert_eq!(show(&node), "n:1/0[b:1/1[]]");
}

#[test]
fn leaves_are_listed_with_their_hits() {
    let tree = sample_tree();
    let leaves = tree.for_each_leaf();
    let shown: Vec<(&str, usize)> = leaves.iter().map(|(l, h)| (l.as_str(), *h)).collect();
    assert_eq!(shown, vec![("C", 1), ("D", 1), ("C", 1)]);
    assert_eq!(Tree::new().for_each_leaf(), vec![("<root>".to_string(), 0)]);
    assert_eq!(tree.root().children()[0].for_each_leaf().len(), 3);
}

#[test]
fn tree_is_shown_parent_before_children() {
    let mut tree = sample_tree();
    tree.sort();
    assert_eq!(
        tree.dump(3, usize::MAX, 0),
        vec![
            "| A (100% total, 0% self)",
            ": | B1 (66% total, 0% self)",
            ": : | C (33% total, 33% self)",
            ": : | D (33% total, 33% self)",
            ": | B2 (33% total, 0% self)",
            ": : | C (33% total, 33% self)",
        ]
    );
}

#[test]
fn shown_tree_is_cut_by_depth_and_by_percentage() {
    let mut tree = sample_tree();
    tree.sort();
    assert_eq!(tree.dump(3, 2, 0), tree.dump(3, usize::MAX, 0));
    assert_eq!(
        tree.dump(3, 1, 0),
        vec![
            "| A (100% total, 0% self)",
            ": | B1 (66% total, 0% self) [...]",
            ": | B2 (33% total, 0% self) [...]",
        ]
    );
    assert_eq!(tree.dump(3, 0, 0), vec!["| A (100% total, 0% self) [...]"]);
    assert_eq!(
        tree.dump(3, usize::MAX, 50),
        vec!["| A (100% total, 0% self)", ": | B1 (66% total, 0% self)"]
    );
    assert!(tree.dump(3, usize::MAX, 101).is_empty());
    assert_eq!(
        tree.dump(6, 1, 0),
        vec![
            "| A (50% total, 0% self)",
            ": | B1 (33% total, 0% self) [...]",
            ": | B2 (16% total, 0% self) [...]",
        ]
    );
}
