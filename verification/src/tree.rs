//! A tree of the sampled stacks, one node per distinct path prefix, each
//! with the number of samples that pass through it and that end at it.

use crate::text::{decimal, push_decimal, push_text, texts};
use crate::util::{percent, percent_below, percent_capped, percent_of};
use vstd::prelude::*;
use vstd::slice::slice_subrange;

verus! {

/// A node of the tree, as a mathematical value.
pub struct NodeView {
    /// The frame that the node stands for.
    pub label: Seq<char>,
    /// The number of samples whose path passes through the node.
    pub hits_total: nat,
    /// The number of samples whose path ends at the node.
    pub hits_self: nat,
    /// The nodes one frame further on, in order.
    pub children: Seq<NodeView>,
}

/// The sum of `hits_total` over `nodes`.
pub open spec fn total_hits(nodes: Seq<NodeView>) -> nat
    decreases nodes.len(),
{
    if nodes.len() == 0 {
        0
    } else {
        total_hits(nodes.drop_last()) + nodes.last().hits_total
    }
}

/// The index of the first of `nodes` from `from` on that is labelled `label`.
pub open spec fn position_from(nodes: Seq<NodeView>, label: Seq<char>, from: int) -> Option<int>
    decreases nodes.len() - from,
{
    if from < 0 || from >= nodes.len() {
        None
    } else if nodes[from].label == label {
        Some(from)
    } else {
        position_from(nodes, label, from + 1)
    }
}

/// The index of the first of `nodes` that is labelled `label`.
pub open spec fn position_of(nodes: Seq<NodeView>, label: Seq<char>) -> Option<int> {
    position_from(nodes, label, 0)
}

/// `position_from` finds the first node with the label, and finds none
/// only where there is none.
pub proof fn lemma_position_from(nodes: Seq<NodeView>, label: Seq<char>, from: int)
    requires
        0 <= from,
    ensures
        match position_from(nodes, label, from) {
            Some(i) => from <= i < nodes.len() && nodes[i].label == label && forall|j: int|
                from <= j < i ==> (#[trigger] nodes[j]).label != label,
            None => forall|j: int| from <= j < nodes.len() ==> (#[trigger] nodes[j]).label != label,
        },
    decreases nodes.len() - from,
{
    if from < nodes.len() && nodes[from].label != label {
        lemma_position_from(nodes, label, from + 1);
    }
}

/// One node's hits are part of the sum over all.
pub proof fn lemma_total_hits_bound(nodes: Seq<NodeView>, i: int)
    requires
        0 <= i < nodes.len(),
    ensures
        nodes[i].hits_total <= total_hits(nodes),
    decreases nodes.len(),
{
    if i < nodes.len() - 1 {
        lemma_total_hits_bound(nodes.drop_last(), i);
    }
}

/// Replacing one node changes the sum by the difference of its hits.
pub proof fn lemma_total_hits_update(nodes: Seq<NodeView>, i: int, node: NodeView)
    requires
        0 <= i < nodes.len(),
    ensures
        total_hits(nodes.update(i, node)) == total_hits(nodes) - nodes[i].hits_total
            + node.hits_total,
    decreases nodes.len(),
{
    if i < nodes.len() - 1 {
        lemma_total_hits_update(nodes.drop_last(), i, node);
        assert(nodes.update(i, node).drop_last() =~= nodes.drop_last().update(i, node));
    } else {
        assert(nodes.update(i, node).drop_last() =~= nodes.drop_last());
    }
}

/// The hits of a front part are no more than the hits of all.
pub proof fn lemma_total_hits_take(nodes: Seq<NodeView>, n: int)
    requires
        0 <= n <= nodes.len(),
    ensures
        total_hits(nodes.take(n)) <= total_hits(nodes),
    decreases nodes.len(),
{
    if n < nodes.len() {
        lemma_total_hits_take(nodes.drop_last(), n);
        assert(nodes.drop_last().take(n) =~= nodes.take(n));
    } else {
        assert(nodes.take(n) =~= nodes);
    }
}

/// A node added at the end adds its hits to the sum.
pub proof fn lemma_total_hits_push(nodes: Seq<NodeView>, node: NodeView)
    ensures
        total_hits(nodes.push(node)) == total_hits(nodes) + node.hits_total,
{
    assert(nodes.push(node).drop_last() =~= nodes);
}

impl NodeView {
    /// A fresh node without hits.
    pub open spec fn leaf(label: Seq<char>) -> NodeView {
        NodeView { label, hits_total: 0, hits_self: 0, children: Seq::empty() }
    }

    /// Every node's `hits_total` is its `hits_self` plus the `hits_total` of
    /// its children.
    pub open spec fn balanced(self) -> bool
        decreases self,
    {
        &&& self.hits_total == self.hits_self + total_hits(self.children)
        &&& forall|i: int| 0 <= i < self.children.len() ==> (#[trigger] self.children[i]).balanced()
    }

    /// No two children of one node have the same label.
    pub open spec fn distinct(self) -> bool
        decreases self,
    {
        &&& forall|i: int, j: int|
            0 <= i < j < self.children.len() ==> (#[trigger] self.children[i]).label
                != (#[trigger] self.children[j]).label
        &&& forall|i: int| 0 <= i < self.children.len() ==> (#[trigger] self.children[i]).distinct()
    }

    /// The node with the children of every node in the order of descending
    /// `hits_total`, nodes with the same hits staying in the order they had.
    pub open spec fn sorted(self) -> NodeView
        decreases self,
    {
        NodeView { children: sorted_nodes(self.children), ..self }
    }

    /// Whether the children of every node are in the order of descending
    /// `hits_total`.
    pub open spec fn ordered(self) -> bool
        decreases self,
    {
        &&& descending(self.children)
        &&& forall|i: int| 0 <= i < self.children.len() ==> (#[trigger] self.children[i]).ordered()
    }

    /// Sorting keeps a node's label and counts, keeps its sums right and its
    /// sibling labels distinct, and leaves it ordered.
    pub proof fn lemma_sorted(self)
        ensures
            self.sorted().label == self.label,
            self.sorted().hits_total == self.hits_total,
            self.sorted().hits_self == self.hits_self,
            self.sorted().children.len() == self.children.len(),
            self.sorted().ordered(),
            self.balanced() ==> self.sorted().balanced(),
            self.distinct() ==> self.sorted().distinct(),
        decreases self,
    {
        let kids = sorted_nodes(self.children);
        lemma_sorted_nodes(self.children);
        lemma_sorted_nodes_members(self.children);
        lemma_sorted_nodes_labels(self.children);
        assert forall|i: int| 0 <= i < kids.len() implies (#[trigger] kids[i]).ordered() && (
        self.balanced() ==> kids[i].balanced()) && (self.distinct() ==> kids[i].distinct()) by {
            let k = choose|k: int|
                0 <= k < self.children.len() && kids[i] == (#[trigger] self.children[k]).sorted();
            self.children[k].lemma_sorted();
        }
    }

    /// Sorting leaves an ordered node as it is.
    pub proof fn lemma_sorted_fixed(self)
        requires
            self.ordered(),
        ensures
            self.sorted() == self,
        decreases self,
    {
        lemma_sorted_nodes_fixed(self.children);
    }

    /// Whether the node, at depth `depth`, stays when the tree is cut.
    pub open spec fn stays(self, depth: nat, cut: Threshold) -> bool {
        percent_of(self.hits_total, cut.total) >= cut.min_percent && depth <= cut.max_depth
    }

    /// The node, whose children lie at depth `depth`, rolled up: every node
    /// below that does not stay is taken out, with all that is below it, and
    /// its `hits_total` is added to the `hits_self` of its parent.
    pub open spec fn rolled(self, depth: nat, cut: Threshold) -> NodeView
        decreases self,
    {
        NodeView {
            hits_self: self.hits_self + collapsed_hits(self.children, depth, cut),
            children: rolled_nodes(self.children, depth, cut),
            ..self
        }
    }

    /// Whether every node below, the children lying at depth `depth`,
    /// stays when the tree is cut.
    pub open spec fn within(self, depth: nat, cut: Threshold) -> bool
        decreases self,
    {
        forall|i: int|
            0 <= i < self.children.len() ==> (#[trigger] self.children[i]).stays(depth, cut)
                && self.children[i].within(depth + 1, cut)
    }

    /// Rolling up keeps a node's label and `hits_total`, keeps its sums
    /// right and its sibling labels distinct, and leaves only nodes that
    /// stay.
    pub proof fn lemma_rolled(self, depth: nat, cut: Threshold)
        ensures
            self.rolled(depth, cut).label == self.label,
            self.rolled(depth, cut).hits_total == self.hits_total,
            self.rolled(depth, cut).within(depth, cut),
            self.balanced() ==> self.rolled(depth, cut).balanced(),
            self.distinct() ==> self.rolled(depth, cut).distinct(),
            self.ordered() ==> self.rolled(depth, cut).ordered(),
        decreases self,
    {
        let kids = rolled_nodes(self.children, depth, cut);
        lemma_rolled_nodes_hits(self.children, depth, cut);
        assert forall|i: int| 0 <= i < kids.len() implies (#[trigger] kids[i]).stays(depth, cut)
            && kids[i].within(depth + 1, cut) && (self.balanced() ==> kids[i].balanced()) && (
        self.distinct() ==> kids[i].distinct()) && (self.ordered() ==> kids[i].ordered()) by {
            lemma_source_index(self.children, depth, cut, i);
            self.children[source_index(self.children, depth, cut, i)].lemma_rolled(depth + 1, cut);
        }
        assert forall|i: int, j: int| 0 <= i < j < kids.len() implies (self.distinct() ==> (
        #[trigger] kids[i]).label != (#[trigger] kids[j]).label) && (self.ordered()
            ==> kids[i].hits_total >= kids[j].hits_total) by {
            lemma_source_index(self.children, depth, cut, i);
            lemma_source_index(self.children, depth, cut, j);
            lemma_source_index_order(self.children, depth, cut, i, j);
            let k = source_index(self.children, depth, cut, i);
            let l = source_index(self.children, depth, cut, j);
            self.children[k].lemma_rolled(depth + 1, cut);
            self.children[l].lemma_rolled(depth + 1, cut);
        }
    }

    /// Where every node below stays, rolling up leaves the node as it is.
    pub proof fn lemma_rolled_fixed(self, depth: nat, cut: Threshold)
        requires
            self.within(depth, cut),
        ensures
            self.rolled(depth, cut) == self,
        decreases self,
    {
        lemma_rolled_nodes_fixed(self.children, depth, cut);
    }

    /// The node with only nodes that samples end at kept below it.
    pub open spec fn only_leaves(self) -> NodeView
        decreases self, 0nat,
    {
        NodeView { children: leaves_of_nodes(self.children), ..self }
    }

    /// What is left of the node when only nodes that samples end at are
    /// kept: the node itself, if samples end at it, or else what is left of
    /// its children.
    pub open spec fn into_only_leaves(self) -> Seq<NodeView>
        decreases self, 1nat,
    {
        if self.hits_self > 0 {
            seq![self.only_leaves()]
        } else {
            self.only_leaves().children
        }
    }

    /// Keeping only the nodes that samples end at keeps the sums right.
    pub proof fn lemma_only_leaves(self)
        requires
            self.balanced(),
        ensures
            self.only_leaves().balanced(),
            total_hits(self.into_only_leaves()) == self.hits_total,
            forall|i: int|
                0 <= i < self.into_only_leaves().len() ==> (
                #[trigger] self.into_only_leaves()[i]).balanced(),
        decreases self,
    {
        lemma_leaves_of_nodes(self.children);
        if self.hits_self > 0 {
            let one = seq![self.only_leaves()];
            assert(one.drop_last() =~= Seq::<NodeView>::empty());
            assert(total_hits(one.drop_last()) == 0);
            assert(one.last() == self.only_leaves());
            assert(total_hits(one) == self.hits_total);
        }
    }

    /// The leaves of the node, each with its label and hits, in order; a
    /// node without children is its own leaf.
    pub open spec fn leaf_hits(self) -> Seq<(Seq<char>, nat)>
        decreases self,
    {
        if self.children.len() == 0 {
            seq![(self.label, self.hits_total)]
        } else {
            leaf_hits_of_nodes(self.children)
        }
    }

    /// The line that shows the node `parents` levels deep, with the
    /// percentages that its hits are of `total`.
    pub open spec fn line(self, parents: nat, total: nat) -> Seq<char> {
        indent(parents) + "| "@ + self.label + " ("@ + decimal(
            percent_capped(self.hits_total, total),
        ) + "% total, "@ + decimal(percent_capped(self.hits_self, total)) + "% self)"@
    }

    /// The lines that show the node and what is below it, parent before
    /// children. A node whose share of the total is less than the least
    /// percentage is not shown; a node with children that would lie deeper
    /// than the greatest depth is marked, and its children are not shown.
    pub open spec fn lines(self, parents: nat, cut: Threshold) -> Seq<Seq<char>>
        decreases self,
    {
        if percent_of(self.hits_total, cut.total) < cut.min_percent {
            Seq::empty()
        } else if self.children.len() > 0 && parents + 1 > cut.max_depth {
            seq![self.line(parents, cut.total) + " [...]"@]
        } else {
            seq![self.line(parents, cut.total)] + lines_of_nodes(self.children, parents + 1, cut)
        }
    }

    /// Sorting a node of which every node below stays leaves every node
    /// below staying.
    pub proof fn lemma_sorted_within(self, depth: nat, cut: Threshold)
        requires
            self.within(depth, cut),
        ensures
            self.sorted().within(depth, cut),
        decreases self,
    {
        let kids = sorted_nodes(self.children);
        lemma_sorted_nodes_members(self.children);
        assert forall|i: int| 0 <= i < kids.len() implies (#[trigger] kids[i]).stays(depth, cut)
            && kids[i].within(depth + 1, cut) by {
            let k = choose|k: int|
                0 <= k < self.children.len() && kids[i] == (#[trigger] self.children[k]).sorted();
            self.children[k].lemma_sorted();
            self.children[k].lemma_sorted_within(depth + 1, cut);
        }
    }

    /// The node after one more sample whose remaining path is `path`.
    pub open spec fn insert(self, path: Seq<Seq<char>>) -> NodeView
        decreases path.len(),
    {
        if path.len() == 0 {
            NodeView { hits_total: self.hits_total + 1, hits_self: self.hits_self + 1, ..self }
        } else {
            let rest = path.drop_first();
            let children = match position_of(self.children, path[0]) {
                Some(i) => self.children.update(i, self.children[i].insert(rest)),
                None => self.children.push(NodeView::leaf(path[0]).insert(rest)),
            };
            NodeView { hits_total: self.hits_total + 1, children, ..self }
        }
    }
}

/// Where a node with `hits` hits goes into `nodes`, searching from `from`:
/// before the first node that has no more hits than it.
pub open spec fn insert_position(nodes: Seq<NodeView>, hits: nat, from: int) -> int
    decreases nodes.len() - from,
{
    if from < 0 || from >= nodes.len() {
        nodes.len() as int
    } else if nodes[from].hits_total <= hits {
        from
    } else {
        insert_position(nodes, hits, from + 1)
    }
}

/// `nodes` with `node` put in before the first node that has no more hits
/// than it.
pub open spec fn insert_by_hits(nodes: Seq<NodeView>, node: NodeView) -> Seq<NodeView> {
    nodes.insert(insert_position(nodes, node.hits_total, 0), node)
}

/// `nodes`, each sorted within, in the order of descending `hits_total`;
/// nodes with the same hits stay in the order they had.
pub open spec fn sorted_nodes(nodes: Seq<NodeView>) -> Seq<NodeView>
    decreases nodes,
{
    if nodes.len() == 0 {
        Seq::empty()
    } else {
        insert_by_hits(sorted_nodes(nodes.drop_first()), nodes[0].sorted())
    }
}

/// Whether `nodes` are in the order of descending `hits_total`.
pub open spec fn descending(nodes: Seq<NodeView>) -> bool {
    forall|i: int, j: int|
        0 <= i < j < nodes.len() ==> (#[trigger] nodes[i]).hits_total >= (
        #[trigger] nodes[j]).hits_total
}

/// Whether one of `nodes` is labelled `label`.
pub open spec fn has_label(nodes: Seq<NodeView>, label: Seq<char>) -> bool {
    exists|i: int| 0 <= i < nodes.len() && (#[trigger] nodes[i]).label == label
}

/// Whether both sequences hold the same labels.
pub open spec fn same_labels(a: Seq<NodeView>, b: Seq<NodeView>) -> bool {
    forall|label: Seq<char>| #[trigger] has_label(a, label) == has_label(b, label)
}

/// Whether no two of `nodes` have the same label.
pub open spec fn distinct_labels(nodes: Seq<NodeView>) -> bool {
    forall|i: int, j: int|
        0 <= i < j < nodes.len() ==> (#[trigger] nodes[i]).label != (#[trigger] nodes[j]).label
}

/// `insert_position` lies in the sequence, after nodes with more hits.
pub proof fn lemma_insert_position(nodes: Seq<NodeView>, hits: nat, from: int)
    requires
        0 <= from <= nodes.len(),
    ensures
        from <= insert_position(nodes, hits, from) <= nodes.len(),
        forall|j: int|
            from <= j < insert_position(nodes, hits, from) ==> (#[trigger] nodes[j]).hits_total
                > hits,
        insert_position(nodes, hits, from) < nodes.len() ==> nodes[insert_position(
            nodes,
            hits,
            from,
        )].hits_total <= hits,
    decreases nodes.len() - from,
{
    if from < nodes.len() && nodes[from].hits_total > hits {
        lemma_insert_position(nodes, hits, from + 1);
    }
}

/// A node put in anywhere adds its hits to the sum.
pub proof fn lemma_total_hits_insert(nodes: Seq<NodeView>, at: int, node: NodeView)
    requires
        0 <= at <= nodes.len(),
    ensures
        total_hits(nodes.insert(at, node)) == total_hits(nodes) + node.hits_total,
    decreases nodes.len(),
{
    if at == nodes.len() {
        assert(nodes.insert(at, node) =~= nodes.push(node));
        lemma_total_hits_push(nodes, node);
    } else {
        lemma_total_hits_insert(nodes.drop_last(), at, node);
        assert(nodes.insert(at, node).drop_last() =~= nodes.drop_last().insert(at, node));
        assert(nodes.insert(at, node).last() == nodes.last());
    }
}

/// Dropping the first node takes its hits from the sum.
pub proof fn lemma_total_hits_drop_first(nodes: Seq<NodeView>)
    requires
        nodes.len() > 0,
    ensures
        total_hits(nodes) == nodes[0].hits_total + total_hits(nodes.drop_first()),
    decreases nodes.len(),
{
    if nodes.len() > 1 {
        lemma_total_hits_drop_first(nodes.drop_last());
        assert(nodes.drop_last().drop_first() =~= nodes.drop_first().drop_last());
    } else {
        assert(nodes.drop_last() =~= Seq::empty());
        assert(nodes.drop_first() =~= Seq::empty());
    }
}

/// The nodes of a sequence with one node put in are that node and the
/// nodes that were there.
pub proof fn lemma_insert_members(nodes: Seq<NodeView>, at: int, node: NodeView)
    requires
        0 <= at <= nodes.len(),
    ensures
        nodes.insert(at, node).len() == nodes.len() + 1,
        forall|i: int|
            0 <= i < nodes.len() + 1 ==> (#[trigger] nodes.insert(at, node)[i]) == (if i < at {
                nodes[i]
            } else if i == at {
                node
            } else {
                nodes[i - 1]
            }),
{
}

/// Sorting keeps the number of nodes and the sum of their hits, and puts
/// them in descending order.
pub proof fn lemma_sorted_nodes(nodes: Seq<NodeView>)
    ensures
        sorted_nodes(nodes).len() == nodes.len(),
        total_hits(sorted_nodes(nodes)) == total_hits(nodes),
        descending(sorted_nodes(nodes)),
    decreases nodes,
{
    if nodes.len() > 0 {
        let tail = sorted_nodes(nodes.drop_first());
        let head = nodes[0].sorted();
        let at = insert_position(tail, head.hits_total, 0);
        let all = sorted_nodes(nodes);
        lemma_sorted_nodes(nodes.drop_first());
        lemma_insert_position(tail, head.hits_total, 0);
        lemma_total_hits_insert(tail, at, head);
        lemma_total_hits_drop_first(nodes);
        lemma_insert_members(tail, at, head);
        assert forall|i: int, j: int| 0 <= i < j < all.len() implies (#[trigger] all[i]).hits_total
            >= (#[trigger] all[j]).hits_total by {
            if i < at && j > at {
                assert(tail[i].hits_total >= tail[j - 1].hits_total);
            } else if i == at {
                if at < j - 1 {
                    assert(tail[at].hits_total >= tail[j - 1].hits_total);
                }
            } else if j == at {
            } else if j < at {
                assert(tail[i].hits_total >= tail[j].hits_total);
            } else {
                assert(tail[i - 1].hits_total >= tail[j - 1].hits_total);
            }
        }
    }
}

/// Every node of the sorted sequence is one of the nodes, sorted within.
pub proof fn lemma_sorted_nodes_members(nodes: Seq<NodeView>)
    ensures
        forall|i: int|
            0 <= i < sorted_nodes(nodes).len() ==> exists|k: int|
                0 <= k < nodes.len() && (#[trigger] sorted_nodes(nodes)[i]) == (
                #[trigger] nodes[k]).sorted(),
    decreases nodes,
{
    if nodes.len() > 0 {
        let rest = nodes.drop_first();
        let tail = sorted_nodes(rest);
        let head = nodes[0].sorted();
        let at = insert_position(tail, head.hits_total, 0);
        let all = sorted_nodes(nodes);
        lemma_sorted_nodes_members(rest);
        lemma_insert_position(tail, head.hits_total, 0);
        lemma_insert_members(tail, at, head);
        assert forall|i: int| 0 <= i < all.len() implies exists|k: int|
            0 <= k < nodes.len() && (#[trigger] all[i]) == (#[trigger] nodes[k]).sorted() by {
            if i == at {
                assert(all[i] == nodes[0].sorted());
            } else {
                let t = if i < at {
                    i
                } else {
                    i - 1
                };
                let k = choose|k: int|
                    0 <= k < rest.len() && (#[trigger] tail[t]) == (#[trigger] rest[k]).sorted();
                assert(rest[k] == nodes[k + 1]);
                assert(all[i] == nodes[k + 1].sorted());
            }
        }
    }
}

/// Sorting keeps the labels of a sequence, and keeps them distinct.
pub proof fn lemma_sorted_nodes_labels(nodes: Seq<NodeView>)
    ensures
        same_labels(sorted_nodes(nodes), nodes),
        distinct_labels(nodes) ==> distinct_labels(sorted_nodes(nodes)),
    decreases nodes,
{
    if nodes.len() > 0 {
        let rest = nodes.drop_first();
        let tail = sorted_nodes(rest);
        let head = nodes[0].sorted();
        let at = insert_position(tail, head.hits_total, 0);
        let all = sorted_nodes(nodes);
        lemma_sorted_nodes_labels(rest);
        lemma_insert_position(tail, head.hits_total, 0);
        lemma_insert_members(tail, at, head);
        assert(head.label == nodes[0].label);
        assert forall|label: Seq<char>| #[trigger] has_label(all, label) == has_label(
            nodes,
            label,
        ) by {
            assert(has_label(tail, label) == has_label(rest, label));
            if has_label(all, label) {
                let i = choose|i: int| 0 <= i < all.len() && (#[trigger] all[i]).label == label;
                if i == at {
                    assert(nodes[0].label == label);
                } else {
                    let t = if i < at {
                        i
                    } else {
                        i - 1
                    };
                    assert(tail[t].label == label);
                    let k = choose|k: int| 0 <= k < rest.len() && (#[trigger] rest[k]).label == label;
                    assert(nodes[k + 1].label == label);
                }
            }
            if has_label(nodes, label) {
                let k = choose|k: int| 0 <= k < nodes.len() && (#[trigger] nodes[k]).label == label;
                if k == 0 {
                    assert(all[at].label == label);
                } else {
                    assert(rest[k - 1].label == label);
                    let t = choose|t: int| 0 <= t < tail.len() && (#[trigger] tail[t]).label == label;
                    let i = if t < at {
                        t
                    } else {
                        t + 1
                    };
                    assert(all[i].label == label);
                }
            }
        }
        if distinct_labels(nodes) {
            assert forall|i: int, j: int| 0 <= i < j < rest.len() implies (#[trigger] rest[i]).label
                != (#[trigger] rest[j]).label by {
                assert(rest[i] == nodes[i + 1]);
                assert(rest[j] == nodes[j + 1]);
            }
            if has_label(rest, head.label) {
                let k = choose|k: int|
                    0 <= k < rest.len() && (#[trigger] rest[k]).label == head.label;
                assert(nodes[k + 1].label == nodes[0].label);
            }
            assert(!has_label(tail, head.label));
            assert forall|i: int, j: int| 0 <= i < j < all.len() implies (#[trigger] all[i]).label
                != (#[trigger] all[j]).label by {
                let ti = if i < at {
                    i
                } else {
                    i - 1
                };
                let tj = if j < at {
                    j
                } else {
                    j - 1
                };
                if i == at {
                    assert(tail[tj].label != head.label);
                } else if j == at {
                    assert(tail[ti].label != head.label);
                } else {
                    assert(tail[ti].label != tail[tj].label);
                }
            }
        }
    } else {
        assert forall|label: Seq<char>| #[trigger] has_label(sorted_nodes(nodes), label)
            == has_label(nodes, label) by {}
    }
}

/// A sequence in descending order whose nodes are sorted within is left as
/// it is by sorting.
pub proof fn lemma_sorted_nodes_fixed(nodes: Seq<NodeView>)
    requires
        descending(nodes),
        forall|i: int| 0 <= i < nodes.len() ==> (#[trigger] nodes[i]).ordered(),
    ensures
        sorted_nodes(nodes) == nodes,
    decreases nodes,
{
    if nodes.len() > 0 {
        let rest = nodes.drop_first();
        assert forall|i: int| 0 <= i < rest.len() implies (#[trigger] rest[i]).ordered() by {
            assert(rest[i] == nodes[i + 1]);
        }
        assert forall|i: int, j: int| 0 <= i < j < rest.len() implies (#[trigger] rest[i]).hits_total
            >= (#[trigger] rest[j]).hits_total by {
            assert(rest[i] == nodes[i + 1]);
            assert(rest[j] == nodes[j + 1]);
        }
        lemma_sorted_nodes_fixed(rest);
        nodes[0].lemma_sorted_fixed();
        lemma_insert_members(rest, 0, nodes[0]);
        if rest.len() > 0 {
            assert(rest[0] == nodes[1]);
            assert(nodes[0].hits_total >= nodes[1].hits_total);
        }
        assert(insert_position(rest, nodes[0].hits_total, 0) == 0);
        assert(rest.insert(0, nodes[0]) =~= nodes);
    } else {
        assert(nodes =~= Seq::empty());
    }
}

/// The cut that three machine integers stand for.
pub open spec fn cut_of(total_samples: usize, max_depth: usize, min_percent: usize) -> Threshold {
    Threshold {
        total: total_samples as nat,
        max_depth: max_depth as nat,
        min_percent: min_percent as nat,
    }
}

/// The nodes of a vector as mathematical values.
pub open spec fn views(nodes: Seq<TreeNode>) -> Seq<NodeView> {
    Seq::new(nodes.len(), |i: int| nodes[i]@)
}

/// Where the tree is cut: a node stays only if its share of `total` is at
/// least `min_percent` and it lies no deeper than `max_depth`.
pub struct Threshold {
    /// The number of samples that percentages are taken of.
    pub total: nat,
    /// The greatest depth at which a node stays; the children of the root
    /// have depth 0.
    pub max_depth: nat,
    /// The least percentage of `total` with which a node stays.
    pub min_percent: nat,
}

/// `nodes`, all at depth `depth`, without those that do not stay, and with
/// those that stay rolled up below.
pub open spec fn rolled_nodes(nodes: Seq<NodeView>, depth: nat, cut: Threshold) -> Seq<NodeView>
    decreases nodes,
{
    if nodes.len() == 0 {
        Seq::empty()
    } else {
        let front = rolled_nodes(nodes.drop_last(), depth, cut);
        if nodes.last().stays(depth, cut) {
            front.push(nodes.last().rolled(depth + 1, cut))
        } else {
            front
        }
    }
}

/// The sum of `hits_total` over those of `nodes`, all at depth `depth`,
/// that do not stay.
pub open spec fn collapsed_hits(nodes: Seq<NodeView>, depth: nat, cut: Threshold) -> nat
    decreases nodes.len(),
{
    if nodes.len() == 0 {
        0
    } else {
        collapsed_hits(nodes.drop_last(), depth, cut) + if nodes.last().stays(depth, cut) {
            0
        } else {
            nodes.last().hits_total
        }
    }
}

/// The hits of the nodes that stay and of those that do not make up the
/// hits of all.
pub proof fn lemma_rolled_nodes_hits(nodes: Seq<NodeView>, depth: nat, cut: Threshold)
    ensures
        total_hits(rolled_nodes(nodes, depth, cut)) + collapsed_hits(nodes, depth, cut)
            == total_hits(nodes),
        rolled_nodes(nodes, depth, cut).len() <= nodes.len(),
    decreases nodes.len(),
{
    if nodes.len() > 0 {
        lemma_rolled_nodes_hits(nodes.drop_last(), depth, cut);
        if nodes.last().stays(depth, cut) {
            lemma_total_hits_push(
                rolled_nodes(nodes.drop_last(), depth, cut),
                nodes.last().rolled(depth + 1, cut),
            );
        }
    }
}

/// The index among `nodes` of the node that, rolled up, is left at index
/// `i`.
pub open spec fn source_index(nodes: Seq<NodeView>, depth: nat, cut: Threshold, i: int) -> int
    decreases nodes.len(),
{
    if nodes.len() == 0 {
        0
    } else if i < rolled_nodes(nodes.drop_last(), depth, cut).len() {
        source_index(nodes.drop_last(), depth, cut, i)
    } else {
        nodes.len() - 1
    }
}

/// Every node that is left after rolling up is one of the nodes that stay,
/// rolled up below.
pub proof fn lemma_source_index(nodes: Seq<NodeView>, depth: nat, cut: Threshold, i: int)
    requires
        0 <= i < rolled_nodes(nodes, depth, cut).len(),
    ensures
        0 <= source_index(nodes, depth, cut, i) < nodes.len(),
        nodes[source_index(nodes, depth, cut, i)].stays(depth, cut),
        rolled_nodes(nodes, depth, cut)[i] == nodes[source_index(nodes, depth, cut, i)].rolled(
            depth + 1,
            cut,
        ),
    decreases nodes.len(),
{
    if nodes.len() > 0 {
        if i < rolled_nodes(nodes.drop_last(), depth, cut).len() {
            lemma_source_index(nodes.drop_last(), depth, cut, i);
        }
    }
}

/// The nodes that are left after rolling up are left in their order.
pub proof fn lemma_source_index_order(
    nodes: Seq<NodeView>,
    depth: nat,
    cut: Threshold,
    i: int,
    j: int,
)
    requires
        0 <= i < j < rolled_nodes(nodes, depth, cut).len(),
    ensures
        source_index(nodes, depth, cut, i) < source_index(nodes, depth, cut, j),
    decreases nodes.len(),
{
    if nodes.len() > 0 {
        if j < rolled_nodes(nodes.drop_last(), depth, cut).len() {
            lemma_source_index_order(nodes.drop_last(), depth, cut, i, j);
        } else {
            lemma_source_index(nodes.drop_last(), depth, cut, i);
        }
    }
}

/// Below the greatest depth no node stays.
pub proof fn lemma_rolled_nodes_too_deep(nodes: Seq<NodeView>, depth: nat, cut: Threshold)
    requires
        depth > cut.max_depth,
    ensures
        rolled_nodes(nodes, depth, cut) == Seq::<NodeView>::empty(),
        collapsed_hits(nodes, depth, cut) == total_hits(nodes),
    decreases nodes.len(),
{
    if nodes.len() > 0 {
        lemma_rolled_nodes_too_deep(nodes.drop_last(), depth, cut);
    }
}

/// Where every node stays, rolling up leaves the nodes as they are.
pub proof fn lemma_rolled_nodes_fixed(nodes: Seq<NodeView>, depth: nat, cut: Threshold)
    requires
        forall|i: int|
            0 <= i < nodes.len() ==> (#[trigger] nodes[i]).stays(depth, cut) && nodes[i].within(
                depth + 1,
                cut,
            ),
    ensures
        rolled_nodes(nodes, depth, cut) == nodes,
        collapsed_hits(nodes, depth, cut) == 0,
    decreases nodes,
{
    if nodes.len() > 0 {
        let front = nodes.drop_last();
        assert forall|i: int| 0 <= i < front.len() implies (#[trigger] front[i]).stays(depth, cut)
            && front[i].within(depth + 1, cut) by {
            assert(front[i] == nodes[i]);
        }
        lemma_rolled_nodes_fixed(front, depth, cut);
        nodes.last().lemma_rolled_fixed(depth + 1, cut);
        assert(front.push(nodes.last()) =~= nodes);
    } else {
        assert(nodes =~= Seq::empty());
    }
}

/// What is left of `nodes` when only nodes that samples end at are kept:
/// every node without `hits_self` gives way to what is left of its children.
pub open spec fn leaves_of_nodes(nodes: Seq<NodeView>) -> Seq<NodeView>
    decreases nodes,
{
    if nodes.len() == 0 {
        Seq::empty()
    } else {
        leaves_of_nodes(nodes.drop_last()) + nodes.last().into_only_leaves()
    }
}

/// The hits of two sequences add up.
pub proof fn lemma_total_hits_concat(a: Seq<NodeView>, b: Seq<NodeView>)
    ensures
        total_hits(a + b) == total_hits(a) + total_hits(b),
    decreases b.len(),
{
    if b.len() == 0 {
        assert(a + b =~= a);
    } else {
        lemma_total_hits_concat(a, b.drop_last());
        assert((a + b).drop_last() =~= a + b.drop_last());
    }
}

/// Keeping only the nodes that samples end at keeps the sums right and the
/// hits of all.
pub proof fn lemma_leaves_of_nodes(nodes: Seq<NodeView>)
    requires
        forall|i: int| 0 <= i < nodes.len() ==> (#[trigger] nodes[i]).balanced(),
    ensures
        total_hits(leaves_of_nodes(nodes)) == total_hits(nodes),
        forall|i: int|
            0 <= i < leaves_of_nodes(nodes).len() ==> (#[trigger] leaves_of_nodes(
                nodes,
            )[i]).balanced(),
    decreases nodes,
{
    if nodes.len() > 0 {
        let front = nodes.drop_last();
        assert forall|i: int| 0 <= i < front.len() implies (#[trigger] front[i]).balanced() by {
            assert(front[i] == nodes[i]);
        }
        lemma_leaves_of_nodes(front);
        nodes.last().lemma_only_leaves();
        lemma_total_hits_concat(leaves_of_nodes(front), nodes.last().into_only_leaves());
    }
}

/// The leaves below `nodes`, each with its label and hits, in order.
pub open spec fn leaf_hits_of_nodes(nodes: Seq<NodeView>) -> Seq<(Seq<char>, nat)>
    decreases nodes,
{
    if nodes.len() == 0 {
        Seq::empty()
    } else {
        leaf_hits_of_nodes(nodes.drop_last()) + nodes.last().leaf_hits()
    }
}

/// The indentation of a line `parents` levels deep.
pub open spec fn indent(parents: nat) -> Seq<char>
    decreases parents,
{
    if parents == 0 {
        Seq::empty()
    } else {
        indent((parents - 1) as nat) + ": "@
    }
}

/// The lines that show `nodes`, all `parents` levels deep, one after the
/// other.
pub open spec fn lines_of_nodes(nodes: Seq<NodeView>, parents: nat, cut: Threshold) -> Seq<
    Seq<char>,
>
    decreases nodes,
{
    if nodes.len() == 0 {
        Seq::empty()
    } else {
        lines_of_nodes(nodes.drop_last(), parents, cut) + nodes.last().lines(parents, cut)
    }
}

/// Leaves as they are handed out, as mathematical values.
pub open spec fn leaf_views(leaves: Seq<(String, usize)>) -> Seq<(Seq<char>, nat)> {
    Seq::new(leaves.len(), |i: int| (leaves[i].0@, leaves[i].1 as nat))
}

/// A node of the call tree.
pub struct TreeNode {
    label: String,
    hits_total: usize,
    hits_self: usize,
    children: Vec<TreeNode>,
}

/// The tree of all samples, under a root that stands for no frame.
pub struct Tree {
    root_node: TreeNode,
}

impl TreeNode {
    /// The node as a mathematical value.
    pub closed spec fn model(self) -> NodeView
        decreases self,
    {
        NodeView {
            label: self.label@,
            hits_total: self.hits_total as nat,
            hits_self: self.hits_self as nat,
            children: Seq::new(
                self.children@.len(),
                |i: int|
                    if 0 <= i < self.children@.len() {
                        self.children@[i].model()
                    } else {
                        NodeView::leaf(Seq::empty())
                    },
            ),
        }
    }
}

impl View for TreeNode {
    type V = NodeView;

    closed spec fn view(&self) -> NodeView {
        self.model()
    }
}

impl NodeView {
    /// Inserting a sample keeps the sums right, and raises `hits_total` by
    /// one.
    pub proof fn lemma_insert_balanced(self, path: Seq<Seq<char>>)
        requires
            self.balanced(),
        ensures
            self.insert(path).balanced(),
            self.insert(path).hits_total == self.hits_total + 1,
            self.insert(path).label == self.label,
        decreases path.len(),
    {
        if path.len() > 0 {
            let rest = path.drop_first();
            lemma_position_from(self.children, path[0], 0);
            match position_of(self.children, path[0]) {
                Some(i) => {
                    self.children[i].lemma_insert_balanced(rest);
                    lemma_total_hits_update(self.children, i, self.children[i].insert(rest));
                    lemma_total_hits_bound(self.children, i);
                },
                None => {
                    NodeView::leaf(path[0]).lemma_insert_balanced(rest);
                    lemma_total_hits_push(self.children, NodeView::leaf(path[0]).insert(rest));
                },
            }
        }
    }

    /// Inserting a sample keeps sibling labels distinct.
    pub proof fn lemma_insert_distinct(self, path: Seq<Seq<char>>)
        requires
            self.distinct(),
        ensures
            self.insert(path).distinct(),
            self.insert(path).label == self.label,
        decreases path.len(),
    {
        if path.len() > 0 {
            let rest = path.drop_first();
            lemma_position_from(self.children, path[0], 0);
            match position_of(self.children, path[0]) {
                Some(i) => {
                    self.children[i].lemma_insert_distinct(rest);
                },
                None => {
                    NodeView::leaf(path[0]).lemma_insert_distinct(rest);
                },
            }
        }
    }
}

impl TreeNode {
    /// A fresh node without hits.
    pub fn new(label: String) -> (node: TreeNode)
        ensures
            node@ == NodeView::leaf(label@),
    {
        let node = TreeNode { label, hits_total: 0, hits_self: 0, children: Vec::new() };
        assert(node.model().children =~= Seq::empty());
        node
    }

    /// The frame that the node stands for.
    pub fn label(&self) -> (label: &String)
        ensures
            label@ == self@.label,
    {
        &self.label
    }

    /// The number of samples whose path passes through the node.
    pub fn hits_total(&self) -> (n: usize)
        ensures
            n == self@.hits_total,
    {
        self.hits_total
    }

    /// The number of samples whose path ends at the node.
    pub fn hits_self(&self) -> (n: usize)
        ensures
            n == self@.hits_self,
    {
        self.hits_self
    }

    /// The nodes one frame further on, in order.
    pub fn children(&self) -> (children: &Vec<TreeNode>)
        ensures
            children@.len() == self@.children.len(),
            forall|i: int| 0 <= i < children@.len() ==> (#[trigger] children@[i])@ == self@.children[i],
    {
        &self.children
    }

    /// Puts the children of every node below in the order of descending
    /// `hits_total`; nodes with the same hits stay in the order they had.
    pub fn sort(&mut self)
        ensures
            final(self)@ == old(self)@.sorted(),
        decreases *old(self),
    {
        let ghost before = self@;
        let ghost kids = self.children@;
        assert(before.children =~= views(kids));
        let mut sorted: Vec<TreeNode> = Vec::new();
        assert(views(sorted@) =~= sorted_nodes(views(kids).skip(kids.len() as int)));
        while self.children.len() > 0
            invariant
                self.label == old(self).label,
                self.hits_total == old(self).hits_total,
                self.hits_self == old(self).hits_self,
                kids == old(self).children@,
                self.children@ == kids.take(self.children@.len() as int),
                self.children@.len() <= kids.len(),
                views(sorted@) == sorted_nodes(views(kids).skip(self.children@.len() as int)),
            decreases self.children.len(),
        {
            let ghost n = self.children@.len() as int;
            let mut node = self.children.pop().unwrap();
            assert(node == kids[n - 1]);
            node.sort();
            proof {
                let rest = views(kids).skip(n);
                let here = views(kids).skip(n - 1);
                assert(here.drop_first() =~= rest);
                assert(here[0] == kids[n - 1]@);
                lemma_insert_position(views(sorted@), node@.hits_total, 0);
                kids[n - 1]@.lemma_sorted();
            }
            let mut at: usize = 0;
            while at < sorted.len() && sorted[at].hits_total > node.hits_total
                invariant
                    at <= sorted.len(),
                    insert_position(views(sorted@), node@.hits_total, at as int) == insert_position(
                        views(sorted@),
                        node@.hits_total,
                        0,
                    ),
                decreases sorted.len() - at,
            {
                at += 1;
            }
            assert(insert_position(views(sorted@), node@.hits_total, 0) == at);
            let ghost previous = views(sorted@);
            sorted.insert(at, node);
            assert(views(sorted@) =~= previous.insert(at as int, node@));
            assert(self.children@ =~= kids.take(n - 1));
        }
        assert(views(kids).skip(0) =~= views(kids));
        self.children = sorted;
        assert(self.model().children =~= views(sorted@));
    }

    /// Rolls the node up, if it stays at depth `parents`: every node below
    /// whose share of `total_samples` is less than `min_percent`, or that
    /// lies deeper than `max_depth`, is taken out with all that is below
    /// it, and its `hits_total` is added to the `hits_self` of its parent.
    /// Returns whether the node stays; if it does not, it is left as it
    /// was, for the caller to take out.
    pub fn rollup(
        &mut self,
        parents: usize,
        total_samples: usize,
        max_depth: usize,
        min_percent: usize,
    ) -> (stays: bool)
        requires
            old(self)@.balanced(),
        ensures
            stays == old(self)@.stays(parents as nat, cut_of(total_samples, max_depth, min_percent)),
            stays ==> final(self)@ == old(self)@.rolled(
                parents as nat + 1,
                cut_of(total_samples, max_depth, min_percent),
            ),
            !stays ==> final(self)@ == old(self)@,
        decreases *old(self), 1nat,
    {
        if percent_below(self.hits_total, total_samples, min_percent) {
            return false;
        }
        if parents > max_depth {
            return false;
        }
        if parents < max_depth {
            self.roll_children(parents + 1, total_samples, max_depth, min_percent);
        } else {
            proof {
                lemma_rolled_nodes_too_deep(
                    self@.children,
                    parents as nat + 1,
                    cut_of(total_samples, max_depth, min_percent),
                );
            }
            self.hits_self = self.hits_total;
            self.children.clear();
            assert(self.model().children =~= Seq::empty());
        }
        true
    }

    /// Rolls up the children, which lie at depth `depth`.
    fn roll_children(
        &mut self,
        depth: usize,
        total_samples: usize,
        max_depth: usize,
        min_percent: usize,
    )
        requires
            old(self)@.balanced(),
        ensures
            final(self)@ == old(self)@.rolled(
                depth as nat,
                cut_of(total_samples, max_depth, min_percent),
            ),
        decreases *old(self), 0nat,
    {
        let ghost cut = cut_of(total_samples, max_depth, min_percent);
        let ghost before = self@;
        let ghost kids = self.children@;
        assert(before.children =~= views(kids));
        let mut taken: Vec<TreeNode> = Vec::new();
        core::mem::swap(&mut self.children, &mut taken);
        let mut kept: Vec<TreeNode> = Vec::new();
        assert(views(kids).take(0) =~= Seq::empty());
        assert(views(kept@) =~= Seq::empty());
        for node in it: taken
            invariant
                it.seq() == kids,
                kids == old(self).children@,
                self.label == old(self).label,
                self.hits_total == old(self).hits_total,
                before == old(self)@,
                before.balanced(),
                before.children == views(kids),
                cut == cut_of(total_samples, max_depth, min_percent),
                views(kept@) == rolled_nodes(
                    views(kids).take(it.index() as int),
                    depth as nat,
                    cut,
                ),
                self.hits_self == old(self).hits_self + collapsed_hits(
                    views(kids).take(it.index() as int),
                    depth as nat,
                    cut,
                ),
        {
            let ghost i = it.index() as int;
            proof {
                let upto = views(kids).take(i + 1);
                assert(upto.drop_last() =~= views(kids).take(i));
                assert(upto.last() == kids[i]@);
                lemma_rolled_nodes_hits(upto, depth as nat, cut);
                lemma_total_hits_take(views(kids), i + 1);
                assert(before.children[i].balanced());
            }
            let mut node = node;
            let stays = node.rollup(depth, total_samples, max_depth, min_percent);
            let ghost previous = views(kept@);
            if stays {
                kept.push(node);
                assert(views(kept@) =~= previous.push(kids[i]@.rolled(depth as nat + 1, cut)));
            } else {
                self.hits_self = self.hits_self + node.hits_total;
            }
        }
        assert(views(kids).take(kids.len() as int) =~= views(kids));
        self.children = kept;
        assert(self.model().children =~= views(kept@));
    }

    /// What is left of the node when only nodes that samples end at are
    /// kept: the node itself, if samples end at it, or else what is left of
    /// its children.
    pub fn into_only_leaves(self) -> (leaves: Vec<TreeNode>)
        ensures
            views(leaves@) == self@.into_only_leaves(),
        decreases self, 1nat,
    {
        let mut node = self;
        node.only_leaves();
        if node.hits_self > 0 {
            let mut leaves: Vec<TreeNode> = Vec::new();
            leaves.push(node);
            assert(views(leaves@) =~= seq![self@.only_leaves()]);
            leaves
        } else {
            assert(views(node.children@) =~= node.model().children);
            node.children
        }
    }

    /// Keeps below the node only nodes that samples end at: every node
    /// without `hits_self` gives way to what is left of its children.
    pub fn only_leaves(&mut self)
        ensures
            final(self)@ == old(self)@.only_leaves(),
        decreases *old(self), 0nat,
    {
        let ghost kids = self.children@;
        assert(self@.children =~= views(kids));
        let mut taken: Vec<TreeNode> = Vec::new();
        core::mem::swap(&mut self.children, &mut taken);
        let mut kept: Vec<TreeNode> = Vec::new();
        assert(views(kids).take(0) =~= Seq::empty());
        assert(views(kept@) =~= Seq::empty());
        for node in it: taken
            invariant
                it.seq() == kids,
                kids == old(self).children@,
                self.label == old(self).label,
                self.hits_total == old(self).hits_total,
                self.hits_self == old(self).hits_self,
                views(kept@) == leaves_of_nodes(views(kids).take(it.index() as int)),
        {
            let ghost i = it.index() as int;
            let ghost previous = views(kept@);
            let mut leaves = node.into_only_leaves();
            let ghost added = views(leaves@);
            kept.append(&mut leaves);
            proof {
                let upto = views(kids).take(i + 1);
                assert(upto.drop_last() =~= views(kids).take(i));
                assert(upto.last() == kids[i]@);
                assert(views(kept@) =~= previous + added);
            }
        }
        assert(views(kids).take(kids.len() as int) =~= views(kids));
        self.children = kept;
        assert(self.model().children =~= views(kept@));
    }

    /// Appends to `out` the leaves of the node, each with its label and
    /// hits, in order; a node without children is its own leaf.
    pub fn collect_leaves(&self, out: &mut Vec<(String, usize)>)
        ensures
            leaf_views(final(out)@) == leaf_views(old(out)@) + self@.leaf_hits(),
        decreases self,
    {
        let ghost start = leaf_views(out@);
        assert(self@.children =~= views(self.children@));
        if self.children.len() == 0 {
            out.push((self.label.clone(), self.hits_total));
            assert(leaf_views(out@) =~= start + seq![(self@.label, self@.hits_total)]);
        } else {
            let mut i: usize = 0;
            assert(views(self.children@).take(0) =~= Seq::empty());
            assert(leaf_views(out@) =~= start + Seq::empty());
            while i < self.children.len()
                invariant
                    i <= self.children.len(),
                    start == leaf_views(old(out)@),
                    leaf_views(out@) == start + leaf_hits_of_nodes(
                        views(self.children@).take(i as int),
                    ),
                decreases self.children.len() - i,
            {
                self.children[i].collect_leaves(out);
                proof {
                    let upto = views(self.children@).take(i as int + 1);
                    assert(upto.drop_last() =~= views(self.children@).take(i as int));
                    assert(upto.last() == self.children@[i as int]@);
                    assert(leaf_views(out@) =~= start + leaf_hits_of_nodes(upto));
                }
                i += 1;
            }
            assert(views(self.children@).take(self.children@.len() as int) =~= views(
                self.children@,
            ));
        }
    }

    /// The leaves of the node, each with its label and hits, in order.
    pub fn for_each_leaf(&self) -> (leaves: Vec<(String, usize)>)
        ensures
            leaf_views(leaves@) == self@.leaf_hits(),
    {
        let mut leaves: Vec<(String, usize)> = Vec::new();
        self.collect_leaves(&mut leaves);
        assert(leaf_views(leaves@) =~= self@.leaf_hits());
        leaves
    }

    /// Appends to `out` the lines that show the node, `parents` levels
    /// deep, and what is below it.
    pub fn dump(
        &self,
        parents: usize,
        total_samples: usize,
        max_depth: usize,
        min_percent: usize,
        out: &mut Vec<String>,
    )
        ensures
            texts(final(out)@) == texts(old(out)@) + self@.lines(
                parents as nat,
                cut_of(total_samples, max_depth, min_percent),
            ),
        decreases self,
    {
        let ghost cut = cut_of(total_samples, max_depth, min_percent);
        let ghost start = texts(out@);
        assert(self@.children =~= views(self.children@));
        if percent_below(self.hits_total, total_samples, min_percent) {
            assert(texts(out@) =~= start + Seq::empty());
            return ;
        }
        let mut line = String::new();
        let mut level: usize = 0;
        while level < parents
            invariant
                level <= parents,
                line@ == indent(level as nat),
            decreases parents - level,
        {
            push_text(&mut line, ": ");
            level += 1;
        }
        push_text(&mut line, "| ");
        push_text(&mut line, self.label.as_str());
        push_text(&mut line, " (");
        push_decimal(&mut line, percent(self.hits_total, total_samples) as usize);
        push_text(&mut line, "% total, ");
        push_decimal(&mut line, percent(self.hits_self, total_samples) as usize);
        push_text(&mut line, "% self)");
        assert(line@ == self@.line(parents as nat, cut.total));
        if self.children.len() > 0 && parents >= max_depth {
            push_text(&mut line, " [...]");
            out.push(line);
            assert(texts(out@) =~= start + seq![self@.line(parents as nat, cut.total) + " [...]"@]);
            return ;
        }
        out.push(line);
        assert(texts(out@) =~= start + seq![self@.line(parents as nat, cut.total)]);
        let mut i: usize = 0;
        assert(views(self.children@).take(0) =~= Seq::empty());
        while i < self.children.len()
            invariant
                i <= self.children.len(),
                i < self.children.len() ==> parents < max_depth,
                cut == cut_of(total_samples, max_depth, min_percent),
                texts(out@) == start + seq![self@.line(parents as nat, cut.total)] + lines_of_nodes(
                    views(self.children@).take(i as int),
                    parents as nat + 1,
                    cut,
                ),
            decreases self.children.len() - i,
        {
            self.children[i].dump(parents + 1, total_samples, max_depth, min_percent, out);
            proof {
                let upto = views(self.children@).take(i as int + 1);
                assert(upto.drop_last() =~= views(self.children@).take(i as int));
                assert(upto.last() == self.children@[i as int]@);
                assert(texts(out@) =~= start + seq![self@.line(parents as nat, cut.total)]
                    + lines_of_nodes(upto, parents as nat + 1, cut));
            }
            i += 1;
        }
        assert(views(self.children@).take(self.children@.len() as int) =~= views(self.children@));
    }

    /// Counts one more sample whose remaining path is `frames`: the node's
    /// `hits_total` goes up, and the sample goes on into the child labelled
    /// `frames[0]`, made if there is none, or ends here.
    pub fn add_frames(&mut self, frames: &[String])
        requires
            old(self)@.balanced(),
            old(self)@.hits_total < usize::MAX,
        ensures
            final(self)@ == old(self)@.insert(texts(frames@)),
        decreases frames@.len(),
    {
        let ghost before = self@;
        let ghost path = texts(frames@);
        self.hits_total = self.hits_total + 1;
        if frames.len() == 0 {
            self.hits_self = self.hits_self + 1;
            assert(self.model().children =~= before.children);
            return ;
        }
        let rest = slice_subrange(frames, 1, frames.len());
        assert(texts(rest@) =~= path.drop_first());
        let mut i: usize = 0;
        while i < self.children.len()
            invariant
                i <= self.children.len(),
                self.label == old(self).label,
                self.hits_self == old(self).hits_self,
                self.hits_total == old(self).hits_total + 1,
                self.children == old(self).children,
                before == old(self)@,
                before.balanced(),
                before.hits_total < usize::MAX,
                frames@.len() > 0,
                path == texts(frames@),
                texts(rest@) == path.drop_first(),
                rest@.len() < frames@.len(),
                position_from(before.children, path[0], i as int) == position_of(
                    before.children,
                    path[0],
                ),
            decreases self.children.len() - i,
        {
            assert(before.children[i as int] == self.children@[i as int].model());
            assert(self.children@[i as int].model().label == self.children@[i as int].label@);
            assert(path[0] == frames@[0]@);
            if self.children[i].label == frames[0] {
                proof {
                    lemma_total_hits_bound(before.children, i as int);
                }
                let child = &mut self.children[i];
                child.add_frames(rest);
                assert(self.model().children =~= before.children.update(
                    i as int,
                    before.children[i as int].insert(path.drop_first()),
                ));
                return ;
            }
            i += 1;
        }
        let mut node = TreeNode::new(frames[0].clone());
        node.add_frames(rest);
        self.children.push(node);
        assert(self.model().children =~= before.children.push(
            NodeView::leaf(path[0]).insert(path.drop_first()),
        ));
    }
}

impl View for Tree {
    type V = NodeView;

    closed spec fn view(&self) -> NodeView {
        self.root_node@
    }
}

impl Tree {
    /// The sums are right: in every node, `hits_total` is `hits_self` plus
    /// the `hits_total` of the children.
    pub open spec fn wf(&self) -> bool {
        self@.balanced()
    }

    /// The tree without samples: a root that stands for no frame.
    pub fn new() -> (tree: Tree)
        ensures
            tree.wf(),
            tree@ == NodeView::leaf("<root>"@),
    {
        let root_node = TreeNode::new("<root>".to_string());
        assert(total_hits(root_node@.children) == 0);
        Tree { root_node }
    }

    /// The root, which stands for no frame.
    pub fn root(&self) -> (root: &TreeNode)
        ensures
            root@ == self@,
    {
        &self.root_node
    }

    /// Counts one more sample, whose frames from the bottom are `frames`.
    pub fn add_frames(&mut self, frames: &[String])
        requires
            old(self).wf(),
            old(self)@.hits_total < usize::MAX,
        ensures
            final(self).wf(),
            final(self)@ == old(self)@.insert(texts(frames@)),
    {
        proof {
            self@.lemma_insert_balanced(texts(frames@));
        }
        self.root_node.add_frames(frames);
    }

    /// Puts the children of every node in the order of descending
    /// `hits_total`; nodes with the same hits stay in the order they had.
    pub fn sort(&mut self)
        requires
            old(self).wf(),
        ensures
            final(self).wf(),
            final(self)@ == old(self)@.sorted(),
    {
        proof {
            self@.lemma_sorted();
        }
        self.root_node.sort();
    }

    /// Rolls the tree up and sorts it: every node whose share of
    /// `total_samples` is less than `min_percent`, or that lies deeper than
    /// `max_depth` (the children of the root have depth 0), is taken out
    /// with all that is below it, and its `hits_total` is added to the
    /// `hits_self` of its parent.
    pub fn rollup(&mut self, total_samples: usize, max_depth: usize, min_percent: usize)
        requires
            old(self).wf(),
        ensures
            final(self).wf(),
            final(self)@ == old(self)@.rolled(
                0,
                cut_of(total_samples, max_depth, min_percent),
            ).sorted(),
            final(self)@.within(0, cut_of(total_samples, max_depth, min_percent)),
            final(self)@.hits_total == old(self)@.hits_total,
    {
        proof {
            let cut = cut_of(total_samples, max_depth, min_percent);
            self@.lemma_rolled(0, cut);
            self@.rolled(0, cut).lemma_sorted();
            self@.rolled(0, cut).lemma_sorted_within(0, cut);
        }
        self.root_node.roll_children(0, total_samples, max_depth, min_percent);
        self.root_node.sort();
    }

    /// Keeps in the tree only nodes that samples end at: every node
    /// without `hits_self` gives way to what is left of its children.
    pub fn only_leaves(&mut self)
        requires
            old(self).wf(),
        ensures
            final(self).wf(),
            final(self)@ == old(self)@.only_leaves(),
    {
        proof {
            self@.lemma_only_leaves();
        }
        self.root_node.only_leaves();
    }

    /// The lines that show the tree, one for each node below the root,
    /// parent before children, indented by depth. A node whose share of
    /// `total_samples` is less than `min_percent` is not shown; a node with
    /// children that would lie deeper than `max_depth` is marked, and its
    /// children are not shown.
    pub fn dump(&self, total_samples: usize, max_depth: usize, min_percent: usize) -> (lines: Vec<
        String,
    >)
        ensures
            texts(lines@) == lines_of_nodes(
                self@.children,
                0,
                cut_of(total_samples, max_depth, min_percent),
            ),
    {
        let ghost cut = cut_of(total_samples, max_depth, min_percent);
        let mut lines: Vec<String> = Vec::new();
        let children = self.root_node.children();
        let ghost kids = self.root_node@.children;
        let mut i: usize = 0;
        assert(kids.take(0) =~= Seq::empty());
        assert(texts(lines@) =~= Seq::empty());
        while i < children.len()
            invariant
                i <= children.len(),
                children@.len() == kids.len(),
                forall|k: int| 0 <= k < children@.len() ==> (#[trigger] children@[k])@ == kids[k],
                cut == cut_of(total_samples, max_depth, min_percent),
                texts(lines@) == lines_of_nodes(kids.take(i as int), 0, cut),
            decreases children.len() - i,
        {
            children[i].dump(0, total_samples, max_depth, min_percent, &mut lines);
            proof {
                let upto = kids.take(i as int + 1);
                assert(upto.drop_last() =~= kids.take(i as int));
                assert(upto.last() == children@[i as int]@);
            }
            i += 1;
        }
        assert(kids.take(kids.len() as int) =~= kids);
        lines
    }

    /// The leaves of the tree, each with its label and hits, in order. At
    /// a leaf, `hits_total` and `hits_self` are the same.
    pub fn for_each_leaf(&self) -> (leaves: Vec<(String, usize)>)
        ensures
            leaf_views(leaves@) == self@.leaf_hits(),
    {
        self.root_node.for_each_leaf()
    }
}

/// Counting a sample keeps the sums right: in every node, `hits_total` is
/// `hits_self` plus the `hits_total` of the children; and the root counts
/// one more. Sibling labels that are distinct stay distinct.
pub proof fn law_counting_keeps_sums(tree: NodeView, path: Seq<Seq<char>>)
    requires
        tree.balanced(),
    ensures
        tree.insert(path).balanced(),
        tree.insert(path).hits_total == tree.hits_total + 1,
        tree.distinct() ==> tree.insert(path).distinct(),
{
    tree.lemma_insert_balanced(path);
    if tree.distinct() {
        tree.lemma_insert_distinct(path);
    }
}

/// After rolling up and sorting, every node that is left has at least
/// `min_percent` of the total and lies no deeper than `max_depth`; the sums
/// are still right, and the root counts what it counted.
pub proof fn law_rollup_cuts(tree: NodeView, cut: Threshold)
    requires
        tree.balanced(),
    ensures
        tree.rolled(0, cut).sorted().within(0, cut),
        tree.rolled(0, cut).sorted().balanced(),
        tree.rolled(0, cut).sorted().hits_total == tree.hits_total,
{
    tree.lemma_rolled(0, cut);
    tree.rolled(0, cut).lemma_sorted();
    tree.rolled(0, cut).lemma_sorted_within(0, cut);
}

/// Sorting twice is sorting once.
pub proof fn law_sort_idempotent(tree: NodeView)
    ensures
        tree.sorted().sorted() == tree.sorted(),
{
    tree.lemma_sorted();
    tree.sorted().lemma_sorted_fixed();
}

/// Rolling up a sorted tree in which every node stays changes nothing.
pub proof fn law_rollup_without_cut(tree: NodeView, cut: Threshold)
    requires
        tree.within(0, cut),
        tree.ordered(),
    ensures
        tree.rolled(0, cut).sorted() == tree,
{
    tree.lemma_rolled_fixed(0, cut);
    tree.lemma_sorted_fixed();
}

/// Where the sums are right, the samples that pass through a node without
/// children end there.
pub proof fn law_leaf_hits_are_its_own(node: NodeView)
    requires
        node.balanced(),
        node.children.len() == 0,
    ensures
        node.hits_total == node.hits_self,
        node.leaf_hits() == seq![(node.label, node.hits_self)],
{
}

/// Whether the node at index `a` comes before the node at index `b`
/// when `nodes` are sorted: it has more hits, or as many and stands
/// before it.
pub open spec fn comes_before(nodes: Seq<NodeView>, a: int, b: int) -> bool {
    nodes[a].hits_total > nodes[b].hits_total || (nodes[a].hits_total == nodes[b].hits_total && a
        < b)
}

/// Whether `order` lists the indices of `nodes`, every one once, each
/// before all that it comes before.
pub open spec fn is_arrangement(nodes: Seq<NodeView>, order: Seq<int>) -> bool {
    &&& order.len() == nodes.len()
    &&& forall|i: int| 0 <= i < order.len() ==> 0 <= #[trigger] order[i] < nodes.len()
    &&& forall|i: int, j: int|
        0 <= i < j < order.len() ==> comes_before(nodes, #[trigger] order[i], #[trigger] order[j])
}

/// Sorting arranges the nodes by descending hits and leaves nodes with the
/// same hits in their order: there is an arrangement `order` of the nodes
/// such that the sorted sequence holds, at every index `i`, the node that
/// stood at `order[i]`, sorted within.
pub proof fn law_sort_arranges(nodes: Seq<NodeView>) -> (order: Seq<int>)
    ensures
        is_arrangement(nodes, order),
        sorted_nodes(nodes).len() == nodes.len(),
        forall|i: int|
            0 <= i < nodes.len() ==> #[trigger] sorted_nodes(nodes)[i] == nodes[order[i]].sorted(),
    decreases nodes.len(),
{
    if nodes.len() == 0 {
        Seq::empty()
    } else {
        let rest = nodes.drop_first();
        let tail = sorted_nodes(rest);
        let head = nodes[0].sorted();
        let at = insert_position(tail, head.hits_total, 0);
        let below = law_sort_arranges(rest);
        let shifted = Seq::new(below.len(), |i: int| below[i] + 1);
        let order = shifted.insert(at, 0);
        let all = sorted_nodes(nodes);
        lemma_insert_position(tail, head.hits_total, 0);
        lemma_insert_members(tail, at, head);
        assert forall|k: int| 0 <= k < rest.len() implies (#[trigger] rest[k]) == nodes[k + 1] by {}
        assert forall|i: int| 0 <= i < order.len() implies 0 <= #[trigger] order[i] < nodes.len()
            && all[i] == nodes[order[i]].sorted() by {
            if i < at {
                assert(order[i] == below[i] + 1);
                assert(tail[i] == rest[below[i]].sorted());
            } else if i > at {
                assert(order[i] == below[i - 1] + 1);
                assert(tail[i - 1] == rest[below[i - 1]].sorted());
            }
        }
        assert forall|i: int, j: int| 0 <= i < j < order.len() implies comes_before(
            nodes,
            #[trigger] order[i],
            #[trigger] order[j],
        ) by {
            let a = if i < at {
                i
            } else {
                i - 1
            };
            let b = if j < at {
                j
            } else {
                j - 1
            };
            if i == at {
                assert(tail[b] == rest[below[b]].sorted());
                if at < b {
                    assert(tail[at] == rest[below[at]].sorted());
                    assert(comes_before(rest, below[at], below[b]));
                }
            } else if j == at {
                assert(tail[a] == rest[below[a]].sorted());
                assert(tail[a].hits_total > head.hits_total);
            } else {
                assert(comes_before(rest, below[a], below[b]));
            }
        }
        order
    }
}

/// The tree of `samples`, counted one after the other under a root with
/// the label `root`.
pub open spec fn tree_of(root: Seq<char>, samples: Seq<Seq<Seq<char>>>) -> NodeView
    decreases samples.len(),
{
    if samples.len() == 0 {
        NodeView::leaf(root)
    } else {
        tree_of(root, samples.drop_last()).insert(samples.last())
    }
}

/// However many samples are counted, in every node of the tree `hits_total`
/// is `hits_self` plus the `hits_total` of the children, no two children of
/// one node have the same label, and the root counts the samples.
pub proof fn law_tree_counts_samples(root: Seq<char>, samples: Seq<Seq<Seq<char>>>)
    ensures
        tree_of(root, samples).balanced(),
        tree_of(root, samples).distinct(),
        tree_of(root, samples).hits_total == samples.len(),
        tree_of(root, samples).label == root,
    decreases samples.len(),
{
    if samples.len() > 0 {
        let before = tree_of(root, samples.drop_last());
        law_tree_counts_samples(root, samples.drop_last());
        before.lemma_insert_balanced(samples.last());
        before.lemma_insert_distinct(samples.last());
    } else {
        assert(total_hits(NodeView::leaf(root).children) == 0);
    }
}

} // verus!
