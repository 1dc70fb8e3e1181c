//! Counted edges between numbered nodes.

use vstd::prelude::*;

verus! {

/// An edge with its count, as a mathematical value.
pub struct EdgeView {
    /// The number of the node that calls.
    pub caller: nat,
    /// The number of the node that is called.
    pub callee: nat,
    /// The number of samples in which the call occurs.
    pub count: nat,
}

/// The index of the first of `edges` from `from` on that leads from
/// `caller` to `callee`.
pub open spec fn edge_from(edges: Seq<EdgeView>, caller: nat, callee: nat, from: int) -> Option<int>
    decreases edges.len() - from,
{
    if from < 0 || from >= edges.len() {
        None
    } else if edges[from].caller == caller && edges[from].callee == callee {
        Some(from)
    } else {
        edge_from(edges, caller, callee, from + 1)
    }
}

/// The count of the edge from `caller` to `callee`; zero if there is none.
pub open spec fn edge_count(edges: Seq<EdgeView>, caller: nat, callee: nat) -> nat {
    match edge_from(edges, caller, callee, 0) {
        Some(i) => edges[i].count,
        None => 0,
    }
}

/// Whether no two of `edges` have the same ends.
pub open spec fn distinct_edges(edges: Seq<EdgeView>) -> bool {
    forall|i: int, j: int|
        0 <= i < j < edges.len() ==> !((#[trigger] edges[i]).caller == (#[trigger] edges[j]).caller
            && edges[i].callee == edges[j].callee)
}

/// `edge_from` finds the first edge with the given ends, and finds none
/// only where there is none.
pub proof fn lemma_edge_from(edges: Seq<EdgeView>, caller: nat, callee: nat, from: int)
    requires
        0 <= from,
    ensures
        match edge_from(edges, caller, callee, from) {
            Some(i) => from <= i < edges.len() && edges[i].caller == caller && edges[i].callee
                == callee,
            None => forall|j: int|
                from <= j < edges.len() ==> !((#[trigger] edges[j]).caller == caller
                    && edges[j].callee == callee),
        },
    decreases edges.len() - from,
{
    if from < edges.len() && !(edges[from].caller == caller && edges[from].callee == callee) {
        lemma_edge_from(edges, caller, callee, from + 1);
    }
}

/// Among edges with distinct ends, the edge with given ends is found at
/// its index.
pub proof fn lemma_edge_at(edges: Seq<EdgeView>, i: int)
    requires
        distinct_edges(edges),
        0 <= i < edges.len(),
    ensures
        edge_from(edges, edges[i].caller, edges[i].callee, 0) == Some(i),
{
    lemma_edge_from(edges, edges[i].caller, edges[i].callee, 0);
}

/// A counted edge between two numbered nodes.
pub struct Edge {
    caller: usize,
    callee: usize,
    count: usize,
    /// The number of the last sample that counted the edge.
    stamp: usize,
}

impl View for Edge {
    type V = EdgeView;

    closed spec fn view(&self) -> EdgeView {
        EdgeView { caller: self.caller as nat, callee: self.callee as nat, count: self.count as nat }
    }
}

impl Edge {
    /// The number of the node that calls.
    pub fn caller(&self) -> (id: usize)
        ensures
            id == self@.caller,
    {
        self.caller
    }

    /// The number of the node that is called.
    pub fn callee(&self) -> (id: usize)
        ensures
            id == self@.callee,
    {
        self.callee
    }

    /// The number of samples in which the call occurs.
    pub fn count(&self) -> (n: usize)
        ensures
            n == self@.count,
    {
        self.count
    }
}

/// The edges seen, each with its count, in the order of first appearance.
pub struct EdgeTable {
    edges: Vec<Edge>,
}

impl View for EdgeTable {
    type V = Seq<EdgeView>;

    closed spec fn view(&self) -> Seq<EdgeView> {
        Seq::new(self.edges@.len(), |i: int| self.edges@[i]@)
    }
}

impl EdgeTable {
    /// No two edges have the same ends, and every edge was counted.
    pub closed spec fn wf(&self) -> bool {
        &&& distinct_edges(self@)
        &&& forall|i: int| 0 <= i < self@.len() ==> (#[trigger] self@[i]).count >= 1
    }

    /// The number of the last sample that counted the edge from `caller`
    /// to `callee`; zero if there is no such edge.
    pub closed spec fn stamp(&self, caller: nat, callee: nat) -> nat {
        match edge_from(self@, caller, callee, 0) {
            Some(i) => self.edges@[i].stamp as nat,
            None => 0,
        }
    }

    /// The edges of a well-formed table have distinct ends, and each was
    /// counted.
    pub proof fn lemma_distinct(&self)
        requires
            self.wf(),
        ensures
            distinct_edges(self@),
            forall|i: int| 0 <= i < self@.len() ==> (#[trigger] self@[i]).count >= 1,
    {
    }

    /// No edges.
    pub fn new() -> (table: EdgeTable)
        ensures
            table.wf(),
            table@ == Seq::<EdgeView>::empty(),
            forall|a: nat, b: nat| #[trigger] table.stamp(a, b) == 0,
    {
        let table = EdgeTable { edges: Vec::new() };
        assert(table@ =~= Seq::<EdgeView>::empty());
        table
    }

    /// The edges, in the order of first appearance.
    pub fn edges(&self) -> (edges: &Vec<Edge>)
        ensures
            edges@.len() == self@.len(),
            forall|i: int| 0 <= i < edges@.len() ==> (#[trigger] edges@[i])@ == self@[i],
    {
        &self.edges
    }

    /// Counts the edge from `caller` to `callee` for the sample numbered
    /// `sample`, unless that sample has counted it already.
    pub fn bump(&mut self, caller: usize, callee: usize, sample: usize)
        requires
            old(self).wf(),
            sample >= 1,
            old(self).stamp(caller as nat, callee as nat) != sample ==> edge_count(
                old(self)@,
                caller as nat,
                callee as nat,
            ) < usize::MAX,
        ensures
            final(self).wf(),
            final(self)@.len() >= old(self)@.len(),
            forall|i: int|
                0 <= i < final(self)@.len() ==> if i < old(self)@.len() {
                    (#[trigger] final(self)@[i]).caller == old(self)@[i].caller
                        && final(self)@[i].callee == old(self)@[i].callee
                } else {
                    final(self)@[i].caller == caller && final(self)@[i].callee == callee
                },
            forall|a: nat, b: nat|
                #![trigger edge_count(final(self)@, a, b)]
                #![trigger final(self).stamp(a, b)]
                if a == caller && b == callee {
                    final(self).stamp(a, b) == sample && edge_count(final(self)@, a, b)
                        == edge_count(old(self)@, a, b) + if old(self).stamp(a, b) == sample {
                        0nat
                    } else {
                        1nat
                    }
                } else {
                    final(self).stamp(a, b) == old(self).stamp(a, b) && edge_count(
                        final(self)@,
                        a,
                        b,
                    ) == edge_count(old(self)@, a, b)
                },
    {
        let ghost before = self@;
        let ghost before_edges = self.edges@;
        let mut i: usize = 0;
        while i < self.edges.len()
            invariant
                i <= self.edges.len(),
                self.edges == old(self).edges,
                before == old(self)@,
                before_edges == old(self).edges@,
                old(self).stamp(caller as nat, callee as nat) != sample ==> edge_count(
                    before,
                    caller as nat,
                    callee as nat,
                ) < usize::MAX,
                distinct_edges(before),
                forall|k: int| 0 <= k < before.len() ==> (#[trigger] before[k]).count >= 1,
                edge_from(before, caller as nat, callee as nat, i as int) == edge_from(
                    before,
                    caller as nat,
                    callee as nat,
                    0,
                ),
            decreases self.edges.len() - i,
        {
            assert(before[i as int] == self.edges@[i as int]@);
            if self.edges[i].caller == caller && self.edges[i].callee == callee {
                assert(edge_from(before, caller as nat, callee as nat, i as int) == Some(i as int));
                if self.edges[i].stamp != sample {
                    let count = self.edges[i].count;
                    self.edges[i] = Edge { caller, callee, count: count + 1, stamp: sample };
                }
                proof {
                    let after = self@;
                    assert forall|k: int| 0 <= k < after.len() implies (#[trigger] after[k]).caller
                        == before[k].caller && after[k].callee == before[k].callee && (k != i
                        ==> self.edges@[k] == before_edges[k]) by {
                        assert(after[k] == self.edges@[k]@);
                        assert(before[k] == before_edges[k]@);
                    }
                    assert forall|a: nat, b: nat|
                        #![trigger edge_from(after, a, b, 0)]
                        edge_from(after, a, b, 0) == edge_from(before, a, b, 0) by {
                        lemma_same_ends(after, before, a, b, 0);
                    }
                    assert forall|k: int, l: int| 0 <= k < l < after.len() implies !((
                    #[trigger] after[k]).caller == (#[trigger] after[l]).caller && after[k].callee
                        == after[l].callee) by {
                        assert(!(before[k].caller == before[l].caller && before[k].callee
                            == before[l].callee));
                    }
                    assert(after[i as int] == self.edges@[i as int]@);
                    assert forall|a: nat, b: nat|
                        #![trigger edge_count(self@, a, b)]
                        #![trigger self.stamp(a, b)]
                        if a == caller && b == callee {
                            self.stamp(a, b) == sample && edge_count(self@, a, b) == edge_count(
                                old(self)@,
                                a,
                                b,
                            ) + if old(self).stamp(a, b) == sample {
                                0nat
                            } else {
                                1nat
                            }
                        } else {
                            self.stamp(a, b) == old(self).stamp(a, b) && edge_count(self@, a, b)
                                == edge_count(old(self)@, a, b)
                        } by {
                        lemma_edge_from(before, a, b, 0);
                        if let Some(k) = edge_from(before, a, b, 0) {
                            assert(after[k] == self.edges@[k]@);
                            assert(before[k] == before_edges[k]@);
                        }
                    }
                }
                return ;
            }
            i += 1;
        }
        self.edges.push(Edge { caller, callee, count: 1, stamp: sample });
        proof {
            let after = self@;
            let new = EdgeView { caller: caller as nat, callee: callee as nat, count: 1 };
            assert(after =~= before.push(new));
            lemma_edge_from(before, caller as nat, callee as nat, 0);
            assert forall|a: nat, b: nat|
                #![trigger edge_from(after, a, b, 0)]
                edge_from(after, a, b, 0) == match edge_from(before, a, b, 0) {
                    Some(k) => Some(k),
                    None => if a == caller && b == callee {
                        Some(before.len() as int)
                    } else {
                        None
                    },
                } by {
                lemma_pushed_edge(before, new, a, b, 0);
            }
            assert forall|k: int, l: int| 0 <= k < l < after.len() implies !((
            #[trigger] after[k]).caller == (#[trigger] after[l]).caller && after[k].callee
                == after[l].callee) by {
                if l < before.len() {
                    assert(!(before[k].caller == before[l].caller && before[k].callee
                        == before[l].callee));
                } else {
                    assert(after[k] == before[k]);
                }
            }
            assert(after[before.len() as int] == new);
            assert(after[before.len() as int] == self.edges@[before.len() as int]@);
            assert forall|a: nat, b: nat|
                #![trigger edge_count(self@, a, b)]
                #![trigger self.stamp(a, b)]
                if a == caller && b == callee {
                    self.stamp(a, b) == sample && edge_count(self@, a, b) == edge_count(
                        old(self)@,
                        a,
                        b,
                    ) + if old(self).stamp(a, b) == sample {
                        0nat
                    } else {
                        1nat
                    }
                } else {
                    self.stamp(a, b) == old(self).stamp(a, b) && edge_count(self@, a, b)
                        == edge_count(old(self)@, a, b)
                } by {
                lemma_edge_from(before, a, b, 0);
                if let Some(k) = edge_from(before, a, b, 0) {
                    assert(after[k] == before[k]);
                    assert(self.edges@[k] == before_edges[k]);
                }
            }
        }
    }
}

/// Where two sequences of edges agree on the ends at every index, the
/// same edges are found in both.
pub proof fn lemma_same_ends(x: Seq<EdgeView>, y: Seq<EdgeView>, a: nat, b: nat, from: int)
    requires
        x.len() == y.len(),
        forall|i: int|
            0 <= i < x.len() ==> (#[trigger] x[i]).caller == y[i].caller && x[i].callee
                == y[i].callee,
    ensures
        edge_from(x, a, b, from) == edge_from(y, a, b, from),
    decreases x.len() - from,
{
    if 0 <= from < x.len() {
        assert(x[from].caller == y[from].caller && x[from].callee == y[from].callee);
        lemma_same_ends(x, y, a, b, from + 1);
    }
}

/// An edge added at the end is found only where no earlier edge has its
/// ends.
pub proof fn lemma_pushed_edge(edges: Seq<EdgeView>, new: EdgeView, a: nat, b: nat, from: int)
    requires
        0 <= from <= edges.len(),
    ensures
        edge_from(edges.push(new), a, b, from) == match edge_from(edges, a, b, from) {
            Some(i) => Some(i),
            None => if new.caller == a && new.callee == b {
                Some(edges.len() as int)
            } else {
                None
            },
        },
    decreases edges.len() - from,
{
    let all = edges.push(new);
    if from < edges.len() {
        assert(all[from] == edges[from]);
        lemma_pushed_edge(edges, new, a, b, from + 1);
    } else {
        assert(all[from] == new);
        assert(edge_from(all, a, b, from + 1) is None);
    }
}

} // verus!
