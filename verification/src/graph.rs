//! The call graph of the samples: how many samples each frame occurs in,
//! and, among the frames that occur most, how many samples each call from
//! one to the next occurs in.

use crate::edges::{distinct_edges, edge_count, lemma_edge_at, EdgeTable, EdgeView};
use crate::intern::{extended, index_of, lemma_extended, lemma_index_of, Interner};
use crate::order::{
    in_top, key_values, law_top_count, law_top_ranks_last, mark_top, ranks_before, top,
};
use crate::text::{decimal, push_decimal, push_text, texts};
use crate::util::{percent, percent_capped};
use vstd::prelude::*;

verus! {

/// A call graph as a mathematical value.
pub struct GraphView {
    /// The frames seen; the index of a frame is its number.
    pub names: Seq<Seq<char>>,
    /// For each frame, the number of samples it occurs in.
    pub node_counts: Seq<nat>,
    /// The samples, each as the numbers of its frames from the bottom,
    /// without the frames that were pruned.
    pub samples: Seq<Seq<nat>>,
    /// The calls counted.
    pub edges: Seq<EdgeView>,
    /// The number of samples that percentages are taken of.
    pub total: nat,
}

/// The numbers that `frames` have among `names`.
pub open spec fn ids_of(names: Seq<Seq<char>>, frames: Seq<Seq<char>>) -> Seq<nat> {
    Seq::new(
        frames.len(),
        |j: int|
            match index_of(names, frames[j]) {
                Some(i) => i as nat,
                None => 0nat,
            },
    )
}

/// Whether `sample` holds `caller` with `callee` next above it, at one of
/// the first `upto` positions.
pub open spec fn adjacent_upto(sample: Seq<nat>, caller: nat, callee: nat, upto: int) -> bool {
    exists|p: int|
        0 <= p < upto && p + 1 < sample.len() && #[trigger] sample[p] == caller && sample[p + 1]
            == callee
}

/// Whether `sample` holds `caller` with `callee` next above it.
pub open spec fn adjacent(sample: Seq<nat>, caller: nat, callee: nat) -> bool {
    adjacent_upto(sample, caller, callee, sample.len() as int)
}

/// The number of `samples` that hold `caller` with `callee` next above it.
pub open spec fn edge_hits(samples: Seq<Seq<nat>>, caller: nat, callee: nat) -> nat
    decreases samples.len(),
{
    if samples.len() == 0 {
        0
    } else {
        edge_hits(samples.drop_last(), caller, callee) + if adjacent(
            samples.last(),
            caller,
            callee,
        ) {
            1nat
        } else {
            0nat
        }
    }
}

/// No more samples hold a call than there are samples.
pub proof fn lemma_edge_hits_bound(samples: Seq<Seq<nat>>, caller: nat, callee: nat)
    ensures
        edge_hits(samples, caller, callee) <= samples.len(),
    decreases samples.len(),
{
    if samples.len() > 0 {
        lemma_edge_hits_bound(samples.drop_last(), caller, callee);
    }
}

/// `sample` without the numbers that `keep` does not hold.
pub open spec fn retained(sample: Seq<nat>, keep: Set<nat>) -> Seq<nat>
    decreases sample.len(),
{
    if sample.len() == 0 {
        Seq::empty()
    } else if keep.contains(sample.last()) {
        retained(sample.drop_last(), keep).push(sample.last())
    } else {
        retained(sample.drop_last(), keep)
    }
}

/// What is retained is held by `keep`.
pub proof fn lemma_retained(sample: Seq<nat>, keep: Set<nat>)
    ensures
        forall|i: int|
            0 <= i < retained(sample, keep).len() ==> keep.contains(
                #[trigger] retained(sample, keep)[i],
            ),
        retained(sample, keep).len() <= sample.len(),
    decreases sample.len(),
{
    if sample.len() > 0 {
        lemma_retained(sample.drop_last(), keep);
    }
}

/// The line of the rendered graph for an edge.
pub open spec fn edge_line(edge: EdgeView, total: nat) -> Seq<char> {
    "  n"@ + decimal(edge.caller) + " -> n"@ + decimal(edge.callee) + " [label=\""@ + decimal(
        percent_capped(edge.count, total),
    ) + "%\"];\n"@
}

/// The lines of the rendered graph for `edges`.
pub open spec fn edge_lines(edges: Seq<EdgeView>, total: nat) -> Seq<char>
    decreases edges.len(),
{
    if edges.len() == 0 {
        Seq::empty()
    } else {
        edge_lines(edges.drop_last(), total) + edge_line(edges.last(), total)
    }
}

/// Whether the node numbered `id` is an end of one of `edges`.
pub open spec fn touched(edges: Seq<EdgeView>, id: nat) -> bool {
    exists|i: int| 0 <= i < edges.len() && ((#[trigger] edges[i]).caller == id || edges[i].callee == id)
}

impl GraphView {
    /// The graph of no samples.
    pub open spec fn empty() -> GraphView {
        GraphView {
            names: Seq::empty(),
            node_counts: Seq::empty(),
            samples: Seq::empty(),
            edges: Seq::empty(),
            total: 0,
        }
    }

    /// Every frame is held once, with a count of at most the number of
    /// samples; the samples hold numbers of frames; and the edges have
    /// distinct ends.
    pub open spec fn valid(self) -> bool {
        &&& self.names.no_duplicates()
        &&& self.node_counts.len() == self.names.len()
        &&& forall|i: int|
            0 <= i < self.node_counts.len() ==> #[trigger] self.node_counts[i]
                <= self.samples.len()
        &&& forall|k: int, i: int|
            0 <= k < self.samples.len() && 0 <= i < self.samples[k].len() ==> (
            #[trigger] self.samples[k][i]) < self.names.len()
        &&& distinct_edges(self.edges)
    }

    /// The count at index `i`, or zero where there is none yet.
    pub open spec fn count_at(self, i: int) -> nat {
        if 0 <= i < self.node_counts.len() {
            self.node_counts[i]
        } else {
            0
        }
    }

    /// The number of samples in which the frame `name` occurs.
    pub open spec fn node_count(self, name: Seq<char>) -> nat {
        match index_of(self.names, name) {
            Some(i) => self.node_counts[i],
            None => 0,
        }
    }

    /// The graph after one more sample. A sample without frames changes
    /// nothing. Otherwise the frames not seen before get the next numbers,
    /// every frame that occurs in the sample counts one more, and the
    /// sample is kept as the numbers of its frames.
    pub open spec fn add_sample(self, frames: Seq<Seq<char>>) -> GraphView {
        if frames.len() == 0 {
            self
        } else {
            let names = extended(self.names, frames);
            GraphView {
                names,
                node_counts: Seq::new(
                    names.len(),
                    |i: int|
                        self.count_at(i) + if frames.contains(names[i]) {
                            1nat
                        } else {
                            0nat
                        },
                ),
                samples: self.samples.push(ids_of(names, frames)),
                ..self
            }
        }
    }

    /// For each frame, the share of `total` that its count is, in percent.
    pub open spec fn percents(self, total: nat) -> Seq<nat> {
        Seq::new(self.node_counts.len(), |i: int| percent_capped(self.node_counts[i], total))
    }

    /// The numbers of the frames that survive the pruning: the `top_n`
    /// with the greatest share of `total`, and among equal shares those
    /// with the greatest numbers.
    pub open spec fn survivors(self, total: nat, top_n: nat) -> Set<nat> {
        Set::new(|id: nat| in_top(self.percents(total), top_n, id as int))
    }

    /// The samples without the frames that do not survive.
    pub open spec fn pruned(self, total: nat, top_n: nat) -> Seq<Seq<nat>> {
        Seq::new(
            self.samples.len(),
            |k: int| retained(self.samples[k], self.survivors(total, top_n)),
        )
    }

    /// The line of the rendered graph for the frame numbered `id`.
    pub open spec fn node_line(self, id: int) -> Seq<char> {
        "  n"@ + decimal(id as nat) + " [label=\""@ + self.names[id] + " ("@ + decimal(
            percent_capped(self.node_counts[id], self.total),
        ) + "%)\"];\n"@
    }

    /// The lines of the rendered graph for the first `upto` frames: one
    /// for each that is an end of an edge.
    pub open spec fn node_lines(self, upto: int) -> Seq<char>
        decreases upto,
    {
        if upto <= 0 {
            Seq::empty()
        } else {
            self.node_lines(upto - 1) + if touched(self.edges, (upto - 1) as nat) {
                self.node_line(upto - 1)
            } else {
                Seq::empty()
            }
        }
    }

    /// The graph rendered in the dot language: a line for every edge, with
    /// the share of the total that its count is, and a line for every
    /// frame that is an end of an edge, with its name and its share.
    pub open spec fn dot(self) -> Seq<char> {
        "digraph G {\n"@ + "  node [ shape=box ];"@ + edge_lines(self.edges, self.total)
            + self.node_lines(self.names.len() as int) + "}\n"@
    }

    /// Whether the edges are what the samples say: the count of each is
    /// the number of samples that hold its caller with its callee next
    /// above it, and no edge is without such a sample.
    pub open spec fn edges_counted(self) -> bool {
        &&& distinct_edges(self.edges)
        &&& forall|a: nat, b: nat| #[trigger]
            edge_count(self.edges, a, b) == edge_hits(self.samples, a, b)
        &&& forall|i: int| 0 <= i < self.edges.len() ==> (#[trigger] self.edges[i]).count >= 1
    }
}

/// The number of a frame in a call graph.
#[derive(Copy, Clone, Debug, PartialEq, Eq)]
pub struct NodeId(pub usize);

/// The samples as mathematical values.
pub open spec fn sample_views(samples: Seq<Vec<usize>>) -> Seq<Seq<nat>> {
    Seq::new(samples.len(), |k: int| id_values(samples[k]@))
}

/// The numbers as mathematical integers.
pub open spec fn id_values(ids: Seq<usize>) -> Seq<nat> {
    Seq::new(ids.len(), |i: int| ids[i] as nat)
}

/// The marks as the set of the numbers marked.
pub open spec fn marked(marks: Seq<bool>) -> Set<nat> {
    Set::new(|id: nat| id < marks.len() && marks[id as int])
}

/// The call graph of the samples.
pub struct CallGraph {
    nodes: Interner,
    node_counts: Vec<usize>,
    /// For each frame, the number of the last sample that counted it.
    stamps: Vec<usize>,
    samples: Vec<Vec<usize>>,
    edges: EdgeTable,
    total: usize,
}

impl View for CallGraph {
    type V = GraphView;

    closed spec fn view(&self) -> GraphView {
        GraphView {
            names: self.nodes@,
            node_counts: key_values(self.node_counts@),
            samples: sample_views(self.samples@),
            edges: self.edges@,
            total: self.total as nat,
        }
    }
}

impl CallGraph {
    /// The graph is valid as a mathematical value, and its parts are
    /// well-formed.
    pub closed spec fn wf(&self) -> bool {
        &&& self.nodes.wf()
        &&& self.edges.wf()
        &&& self@.valid()
        &&& self.stamps@.len() == self.node_counts@.len()
        &&& forall|i: int|
            0 <= i < self.stamps@.len() ==> #[trigger] self.stamps@[i] <= self.samples@.len()
        &&& forall|i: int|
            0 <= i < self@.edges.len() ==> (#[trigger] self@.edges[i]).caller < self@.names.len()
                && self@.edges[i].callee < self@.names.len()
    }

    /// A well-formed graph is valid as a mathematical value.
    pub proof fn lemma_valid(&self)
        requires
            self.wf(),
        ensures
            self@.valid(),
    {
    }

    /// The graph of no samples.
    pub fn new() -> (graph: CallGraph)
        ensures
            graph.wf(),
            graph@ == GraphView::empty(),
    {
        let graph = CallGraph {
            nodes: Interner::new(),
            node_counts: Vec::new(),
            stamps: Vec::new(),
            samples: Vec::new(),
            edges: EdgeTable::new(),
            total: 0,
        };
        assert(graph@.node_counts =~= Seq::empty());
        assert(graph@.samples =~= Seq::empty());
        graph
    }

    /// The number of the frame `name`, which is given the next free number
    /// if it has none yet.
    pub fn node_id(&mut self, name: String) -> (id: NodeId)
        requires
            old(self).wf(),
        ensures
            final(self).wf(),
            id.0 < final(self)@.names.len(),
            final(self)@.names[id.0 as int] == name@,
            match index_of(old(self)@.names, name@) {
                Some(i) => id.0 == i && final(self)@ == old(self)@,
                None => id.0 == old(self)@.names.len() && final(self)@ == (GraphView {
                    names: old(self)@.names.push(name@),
                    node_counts: old(self)@.node_counts.push(0),
                    ..old(self)@
                }),
            },
    {
        NodeId(self.number(name.as_str()))
    }

    /// The number of the frame `name`, which is given the next free number
    /// if it has none yet.
    fn number(&mut self, name: &str) -> (id: usize)
        requires
            old(self).wf(),
        ensures
            final(self).wf(),
            id < final(self)@.names.len(),
            final(self)@.names[id as int] == name@,
            final(self).samples == old(self).samples,
            final(self).edges == old(self).edges,
            final(self).total == old(self).total,
            match index_of(old(self)@.names, name@) {
                Some(i) => id == i && final(self)@ == old(self)@ && final(self).stamps == old(
                    self,
                ).stamps && final(self).node_counts == old(self).node_counts,
                None => id == old(self)@.names.len() && final(self)@ == (GraphView {
                    names: old(self)@.names.push(name@),
                    node_counts: old(self)@.node_counts.push(0),
                    ..old(self)@
                }) && final(self).stamps@ == old(self).stamps@.push(0) && final(self).node_counts@
                    == old(self).node_counts@.push(0),
            },
    {
        let ghost before = self@;
        let id = self.nodes.intern(name);
        if id == self.node_counts.len() {
            self.node_counts.push(0);
            self.stamps.push(0);
            assert(self@.node_counts =~= before.node_counts.push(0));
        }
        id
    }

    /// The number of samples kept.
    pub fn samples(&self) -> (n: usize)
        ensures
            n == self@.samples.len(),
    {
        self.samples.len()
    }

    /// Counts one more sample, whose frames from the bottom are `frames`.
    /// A sample without frames is ignored. Otherwise every frame that
    /// occurs in the sample counts one more, however often it occurs
    /// there, and the sample is kept for the edges.
    pub fn add_frames(&mut self, frames: &[String])
        requires
            old(self).wf(),
            old(self)@.samples.len() < usize::MAX,
        ensures
            final(self).wf(),
            final(self)@ == old(self)@.add_sample(texts(frames@)),
    {
        if frames.len() == 0 {
            return ;
        }
        let ghost before = self@;
        let ghost sample = texts(frames@);
        let now = self.samples.len() + 1;
        let mut ids: Vec<usize> = Vec::new();
        let mut j: usize = 0;
        assert(sample.take(0) =~= Seq::empty());
        while j < frames.len()
            invariant
                j <= frames.len(),
                sample == texts(frames@),
                before == old(self)@,
                before.valid(),
                now == before.samples.len() + 1,
                self.total == old(self).total,
                self.samples == old(self).samples,
                self.edges == old(self).edges,
                self.nodes.wf(),
                self.nodes@ == extended(before.names, sample.take(j as int)),
                self.node_counts@.len() == self.nodes@.len(),
                self.stamps@.len() == self.nodes@.len(),
                ids@.len() == j,
                forall|t: int|
                    0 <= t < j ==> #[trigger] ids@[t] < self.nodes@.len() && self.nodes@[ids@[t] as int]
                        == sample[t],
                forall|i: int|
                    0 <= i < self.stamps@.len() ==> (#[trigger] self.stamps@[i] == now
                        <==> sample.take(j as int).contains(self.nodes@[i])),
                forall|i: int| 0 <= i < self.stamps@.len() ==> #[trigger] self.stamps@[i] <= now,
                forall|i: int|
                    0 <= i < self.node_counts@.len() ==> #[trigger] self.node_counts@[i]
                        == before.count_at(i) + if self.stamps@[i] == now {
                        1nat
                    } else {
                        0nat
                    },
            decreases frames.len() - j,
        {
            let ghost upto = sample.take(j as int + 1);
            proof {
                assert(upto.drop_last() =~= sample.take(j as int));
                assert(upto.last() == sample[j as int]);
                lemma_extended(before.names, sample.take(j as int));
            }
            let id = self.nodes.intern(frames[j].as_str());
            if id == self.node_counts.len() {
                self.node_counts.push(0);
                self.stamps.push(0);
            }
            ids.push(id);
            if self.stamps[id] != now {
                self.stamps[id] = now;
                self.node_counts[id] = self.node_counts[id] + 1;
            }
            proof {
                assert forall|i: int| 0 <= i < self.stamps@.len() implies (
                #[trigger] self.stamps@[i] == now <==> upto.contains(self.nodes@[i])) by {
                    if i == id {
                        assert(upto[j as int] == self.nodes@[i]);
                    } else {
                        if upto.contains(self.nodes@[i]) {
                            let k = choose|k: int| 0 <= k < upto.len() && upto[k] == self.nodes@[i];
                            if k == j {
                                self.nodes.lemma_distinct();
                            } else {
                                assert(sample.take(j as int)[k] == self.nodes@[i]);
                            }
                        }
                        if sample.take(j as int).contains(self.nodes@[i]) {
                            let k = choose|k: int|
                                0 <= k < j && sample.take(j as int)[k] == self.nodes@[i];
                            assert(upto[k] == self.nodes@[i]);
                        }
                    }
                }
            }
            j += 1;
        }
        let ghost ids_view = id_values(ids@);
        self.samples.push(ids);
        proof {
            assert(sample.take(sample.len() as int) =~= sample);
            lemma_extended(before.names, sample);
            self.nodes.lemma_distinct();
            let after = before.add_sample(sample);
            assert(self@.node_counts =~= after.node_counts);
            assert(ids_view =~= ids_of(self.nodes@, sample)) by {
                assert forall|t: int| 0 <= t < sample.len() implies ids_view[t] == ids_of(
                    self.nodes@,
                    sample,
                )[t] by {
                    lemma_index_of(self.nodes@, ids@[t] as int);
                }
            }
            assert(self@.samples =~= before.samples.push(ids_view));
            assert forall|k: int, i: int|
                0 <= k < self@.samples.len() && 0 <= i < self@.samples[k].len() implies (
            #[trigger] self@.samples[k][i]) < self@.names.len() by {
                if k < before.samples.len() {
                    assert(self@.samples[k] == before.samples[k]);
                    assert(before.samples[k][i] < before.names.len());
                } else {
                    assert(self@.samples[k][i] == ids@[i]);
                }
            }
        }
    }

    /// The number of samples in which the frame `name` occurs.
    pub fn node_count(&self, name: &str) -> (n: usize)
        requires
            self.wf(),
        ensures
            n == self@.node_count(name@),
    {
        match self.nodes.get(name) {
            Some(i) => self.node_counts[i],
            None => 0,
        }
    }

    /// The edges counted, in the order of first appearance.
    pub fn edges(&self) -> (edges: &EdgeTable)
        ensures
            edges@ == self@.edges,
    {
        &self.edges
    }

    /// The name of the frame numbered `id`.
    pub fn name(&self, id: usize) -> (name: &String)
        requires
            id < self@.names.len(),
        ensures
            name@ == self@.names[id as int],
    {
        self.nodes.name(id)
    }

    /// Marks the frames that are an end of an edge.
    fn touched_nodes(&self) -> (marks: Vec<bool>)
        requires
            self.wf(),
        ensures
            marks@.len() == self@.names.len(),
            forall|id: int| 0 <= id < marks@.len() ==> #[trigger] marks@[id] == touched(self@.edges, id as nat),
    {
        let n = self.nodes.len();
        let mut marks: Vec<bool> = Vec::new();
        let mut i: usize = 0;
        while i < n
            invariant
                i <= n,
                marks@.len() == i,
                forall|k: int| 0 <= k < i ==> !#[trigger] marks@[k],
            decreases n - i,
        {
            marks.push(false);
            i += 1;
        }
        let edges = self.edges.edges();
        let ghost all = self@.edges;
        let mut e: usize = 0;
        while e < edges.len()
            invariant
                e <= edges.len(),
                n == self@.names.len(),
                marks@.len() == n,
                all == self@.edges,
                edges@.len() == all.len(),
                forall|k: int| 0 <= k < edges@.len() ==> (#[trigger] edges@[k])@ == all[k],
                forall|k: int|
                    0 <= k < all.len() ==> (#[trigger] all[k]).caller < n && all[k].callee < n,
                forall|id: int|
                    0 <= id < n ==> #[trigger] marks@[id] == touched(all.take(e as int), id as nat),
            decreases edges.len() - e,
        {
            let caller = edges[e].caller();
            let callee = edges[e].callee();
            assert(edges@[e as int]@ == all[e as int]);
            assert(all[e as int].caller < n && all[e as int].callee < n);
            marks[caller] = true;
            marks[callee] = true;
            proof {
                let upto = all.take(e as int + 1);
                let front = all.take(e as int);
                assert forall|id: int| 0 <= id < n implies #[trigger] marks@[id] == touched(
                    upto,
                    id as nat,
                ) by {
                    if touched(front, id as nat) {
                        let k = choose|k: int|
                            0 <= k < front.len() && ((#[trigger] front[k]).caller == id
                                || front[k].callee == id);
                        assert(upto[k] == front[k]);
                    }
                    if id == caller || id == callee {
                        assert(upto[e as int] == all[e as int]);
                    }
                    if touched(upto, id as nat) {
                        let k = choose|k: int|
                            0 <= k < upto.len() && ((#[trigger] upto[k]).caller == id
                                || upto[k].callee == id);
                        if k < e {
                            assert(front[k] == upto[k]);
                        }
                    }
                }
            }
            e += 1;
        }
        assert(all.take(all.len() as int) =~= all);
        marks
    }

    /// Renders the graph in the dot language: a line for every edge, with
    /// the share of the total that its count is, and a line for every
    /// frame that is an end of an edge, with its name and its share.
    pub fn dump(&self) -> (out: String)
        requires
            self.wf(),
        ensures
            out@ == self@.dot(),
    {
        let mut out = String::new();
        push_text(&mut out, "digraph G {\n");
        push_text(&mut out, "  node [ shape=box ];");
        let ghost head = out@;
        let edges = self.edges.edges();
        let ghost all = self@.edges;
        let mut e: usize = 0;
        assert(all.take(0) =~= Seq::empty());
        assert(out@ =~= head + edge_lines(all.take(0), self@.total));
        while e < edges.len()
            invariant
                e <= edges.len(),
                all == self@.edges,
                edges@.len() == all.len(),
                forall|k: int| 0 <= k < edges@.len() ==> (#[trigger] edges@[k])@ == all[k],
                out@ == head + edge_lines(all.take(e as int), self@.total),
            decreases edges.len() - e,
        {
            let ghost previous = out@;
            push_text(&mut out, "  n");
            push_decimal(&mut out, edges[e].caller());
            push_text(&mut out, " -> n");
            push_decimal(&mut out, edges[e].callee());
            push_text(&mut out, " [label=\"");
            push_decimal(&mut out, percent(edges[e].count(), self.total) as usize);
            push_text(&mut out, "%\"];\n");
            proof {
                let upto = all.take(e as int + 1);
                assert(upto.drop_last() =~= all.take(e as int));
                assert(upto.last() == edges@[e as int]@);
                assert(out@ =~= previous + edge_line(upto.last(), self@.total));
            }
            e += 1;
        }
        assert(all.take(all.len() as int) =~= all);
        let ghost middle = out@;
        let marks = self.touched_nodes();
        let mut id: usize = 0;
        assert(out@ =~= middle + self@.node_lines(0));
        while id < marks.len()
            invariant
                id <= marks.len(),
                self.wf(),
                marks@.len() == self@.names.len(),
                forall|k: int|
                    0 <= k < marks@.len() ==> #[trigger] marks@[k] == touched(self@.edges, k as nat),
                out@ == middle + self@.node_lines(id as int),
            decreases marks.len() - id,
        {
            let ghost previous = out@;
            if marks[id] {
                push_text(&mut out, "  n");
                push_decimal(&mut out, id);
                push_text(&mut out, " [label=\"");
                push_text(&mut out, self.nodes.name(id).as_str());
                push_text(&mut out, " (");
                push_decimal(&mut out, percent(self.node_counts[id], self.total) as usize);
                push_text(&mut out, "%)\"];\n");
                assert(out@ =~= previous + self@.node_line(id as int));
            } else {
                assert(out@ =~= previous + Seq::<char>::empty());
            }
            id += 1;
        }
        push_text(&mut out, "}\n");
        out
    }

    /// For each frame, the share of `total` that its count is, in percent.
    fn percents(&self, total: usize) -> (percents: Vec<usize>)
        ensures
            key_values(percents@) == self@.percents(total as nat),
    {
        let mut percents: Vec<usize> = Vec::new();
        let mut i: usize = 0;
        while i < self.node_counts.len()
            invariant
                i <= self.node_counts.len(),
                percents@.len() == i,
                forall|k: int|
                    0 <= k < i ==> #[trigger] percents@[k] == percent_capped(
                        self.node_counts@[k] as nat,
                        total as nat,
                    ),
            decreases self.node_counts.len() - i,
        {
            percents.push(percent(self.node_counts[i], total) as usize);
            i += 1;
        }
        assert(key_values(percents@) =~= self@.percents(total as nat));
        percents
    }

    /// Sets the number of samples that percentages are taken of, prunes
    /// the samples, and counts the edges.
    ///
    /// The frames that survive are the `threshold` with the greatest share
    /// of `total`, among equal shares those with the greatest numbers; all
    /// other frames are taken out of the samples. Then every call from a
    /// frame to the next above it in a sample is counted, once for each
    /// sample that holds it.
    pub fn set_total(&mut self, total: usize, threshold: usize)
        requires
            old(self).wf(),
        ensures
            final(self).wf(),
            final(self)@.names == old(self)@.names,
            final(self)@.node_counts == old(self)@.node_counts,
            final(self)@.total == total,
            final(self)@.samples == old(self)@.pruned(total as nat, threshold as nat),
            final(self)@.edges_counted(),
            forall|i: int|
                0 <= i < final(self)@.edges.len() ==> old(self)@.survivors(
                    total as nat,
                    threshold as nat,
                ).contains((#[trigger] final(self)@.edges[i]).caller) && old(self)@.survivors(
                    total as nat,
                    threshold as nat,
                ).contains(final(self)@.edges[i].callee),
    {
        let ghost before = self@;
        let ghost keep = before.survivors(total as nat, threshold as nat);
        self.total = total;
        let percents = self.percents(total);
        let marks = mark_top(&percents, threshold);
        assert(key_values(percents@).len() == percents@.len());
        assert(before.percents(total as nat).len() == before.node_counts.len());
        assert(marked(marks@) =~= keep);
        let mut pruned: Vec<Vec<usize>> = Vec::new();
        let mut table = EdgeTable::new();
        let mut k: usize = 0;
        assert(sample_views(pruned@) =~= Seq::empty());
        while k < self.samples.len()
            invariant
                k <= self.samples.len(),
                self.samples == old(self).samples,
                before == old(self)@,
                before.valid(),
                keep == before.survivors(total as nat, threshold as nat),
                marked(marks@) == keep,
                marks@.len() == before.names.len(),
                pruned@.len() == k,
                forall|t: int|
                    0 <= t < k ==> #[trigger] sample_views(pruned@)[t] == retained(
                        before.samples[t],
                        keep,
                    ),
                forall|t: int, i: int|
                    0 <= t < k && 0 <= i < pruned@[t]@.len() ==> (#[trigger] pruned@[t]@[i])
                        < before.names.len(),
                table.wf(),
                forall|a: nat, b: nat| #[trigger] table.stamp(a, b) <= k,
                forall|a: nat, b: nat| #[trigger]
                    edge_count(table@, a, b) == edge_hits(sample_views(pruned@), a, b),
                forall|i: int|
                    0 <= i < table@.len() ==> keep.contains((#[trigger] table@[i]).caller)
                        && keep.contains(table@[i].callee),
            decreases self.samples.len() - k,
        {
            let ghost views = sample_views(pruned@);
            proof {
                assert(before.samples[k as int] == id_values(self.samples@[k as int]@));
                assert forall|i: int| 0 <= i < self.samples@[k as int]@.len() implies (
                #[trigger] self.samples@[k as int]@[i]) < marks@.len() by {
                    assert(before.samples[k as int][i] < before.names.len());
                }
                assert forall|a: nat, b: nat| #[trigger] edge_count(table@, a, b) < k + 1 by {
                    lemma_edge_hits_bound(views, a, b);
                }
            }
            let kept = retain_marked(&self.samples[k], &marks);
            let ghost previous = table@;
            count_calls(&mut table, &kept, k + 1);
            let ghost kept_view = id_values(kept@);
            pruned.push(kept);
            proof {
                let now = sample_views(pruned@);
                assert(now =~= views.push(kept_view));
                assert(now.drop_last() =~= views);
                assert forall|i: int| 0 <= i < table@.len() implies keep.contains(
                    (#[trigger] table@[i]).caller,
                ) && keep.contains(table@[i].callee) by {
                    if i < previous.len() {
                        assert(keep.contains(previous[i].caller));
                    } else {
                        let a = table@[i].caller;
                        let b = table@[i].callee;
                        let p = choose|p: int| 0 <= p < kept_view.len() && kept_view[p] == a;
                        let q = choose|q: int| 0 <= q < kept_view.len() && kept_view[q] == b;
                        assert(marks@[kept@[p] as int]);
                        assert(marks@[kept@[q] as int]);
                    }
                }
            }
            k += 1;
        }
        self.samples = pruned;
        self.edges = table;
        proof {
            table.lemma_distinct();
            assert(self@.samples =~= before.pruned(total as nat, threshold as nat));
            assert(self@.node_counts == before.node_counts);
            assert forall|i: int| 0 <= i < self@.edges.len() implies (
            #[trigger] self@.edges[i]).caller < self@.names.len() && self@.edges[i].callee
                < self@.names.len() by {
                assert(keep.contains(table@[i].caller));
                assert(keep.contains(table@[i].callee));
            }
            assert forall|t: int, i: int|
                0 <= t < self@.samples.len() && 0 <= i < self@.samples[t].len() implies (
            #[trigger] self@.samples[t][i]) < self@.names.len() by {
                assert(self@.samples[t][i] == self.samples@[t]@[i]);
            }
        }
    }
}

/// `sample` without the numbers that are not marked.
fn retain_marked(sample: &Vec<usize>, marks: &Vec<bool>) -> (kept: Vec<usize>)
    requires
        forall|i: int| 0 <= i < sample@.len() ==> #[trigger] sample@[i] < marks@.len(),
    ensures
        id_values(kept@) == retained(id_values(sample@), marked(marks@)),
        forall|i: int| 0 <= i < kept@.len() ==> #[trigger] kept@[i] < marks@.len() && marks@[kept@[i] as int],
{
    let mut kept: Vec<usize> = Vec::new();
    let mut i: usize = 0;
    assert(id_values(sample@).take(0) =~= Seq::empty());
    assert(id_values(kept@) =~= Seq::empty());
    while i < sample.len()
        invariant
            i <= sample.len(),
            forall|k: int| 0 <= k < sample@.len() ==> #[trigger] sample@[k] < marks@.len(),
            id_values(kept@) == retained(id_values(sample@).take(i as int), marked(marks@)),
            forall|k: int|
                0 <= k < kept@.len() ==> #[trigger] kept@[k] < marks@.len() && marks@[kept@[k] as int],
        decreases sample.len() - i,
    {
        let id = sample[i];
        let ghost previous = id_values(kept@);
        proof {
            let upto = id_values(sample@).take(i as int + 1);
            assert(upto.drop_last() =~= id_values(sample@).take(i as int));
            assert(upto.last() == id as nat);
        }
        if marks[id] {
            kept.push(id);
            assert(id_values(kept@) =~= previous.push(id as nat));
        }
        i += 1;
    }
    assert(id_values(sample@).take(sample@.len() as int) =~= id_values(sample@));
    kept
}

/// Counts for the sample numbered `number` every call that it holds: once,
/// however often it holds it.
fn count_calls(table: &mut EdgeTable, sample: &Vec<usize>, number: usize)
    requires
        old(table).wf(),
        number >= 1,
        forall|a: nat, b: nat| #[trigger] old(table).stamp(a, b) < number,
        forall|a: nat, b: nat| #[trigger] edge_count(old(table)@, a, b) < number,
    ensures
        final(table).wf(),
        forall|a: nat, b: nat| #[trigger] final(table).stamp(a, b) <= number,
        forall|a: nat, b: nat| #[trigger]
            edge_count(final(table)@, a, b) == edge_count(old(table)@, a, b) + if adjacent(
                id_values(sample@),
                a,
                b,
            ) {
                1nat
            } else {
                0nat
            },
        final(table)@.len() >= old(table)@.len(),
        forall|i: int|
            0 <= i < final(table)@.len() ==> if i < old(table)@.len() {
                (#[trigger] final(table)@[i]).caller == old(table)@[i].caller
                    && final(table)@[i].callee == old(table)@[i].callee
            } else {
                id_values(sample@).contains(final(table)@[i].caller) && id_values(
                    sample@,
                ).contains(final(table)@[i].callee)
            },
{
    let ghost ids = id_values(sample@);
    let ghost before = table@;
    let mut p: usize = 0;
    if sample.len() < 2 {
        assert forall|a: nat, b: nat| !adjacent(ids, a, b) by {}
        return ;
    }
    let last = sample.len() - 1;
    while p < last
        invariant
            p <= last,
            last == sample@.len() - 1,
            ids == id_values(sample@),
            before == old(table)@,
            number >= 1,
            table.wf(),
            forall|a: nat, b: nat| #[trigger] edge_count(before, a, b) < number,
            forall|a: nat, b: nat| #[trigger] table.stamp(a, b) <= number,
            forall|a: nat, b: nat| #[trigger]
                table.stamp(a, b) == number <==> adjacent_upto(ids, a, b, p as int),
            forall|a: nat, b: nat| #[trigger]
                edge_count(table@, a, b) == edge_count(before, a, b) + if adjacent_upto(
                    ids,
                    a,
                    b,
                    p as int,
                ) {
                    1nat
                } else {
                    0nat
                },
            table@.len() >= before.len(),
            forall|i: int|
                0 <= i < table@.len() ==> if i < before.len() {
                    (#[trigger] table@[i]).caller == before[i].caller && table@[i].callee
                        == before[i].callee
                } else {
                    ids.contains(table@[i].caller) && ids.contains(table@[i].callee)
                },
        decreases last - p,
    {
        let caller = sample[p];
        let callee = sample[p + 1];
        let ghost previous = *table;
        proof {
            assert(ids[p as int] == caller as nat);
            assert(ids[p as int + 1] == callee as nat);
            assert(edge_count(before, caller as nat, callee as nat) < number);
        }
        table.bump(caller, callee, number);
        proof {
            assert forall|a: nat, b: nat|
                adjacent_upto(ids, a, b, p as int + 1) == (adjacent_upto(ids, a, b, p as int) || (a
                    == caller && b == callee)) by {
                if adjacent_upto(ids, a, b, p as int + 1) {
                    let q = choose|q: int|
                        0 <= q < p + 1 && q + 1 < ids.len() && #[trigger] ids[q] == a && ids[q + 1]
                            == b;
                    if q < p {
                        assert(adjacent_upto(ids, a, b, p as int));
                    }
                }
                if adjacent_upto(ids, a, b, p as int) {
                    let q = choose|q: int|
                        0 <= q < p && q + 1 < ids.len() && #[trigger] ids[q] == a && ids[q + 1] == b;
                    assert(adjacent_upto(ids, a, b, p as int + 1));
                }
            }
            assert forall|a: nat, b: nat| #[trigger] table.stamp(a, b) <= number by {
                assert(previous.stamp(a, b) <= number);
            }
            assert forall|a: nat, b: nat| #[trigger]
                table.stamp(a, b) == number <==> adjacent_upto(ids, a, b, p as int + 1) by {
                assert(previous.stamp(a, b) == number <==> adjacent_upto(ids, a, b, p as int));
            }
            assert forall|a: nat, b: nat| #[trigger]
                edge_count(table@, a, b) == edge_count(before, a, b) + if adjacent_upto(
                    ids,
                    a,
                    b,
                    p as int + 1,
                ) {
                    1nat
                } else {
                    0nat
                } by {
                assert(previous.stamp(a, b) == number <==> adjacent_upto(ids, a, b, p as int));
                assert(edge_count(previous@, a, b) == edge_count(before, a, b) + if adjacent_upto(
                    ids,
                    a,
                    b,
                    p as int,
                ) {
                    1nat
                } else {
                    0nat
                });
            }
            assert forall|i: int| 0 <= i < table@.len() implies if i < before.len() {
                (#[trigger] table@[i]).caller == before[i].caller && table@[i].callee
                    == before[i].callee
            } else {
                ids.contains(table@[i].caller) && ids.contains(table@[i].callee)
            } by {
                if i < previous@.len() {
                    assert(table@[i].caller == previous@[i].caller);
                }
            }
        }
        p += 1;
    }
    proof {
        assert forall|a: nat, b: nat|
            adjacent(ids, a, b) == adjacent_upto(ids, a, b, last as int) by {
            if adjacent(ids, a, b) {
                let q = choose|q: int|
                    0 <= q < ids.len() && q + 1 < ids.len() && #[trigger] ids[q] == a && ids[q + 1]
                        == b;
                assert(adjacent_upto(ids, a, b, last as int));
            }
            if adjacent_upto(ids, a, b, last as int) {
                let q = choose|q: int|
                    0 <= q < last && q + 1 < ids.len() && #[trigger] ids[q] == a && ids[q + 1] == b;
                assert(adjacent(ids, a, b));
            }
        }
    }
}

/// A call that is counted is held by one of the samples.
pub proof fn lemma_edge_hits_witness(samples: Seq<Seq<nat>>, caller: nat, callee: nat)
    requires
        edge_hits(samples, caller, callee) > 0,
    ensures
        exists|k: int| 0 <= k < samples.len() && adjacent(#[trigger] samples[k], caller, callee),
    decreases samples.len(),
{
    if samples.len() > 0 {
        if adjacent(samples.last(), caller, callee) {
            assert(adjacent(samples[samples.len() - 1], caller, callee));
        } else {
            lemma_edge_hits_witness(samples.drop_last(), caller, callee);
            let k = choose|k: int|
                0 <= k < samples.len() - 1 && adjacent(
                    #[trigger] samples.drop_last()[k],
                    caller,
                    callee,
                );
            assert(samples[k] == samples.drop_last()[k]);
        }
    }
}

/// The frames that survive the pruning are the top by share of the total:
/// every survivor has a greater share than every frame that does not
/// survive, or the same share and the greater number.
pub proof fn law_survivors_are_top(
    graph: GraphView,
    total: nat,
    top_n: nat,
    survivor: nat,
    other: nat,
)
    requires
        graph.survivors(total, top_n).contains(survivor),
        other < graph.node_counts.len(),
        !graph.survivors(total, top_n).contains(other),
    ensures
        survivor < graph.node_counts.len(),
        ranks_before(graph.percents(total), other as int, survivor as int),
{
    law_top_ranks_last(graph.percents(total), top_n, survivor as int, other as int);
}

/// As many frames survive the pruning as are asked for, or all if there
/// are fewer.
pub proof fn law_survivors_count(graph: GraphView, total: nat, top_n: nat)
    ensures
        graph.survivors(total, top_n).finite(),
        graph.survivors(total, top_n).len() == if top_n < graph.node_counts.len() {
            top_n
        } else {
            graph.node_counts.len()
        },
{
    let percents = graph.percents(total);
    let indices = top(percents, top_n);
    let number = |id: int| id as nat;
    law_top_count(percents, top_n);
    assert(vstd::relations::injective_on(number, indices)) by {
        assert forall|a: int, b: int|
            indices.contains(a) && indices.contains(b) && #[trigger] number(a) == #[trigger] number(
                b,
            ) implies a == b by {}
    }
    assert(indices.map(number) =~= graph.survivors(total, top_n)) by {
        assert forall|id: nat| graph.survivors(total, top_n).contains(id) implies indices.map(
            number,
        ).contains(id) by {
            assert(indices.contains(id as int));
            assert(number(id as int) == id);
        }
    }
    vstd::set_lib::lemma_map_size(indices, graph.survivors(total, top_n), number);
}

/// Once the samples are pruned and the edges counted, both ends of every
/// edge are among the survivors.
pub proof fn law_edges_join_survivors(
    graph: GraphView,
    total: nat,
    top_n: nat,
    finished: GraphView,
    i: int,
)
    requires
        finished.samples == graph.pruned(total, top_n),
        finished.edges_counted(),
        0 <= i < finished.edges.len(),
    ensures
        graph.survivors(total, top_n).contains(finished.edges[i].caller),
        graph.survivors(total, top_n).contains(finished.edges[i].callee),
{
    let a = finished.edges[i].caller;
    let b = finished.edges[i].callee;
    let keep = graph.survivors(total, top_n);
    lemma_edge_at(finished.edges, i);
    assert(edge_count(finished.edges, a, b) == finished.edges[i].count);
    lemma_edge_hits_witness(finished.samples, a, b);
    let k = choose|k: int|
        0 <= k < finished.samples.len() && adjacent(#[trigger] finished.samples[k], a, b);
    let sample = finished.samples[k];
    let p = choose|p: int|
        0 <= p < sample.len() && p + 1 < sample.len() && #[trigger] sample[p] == a && sample[p + 1]
            == b;
    lemma_retained(graph.samples[k], keep);
    assert(keep.contains(sample[p]));
    assert(keep.contains(sample[p + 1]));
}

/// No call is counted more often than there are samples.
pub proof fn law_edge_count_at_most_samples(graph: GraphView, caller: nat, callee: nat)
    requires
        graph.edges_counted(),
    ensures
        edge_count(graph.edges, caller, callee) <= graph.samples.len(),
{
    lemma_edge_hits_bound(graph.samples, caller, callee);
}

/// A sample keeps the graph valid. If it has frames, it adds one to the
/// count of each frame that occurs in it, however often, and nothing to
/// the count of any other frame; so no frame is counted more often than
/// there are samples.
pub proof fn law_sample_counts_once(graph: GraphView, frames: Seq<Seq<char>>, name: Seq<char>)
    requires
        graph.valid(),
    ensures
        graph.add_sample(frames).valid(),
        graph.add_sample(frames).node_count(name) <= graph.add_sample(frames).samples.len(),
        graph.add_sample(frames).node_count(name) == graph.node_count(name) + if frames.len() > 0
            && frames.contains(name) {
            1nat
        } else {
            0nat
        },
{
    let after = graph.add_sample(frames);
    lemma_extended(graph.names, frames);
    if frames.len() > 0 {
        assert forall|k: int, i: int|
            0 <= k < after.samples.len() && 0 <= i < after.samples[k].len() implies (
        #[trigger] after.samples[k][i]) < after.names.len() by {
            if k < graph.samples.len() {
                assert(after.samples[k] == graph.samples[k]);
                assert(graph.samples[k][i] < graph.names.len());
            } else {
                assert(frames.contains(frames[i]));
                assert(after.names.contains(frames[i]));
                let at = choose|at: int| 0 <= at < after.names.len() && after.names[at] == frames[i];
                lemma_index_of(after.names, at);
            }
        }
    }
    if after.names.contains(name) {
        let i = choose|i: int| 0 <= i < after.names.len() && after.names[i] == name;
        lemma_index_of(after.names, i);
        if i < graph.names.len() {
            assert(after.names[i] == graph.names[i]);
            lemma_index_of(graph.names, i);
        } else if graph.names.contains(name) {
            let k = choose|k: int| 0 <= k < graph.names.len() && graph.names[k] == name;
            assert(after.names[k] == name);
        }
    }
}

} // verus!
