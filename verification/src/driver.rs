//! The run over a profile: every sample is searched for the query, and the
//! samples that match are counted in the view that was asked for.

use crate::graph::{CallGraph, GraphView};
use crate::histogram::{Histogram, HistogramView};
use crate::matcher::{Matcher, SearchResult};
use crate::pattern::{regex_matches, regex_replace_all, Pattern};
use crate::rustc_query::{query_stack, to_query_stack};
use crate::text::{push_text, texts};
use crate::trace::{TraceArgs, TraceView};
use crate::tree::{NodeView, Tree};
use vstd::prelude::*;

verus! {

/// Which frames of a sample that matches are counted.
#[derive(Copy, Clone, Debug, PartialEq, Eq, Structural)]
pub enum GraphMode {
    /// All frames of the sample.
    All,
    /// The frames below the match, from the match outward.
    Caller,
    /// The frames above the match.
    Callee,
}

/// A rule for renaming frames: what to look for, and what to put there.
pub struct Rename {
    /// What is replaced.
    pub pattern: Pattern,
    /// What takes its place; `$1` and the like stand for groups of the
    /// match.
    pub replacement: String,
}

/// A rule for renaming frames, as a mathematical value.
pub struct RenameView {
    /// The source text of the pattern that is replaced.
    pub pattern: Seq<char>,
    /// What takes its place.
    pub replacement: Seq<char>,
}

impl View for Rename {
    type V = RenameView;

    open spec fn view(&self) -> RenameView {
        RenameView { pattern: self.pattern@, replacement: self.replacement@ }
    }
}

/// The rules as mathematical values.
pub open spec fn rename_views(renames: Seq<Rename>) -> Seq<RenameView> {
    Seq::new(renames.len(), |i: int| renames[i]@)
}

/// `frame` after the rules have been applied to it, one after the other.
pub open spec fn renamed(renames: Seq<RenameView>, frame: Seq<char>) -> Seq<char>
    decreases renames.len(),
{
    if renames.len() == 0 {
        frame
    } else {
        regex_replace_all(
            renames.last().pattern,
            renamed(renames.drop_last(), frame),
            renames.last().replacement,
        )
    }
}

/// Every one of `frames` after the rules have been applied to it.
pub open spec fn renamed_all(renames: Seq<RenameView>, frames: Seq<Seq<char>>) -> Seq<Seq<char>> {
    Seq::new(frames.len(), |i: int| renamed(renames, frames[i]))
}

/// The frame that stands for the match of the query with the text
/// `query`.
pub open spec fn marker(query: Seq<char>) -> Seq<char> {
    "matched `"@ + query + "`"@
}

/// The smaller of two numbers.
pub open spec fn at_most(n: int, limit: int) -> int {
    if n < limit {
        n
    } else {
        limit
    }
}

/// The frames that are counted for a sample with the frames `frames` in
/// which the match starts at `first_matching_frame` and ends before
/// `first_callee_frame`: all frames; or the frame `marker`, which stands
/// for the match, and the frames below the match, from the match outward;
/// or `marker` and the frames above the match. The frames of the sample are
/// renamed by `renames`.
pub open spec fn focus(
    mode: GraphMode,
    frames: Seq<Seq<char>>,
    first_matching_frame: int,
    first_callee_frame: int,
    marker: Seq<char>,
    renames: Seq<RenameView>,
) -> Seq<Seq<char>> {
    match mode {
        GraphMode::All => renamed_all(renames, frames),
        GraphMode::Caller => {
            let below = at_most(first_matching_frame, frames.len() as int);
            Seq::new(
                (below + 1) as nat,
                |i: int|
                    if i == 0 {
                        marker
                    } else {
                        renamed(renames, frames[below - i])
                    },
            )
        },
        GraphMode::Callee => {
            let above = at_most(first_callee_frame, frames.len() as int);
            Seq::new(
                (frames.len() - above + 1) as nat,
                |i: int|
                    if i == 0 {
                        marker
                    } else {
                        renamed(renames, frames[above + i - 1])
                    },
            )
        },
    }
}

/// Applies the rules to `frame`, one after the other.
pub fn rename_frame(renames: &Vec<Rename>, frame: &str) -> (name: String)
    ensures
        name@ == renamed(rename_views(renames@), frame@),
{
    let ghost rules = rename_views(renames@);
    let mut name = frame.to_owned();
    let mut i: usize = 0;
    assert(rules.take(0) =~= Seq::empty());
    while i < renames.len()
        invariant
            i <= renames.len(),
            rules == rename_views(renames@),
            name@ == renamed(rules.take(i as int), frame@),
        decreases renames.len() - i,
    {
        proof {
            let upto = rules.take(i as int + 1);
            assert(upto.drop_last() =~= rules.take(i as int));
            assert(upto.last() == renames@[i as int]@);
        }
        name = renames[i].pattern.replace_all(name.as_str(), renames[i].replacement.as_str());
        i += 1;
    }
    assert(rules.take(rules.len() as int) =~= rules);
    name
}

/// The frame that stands for the match of `matcher`.
pub fn marker_frame(matcher: &Matcher) -> (frame: String)
    ensures
        frame@ == marker(matcher.spec_text()),
{
    let mut frame = String::new();
    push_text(&mut frame, "matched `");
    matcher.write_text(&mut frame);
    push_text(&mut frame, "`");
    assert(frame@ =~= marker(matcher.spec_text()));
    frame
}

/// The frames that are counted for a sample that matches: all its frames;
/// or the match and the frames below it, from the match outward; or the
/// match and the frames above it. The frames of the sample are renamed, the
/// match is shown by the frame `marker`.
pub fn focus_frames(
    mode: GraphMode,
    frames: &[String],
    result: SearchResult,
    marker: &String,
    renames: &Vec<Rename>,
) -> (counted: Vec<String>)
    ensures
        texts(counted@) == focus(
            mode,
            texts(frames@),
            result.first_matching_frame as int,
            result.first_callee_frame as int,
            marker@,
            rename_views(renames@),
        ),
{
    let ghost all = texts(frames@);
    let ghost rules = rename_views(renames@);
    let mut counted: Vec<String> = Vec::new();
    match mode {
        GraphMode::All => {
            let mut i: usize = 0;
            while i < frames.len()
                invariant
                    i <= frames.len(),
                    all == texts(frames@),
                    rules == rename_views(renames@),
                    counted@.len() == i,
                    forall|k: int|
                        0 <= k < i ==> (#[trigger] counted@[k])@ == renamed(rules, all[k]),
                decreases frames.len() - i,
            {
                assert(all[i as int] == frames@[i as int]@);
                counted.push(rename_frame(renames, frames[i].as_str()));
                i += 1;
            }
            assert(texts(counted@) =~= renamed_all(rules, all));
        },
        GraphMode::Caller => {
            let below = if result.first_matching_frame < frames.len() {
                result.first_matching_frame
            } else {
                frames.len()
            };
            counted.push(marker.clone());
            let mut i: usize = below;
            while i > 0
                invariant
                    i <= below <= frames.len(),
                    all == texts(frames@),
                    rules == rename_views(renames@),
                    counted@.len() == 1 + below - i,
                    counted@[0]@ == marker@,
                    forall|k: int|
                        0 <= k < below - i ==> (#[trigger] counted@[1 + k])@ == renamed(
                            rules,
                            all[below - 1 - k],
                        ),
                decreases i,
            {
                assert(all[i - 1] == frames@[i - 1]@);
                counted.push(rename_frame(renames, frames[i - 1].as_str()));
                i -= 1;
            }
        },
        GraphMode::Callee => {
            let above = if result.first_callee_frame < frames.len() {
                result.first_callee_frame
            } else {
                frames.len()
            };
            counted.push(marker.clone());
            let mut i: usize = above;
            while i < frames.len()
                invariant
                    above <= i <= frames.len(),
                    all == texts(frames@),
                    rules == rename_views(renames@),
                    counted@.len() == 1 + i - above,
                    counted@[0]@ == marker@,
                    forall|k: int|
                        0 <= k < i - above ==> (#[trigger] counted@[1 + k])@ == renamed(
                            rules,
                            all[above + k],
                        ),
                decreases frames.len() - i,
            {
                assert(all[i as int] == frames@[i as int]@);
                counted.push(rename_frame(renames, frames[i].as_str()));
                i += 1;
            }
        },
    }
    proof {
        let wanted = focus(
            mode,
            all,
            result.first_matching_frame as int,
            result.first_callee_frame as int,
            marker@,
            rules,
        );
        assert(texts(counted@).len() == wanted.len());
        assert forall|k: int| 0 <= k < wanted.len() implies texts(counted@)[k] == wanted[k] by {
            if k > 0 && !(mode is All) {
                assert(counted@[1 + (k - 1)]@ == wanted[k]);
            }
        }
        assert(texts(counted@) =~= wanted);
    }
    counted
}

/// The lines that show a sample, with the frames of the match marked.
///
/// The lines of the sample list the top of the stack first, the offsets of
/// `selected` count from the bottom. The header line stays as it is; a
/// frame of the match gets `| ` before it, any other frame two blanks.
/// Where nothing is selected all lines stay as they are. An empty line ends
/// the sample.
pub open spec fn shown(header: Seq<Seq<char>>, selected: Option<(int, int)>) -> Seq<Seq<char>> {
    Seq::new(
        header.len() + 1,
        |i: int|
            if i == header.len() {
                Seq::empty()
            } else {
                match selected {
                    None => header[i],
                    Some((first_matching_frame, first_callee_frame)) => if i == 0 {
                        header[i]
                    } else if header.len() - first_callee_frame <= i < header.len()
                        - first_matching_frame {
                        "| "@ + header[i]
                    } else {
                        "  "@ + header[i]
                    },
                }
            },
    )
}

/// The offsets of a search result, if there is one.
pub open spec fn offsets(selected: Option<SearchResult>) -> Option<(int, int)> {
    match selected {
        Some(found) => Some((found.first_matching_frame as int, found.first_callee_frame as int)),
        None => None,
    }
}

/// The lines that show a sample, with the frames of the match marked.
pub fn print_trace(header: &[String], selected: Option<SearchResult>) -> (lines: Vec<String>)
    requires
        selected matches Some(found) ==> found.first_matching_frame <= found.first_callee_frame
            < header@.len(),
    ensures
        texts(lines@) == shown(texts(header@), offsets(selected)),
{
    let mut lines: Vec<String> = Vec::new();
    let mut i: usize = 0;
    while i < header.len()
        invariant
            i <= header.len(),
            selected matches Some(found) ==> found.first_matching_frame
                <= found.first_callee_frame < header@.len(),
            lines@.len() == i,
            forall|k: int|
                0 <= k < i ==> (#[trigger] lines@[k])@ == shown(texts(header@), offsets(selected))[k],
        decreases header.len() - i,
    {
        assert(texts(header@)[i as int] == header@[i as int]@);
        let mut line = String::new();
        match selected {
            Some(found) => {
                if i > 0 {
                    if header.len() - found.first_callee_frame <= i && i < header.len()
                        - found.first_matching_frame {
                        push_text(&mut line, "| ");
                    } else {
                        push_text(&mut line, "  ");
                    }
                }
            },
            None => {},
        }
        push_text(&mut line, header[i].as_str());
        assert(line@ =~= shown(texts(header@), offsets(selected))[i as int]);
        lines.push(line);
        i += 1;
    }
    lines.push(String::new());
    assert(texts(lines@) =~= shown(texts(header@), offsets(selected)));
    lines
}

/// The view that the samples that match are counted in, and which of
/// their frames are counted.
#[derive(Copy, Clone, Debug, PartialEq, Eq, Structural)]
pub enum Selection {
    /// The samples are only told apart, and counted in no view.
    Nothing,
    /// The histogram of frames.
    Histogram(GraphMode),
    /// The call graph.
    Graph(GraphMode),
    /// The call tree.
    Tree(GraphMode),
}

/// What a run is asked to do.
pub struct Options {
    /// Only samples of processes whose name this matches are looked at.
    pub process_name_filter: Option<Pattern>,
    /// Whether stacks are cut down to stacks of compiler queries first.
    pub rustc_query: bool,
    /// The query.
    pub matcher: Matcher,
    /// The view that is built.
    pub selection: Selection,
    /// The rules by which the frames that are counted are renamed.
    pub renames: Vec<Rename>,
}

/// What became of a sample.
#[derive(Copy, Clone, Debug, PartialEq, Eq, Structural)]
pub enum Outcome {
    /// The sample is of a process that is not looked at.
    Skipped,
    /// The query is not found in the sample.
    Missed,
    /// The query is found in the sample, at these offsets.
    Matched(SearchResult),
}

/// The state of a run, as a mathematical value.
pub struct DriverView {
    /// The histogram.
    pub histogram: HistogramView,
    /// The call graph.
    pub graph: GraphView,
    /// The call tree.
    pub tree: NodeView,
    /// The number of samples in which the query was found.
    pub matches: nat,
    /// The number of samples in which it was not.
    pub not_matches: nat,
}

impl Options {
    /// Whether samples of the process `name` are looked at.
    pub open spec fn looks_at(self, name: Seq<char>) -> bool {
        match self.process_name_filter {
            Some(filter) => regex_matches(filter@, name),
            None => true,
        }
    }

    /// The stack that the query is searched in.
    pub open spec fn searched(self, stack: Seq<Seq<char>>) -> Seq<Seq<char>> {
        if self.rustc_query {
            query_stack(stack)
        } else {
            stack
        }
    }

    /// The offsets at which the query is found in a sample that is looked
    /// at.
    pub open spec fn found(self, sample: TraceView) -> Option<(nat, nat)> {
        self.matcher.spec_search(self.searched(sample.stack))
    }

    /// The frames that are counted for a sample in which the query is
    /// found at the offsets `first` and `end`, the view being built with
    /// `mode`.
    pub open spec fn counted(self, mode: GraphMode, sample: TraceView, first: nat, end: nat) -> Seq<
        Seq<char>,
    > {
        focus(
            mode,
            self.searched(sample.stack),
            first as int,
            end as int,
            marker(self.matcher.spec_text()),
            rename_views(self.renames@),
        )
    }
}

impl DriverView {
    /// The state after one more sample.
    pub open spec fn after(self, options: Options, sample: TraceView) -> DriverView {
        if !options.looks_at(sample.process_name) {
            self
        } else {
            match options.found(sample) {
                None => DriverView { not_matches: self.not_matches + 1, ..self },
                Some((first, end)) => {
                    let counted = DriverView { matches: self.matches + 1, ..self };
                    match options.selection {
                        Selection::Nothing => counted,
                        Selection::Histogram(mode) => DriverView {
                            histogram: self.histogram.add_sample(
                                options.counted(mode, sample, first, end),
                            ),
                            ..counted
                        },
                        Selection::Graph(mode) => DriverView {
                            graph: self.graph.add_sample(options.counted(mode, sample, first, end)),
                            ..counted
                        },
                        Selection::Tree(mode) => DriverView {
                            tree: self.tree.insert(options.counted(mode, sample, first, end)),
                            ..counted
                        },
                    }
                },
            }
        }
    }
}

/// What becomes of a sample: it is skipped, or the query is found in it or
/// not.
pub open spec fn outcome_of(options: Options, sample: TraceView) -> Outcome {
    if !options.looks_at(sample.process_name) {
        Outcome::Skipped
    } else {
        match options.found(sample) {
            None => Outcome::Missed,
            Some((first, end)) => Outcome::Matched(
                SearchResult {
                    first_matching_frame: first as usize,
                    first_callee_frame: end as usize,
                },
            ),
        }
    }
}

/// A run over the samples of a profile.
pub struct Driver {
    options: Options,
    marker: String,
    histogram: Histogram,
    graph: CallGraph,
    tree: Tree,
    matches: usize,
    not_matches: usize,
}

impl View for Driver {
    type V = DriverView;

    closed spec fn view(&self) -> DriverView {
        DriverView {
            histogram: self.histogram@,
            graph: self.graph@,
            tree: self.tree@,
            matches: self.matches as nat,
            not_matches: self.not_matches as nat,
        }
    }
}

impl Driver {
    /// What the run is asked to do.
    pub closed spec fn options(&self) -> Options {
        self.options
    }

    /// The views are well-formed and hold no more samples than match.
    pub closed spec fn wf(&self) -> bool {
        &&& self.histogram.wf()
        &&& self.graph.wf()
        &&& self.tree.wf()
        &&& self.marker@ == marker(self.options.matcher.spec_text())
        &&& self.histogram@.total <= self.matches
        &&& self.graph@.samples.len() <= self.matches
        &&& self.tree@.hits_total <= self.matches
    }

    /// A run that has seen no sample yet.
    pub fn new(options: Options) -> (driver: Driver)
        ensures
            driver.wf(),
            driver.options() == options,
            driver@ == (DriverView {
                histogram: HistogramView::empty(),
                graph: GraphView::empty(),
                tree: NodeView::leaf("<root>"@),
                matches: 0,
                not_matches: 0,
            }),
    {
        let marker = marker_frame(&options.matcher);
        Driver {
            options,
            marker,
            histogram: Histogram::new(),
            graph: CallGraph::new(),
            tree: Tree::new(),
            matches: 0,
            not_matches: 0,
        }
    }

    /// Looks at one sample. A sample of a process that does not pass the
    /// filter is skipped. Otherwise its stack is cut down to compiler
    /// queries if that is asked for, and the query is searched in it. A
    /// sample in which it is found is counted as a match, and its frames,
    /// or those below or above the match, are counted in the view that is
    /// being built.
    pub fn sample(&mut self, args: &mut TraceArgs) -> (outcome: Outcome)
        requires
            old(self).wf(),
            old(self)@.matches + old(self)@.not_matches < usize::MAX,
        ensures
            final(self).wf(),
            final(self).options() == old(self).options(),
            final(self)@ == old(self)@.after(old(self).options(), old(args)@),
            outcome == outcome_of(old(self).options(), old(args)@),
            final(args)@.header == old(args)@.header,
            final(args)@.process_name == old(args)@.process_name,
            final(args)@.stack == if outcome is Skipped {
                old(args)@.stack
            } else {
                old(self).options().searched(old(args)@.stack)
            },
            outcome matches Outcome::Matched(found) ==> found.first_matching_frame
                <= found.first_callee_frame <= final(args)@.stack.len(),
    {
        if let Some(filter) = &self.options.process_name_filter {
            if !filter.is_match(args.process_name.as_str()) {
                return Outcome::Skipped;
            }
        }
        if self.options.rustc_query {
            to_query_stack(args);
        }
        let ghost sample = old(args)@;
        let ghost options = self.options;
        let ghost before = self@;
        assert(texts(args.stack@) == options.searched(sample.stack));
        match self.options.matcher.search_trace(args.stack.as_slice()) {
            Some(result) => {
                let ghost first = result.first_matching_frame as nat;
                let ghost end = result.first_callee_frame as nat;
                assert(options.found(sample) == Some((first, end)));
                self.matches = self.matches + 1;
                match self.options.selection {
                    Selection::Nothing => {},
                    Selection::Histogram(mode) => {
                        let frames = focus_frames(
                            mode,
                            args.stack.as_slice(),
                            result,
                            &self.marker,
                            &self.options.renames,
                        );
                        assert(texts(frames@) == options.counted(mode, sample, first, end));
                        self.histogram.add_frames(frames.as_slice());
                        assert(self@ == before.after(options, sample));
                    },
                    Selection::Graph(mode) => {
                        let frames = focus_frames(
                            mode,
                            args.stack.as_slice(),
                            result,
                            &self.marker,
                            &self.options.renames,
                        );
                        assert(texts(frames@) == options.counted(mode, sample, first, end));
                        self.graph.add_frames(frames.as_slice());
                        assert(self.graph@.samples.len() <= before.graph.samples.len() + 1);
                        assert(self@ == before.after(options, sample));
                    },
                    Selection::Tree(mode) => {
                        let frames = focus_frames(
                            mode,
                            args.stack.as_slice(),
                            result,
                            &self.marker,
                            &self.options.renames,
                        );
                        assert(texts(frames@) == options.counted(mode, sample, first, end));
                        assert(before.tree.insert(texts(frames@)).hits_total
                            == before.tree.hits_total + 1);
                        self.tree.add_frames(frames.as_slice());
                        assert(self@ == before.after(options, sample));
                    },
                }
                Outcome::Matched(result)
            },
            None => {
                self.not_matches = self.not_matches + 1;
                assert(self@ == before.after(options, sample));
                Outcome::Missed
            },
        }
    }

    /// Ends the run: the call graph is pruned to the `top_n` frames with
    /// the greatest share of all samples looked at and its edges are
    /// counted, and the call tree, if that is the view being built, is
    /// sorted.
    pub fn finish(&mut self, top_n: usize)
        requires
            old(self).wf(),
            old(self)@.matches + old(self)@.not_matches <= usize::MAX,
        ensures
            final(self).wf(),
            final(self).options() == old(self).options(),
            final(self)@.matches == old(self)@.matches,
            final(self)@.not_matches == old(self)@.not_matches,
            final(self)@.histogram == old(self)@.histogram,
            final(self)@.graph.names == old(self)@.graph.names,
            final(self)@.graph.node_counts == old(self)@.graph.node_counts,
            final(self)@.graph.edges_counted(),
            final(self)@.graph.samples == old(self)@.graph.pruned(
                old(self)@.matches + old(self)@.not_matches,
                top_n as nat,
            ),
            final(self)@.graph.total == old(self)@.matches + old(self)@.not_matches,
            final(self)@.tree == if old(self).options().selection is Tree {
                old(self)@.tree.sorted()
            } else {
                old(self)@.tree
            },
    {
        let total = self.matches + self.not_matches;
        self.graph.set_total(total, top_n);
        match self.options.selection {
            Selection::Tree(_) => {
                assert(self.tree@.sorted().hits_total == self.tree@.hits_total);
                self.tree.sort();
            },
            _ => {},
        }
    }

    /// The number of samples in which the query was found.
    pub fn matches(&self) -> (n: usize)
        ensures
            n == self@.matches,
    {
        self.matches
    }

    /// The number of samples in which the query was not found.
    pub fn not_matches(&self) -> (n: usize)
        ensures
            n == self@.not_matches,
    {
        self.not_matches
    }

    /// The query.
    pub fn matcher(&self) -> (matcher: &Matcher)
        ensures
            *matcher == self.options().matcher,
    {
        &self.options.matcher
    }

    /// The histogram.
    pub fn histogram(&self) -> (histogram: &Histogram)
        requires
            self.wf(),
        ensures
            histogram@ == self@.histogram,
            histogram.wf(),
    {
        &self.histogram
    }

    /// The call graph.
    pub fn graph(&self) -> (graph: &CallGraph)
        requires
            self.wf(),
        ensures
            graph@ == self@.graph,
            graph.wf(),
    {
        &self.graph
    }

    /// The call tree.
    pub fn tree(&self) -> (tree: &Tree)
        requires
            self.wf(),
        ensures
            tree@ == self@.tree,
            tree.wf(),
    {
        &self.tree
    }
}

} // verus!
