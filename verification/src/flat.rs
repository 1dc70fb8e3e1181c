//! The flat profile: how many samples end at each function, once the
//! functions too small to mention have been rolled up into their callers.

use crate::histogram::{Histogram, HistogramView};
use crate::intern::{extended, lemma_extended, Interner};
use crate::order::{index_values, is_ranking_named, key_values, rank_by_key_and_name};
use crate::text::texts;
use crate::util::{percent, percent_below, percent_capped, percent_of};
use vstd::prelude::*;

verus! {

/// A stack with the number of samples that have it, as a mathematical
/// value.
pub struct EntryView {
    /// The frames of the stack, from the bottom.
    pub trace: Seq<Seq<char>>,
    /// The number of samples.
    pub count: nat,
}

/// A flat profile as a mathematical value.
pub struct FlatView {
    /// For each frame, the number of samples it occurs in.
    pub histogram: HistogramView,
    /// The stacks that samples have, each once, with the number of samples
    /// that have it.
    pub entries: Seq<EntryView>,
    /// The number of samples of which no frame is left.
    pub empty_traces: nat,
}

/// The index of the first of `entries` from `from` on with the stack
/// `trace`.
pub open spec fn entry_from(entries: Seq<EntryView>, trace: Seq<Seq<char>>, from: int) -> Option<
    int,
>
    decreases entries.len() - from,
{
    if from < 0 || from >= entries.len() {
        None
    } else if entries[from].trace == trace {
        Some(from)
    } else {
        entry_from(entries, trace, from + 1)
    }
}

/// The number of samples among `entries` that have the stack `trace`.
pub open spec fn weight(entries: Seq<EntryView>, trace: Seq<Seq<char>>) -> nat {
    match entry_from(entries, trace, 0) {
        Some(i) => entries[i].count,
        None => 0,
    }
}

/// The number of samples among `entries`.
pub open spec fn total_weight(entries: Seq<EntryView>) -> nat
    decreases entries.len(),
{
    if entries.len() == 0 {
        0
    } else {
        total_weight(entries.drop_last()) + entries.last().count
    }
}

/// Whether no two of `entries` have the same stack.
pub open spec fn distinct_traces(entries: Seq<EntryView>) -> bool {
    forall|i: int, j: int|
        0 <= i < j < entries.len() ==> (#[trigger] entries[i]).trace != (#[trigger] entries[j]).trace
}

/// `entries` with `count` more samples that have the stack `trace`.
pub open spec fn inserted(entries: Seq<EntryView>, trace: Seq<Seq<char>>, count: nat) -> Seq<
    EntryView,
> {
    match entry_from(entries, trace, 0) {
        Some(i) => entries.update(i, EntryView { trace, count: entries[i].count + count }),
        None => entries.push(EntryView { trace, count }),
    }
}

/// `entry_from` finds the first entry with the stack, and finds none only
/// where there is none.
pub proof fn lemma_entry_from(entries: Seq<EntryView>, trace: Seq<Seq<char>>, from: int)
    requires
        0 <= from,
    ensures
        match entry_from(entries, trace, from) {
            Some(i) => from <= i < entries.len() && entries[i].trace == trace,
            None => forall|j: int| from <= j < entries.len() ==> (#[trigger] entries[j]).trace != trace,
        },
    decreases entries.len() - from,
{
    if from < entries.len() && entries[from].trace != trace {
        lemma_entry_from(entries, trace, from + 1);
    }
}

/// Where two sequences of entries agree on the stacks at every index, the
/// same entries are found in both.
pub proof fn lemma_same_traces(
    x: Seq<EntryView>,
    y: Seq<EntryView>,
    trace: Seq<Seq<char>>,
    from: int,
)
    requires
        x.len() == y.len(),
        forall|i: int| 0 <= i < x.len() ==> (#[trigger] x[i]).trace == y[i].trace,
    ensures
        entry_from(x, trace, from) == entry_from(y, trace, from),
    decreases x.len() - from,
{
    if 0 <= from < x.len() {
        assert(x[from].trace == y[from].trace);
        lemma_same_traces(x, y, trace, from + 1);
    }
}

/// An entry added at the end is found only where no earlier entry has its
/// stack.
pub proof fn lemma_pushed_entry(
    entries: Seq<EntryView>,
    new: EntryView,
    trace: Seq<Seq<char>>,
    from: int,
)
    requires
        0 <= from <= entries.len(),
    ensures
        entry_from(entries.push(new), trace, from) == match entry_from(entries, trace, from) {
            Some(i) => Some(i),
            None => if new.trace == trace {
                Some(entries.len() as int)
            } else {
                None
            },
        },
    decreases entries.len() - from,
{
    let all = entries.push(new);
    if from < entries.len() {
        assert(all[from] == entries[from]);
        lemma_pushed_entry(entries, new, trace, from + 1);
    } else {
        assert(all[from] == new);
        assert(entry_from(all, trace, from + 1) is None);
    }
}

/// Replacing one entry changes the number of samples by the difference of
/// the counts.
pub proof fn lemma_total_weight_update(entries: Seq<EntryView>, i: int, entry: EntryView)
    requires
        0 <= i < entries.len(),
    ensures
        total_weight(entries.update(i, entry)) == total_weight(entries) - entries[i].count
            + entry.count,
        entries[i].count <= total_weight(entries),
    decreases entries.len(),
{
    if i < entries.len() - 1 {
        lemma_total_weight_update(entries.drop_last(), i, entry);
        assert(entries.update(i, entry).drop_last() =~= entries.drop_last().update(i, entry));
    } else {
        assert(entries.update(i, entry).drop_last() =~= entries.drop_last());
    }
}

/// What inserting does: the stack that is inserted has `count` more
/// samples, every other stack has what it had, the stacks stay distinct,
/// and there are `count` more samples in all.
pub proof fn lemma_inserted(entries: Seq<EntryView>, trace: Seq<Seq<char>>, count: nat)
    requires
        distinct_traces(entries),
    ensures
        distinct_traces(inserted(entries, trace, count)),
        total_weight(inserted(entries, trace, count)) == total_weight(entries) + count,
        forall|other: Seq<Seq<char>>| #[trigger]
            weight(inserted(entries, trace, count), other) == weight(entries, other) + if other
                == trace {
                count
            } else {
                0
            },
{
    let after = inserted(entries, trace, count);
    lemma_entry_from(entries, trace, 0);
    match entry_from(entries, trace, 0) {
        Some(i) => {
            lemma_total_weight_update(
                entries,
                i,
                EntryView { trace, count: entries[i].count + count },
            );
            assert forall|k: int| 0 <= k < after.len() implies (#[trigger] after[k]).trace
                == entries[k].trace by {}
            assert forall|k: int, l: int| 0 <= k < l < after.len() implies (
            #[trigger] after[k]).trace != (#[trigger] after[l]).trace by {
                assert(entries[k].trace != entries[l].trace);
            }
            assert forall|other: Seq<Seq<char>>| #[trigger]
                weight(after, other) == weight(entries, other) + if other == trace {
                    count
                } else {
                    0
                } by {
                lemma_same_traces(after, entries, other, 0);
                lemma_entry_from(entries, other, 0);
            }
        },
        None => {
            let new = EntryView { trace, count };
            assert(after.drop_last() =~= entries);
            assert forall|k: int, l: int| 0 <= k < l < after.len() implies (
            #[trigger] after[k]).trace != (#[trigger] after[l]).trace by {
                if l < entries.len() {
                    assert(entries[k].trace != entries[l].trace);
                } else {
                    assert(after[k] == entries[k]);
                }
            }
            assert forall|other: Seq<Seq<char>>| #[trigger]
                weight(after, other) == weight(entries, other) + if other == trace {
                    count
                } else {
                    0
                } by {
                lemma_pushed_entry(entries, new, other, 0);
                lemma_entry_from(entries, other, 0);
                if let Some(k) = entry_from(entries, other, 0) {
                    assert(after[k] == entries[k]);
                }
            }
        },
    }
}

impl FlatView {
    /// The profile of no samples.
    pub open spec fn empty() -> FlatView {
        FlatView { histogram: HistogramView::empty(), entries: Seq::empty(), empty_traces: 0 }
    }

    /// The stacks are distinct and have frames, and there are as many
    /// samples as the histogram has counted.
    pub open spec fn valid(self) -> bool {
        &&& self.histogram.valid()
        &&& distinct_traces(self.entries)
        &&& forall|i: int| 0 <= i < self.entries.len() ==> (#[trigger] self.entries[i]).trace.len() > 0
        &&& total_weight(self.entries) + self.empty_traces == self.histogram.total
    }

    /// The number of samples that have the stack `trace`.
    pub open spec fn weight(self, trace: Seq<Seq<char>>) -> nat {
        if trace.len() == 0 {
            self.empty_traces
        } else {
            weight(self.entries, trace)
        }
    }

    /// The profile with `count` more samples that have the stack `trace`.
    pub open spec fn insert(self, trace: Seq<Seq<char>>, count: nat) -> FlatView {
        if trace.len() == 0 {
            FlatView { empty_traces: self.empty_traces + count, ..self }
        } else {
            FlatView { entries: inserted(self.entries, trace, count), ..self }
        }
    }

    /// The profile after one more sample.
    pub open spec fn add_sample(self, frames: Seq<Seq<char>>) -> FlatView {
        FlatView { histogram: self.histogram.add_sample(frames), ..self.insert(frames, 1) }
    }

    /// Whether the frame `name` is worth mentioning: it occurs in at least
    /// `min_percent` percent of `total` samples.
    pub open spec fn mentions(self, name: Seq<char>, total: nat, min_percent: nat) -> bool {
        percent_of(self.histogram.count(name), total) >= min_percent
    }

    /// The length of the longest front part of `trace` that is empty or
    /// ends at a frame worth mentioning.
    pub open spec fn cut(self, trace: Seq<Seq<char>>, total: nat, min_percent: nat) -> int
        decreases trace.len(),
    {
        if trace.len() == 0 {
            0
        } else if self.mentions(trace.last(), total, min_percent) {
            trace.len() as int
        } else {
            self.cut(trace.drop_last(), total, min_percent)
        }
    }

    /// The profile in which the first `upto` stacks are rolled up, and
    /// nothing else is held: every stack is cut back to the last of its
    /// frames that is worth mentioning.
    pub open spec fn rolled(self, upto: int, total: nat, min_percent: nat) -> FlatView
        decreases upto,
    {
        if upto <= 0 {
            FlatView { entries: Seq::empty(), ..self }
        } else {
            let entry = self.entries[upto - 1];
            self.rolled(upto - 1, total, min_percent).insert(
                entry.trace.take(self.cut(entry.trace, total, min_percent)),
                entry.count,
            )
        }
    }

    /// The profile rolled up: every stack is cut back to the last of its
    /// frames that occurs in at least `min_percent` percent of `total`
    /// samples.
    pub open spec fn rollup(self, total: nat, min_percent: nat) -> FlatView {
        self.rolled(self.entries.len() as int, total, min_percent)
    }

    /// The number of samples that end at the frame `name`.
    pub open spec fn leaf_count(self, name: Seq<char>) -> nat {
        leaf_weight(self.entries, name)
    }
}

/// The number of samples among `entries` whose stack ends at `name`.
pub open spec fn leaf_weight(entries: Seq<EntryView>, name: Seq<char>) -> nat
    decreases entries.len(),
{
    if entries.len() == 0 {
        0
    } else {
        leaf_weight(entries.drop_last(), name) + if entries.last().trace.len() > 0
            && entries.last().trace.last() == name {
            entries.last().count
        } else {
            0
        }
    }
}

/// The frames that the stacks of `entries` end at.
pub open spec fn leaves(entries: Seq<EntryView>) -> Seq<Seq<char>> {
    Seq::new(entries.len(), |i: int| entries[i].trace.last())
}

/// The samples that end at a frame are among all samples.
pub proof fn lemma_leaf_weight(entries: Seq<EntryView>, name: Seq<char>)
    ensures
        leaf_weight(entries, name) <= total_weight(entries),
    decreases entries.len(),
{
    if entries.len() > 0 {
        lemma_leaf_weight(entries.drop_last(), name);
    }
}

/// A line of the rendered profile, as a mathematical value.
pub struct LeafView {
    /// The share of the samples that end at the frame, in percent.
    pub percentage: nat,
    /// The frame.
    pub name: Seq<char>,
}

impl FlatView {
    /// The frames that stacks end at, each once, in the order of first
    /// appearance.
    pub open spec fn leaf_names(self) -> Seq<Seq<char>> {
        extended(Seq::empty(), leaves(self.entries))
    }

    /// For each of `leaf_names`, the share of `total` of the samples that
    /// end at it, in percent.
    pub open spec fn leaf_percents(self, total: nat) -> Seq<nat> {
        Seq::new(
            self.leaf_names().len(),
            |i: int| percent_capped(self.leaf_count(self.leaf_names()[i]), total),
        )
    }

    /// Whether `rows` are the lines for the frames that stacks end at, in
    /// descending order of the share of the samples that end there; among
    /// frames with the same share, the one whose name comes later in the
    /// order of texts stands first.
    pub open spec fn shows(self, total: nat, rows: Seq<LeafView>) -> bool {
        exists|ranking: Seq<int>|
            {
                &&& is_ranking_named(self.leaf_percents(total), self.leaf_names(), ranking)
                &&& rows.len() == ranking.len()
                &&& forall|k: int|
                    0 <= k < rows.len() ==> #[trigger] rows[k] == (LeafView {
                        percentage: self.leaf_percents(total)[ranking[rows.len() - 1 - k]],
                        name: self.leaf_names()[ranking[rows.len() - 1 - k]],
                    })
            }
    }

    /// The share of `total` of the samples of which no frame is left, if
    /// there are any.
    pub open spec fn empty_share(self, total: nat) -> Option<nat> {
        if self.empty_traces > 0 {
            Some(percent_capped(self.empty_traces, total))
        } else {
            None
        }
    }
}

/// Rolling up keeps the samples: what the stacks rolled up so far had is
/// what the profile holds, beside the samples that had no frame before.
pub proof fn lemma_rolled(profile: FlatView, upto: int, total: nat, min_percent: nat)
    requires
        0 <= upto <= profile.entries.len(),
    ensures
        distinct_traces(profile.rolled(upto, total, min_percent).entries),
        forall|i: int|
            0 <= i < profile.rolled(upto, total, min_percent).entries.len() ==> (
            #[trigger] profile.rolled(upto, total, min_percent).entries[i]).trace.len() > 0,
        total_weight(profile.rolled(upto, total, min_percent).entries) + profile.rolled(
            upto,
            total,
            min_percent,
        ).empty_traces == total_weight(profile.entries.take(upto)) + profile.empty_traces,
        profile.rolled(upto, total, min_percent).histogram == profile.histogram,
    decreases upto,
{
    if upto > 0 {
        let before = profile.rolled(upto - 1, total, min_percent);
        let entry = profile.entries[upto - 1];
        let kept = entry.trace.take(profile.cut(entry.trace, total, min_percent));
        lemma_rolled(profile, upto - 1, total, min_percent);
        lemma_inserted(before.entries, kept, entry.count);
        assert(profile.entries.take(upto).drop_last() =~= profile.entries.take(upto - 1));
        assert(profile.entries.take(upto).last() == entry);
        if kept.len() > 0 {
            let after = inserted(before.entries, kept, entry.count);
            lemma_entry_from(before.entries, kept, 0);
            assert forall|i: int| 0 <= i < after.len() implies (#[trigger] after[i]).trace.len()
                > 0 by {
                if i < before.entries.len() {
                    assert(after[i].trace == before.entries[i].trace);
                }
            }
        }
    } else {
        assert(profile.entries.take(0) =~= Seq::empty());
    }
}

/// The cut lies within the stack; what is cut off is not worth
/// mentioning, and what is left is empty or ends at a frame that is.
pub proof fn lemma_cut(profile: FlatView, trace: Seq<Seq<char>>, total: nat, min_percent: nat)
    ensures
        0 <= profile.cut(trace, total, min_percent) <= trace.len(),
        forall|i: int|
            profile.cut(trace, total, min_percent) <= i < trace.len() ==> !profile.mentions(
                #[trigger] trace[i],
                total,
                min_percent,
            ),
        profile.cut(trace, total, min_percent) > 0 ==> profile.mentions(
            trace[profile.cut(trace, total, min_percent) - 1],
            total,
            min_percent,
        ),
    decreases trace.len(),
{
    if trace.len() > 0 && !profile.mentions(trace.last(), total, min_percent) {
        lemma_cut(profile, trace.drop_last(), total, min_percent);
        assert forall|i: int|
            profile.cut(trace, total, min_percent) <= i < trace.len() implies !profile.mentions(
            #[trigger] trace[i],
            total,
            min_percent,
        ) by {
            if i < trace.len() - 1 {
                assert(trace.drop_last()[i] == trace[i]);
            }
        }
    }
}

/// A stack with the number of samples that have it.
pub struct Entry {
    trace: Vec<String>,
    count: usize,
}

impl View for Entry {
    type V = EntryView;

    closed spec fn view(&self) -> EntryView {
        EntryView { trace: texts(self.trace@), count: self.count as nat }
    }
}

/// The entries as mathematical values.
pub open spec fn entry_views(entries: Seq<Entry>) -> Seq<EntryView> {
    Seq::new(entries.len(), |i: int| entries[i]@)
}

/// Whether two stacks have the same frames.
fn same_frames(a: &Vec<String>, b: &Vec<String>) -> (same: bool)
    ensures
        same == (texts(a@) == texts(b@)),
{
    if a.len() != b.len() {
        assert(texts(a@).len() != texts(b@).len());
        return false;
    }
    let mut i: usize = 0;
    while i < a.len()
        invariant
            i <= a.len(),
            a.len() == b.len(),
            forall|k: int| 0 <= k < i ==> (#[trigger] a@[k])@ == b@[k]@,
        decreases a.len() - i,
    {
        if a[i] != b[i] {
            assert(texts(a@)[i as int] != texts(b@)[i as int]);
            return false;
        }
        i += 1;
    }
    assert(texts(a@) =~= texts(b@));
    true
}

/// Counts `count` more samples that have the stack `trace`.
fn insert_entry(entries: &mut Vec<Entry>, trace: Vec<String>, count: usize)
    requires
        total_weight(entry_views(old(entries)@)) + count <= usize::MAX,
    ensures
        entry_views(final(entries)@) == inserted(entry_views(old(entries)@), texts(trace@), count as nat),
{
    let ghost before = entry_views(entries@);
    let mut i: usize = 0;
    while i < entries.len()
        invariant
            i <= entries.len(),
            *entries == *old(entries),
            before == entry_views(entries@),
            total_weight(before) + count <= usize::MAX,
            entry_from(before, texts(trace@), i as int) == entry_from(before, texts(trace@), 0),
        decreases entries.len() - i,
    {
        assert(before[i as int] == entries@[i as int]@);
        if same_frames(&entries[i].trace, &trace) {
            proof {
                lemma_total_weight_update(before, i as int, before[i as int]);
            }
            let sum = entries[i].count + count;
            entries[i] = Entry { trace, count: sum };
            assert(entry_views(entries@) =~= inserted(before, texts(trace@), count as nat));
            return ;
        }
        i += 1;
    }
    entries.push(Entry { trace, count });
    assert(entry_views(entries@) =~= inserted(before, texts(trace@), count as nat));
}

/// A flat profile of the samples.
pub struct Flat {
    histogram: Histogram,
    entries: Vec<Entry>,
    empty_traces: usize,
}

impl View for Flat {
    type V = FlatView;

    closed spec fn view(&self) -> FlatView {
        FlatView {
            histogram: self.histogram@,
            entries: entry_views(self.entries@),
            empty_traces: self.empty_traces as nat,
        }
    }
}

impl Flat {
    /// The profile is valid as a mathematical value, and its histogram is
    /// well-formed.
    pub closed spec fn wf(&self) -> bool {
        self.histogram.wf() && self@.valid()
    }

    /// A well-formed profile is valid as a mathematical value.
    pub proof fn lemma_valid(&self)
        requires
            self.wf(),
        ensures
            self@.valid(),
    {
    }

    /// The profile of no samples.
    pub fn new() -> (flat: Flat)
        ensures
            flat.wf(),
            flat@ == FlatView::empty(),
    {
        let flat = Flat { histogram: Histogram::new(), entries: Vec::new(), empty_traces: 0 };
        assert(flat@.entries =~= Seq::empty());
        flat
    }

    /// The number of samples counted.
    pub fn total(&self) -> (n: usize)
        ensures
            n == self@.histogram.total,
    {
        self.histogram.total()
    }

    /// The number of samples of which no frame is left.
    pub fn empty_traces(&self) -> (n: usize)
        ensures
            n == self@.empty_traces,
    {
        self.empty_traces
    }

    /// Counts `count` more samples that have the stack `trace`.
    fn insert(&mut self, trace: Vec<String>, count: usize)
        requires
            total_weight(old(self)@.entries) + old(self)@.empty_traces + count <= usize::MAX,
        ensures
            final(self)@ == old(self)@.insert(texts(trace@), count as nat),
            final(self).histogram == old(self).histogram,
    {
        if trace.len() == 0 {
            self.empty_traces = self.empty_traces + count;
        } else {
            insert_entry(&mut self.entries, trace, count);
        }
    }

    /// Counts one more sample, whose frames from the bottom are `frames`.
    pub fn add_frames(&mut self, frames: &[String])
        requires
            old(self).wf(),
            old(self)@.histogram.total < usize::MAX,
        ensures
            final(self).wf(),
            final(self)@ == old(self)@.add_sample(texts(frames@)),
    {
        let ghost before = self@;
        let mut trace: Vec<String> = Vec::new();
        let mut i: usize = 0;
        while i < frames.len()
            invariant
                i <= frames.len(),
                trace@.len() == i,
                forall|k: int| 0 <= k < i ==> (#[trigger] trace@[k])@ == frames@[k]@,
            decreases frames.len() - i,
        {
            trace.push(frames[i].clone());
            i += 1;
        }
        assert(texts(trace@) =~= texts(frames@));
        self.insert(trace, 1);
        self.histogram.add_frames(frames);
        proof {
            lemma_inserted(before.entries, texts(frames@), 1);
            if frames@.len() > 0 {
                let after = inserted(before.entries, texts(frames@), 1);
                lemma_entry_from(before.entries, texts(frames@), 0);
                assert forall|k: int| 0 <= k < after.len() implies (#[trigger] after[k]).trace.len()
                    > 0 by {
                    if k < before.entries.len() {
                        assert(after[k].trace == before.entries[k].trace);
                    }
                }
            }
            self.histogram.lemma_valid();
        }
    }

    /// Rolls the profile up: every stack is cut back to the last of its
    /// frames that occurs in at least `min_percent` percent of
    /// `total_samples` samples, so that the samples that ended at a frame
    /// not worth mentioning end at the nearest caller that is.
    pub fn rollup(&mut self, total_samples: usize, min_percent: usize)
        requires
            old(self).wf(),
        ensures
            final(self).wf(),
            final(self)@ == old(self)@.rollup(total_samples as nat, min_percent as nat),
    {
        let ghost before = self@;
        let ghost total = total_samples as nat;
        let ghost least = min_percent as nat;
        let mut taken: Vec<Entry> = Vec::new();
        core::mem::swap(&mut self.entries, &mut taken);
        let ghost all = taken@;
        assert(self@ =~= before.rolled(0, total, least)) by {
            assert(self@.entries =~= Seq::empty());
        }
        for entry in it: taken
            invariant
                it.seq() == all,
                entry_views(all) == before.entries,
                before == old(self)@,
                before.valid(),
                self.histogram == old(self).histogram,
                self.histogram.wf(),
                total == total_samples as nat,
                least == min_percent as nat,
                self@ == before.rolled(it.index() as int, total, least),
        {
            let ghost i = it.index() as int;
            let ghost view = all[i]@;
            proof {
                lemma_rolled(before, i, total, least);
                lemma_rolled(before, i + 1, total, least);
                assert(before.entries[i] == view);
                assert(before.entries.take(i + 1).drop_last() =~= before.entries.take(i));
                assert(before.entries.take(i + 1).last() == view);
                lemma_total_weight_take(before.entries, i + 1);
            }
            let held = self.histogram.total();
            assert(total_weight(before.entries) + before.empty_traces == held);
            let Entry { trace, count } = entry;
            let mut trace = trace;
            while trace.len() > 0 && percent_below(
                self.histogram.get(trace[trace.len() - 1].as_str()),
                total_samples,
                min_percent,
            )
                invariant
                    self.histogram.wf(),
                    self.histogram@ == before.histogram,
                    total == total_samples as nat,
                    least == min_percent as nat,
                    trace@.len() <= view.trace.len(),
                    texts(trace@) == view.trace.take(trace@.len() as int),
                    before.cut(texts(trace@), total, least) == before.cut(view.trace, total, least),
                decreases trace.len(),
            {
                let ghost longer = texts(trace@);
                assert(longer.last() == trace@[trace@.len() - 1]@);
                assert(!before.mentions(longer.last(), total, least));
                trace.pop();
                assert(texts(trace@) =~= longer.drop_last());
                assert(texts(trace@) =~= view.trace.take(trace@.len() as int));
            }
            proof {
                let left = texts(trace@);
                if left.len() > 0 {
                    assert(left.last() == trace@[trace@.len() - 1]@);
                    assert(before.mentions(left.last(), total, least));
                }
                assert(before.cut(left, total, least) == left.len());
                assert(left == view.trace.take(before.cut(view.trace, total, least)));
                assert(count == view.count);
            }
            self.insert(trace, count);
        }
        proof {
            lemma_rolled(before, before.entries.len() as int, total, least);
            assert(before.entries.take(before.entries.len() as int) =~= before.entries);
        }
    }

    /// The lines of the rendered profile: one for each frame that stacks
    /// end at, with the share of `total_samples` of the samples that end
    /// there, in descending order of that share and, among equal shares,
    /// of name; and the share of the samples of which no frame is left, if
    /// there are any.
    pub fn dump(&self, total_samples: usize) -> (report: (Vec<LeafRow>, Option<u32>))
        requires
            self.wf(),
        ensures
            self@.shows(total_samples as nat, leaf_views(report.0@)),
            match report.1 {
                Some(share) => self@.empty_share(total_samples as nat) == Some(share as nat),
                None => self@.empty_share(total_samples as nat) is None,
            },
    {
        let ghost total = total_samples as nat;
        let ghost all = self@.entries;
        let held = self.histogram.total();
        let mut names = Interner::new();
        let mut counts: Vec<usize> = Vec::new();
        let mut i: usize = 0;
        assert(leaves(all).take(0) =~= Seq::empty());
        assert(all.take(0) =~= Seq::empty());
        while i < self.entries.len()
            invariant
                i <= self.entries.len(),
                self.wf(),
                all == self@.entries,
                held == self@.histogram.total,
                names.wf(),
                names@ == extended(Seq::empty(), leaves(all).take(i as int)),
                counts@.len() == names@.len(),
                forall|k: int|
                    0 <= k < counts@.len() ==> #[trigger] counts@[k] == leaf_weight(
                        all.take(i as int),
                        names@[k],
                    ),
            decreases self.entries.len() - i,
        {
            let entry = &self.entries[i];
            let ghost view = all[i as int];
            let ghost leaf = view.trace.last();
            let ghost names_before = names@;
            proof {
                assert(view == entry@);
                assert(view.trace.len() > 0);
                let upto = leaves(all).take(i as int + 1);
                assert(upto.drop_last() =~= leaves(all).take(i as int));
                assert(upto.last() == leaf);
                assert(all.take(i as int + 1).drop_last() =~= all.take(i as int));
                assert(all.take(i as int + 1).last() == view);
                lemma_leaf_weight(all.take(i as int + 1), leaf);
                lemma_total_weight_take(all, i as int + 1);
                assert(texts(entry.trace@).last() == entry.trace@[entry.trace@.len() - 1]@);
            }
            let id = names.intern(entry.trace[entry.trace.len() - 1].as_str());
            if id == counts.len() {
                counts.push(0);
                proof {
                    assert(!names_before.contains(leaf));
                    assert(leaves(all).take(i as int) =~= leaves(all.take(i as int)));
                    assert forall|k: int| 0 <= k < all.take(i as int).len() implies (
                    #[trigger] all.take(i as int)[k]).trace.len() > 0 by {
                        assert(all.take(i as int)[k] == all[k]);
                    }
                    lemma_leaf_absent(all.take(i as int), names_before, leaf);
                }
            }
            counts[id] = counts[id] + entry.count;
            proof {
                names.lemma_distinct();
                assert forall|k: int| 0 <= k < counts@.len() implies #[trigger] counts@[k]
                    == leaf_weight(all.take(i as int + 1), names@[k]) by {
                    if k != id {
                        assert(names@[k] != names@[id as int]);
                    }
                }
            }
            i += 1;
        }
        proof {
            assert(leaves(all).take(all.len() as int) =~= leaves(all));
            assert(all.take(all.len() as int) =~= all);
        }
        let mut percents: Vec<usize> = Vec::new();
        let mut j: usize = 0;
        while j < counts.len()
            invariant
                j <= counts.len(),
                percents@.len() == j,
                forall|k: int|
                    0 <= k < j ==> #[trigger] percents@[k] == percent_capped(
                        counts@[k] as nat,
                        total_samples as nat,
                    ) && percents@[k] <= u32::MAX,
            decreases counts.len() - j,
        {
            percents.push(percent(counts[j], total_samples) as usize);
            j += 1;
        }
        assert(key_values(percents@) =~= self@.leaf_percents(total));
        let letters = names.chars();
        proof {
            names.lemma_distinct();
        }
        let ranking = rank_by_key_and_name(&percents, &letters);
        let n = ranking.len();
        let mut rows: Vec<LeafRow> = Vec::new();
        let mut k: usize = 0;
        while k < n
            invariant
                k <= n,
                n == ranking@.len(),
                n == percents@.len(),
                n == names@.len(),
                is_ranking_named(key_values(percents@), names@, index_values(ranking@)),
                forall|t: int| 0 <= t < n ==> #[trigger] percents@[t] <= u32::MAX,
                rows@.len() == k,
                forall|t: int|
                    0 <= t < k ==> (#[trigger] rows@[t])@ == (LeafView {
                        percentage: percents@[index_values(ranking@)[n - 1 - t]] as nat,
                        name: names@[index_values(ranking@)[n - 1 - t]],
                    }),
            decreases n - k,
        {
            let id = ranking[n - 1 - k];
            assert(index_values(ranking@)[n - 1 - k] == id);
            rows.push(
                LeafRow { percentage: percents[id] as u32, name: names.name(id).clone() },
            );
            k += 1;
        }
        proof {
            let r = index_values(ranking@);
            let v = leaf_views(rows@);
            assert forall|t: int| 0 <= t < v.len() implies #[trigger] v[t] == (LeafView {
                percentage: self@.leaf_percents(total)[r[v.len() - 1 - t]],
                name: self@.leaf_names()[r[v.len() - 1 - t]],
            }) by {
                assert(v[t] == rows@[t]@);
                assert(key_values(percents@)[r[n - 1 - t]] == percents@[r[n - 1 - t]]);
            }
        }
        let empty = if self.empty_traces > 0 {
            Some(percent(self.empty_traces, total_samples))
        } else {
            None
        };
        (rows, empty)
    }
}

/// A line of the rendered profile.
pub struct LeafRow {
    /// The share of the samples that end at the frame, in percent.
    pub percentage: u32,
    /// The frame.
    pub name: String,
}

impl View for LeafRow {
    type V = LeafView;

    open spec fn view(&self) -> LeafView {
        LeafView { percentage: self.percentage as nat, name: self.name@ }
    }
}

/// The lines as mathematical values.
pub open spec fn leaf_views(rows: Seq<LeafRow>) -> Seq<LeafView> {
    Seq::new(rows.len(), |i: int| rows[i]@)
}

/// No sample ends at a frame that no stack ends at.
pub proof fn lemma_leaf_absent(entries: Seq<EntryView>, names: Seq<Seq<char>>, name: Seq<char>)
    requires
        names == extended(Seq::empty(), leaves(entries)),
        !names.contains(name),
        forall|i: int| 0 <= i < entries.len() ==> (#[trigger] entries[i]).trace.len() > 0,
    ensures
        leaf_weight(entries, name) == 0,
    decreases entries.len(),
{
    lemma_extended(Seq::empty(), leaves(entries));
    if entries.len() > 0 {
        let front = entries.drop_last();
        assert(leaves(entries).drop_last() =~= leaves(front));
        lemma_extended(Seq::empty(), leaves(front));
        assert(leaves(entries)[entries.len() - 1] == entries.last().trace.last());
        assert(leaves(entries).contains(entries.last().trace.last()));
        assert forall|i: int| 0 <= i < front.len() implies (#[trigger] front[i]).trace.len()
            > 0 by {
            assert(front[i] == entries[i]);
        }
        let front_names = extended(Seq::empty(), leaves(front));
        if front_names.contains(name) {
            assert(leaves(front).contains(name));
            let k = choose|k: int| 0 <= k < leaves(front).len() && leaves(front)[k] == name;
            assert(leaves(entries)[k] == name);
            assert(leaves(entries).contains(name));
        }
        lemma_leaf_absent(front, front_names, name);
    }
}

/// The number of samples in a front part is no more than the number in
/// all.
pub proof fn lemma_total_weight_take(entries: Seq<EntryView>, n: int)
    requires
        0 <= n <= entries.len(),
    ensures
        total_weight(entries.take(n)) <= total_weight(entries),
    decreases entries.len(),
{
    if n < entries.len() {
        lemma_total_weight_take(entries.drop_last(), n);
        assert(entries.drop_last().take(n) =~= entries.take(n));
    } else {
        assert(entries.take(n) =~= entries);
    }
}

/// The number of samples among `entries` whose stack, cut back, is
/// `trace`.
pub open spec fn cut_weight(
    profile: FlatView,
    entries: Seq<EntryView>,
    trace: Seq<Seq<char>>,
    total: nat,
    min_percent: nat,
) -> nat
    decreases entries.len(),
{
    if entries.len() == 0 {
        0
    } else {
        cut_weight(profile, entries.drop_last(), trace, total, min_percent)
            + if entries.last().trace.take(profile.cut(entries.last().trace, total, min_percent))
            == trace {
            entries.last().count
        } else {
            0
        }
    }
}

/// In the profile in which the first `upto` stacks are rolled up, a stack
/// has the samples of the stacks that were cut back to it.
proof fn lemma_rolled_weight(
    profile: FlatView,
    upto: int,
    trace: Seq<Seq<char>>,
    total: nat,
    min_percent: nat,
)
    requires
        0 <= upto <= profile.entries.len(),
    ensures
        profile.rolled(upto, total, min_percent).weight(trace) == cut_weight(
            profile,
            profile.entries.take(upto),
            trace,
            total,
            min_percent,
        ) + if trace.len() == 0 {
            profile.empty_traces
        } else {
            0
        },
    decreases upto,
{
    if upto > 0 {
        let before = profile.rolled(upto - 1, total, min_percent);
        let entry = profile.entries[upto - 1];
        let kept = entry.trace.take(profile.cut(entry.trace, total, min_percent));
        lemma_rolled_weight(profile, upto - 1, trace, total, min_percent);
        lemma_rolled(profile, upto - 1, total, min_percent);
        lemma_inserted(before.entries, kept, entry.count);
        assert(profile.entries.take(upto).drop_last() =~= profile.entries.take(upto - 1));
        assert(profile.entries.take(upto).last() == entry);
        let after = profile.rolled(upto, total, min_percent);
        assert(after == before.insert(kept, entry.count));
        if kept.len() > 0 {
            assert(after.entries == inserted(before.entries, kept, entry.count));
            assert(weight(inserted(before.entries, kept, entry.count), trace) == weight(
                before.entries,
                trace,
            ) + if trace == kept {
                entry.count
            } else {
                0
            });
        } else {
            assert(after.empty_traces == before.empty_traces + entry.count);
            if trace.len() == 0 {
                assert(trace =~= kept);
            }
        }
    } else {
        assert(profile.entries.take(0) =~= Seq::empty());
        assert(profile.rolled(0, total, min_percent).entries =~= Seq::empty());
        assert(entry_from(Seq::<EntryView>::empty(), trace, 0) is None);
    }
}

/// After rolling up, a stack has the samples of all stacks that were cut
/// back to it; every stack that is left ends at a frame worth mentioning;
/// and the profile is valid and holds the samples that it held.
pub proof fn law_rollup_cuts_back(
    profile: FlatView,
    trace: Seq<Seq<char>>,
    total: nat,
    min_percent: nat,
)
    requires
        profile.valid(),
    ensures
        profile.rollup(total, min_percent).valid(),
        profile.rollup(total, min_percent).histogram == profile.histogram,
        profile.rollup(total, min_percent).weight(trace) == cut_weight(
            profile,
            profile.entries,
            trace,
            total,
            min_percent,
        ) + if trace.len() == 0 {
            profile.empty_traces
        } else {
            0
        },
        trace.len() > 0 && profile.rollup(total, min_percent).weight(trace) > 0
            ==> profile.mentions(trace.last(), total, min_percent),
{
    let n = profile.entries.len() as int;
    lemma_rolled(profile, n, total, min_percent);
    lemma_rolled_weight(profile, n, trace, total, min_percent);
    assert(profile.entries.take(n) =~= profile.entries);
    if trace.len() > 0 && profile.rollup(total, min_percent).weight(trace) > 0 {
        lemma_cut_weight_witness(profile, profile.entries, trace, total, min_percent);
        let i = choose|i: int|
            0 <= i < profile.entries.len() && (#[trigger] profile.entries[i]).trace.take(
                profile.cut(profile.entries[i].trace, total, min_percent),
            ) == trace;
        let full = profile.entries[i].trace;
        lemma_cut(profile, full, total, min_percent);
        assert(trace.last() == full[profile.cut(full, total, min_percent) - 1]);
    }
}

/// Where samples are cut back to a stack, some stack is cut back to it.
proof fn lemma_cut_weight_witness(
    profile: FlatView,
    entries: Seq<EntryView>,
    trace: Seq<Seq<char>>,
    total: nat,
    min_percent: nat,
)
    requires
        cut_weight(profile, entries, trace, total, min_percent) > 0,
    ensures
        exists|i: int|
            0 <= i < entries.len() && (#[trigger] entries[i]).trace.take(
                profile.cut(entries[i].trace, total, min_percent),
            ) == trace,
    decreases entries.len(),
{
    if entries.len() > 0 {
        let last = entries.last();
        if last.trace.take(profile.cut(last.trace, total, min_percent)) == trace {
            assert(entries[entries.len() - 1] == last);
        } else {
            lemma_cut_weight_witness(profile, entries.drop_last(), trace, total, min_percent);
            let i = choose|i: int|
                0 <= i < entries.len() - 1 && (#[trigger] entries.drop_last()[i]).trace.take(
                    profile.cut(entries.drop_last()[i].trace, total, min_percent),
                ) == trace;
            assert(entries[i] == entries.drop_last()[i]);
        }
    }
}

} // verus!
