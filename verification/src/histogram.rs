//! How many samples each frame occurs in.

use crate::intern::{extended, index_of, lemma_extended, lemma_index_of, Interner};
use crate::order::{index_values, is_ranking_named, key_values, rank_by_key_and_name};
use crate::text::texts;
use crate::util::{percent, percent_capped};
use vstd::prelude::*;

verus! {

/// A histogram as a mathematical value.
pub struct HistogramView {
    /// The frames seen, in the order of their first appearance.
    pub names: Seq<Seq<char>>,
    /// For each frame, the number of samples it occurs in.
    pub counts: Seq<nat>,
    /// The number of samples counted.
    pub total: nat,
}

/// A line of the rendered histogram, as a mathematical value.
pub struct RowView {
    /// The share of the samples in which the frame occurs, in percent.
    pub percentage: nat,
    /// The number of samples in which the frame occurs.
    pub count: nat,
    /// The frame.
    pub name: Seq<char>,
}

impl HistogramView {
    /// The histogram of no samples.
    pub open spec fn empty() -> HistogramView {
        HistogramView { names: Seq::empty(), counts: Seq::empty(), total: 0 }
    }

    /// Every frame is held once, with a count of at least one and at most
    /// the number of samples.
    pub open spec fn valid(self) -> bool {
        &&& self.names.no_duplicates()
        &&& self.counts.len() == self.names.len()
        &&& forall|i: int| 0 <= i < self.counts.len() ==> 1 <= #[trigger] self.counts[i] <= self.total
    }

    /// The number of samples in which `name` occurs.
    pub open spec fn count(self, name: Seq<char>) -> nat {
        match index_of(self.names, name) {
            Some(i) => self.counts[i],
            None => 0,
        }
    }

    /// The count at index `i`, or zero where there is none yet.
    pub open spec fn count_at(self, i: int) -> nat {
        if 0 <= i < self.counts.len() {
            self.counts[i]
        } else {
            0
        }
    }

    /// The histogram after one more sample: every frame that occurs in the
    /// sample counts one more, however often it occurs there.
    pub open spec fn add_sample(self, sample: Seq<Seq<char>>) -> HistogramView {
        let names = extended(self.names, sample);
        HistogramView {
            names,
            counts: Seq::new(
                names.len(),
                |i: int|
                    self.count_at(i) + if sample.contains(names[i]) {
                        1nat
                    } else {
                        0nat
                    },
            ),
            total: self.total + 1,
        }
    }

    /// The line for the frame at index `i`, with its share of `total`.
    pub open spec fn row(self, i: int, total: nat) -> RowView {
        RowView {
            percentage: percent_capped(self.counts[i], total),
            count: self.counts[i],
            name: self.names[i],
        }
    }

    /// Whether `rows` are the lines for the `top_n` most frequent frames,
    /// or for all if there are fewer, in ascending order of count; frames
    /// with the same count stand in the order of their names.
    pub open spec fn shows(self, total: nat, top_n: nat, rows: Seq<RowView>) -> bool {
        exists|ranking: Seq<int>|
            {
                &&& is_ranking_named(self.counts, self.names, ranking)
                &&& rows.len() == if top_n < self.counts.len() {
                    top_n
                } else {
                    self.counts.len()
                }
                &&& forall|k: int|
                    0 <= k < rows.len() ==> #[trigger] rows[k] == self.row(
                        ranking[self.counts.len() - rows.len() + k],
                        total,
                    )
            }
    }
}

/// A line of the rendered histogram.
pub struct HistogramRow {
    /// The share of the samples in which the frame occurs, in percent.
    pub percentage: u32,
    /// The number of samples in which the frame occurs.
    pub count: usize,
    /// The frame.
    pub name: String,
}

impl View for HistogramRow {
    type V = RowView;

    open spec fn view(&self) -> RowView {
        RowView { percentage: self.percentage as nat, count: self.count as nat, name: self.name@ }
    }
}

/// The lines as mathematical values.
pub open spec fn row_views(rows: Seq<HistogramRow>) -> Seq<RowView> {
    Seq::new(rows.len(), |i: int| rows[i]@)
}

/// For each frame, the number of samples that it occurs in.
pub struct Histogram {
    names: Interner,
    counts: Vec<usize>,
    /// For each frame, the number of the last sample that counted it.
    stamps: Vec<usize>,
    total: usize,
}

impl View for Histogram {
    type V = HistogramView;

    closed spec fn view(&self) -> HistogramView {
        HistogramView {
            names: self.names@,
            counts: key_values(self.counts@),
            total: self.total as nat,
        }
    }
}

impl Histogram {
    /// Every frame is held once, with a count of at least one and at most
    /// the number of samples.
    pub closed spec fn wf(&self) -> bool {
        &&& self.names.wf()
        &&& self@.valid()
        &&& self.stamps@.len() == self.counts@.len()
        &&& forall|i: int| 0 <= i < self.stamps@.len() ==> #[trigger] self.stamps@[i] <= self.total
    }

    /// A well-formed histogram is valid as a mathematical value.
    pub proof fn lemma_valid(&self)
        requires
            self.wf(),
        ensures
            self@.valid(),
    {
    }

    /// The histogram of no samples.
    pub fn new() -> (histogram: Histogram)
        ensures
            histogram.wf(),
            histogram@ == HistogramView::empty(),
    {
        let histogram = Histogram {
            names: Interner::new(),
            counts: Vec::new(),
            stamps: Vec::new(),
            total: 0,
        };
        assert(histogram@.counts =~= Seq::empty());
        histogram
    }

    /// The number of samples counted.
    pub fn total(&self) -> (n: usize)
        ensures
            n == self@.total,
    {
        self.total
    }

    /// The number of samples in which the frame `key` occurs.
    pub fn get(&self, key: &str) -> (n: usize)
        requires
            self.wf(),
        ensures
            n == self@.count(key@),
            n <= self@.total,
    {
        match self.names.get(key) {
            Some(i) => self.counts[i],
            None => 0,
        }
    }

    /// Counts one more sample: every frame that occurs in `frames` counts
    /// one more, however often it occurs there.
    pub fn add_frames(&mut self, frames: &[String])
        requires
            old(self).wf(),
            old(self)@.total < usize::MAX,
        ensures
            final(self).wf(),
            final(self)@ == old(self)@.add_sample(texts(frames@)),
    {
        let ghost before = self@;
        let ghost sample = texts(frames@);
        let now = self.total + 1;
        let mut j: usize = 0;
        assert(sample.take(0) =~= Seq::empty());
        while j < frames.len()
            invariant
                j <= frames.len(),
                sample == texts(frames@),
                before == old(self)@,
                before.valid(),
                now == before.total + 1,
                self.total == before.total,
                self.names.wf(),
                self.names@ == extended(before.names, sample.take(j as int)),
                self.counts@.len() == self.names@.len(),
                self.stamps@.len() == self.names@.len(),
                forall|i: int|
                    0 <= i < self.stamps@.len() ==> (#[trigger] self.stamps@[i] == now
                        <==> sample.take(j as int).contains(self.names@[i])),
                forall|i: int| 0 <= i < self.stamps@.len() ==> #[trigger] self.stamps@[i] <= now,
                forall|i: int|
                    0 <= i < self.counts@.len() ==> #[trigger] self.counts@[i] == before.count_at(i)
                        + if self.stamps@[i] == now {
                        1nat
                    } else {
                        0nat
                    },
            decreases frames.len() - j,
        {
            let ghost upto = sample.take(j as int + 1);
            let ghost frame = sample[j as int];
            proof {
                assert(upto.drop_last() =~= sample.take(j as int));
                assert(upto.last() == frame);
                lemma_extended(before.names, sample.take(j as int));
            }
            let id = self.names.intern(frames[j].as_str());
            if id == self.counts.len() {
                self.counts.push(0);
                self.stamps.push(0);
            }
            if self.stamps[id] != now {
                self.stamps[id] = now;
                self.counts[id] = self.counts[id] + 1;
            }
            proof {
                assert forall|i: int| 0 <= i < self.stamps@.len() implies (
                #[trigger] self.stamps@[i] == now <==> upto.contains(self.names@[i])) by {
                    if i == id {
                        assert(upto[j as int] == self.names@[i]);
                    } else {
                        if upto.contains(self.names@[i]) {
                            let k = choose|k: int| 0 <= k < upto.len() && upto[k] == self.names@[i];
                            if k == j {
                                self.names.lemma_distinct();
                            } else {
                                assert(sample.take(j as int)[k] == self.names@[i]);
                            }
                        }
                        if sample.take(j as int).contains(self.names@[i]) {
                            let k = choose|k: int|
                                0 <= k < j && sample.take(j as int)[k] == self.names@[i];
                            assert(upto[k] == self.names@[i]);
                        }
                    }
                }
            }
            j += 1;
        }
        self.total = now;
        proof {
            assert(sample.take(sample.len() as int) =~= sample);
            lemma_extended(before.names, sample);
            let after = before.add_sample(sample);
            assert(self@.counts =~= after.counts);
            assert forall|i: int| 0 <= i < self@.counts.len() implies 1 <= #[trigger] self@.counts[i]
                <= self@.total by {
                if i >= before.counts.len() {
                    assert(self.names@.contains(self.names@[i]));
                    if before.names.contains(self.names@[i]) {
                        let k = choose|k: int|
                            0 <= k < before.names.len() && before.names[k] == self.names@[i];
                        assert(self.names@[k] == before.names[k]);
                        self.names.lemma_distinct();
                    }
                }
            }
            self.names.lemma_distinct();
        }
    }

    /// The lines of the rendered histogram: one for each of the `threshold`
    /// most frequent frames, or for all if there are fewer, in ascending
    /// order of count and, among equal counts, of name; each with the share
    /// that its count is of `total`.
    pub fn dump(&self, total: usize, threshold: usize) -> (rows: Vec<HistogramRow>)
        requires
            self.wf(),
        ensures
            self@.shows(total as nat, threshold as nat, row_views(rows@)),
    {
        let names = self.names.chars();
        proof {
            self.names.lemma_distinct();
        }
        let ranking = rank_by_key_and_name(&self.counts, &names);
        let n = ranking.len();
        let shown = if threshold < n {
            threshold
        } else {
            n
        };
        let skip = n - shown;
        let mut rows: Vec<HistogramRow> = Vec::new();
        let mut k: usize = 0;
        while k < shown
            invariant
                k <= shown <= n,
                skip == n - shown,
                n == ranking@.len(),
                n == self.counts@.len(),
                n == self.names@.len(),
                is_ranking_named(key_values(self.counts@), self.names@, index_values(ranking@)),
                rows@.len() == k,
                forall|i: int|
                    0 <= i < k ==> (#[trigger] rows@[i])@ == self@.row(
                        index_values(ranking@)[skip + i],
                        total as nat,
                    ),
            decreases shown - k,
        {
            let id = ranking[skip + k];
            assert(index_values(ranking@)[skip + k] == id);
            let count = self.counts[id];
            rows.push(
                HistogramRow {
                    percentage: percent(count, total),
                    count,
                    name: self.names.name(id).clone(),
                },
            );
            k += 1;
        }
        proof {
            let r = index_values(ranking@);
            let v = row_views(rows@);
            assert forall|i: int| 0 <= i < v.len() implies #[trigger] v[i] == self@.row(
                r[self@.counts.len() - v.len() + i],
                total as nat,
            ) by {
                assert(v[i] == rows@[i]@);
            }
        }
        rows
    }
}

/// No frame is counted more often than there are samples, and a frame
/// that was never seen counts zero.
pub proof fn law_count_at_most_total(histogram: HistogramView, name: Seq<char>)
    requires
        histogram.valid(),
    ensures
        histogram.count(name) <= histogram.total,
{
}

/// A sample adds one to the count of each frame that occurs in it, however
/// often, and nothing to the count of any other frame; so what it adds in
/// all is the number of its distinct frames. The histogram stays valid.
pub proof fn law_sample_counts_once(
    histogram: HistogramView,
    sample: Seq<Seq<char>>,
    name: Seq<char>,
)
    requires
        histogram.valid(),
    ensures
        histogram.add_sample(sample).valid(),
        histogram.add_sample(sample).total == histogram.total + 1,
        histogram.add_sample(sample).count(name) == histogram.count(name) + if sample.contains(
            name,
        ) {
            1nat
        } else {
            0nat
        },
{
    let after = histogram.add_sample(sample);
    lemma_extended(histogram.names, sample);
    assert forall|i: int| 0 <= i < after.counts.len() implies 1 <= #[trigger] after.counts[i]
        <= after.total by {
        if i >= histogram.counts.len() {
            assert(after.names.contains(after.names[i]));
            if histogram.names.contains(after.names[i]) {
                let k = choose|k: int|
                    0 <= k < histogram.names.len() && histogram.names[k] == after.names[i];
                assert(after.names[k] == histogram.names[k]);
            }
        }
    }
    if after.names.contains(name) {
        let i = choose|i: int| 0 <= i < after.names.len() && after.names[i] == name;
        lemma_index_of(after.names, i);
        if i < histogram.names.len() {
            assert(histogram.names[i] == name);
            lemma_index_of(histogram.names, i);
        } else {
            if histogram.names.contains(name) {
                let k = choose|k: int| 0 <= k < histogram.names.len() && histogram.names[k] == name;
                assert(after.names[k] == name);
            }
        }
    }
}

/// The sum of `counts`.
pub open spec fn sum(counts: Seq<nat>) -> nat
    decreases counts.len(),
{
    if counts.len() == 0 {
        0
    } else {
        sum(counts.drop_last()) + counts.last()
    }
}

/// The frames of `sample`, each once, in the order of first appearance.
pub open spec fn unique(sample: Seq<Seq<char>>) -> Seq<Seq<char>> {
    extended(Seq::empty(), sample)
}

/// How many of the first `upto` of `names` occur in `sample`.
pub open spec fn occurring(names: Seq<Seq<char>>, sample: Seq<Seq<char>>, upto: int) -> nat
    decreases upto,
{
    if upto <= 0 {
        0
    } else {
        occurring(names, sample, upto - 1) + if sample.contains(names[upto - 1]) {
            1nat
        } else {
            0nat
        }
    }
}

/// Among distinct names, as many occur in a sample as there are frames that
/// the sample and the names have in common.
proof fn lemma_occurring(names: Seq<Seq<char>>, sample: Seq<Seq<char>>, upto: int)
    requires
        names.no_duplicates(),
        0 <= upto <= names.len(),
    ensures
        occurring(names, sample, upto) == names.take(upto).to_set().intersect(
            sample.to_set(),
        ).len(),
    decreases upto,
{
    broadcast use vstd::set::group_set_axioms;

    vstd::seq_lib::seq_to_set_is_finite(names.take(upto));
    if upto == 0 {
        assert(names.take(0).to_set().intersect(sample.to_set()) =~= Set::empty());
    } else {
        lemma_occurring(names, sample, upto - 1);
        let shorter = names.take(upto - 1);
        let longer = names.take(upto);
        let front = shorter.to_set();
        let here = names[upto - 1];
        vstd::seq_lib::seq_to_set_is_finite(shorter);
        assert(longer.to_set() =~= front.insert(here)) by {
            assert forall|x: Seq<char>| longer.to_set().contains(x) implies front.insert(
                here,
            ).contains(x) by {
                let k = choose|k: int| 0 <= k < longer.len() && longer[k] == x;
                if k < upto - 1 {
                    assert(shorter[k] == x);
                }
            }
            assert forall|x: Seq<char>| front.insert(here).contains(x) implies longer.to_set().contains(
                x,
            ) by {
                if x == here {
                    assert(longer[upto - 1] == x);
                } else {
                    let k = choose|k: int| 0 <= k < shorter.len() && shorter[k] == x;
                    assert(longer[k] == x);
                }
            }
        }
        assert(!front.contains(here)) by {
            if front.contains(here) {
                let k = choose|k: int| 0 <= k < shorter.len() && shorter[k] == here;
                assert(names[k] == names[upto - 1]);
            }
        }
        let common = front.intersect(sample.to_set());
        if sample.contains(here) {
            assert(sample.to_set().contains(here));
            assert(front.insert(here).intersect(sample.to_set()) =~= common.insert(here));
        } else {
            assert(!sample.to_set().contains(here));
            assert(front.insert(here).intersect(sample.to_set()) =~= common);
        }
    }
}

/// The counts after a sample add up to what the counts before add up to and
/// the number of names that occur in the sample.
proof fn lemma_sum_after(histogram: HistogramView, sample: Seq<Seq<char>>, upto: int)
    requires
        histogram.valid(),
        0 <= upto <= histogram.add_sample(sample).counts.len(),
    ensures
        sum(histogram.add_sample(sample).counts.take(upto)) == sum(
            histogram.counts.take(
                if upto < histogram.counts.len() {
                    upto
                } else {
                    histogram.counts.len() as int
                },
            ),
        ) + occurring(histogram.add_sample(sample).names, sample, upto),
    decreases upto,
{
    let after = histogram.add_sample(sample);
    lemma_extended(histogram.names, sample);
    if upto == 0 {
        assert(after.counts.take(0) =~= Seq::empty());
        assert(histogram.counts.take(0) =~= Seq::empty());
    } else {
        lemma_sum_after(histogram, sample, upto - 1);
        assert(after.counts.take(upto).drop_last() =~= after.counts.take(upto - 1));
        assert(after.counts.take(upto).last() == after.counts[upto - 1]);
        if upto <= histogram.counts.len() {
            assert(histogram.counts.take(upto).drop_last() =~= histogram.counts.take(upto - 1));
            assert(histogram.counts.take(upto).last() == histogram.counts[upto - 1]);
        }
    }
}

/// What a sample adds to the counts, all in all, is the number of its
/// distinct frames.
pub proof fn law_sample_adds_its_distinct_frames(histogram: HistogramView, sample: Seq<Seq<char>>)
    requires
        histogram.valid(),
    ensures
        sum(histogram.add_sample(sample).counts) == sum(histogram.counts) + unique(sample).len(),
        unique(sample).no_duplicates(),
        forall|frame: Seq<char>| #[trigger] unique(sample).contains(frame) <==> sample.contains(frame),
{
    broadcast use vstd::set::group_set_axioms;

    let after = histogram.add_sample(sample);
    let names = after.names;
    lemma_extended(histogram.names, sample);
    lemma_extended(Seq::empty(), sample);
    lemma_sum_after(histogram, sample, names.len() as int);
    lemma_occurring(names, sample, names.len() as int);
    assert(after.counts.take(names.len() as int) =~= after.counts);
    assert(histogram.counts.take(histogram.counts.len() as int) =~= histogram.counts);
    assert(names.take(names.len() as int) =~= names);
    assert(names.to_set().intersect(sample.to_set()) =~= sample.to_set()) by {
        assert forall|x: Seq<char>| sample.to_set().contains(x) implies names.to_set().contains(
            x,
        ) by {
            assert(sample.contains(x));
            assert(names.contains(x));
        }
    }
    assert(unique(sample).to_set() =~= sample.to_set()) by {
        assert forall|x: Seq<char>|
            unique(sample).to_set().contains(x) <==> sample.to_set().contains(x) by {
            assert(unique(sample).contains(x) <==> sample.contains(x));
        }
    }
    assert forall|frame: Seq<char>| #[trigger]
        unique(sample).contains(frame) <==> sample.contains(frame) by {
        assert(!Seq::<Seq<char>>::empty().contains(frame));
    }
    assert(Seq::<Seq<char>>::empty().no_duplicates());
    unique(sample).unique_seq_to_set();
}

/// The histogram of `samples`, counted one after the other.
pub open spec fn histogram_of(samples: Seq<Seq<Seq<char>>>) -> HistogramView
    decreases samples.len(),
{
    if samples.len() == 0 {
        HistogramView::empty()
    } else {
        histogram_of(samples.drop_last()).add_sample(samples.last())
    }
}

/// The number of `samples` in which `frame` occurs.
pub open spec fn samples_with(samples: Seq<Seq<Seq<char>>>, frame: Seq<char>) -> nat
    decreases samples.len(),
{
    if samples.len() == 0 {
        0
    } else {
        samples_with(samples.drop_last(), frame) + if samples.last().contains(frame) {
            1nat
        } else {
            0nat
        }
    }
}

/// However many samples are counted, the histogram is valid, its total is
/// the number of samples, and the count of every frame is the number of
/// samples in which the frame occurs: at most the number of samples.
pub proof fn law_histogram_counts_samples(samples: Seq<Seq<Seq<char>>>, frame: Seq<char>)
    ensures
        histogram_of(samples).valid(),
        histogram_of(samples).total == samples.len(),
        histogram_of(samples).count(frame) == samples_with(samples, frame),
        histogram_of(samples).count(frame) <= samples.len(),
    decreases samples.len(),
{
    if samples.len() > 0 {
        law_histogram_counts_samples(samples.drop_last(), frame);
        law_sample_counts_once(histogram_of(samples.drop_last()), samples.last(), frame);
    } else {
        assert(!Seq::<Seq<char>>::empty().contains(frame));
    }
}

} // verus!
