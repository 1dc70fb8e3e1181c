//! The samples of a profile that is written out as text.
//!
//! A sample starts with a header line, which does not start with white
//! space and whose first word is the name of the process. The lines that
//! follow, indented, are its frames, the top of the stack first: an
//! address, the words of the symbol, and the module in parentheses. A
//! blank line or the next header ends the sample; a sample without frames
//! is dropped, and so is an indented line that follows no header. Lines
//! that start with `#` are comments.

use crate::text::{char_is_whitespace, chars_of, is_whitespace, string_of, texts};
use vstd::prelude::*;

verus! {

/// The first position in `s` from `from` on, and before `to`, that holds
/// white space; `to` if there is none.
pub open spec fn first_space(s: Seq<char>, from: int, to: int) -> int
    decreases to - from,
{
    if from >= to {
        to
    } else if is_whitespace(s[from]) {
        from
    } else {
        first_space(s, from + 1, to)
    }
}

/// The first position in `s` from `from` on, and before `to`, that holds
/// no white space; `to` if there is none.
pub open spec fn trim_start(s: Seq<char>, from: int, to: int) -> int
    decreases to - from,
{
    if from >= to {
        to
    } else if !is_whitespace(s[from]) {
        from
    } else {
        trim_start(s, from + 1, to)
    }
}

/// The position after the last in `s` before `to`, and not before `from`,
/// that holds no white space; `from` if there is none.
pub open spec fn trim_end(s: Seq<char>, from: int, to: int) -> int
    decreases to - from,
{
    if from >= to {
        from
    } else if !is_whitespace(s[to - 1]) {
        to
    } else {
        trim_end(s, from, to - 1)
    }
}

/// The parts of `s[from..to]` between its white-space characters: one
/// more part than there are such characters.
pub open spec fn words_in(s: Seq<char>, from: int, to: int) -> Seq<Seq<char>>
    decreases to - from,
{
    let end = first_space(s, from, to);
    if from > to {
        Seq::empty()
    } else if end >= to {
        seq![s.subrange(from, to)]
    } else {
        proof {
            lemma_first_space(s, from, to);
        }
        seq![s.subrange(from, end)] + words_in(s, end + 1, to)
    }
}

/// There is at least one word, though it may be empty.
pub proof fn lemma_words_in(s: Seq<char>, from: int, to: int)
    requires
        from <= to,
    ensures
        words_in(s, from, to).len() >= 1,
{
    lemma_first_space(s, from, to);
}

/// Trimming leaves the ends in order.
pub proof fn lemma_trim(s: Seq<char>, from: int, to: int)
    requires
        from <= to,
    ensures
        from <= trim_start(s, from, to) <= to,
        from <= trim_end(s, from, to) <= to,
    decreases to - from,
{
    if from < to {
        if is_whitespace(s[from]) {
            lemma_trim(s, from + 1, to);
        }
        if is_whitespace(s[to - 1]) {
            lemma_trim(s, from, to - 1);
        }
    }
}

/// `first_space` lies between `from` and `to`.
pub proof fn lemma_first_space(s: Seq<char>, from: int, to: int)
    requires
        from <= to,
    ensures
        from <= first_space(s, from, to) <= to,
    decreases to - from,
{
    if from < to && !is_whitespace(s[from]) {
        lemma_first_space(s, from + 1, to);
    }
}

/// The words of a line without the white space around it.
pub open spec fn words(line: Seq<char>) -> Seq<Seq<char>> {
    let from = trim_start(line, 0, line.len() as int);
    let to = trim_end(line, from, line.len() as int);
    words_in(line, from, to)
}

/// The first of `words` that do not start with `(`.
pub open spec fn symbol_words(words: Seq<Seq<char>>) -> Seq<Seq<char>>
    decreases words.len(),
{
    if words.len() == 0 || (words[0].len() > 0 && words[0][0] == '(') {
        Seq::empty()
    } else {
        seq![words[0]] + symbol_words(words.drop_first())
    }
}

/// `words` with one blank between each two.
pub open spec fn joined(words: Seq<Seq<char>>) -> Seq<char>
    decreases words.len(),
{
    if words.len() == 0 {
        Seq::empty()
    } else if words.len() == 1 {
        words[0]
    } else {
        joined(words.drop_last()) + seq![' '] + words.last()
    }
}

/// The symbol that a frame line names: its words after the address and
/// before the module, with one blank between each two.
pub open spec fn frame_name(line: Seq<char>) -> Seq<char> {
    joined(symbol_words(words(line).drop_first()))
}

/// The first word of a header line: the name of the process.
pub open spec fn process_name(header: Seq<char>) -> Seq<char> {
    header.subrange(0, first_space(header, 0, header.len() as int))
}

/// Whether a line is a comment.
pub open spec fn is_comment(line: Seq<char>) -> bool {
    line.len() > 0 && line[0] == '#'
}

/// Whether a line holds nothing but white space.
pub open spec fn is_blank(line: Seq<char>) -> bool {
    trim_start(line, 0, line.len() as int) == line.len()
}

/// Whether a line starts with white space.
pub open spec fn is_indented(line: Seq<char>) -> bool {
    line.len() > 0 && is_whitespace(line[0])
}

/// A sample, as a mathematical value.
pub struct TraceView {
    /// The lines of the sample as they were read, the header line first.
    pub header: Seq<Seq<char>>,
    /// The name of the process.
    pub process_name: Seq<char>,
    /// The frames of the stack, from the bottom.
    pub stack: Seq<Seq<char>>,
}

/// The stack that the lines of a sample name: the symbols of all lines
/// but the first, the last line first.
pub open spec fn stack_of(lines: Seq<Seq<char>>) -> Seq<Seq<char>> {
    Seq::new(
        (lines.len() - 1) as nat,
        |i: int| frame_name(lines[lines.len() - 1 - i]),
    )
}

/// The sample that `lines` make up, if there is more than the header
/// line: lines that name no frame make up no sample.
pub open spec fn sample_of(lines: Seq<Seq<char>>) -> Option<TraceView> {
    if lines.len() <= 1 {
        None
    } else {
        Some(
            TraceView {
                header: lines,
                process_name: process_name(lines[0]),
                stack: stack_of(lines),
            },
        )
    }
}

/// The lines of the sample that is being read, once `line` has been read
/// after `pending`. A sample begins with a header line only: an indented
/// line that no header line stands before is dropped.
pub open spec fn pending_after(pending: Seq<Seq<char>>, line: Seq<char>) -> Seq<Seq<char>> {
    if is_comment(line) {
        pending
    } else if is_blank(line) {
        Seq::empty()
    } else if !is_indented(line) {
        seq![line]
    } else if pending.len() == 0 {
        pending
    } else {
        pending.push(line)
    }
}

/// The sample that is complete once `line` has been read after `pending`.
pub open spec fn completed_by(pending: Seq<Seq<char>>, line: Seq<char>) -> Option<TraceView> {
    if is_comment(line) {
        None
    } else if is_blank(line) || !is_indented(line) {
        sample_of(pending)
    } else {
        None
    }
}

/// The lines of the sample that is being read at the end of `lines`.
pub open spec fn pending_at_end(lines: Seq<Seq<char>>) -> Seq<Seq<char>>
    decreases lines.len(),
{
    if lines.len() == 0 {
        Seq::empty()
    } else {
        pending_after(pending_at_end(lines.drop_last()), lines.last())
    }
}

/// The samples that are complete at the end of `lines`, in order.
pub open spec fn completed_in(lines: Seq<Seq<char>>) -> Seq<TraceView>
    decreases lines.len(),
{
    if lines.len() == 0 {
        Seq::empty()
    } else {
        match completed_by(pending_at_end(lines.drop_last()), lines.last()) {
            Some(sample) => completed_in(lines.drop_last()).push(sample),
            None => completed_in(lines.drop_last()),
        }
    }
}

/// The samples of a profile of which `lines` are all the lines.
pub open spec fn samples_of(lines: Seq<Seq<char>>) -> Seq<TraceView> {
    match sample_of(pending_at_end(lines)) {
        Some(sample) => completed_in(lines).push(sample),
        None => completed_in(lines),
    }
}

/// Calls `Itertools::intersperse` of the `itertools` crate on the words,
/// with a blank as the element to put between them, and collects what
/// comes out: the words with one blank between each two.
#[verifier::external_body]
fn intersperse_blank(words: &Vec<String>) -> (line: String)
    ensures
        line@ == joined(texts(words@)),
{
    itertools::Itertools::intersperse(words.iter().map(String::as_str), " ").collect()
}

/// The first position in `chars` from `from` on, and before `to`, that
/// holds white space; `to` if there is none.
fn find_space(chars: &Vec<char>, from: usize, to: usize) -> (at: usize)
    requires
        from <= to <= chars.len(),
    ensures
        at == first_space(chars@, from as int, to as int),
        from <= at <= to,
{
    let mut at = from;
    while at < to && !char_is_whitespace(chars[at])
        invariant
            from <= at <= to <= chars.len(),
            first_space(chars@, at as int, to as int) == first_space(chars@, from as int, to as int),
        decreases to - at,
    {
        at += 1;
    }
    at
}

/// The first position in `chars` from `from` on, and before `to`, that
/// holds no white space; `to` if there is none.
fn skip_space(chars: &Vec<char>, from: usize, to: usize) -> (at: usize)
    requires
        from <= to <= chars.len(),
    ensures
        at == trim_start(chars@, from as int, to as int),
        from <= at <= to,
{
    let mut at = from;
    while at < to && char_is_whitespace(chars[at])
        invariant
            from <= at <= to <= chars.len(),
            trim_start(chars@, at as int, to as int) == trim_start(chars@, from as int, to as int),
        decreases to - at,
    {
        at += 1;
    }
    at
}

/// The position after the last in `chars` before `to`, and not before
/// `from`, that holds no white space; `from` if there is none.
fn skip_space_back(chars: &Vec<char>, from: usize, to: usize) -> (at: usize)
    requires
        from <= to <= chars.len(),
    ensures
        at == trim_end(chars@, from as int, to as int),
        from <= at <= to,
{
    let mut at = to;
    while at > from && char_is_whitespace(chars[at - 1])
        invariant
            from <= at <= to <= chars.len(),
            trim_end(chars@, from as int, at as int) == trim_end(chars@, from as int, to as int),
        decreases at - from,
    {
        at -= 1;
    }
    at
}

/// The words of a line without the white space around it.
pub fn split_words(line: &str) -> (found: Vec<String>)
    ensures
        texts(found@) == words(line@),
{
    let chars = chars_of(line);
    let from = skip_space(&chars, 0, chars.len());
    let to = skip_space_back(&chars, from, chars.len());
    let mut found: Vec<String> = Vec::new();
    let mut at = from;
    assert(texts(found@) + words_in(chars@, at as int, to as int) =~= words_in(
        chars@,
        from as int,
        to as int,
    ));
    loop
        invariant
            from <= at <= to <= chars.len(),
            chars@ == line@,
            words_in(chars@, from as int, to as int) == words(line@),
            texts(found@) + words_in(chars@, at as int, to as int) == words_in(
                chars@,
                from as int,
                to as int,
            ),
        decreases to - at,
    {
        let end = find_space(&chars, at, to);
        let ghost before = texts(found@);
        found.push(string_of(&chars, at, end));
        assert(texts(found@) =~= before.push(chars@.subrange(at as int, end as int)));
        if end >= to {
            assert(texts(found@) =~= before + words_in(chars@, at as int, to as int));
            return found;
        }
        assert(texts(found@) + words_in(chars@, end + 1, to as int) =~= before + words_in(
            chars@,
            at as int,
            to as int,
        ));
        at = end + 1;
    }
}

/// The symbol that a frame line names: its words after the address and
/// before the module, with one blank between each two.
pub fn symbol_of(line: &str) -> (name: String)
    ensures
        name@ == frame_name(line@),
{
    let found = split_words(line);
    let ghost rest = words(line@).drop_first();
    let mut kept: Vec<String> = Vec::new();
    let mut i: usize = 1;
    proof {
        let from = trim_start(line@, 0, line@.len() as int);
        lemma_trim(line@, 0, line@.len() as int);
        lemma_trim(line@, from, line@.len() as int);
        lemma_words_in(line@, from, trim_end(line@, from, line@.len() as int));
        assert(texts(found@).len() == found@.len());
        assert(rest.skip(0) =~= rest);
        assert(texts(kept@) + symbol_words(rest.skip(0)) =~= symbol_words(rest));
    }
    while i < found.len()
        invariant
            1 <= i <= found.len(),
            texts(found@) == words(line@),
            rest == words(line@).drop_first(),
            texts(kept@) + symbol_words(rest.skip(i - 1)) == symbol_words(rest),
        decreases found.len() - i,
    {
        let word = &found[i];
        let ghost here = rest.skip(i - 1);
        proof {
            assert(here[0] == word@) by {
                assert(rest[i - 1] == words(line@)[i as int]);
                assert(texts(found@)[i as int] == word@);
            }
            assert(here.drop_first() =~= rest.skip(i as int));
        }
        let first = chars_of(word.as_str());
        if first.len() > 0 && first[0] == '(' {
            assert(texts(kept@) =~= symbol_words(rest));
            return intersperse_blank(&kept);
        }
        let ghost before = texts(kept@);
        kept.push(word.clone());
        assert(texts(kept@) =~= before.push(word@));
        assert(texts(kept@) + symbol_words(rest.skip(i as int)) =~= before + symbol_words(here));
        i += 1;
    }
    assert(rest.skip(rest.len() as int) =~= Seq::empty());
    assert(texts(kept@) =~= symbol_words(rest));
    intersperse_blank(&kept)
}

/// A sample: the lines it was read from, and what they say.
pub struct TraceArgs {
    /// The lines of the sample as they were read, the header line first.
    pub header: Vec<String>,
    /// The name of the process.
    pub process_name: String,
    /// The frames of the stack, from the bottom.
    pub stack: Vec<String>,
}

impl View for TraceArgs {
    type V = TraceView;

    open spec fn view(&self) -> TraceView {
        TraceView {
            header: texts(self.header@),
            process_name: self.process_name@,
            stack: texts(self.stack@),
        }
    }
}

/// The samples as mathematical values.
pub open spec fn trace_views(traces: Seq<TraceArgs>) -> Seq<TraceView> {
    Seq::new(traces.len(), |i: int| traces[i]@)
}

/// The sample, if there is one, as a mathematical value.
pub open spec fn trace_view(trace: Option<TraceArgs>) -> Option<TraceView> {
    match trace {
        Some(t) => Some(t@),
        None => None,
    }
}

/// What kind of line a line is.
enum LineKind {
    Comment,
    Blank,
    Header,
    Frame,
}

/// Tells comments, blank lines, header lines and frame lines apart.
fn kind_of(line: &str) -> (kind: LineKind)
    ensures
        kind is Comment <==> is_comment(line@),
        kind is Blank <==> !is_comment(line@) && is_blank(line@),
        kind is Header <==> !is_comment(line@) && !is_blank(line@) && !is_indented(line@),
{
    let chars = chars_of(line);
    if chars.len() > 0 && chars[0] == '#' {
        LineKind::Comment
    } else if skip_space(&chars, 0, chars.len()) == chars.len() {
        LineKind::Blank
    } else if !char_is_whitespace(chars[0]) {
        LineKind::Header
    } else {
        LineKind::Frame
    }
}

/// The sample that `lines` make up, if there is more than the header
/// line.
fn sample_from(lines: Vec<String>) -> (sample: Option<TraceArgs>)
    ensures
        trace_view(sample) == sample_of(texts(lines@)),
{
    if lines.len() <= 1 {
        return None;
    }
    let first = chars_of(lines[0].as_str());
    let end = find_space(&first, 0, first.len());
    let process_name = string_of(&first, 0, end);
    let mut stack: Vec<String> = Vec::new();
    let mut i: usize = lines.len() - 1;
    while i > 0
        invariant
            i < lines.len(),
            stack@.len() == lines.len() - 1 - i,
            forall|k: int|
                0 <= k < stack@.len() ==> (#[trigger] stack@[k])@ == frame_name(
                    lines@[lines.len() - 1 - k]@,
                ),
        decreases i,
    {
        stack.push(symbol_of(lines[i].as_str()));
        i -= 1;
    }
    assert(texts(stack@) =~= stack_of(texts(lines@)));
    assert(texts(lines@)[0] == lines@[0]@);
    Some(TraceArgs { header: lines, process_name, stack })
}

/// Reads a profile line by line and hands out its samples.
pub struct TraceReader {
    pending: Vec<String>,
}

impl View for TraceReader {
    type V = Seq<Seq<char>>;

    /// The lines of the sample that is being read.
    closed spec fn view(&self) -> Seq<Seq<char>> {
        texts(self.pending@)
    }
}

impl TraceReader {
    /// A reader that has read nothing.
    pub fn new() -> (reader: TraceReader)
        ensures
            reader@ == Seq::<Seq<char>>::empty(),
    {
        let reader = TraceReader { pending: Vec::new() };
        assert(reader@ =~= Seq::<Seq<char>>::empty());
        reader
    }

    /// Reads one more line. A comment is passed over. A blank line or a
    /// header line ends the sample that was being read, which is handed
    /// out if it has any frames; a header line starts the next. Any other
    /// line is one more line of the sample that is being read, and is
    /// dropped where no sample is being read.
    pub fn push_line(&mut self, line: String) -> (sample: Option<TraceArgs>)
        ensures
            final(self)@ == pending_after(old(self)@, line@),
            trace_view(sample) == completed_by(old(self)@, line@),
    {
        match kind_of(line.as_str()) {
            LineKind::Comment => None,
            LineKind::Blank => self.finish(),
            LineKind::Header => {
                let sample = self.finish();
                self.pending.push(line);
                assert(self@ =~= seq![line@]);
                sample
            },
            LineKind::Frame => {
                if self.pending.len() > 0 {
                    let ghost before = self@;
                    self.pending.push(line);
                    assert(self@ =~= before.push(line@));
                }
                None
            },
        }
    }

    /// Ends the sample that was being read, which is handed out if it has
    /// any frames.
    pub fn finish(&mut self) -> (sample: Option<TraceArgs>)
        ensures
            final(self)@ == Seq::<Seq<char>>::empty(),
            trace_view(sample) == sample_of(old(self)@),
    {
        let mut lines: Vec<String> = Vec::new();
        core::mem::swap(&mut self.pending, &mut lines);
        assert(self@ =~= Seq::<Seq<char>>::empty());
        sample_from(lines)
    }
}

/// The samples of a profile of which `lines` are all the lines.
pub fn each_trace(lines: Vec<String>) -> (samples: Vec<TraceArgs>)
    ensures
        trace_views(samples@) == samples_of(texts(lines@)),
{
    let ghost all = texts(lines@);
    let mut reader = TraceReader::new();
    let mut samples: Vec<TraceArgs> = Vec::new();
    assert(all.take(0) =~= Seq::empty());
    assert(trace_views(samples@) =~= Seq::empty());
    for line in it: lines
        invariant
            it.seq() == lines@,
            all == texts(lines@),
            reader@ == pending_at_end(all.take(it.index() as int)),
            trace_views(samples@) == completed_in(all.take(it.index() as int)),
    {
        let ghost i = it.index() as int;
        let ghost before = trace_views(samples@);
        proof {
            let upto = all.take(i + 1);
            assert(upto.drop_last() =~= all.take(i));
            assert(upto.last() == line@);
        }
        if let Some(sample) = reader.push_line(line) {
            samples.push(sample);
            assert(trace_views(samples@) =~= before.push(sample@));
        }
    }
    assert(all.take(all.len() as int) =~= all);
    let ghost before = trace_views(samples@);
    if let Some(sample) = reader.finish() {
        samples.push(sample);
        assert(trace_views(samples@) =~= before.push(sample@));
    }
    samples
}

} // verus!
