//! Stacks of compiler queries.
//!
//! A frame such as
//! `rustc::ty::maps::<impl rustc::ty::maps::queries::borrowck<'tcx>>::force`
//! stands for the query `borrowck<'tcx>`. A stack of raw frames is cut down
//! to the queries that it runs, under a `main()` frame.

use crate::text::{chars_of, string_of, texts};
use crate::trace::TraceArgs;
use vstd::prelude::*;

verus! {

/// Whether `text` starts with `prefix`.
pub open spec fn has_prefix(text: Seq<char>, prefix: Seq<char>) -> bool {
    prefix.len() <= text.len() && text.subrange(0, prefix.len() as int) == prefix
}

/// Whether `text` ends with `suffix`.
pub open spec fn has_suffix(text: Seq<char>, suffix: Seq<char>) -> bool {
    suffix.len() <= text.len() && text.subrange(text.len() - suffix.len(), text.len() as int)
        == suffix
}

/// Whether `c` is a decimal digit.
pub open spec fn is_digit(c: char) -> bool {
    '0' <= c <= '9'
}

/// The position of the first character of `text` from `from` on that is
/// no digit; the length of `text` if there is none.
pub open spec fn digits_end(text: Seq<char>, from: int) -> int
    decreases text.len() - from,
{
    if from < 0 || from >= text.len() {
        text.len() as int
    } else if !is_digit(text[from]) {
        from
    } else {
        digits_end(text, from + 1)
    }
}

/// The number that the digits `text[from..to]` write.
pub open spec fn digits_value(text: Seq<char>, from: int, to: int) -> nat
    decreases to - from,
{
    if from >= to {
        0
    } else {
        10 * digits_value(text, from, to - 1) + (text[to - 1] as u32 - '0' as u32) as nat
    }
}

/// The query that a frame in a mangled symbol stands for: after
/// `prefix_len` characters the length of the name is written in decimal,
/// and the name follows. There is none where no digit stands there, where
/// the text ends with the digits, and where the text is too short for the
/// name.
pub open spec fn mangled_query(frame: Seq<char>, prefix_len: int) -> Option<Seq<char>> {
    let end = digits_end(frame, prefix_len);
    let length = digits_value(frame, prefix_len, end);
    if prefix_len < end < frame.len() && end + length <= frame.len() {
        Some(frame.subrange(end, end + length))
    } else {
        None
    }
}

/// The query that a frame stands for, if it stands for one, in any of the
/// forms that versions of the compiler have given such frames.
pub open spec fn query_name(frame: Seq<char>) -> Option<Seq<char>> {
    let impl_prefix = "rustc::ty::maps::<impl rustc::ty::maps::queries::"@;
    let impl_suffix = ">::force"@;
    let compute_prefix = "rustc::ty::maps::__query_compute::"@;
    let mangled_prefix = "_ZN5rustc2ty4maps15__query_compute"@;
    if has_prefix(frame, impl_prefix) && has_suffix(frame, impl_suffix) && impl_prefix.len()
        + impl_suffix.len() <= frame.len() {
        Some(frame.subrange(impl_prefix.len() as int, frame.len() - impl_suffix.len()))
    } else if has_prefix(frame, compute_prefix) {
        Some(frame.subrange(compute_prefix.len() as int, frame.len() as int))
    } else if has_prefix(frame, mangled_prefix) {
        mangled_query(frame, mangled_prefix.len() as int)
    } else {
        None
    }
}

/// The queries that the frames of `stack` stand for, in order.
pub open spec fn query_names(stack: Seq<Seq<char>>) -> Seq<Seq<char>>
    decreases stack.len(),
{
    if stack.len() == 0 {
        Seq::empty()
    } else {
        match query_name(stack.last()) {
            Some(name) => query_names(stack.drop_last()).push(name),
            None => query_names(stack.drop_last()),
        }
    }
}

/// The stack of queries that a stack of raw frames runs, under `main()`.
pub open spec fn query_stack(stack: Seq<Seq<char>>) -> Seq<Seq<char>> {
    seq!["main()"@] + query_names(stack)
}

/// Whether `chars` start with `prefix`.
fn starts_with(chars: &Vec<char>, prefix: &Vec<char>) -> (b: bool)
    ensures
        b == has_prefix(chars@, prefix@),
{
    if prefix.len() > chars.len() {
        return false;
    }
    let mut i: usize = 0;
    while i < prefix.len()
        invariant
            i <= prefix.len() <= chars.len(),
            chars@.subrange(0, i as int) == prefix@.subrange(0, i as int),
        decreases prefix.len() - i,
    {
        if chars[i] != prefix[i] {
            assert(chars@.subrange(0, prefix.len() as int)[i as int] != prefix@[i as int]);
            return false;
        }
        assert(chars@.subrange(0, i + 1) =~= chars@.subrange(0, i as int).push(chars@[i as int]));
        assert(prefix@.subrange(0, i + 1) =~= prefix@.subrange(0, i as int).push(
            prefix@[i as int],
        ));
        i += 1;
    }
    assert(prefix@.subrange(0, prefix.len() as int) =~= prefix@);
    true
}

/// Whether `chars` end with `suffix`.
fn ends_with(chars: &Vec<char>, suffix: &Vec<char>) -> (b: bool)
    ensures
        b == has_suffix(chars@, suffix@),
{
    if suffix.len() > chars.len() {
        return false;
    }
    let start = chars.len() - suffix.len();
    let mut i: usize = 0;
    while i < suffix.len()
        invariant
            i <= suffix.len() <= chars.len(),
            start == chars.len() - suffix.len(),
            chars@.subrange(start as int, start + i) == suffix@.subrange(0, i as int),
        decreases suffix.len() - i,
    {
        if chars[start + i] != suffix[i] {
            assert(chars@.subrange(start as int, chars.len() as int)[i as int] != suffix@[i as int]);
            return false;
        }
        assert(chars@.subrange(start as int, start + i + 1) =~= chars@.subrange(
            start as int,
            start + i,
        ).push(chars@[start + i]));
        assert(suffix@.subrange(0, i + 1) =~= suffix@.subrange(0, i as int).push(
            suffix@[i as int],
        ));
        i += 1;
    }
    assert(suffix@.subrange(0, suffix.len() as int) =~= suffix@);
    true
}

/// Reads the query out of a frame in a mangled symbol, whose prefix has
/// `prefix_len` characters.
fn mangled(chars: &Vec<char>, prefix_len: usize) -> (name: Option<String>)
    requires
        prefix_len <= chars.len(),
    ensures
        match mangled_query(chars@, prefix_len as int) {
            Some(query) => name matches Some(n) && n@ == query,
            None => name is None,
        },
{
    let mut end: usize = prefix_len;
    let mut length: usize = 0;
    let mut fits = true;
    while end < chars.len() && chars[end] >= '0' && chars[end] <= '9'
        invariant
            prefix_len <= end <= chars.len(),
            digits_end(chars@, end as int) == digits_end(chars@, prefix_len as int),
            fits ==> length == digits_value(chars@, prefix_len as int, end as int),
            !fits ==> digits_value(chars@, prefix_len as int, end as int) > usize::MAX,
        decreases chars.len() - end,
    {
        let digit = (chars[end] as u32 - '0' as u32) as usize;
        proof {
            let before = digits_value(chars@, prefix_len as int, end as int);
            let after = digits_value(chars@, prefix_len as int, end + 1);
            assert(after == 10 * before + digit);
        }
        if fits && length <= (usize::MAX - digit) / 10 {
            length = length * 10 + digit;
        } else {
            fits = false;
        }
        end += 1;
    }
    proof {
        lemma_digits_end(chars@, prefix_len as int);
    }
    if prefix_len < end && end < chars.len() && fits && length <= chars.len() - end {
        Some(string_of(chars, end, end + length))
    } else {
        None
    }
}

/// The digits end within the text, at the first character that is no
/// digit.
pub proof fn lemma_digits_end(text: Seq<char>, from: int)
    requires
        0 <= from <= text.len(),
    ensures
        from <= digits_end(text, from) <= text.len(),
    decreases text.len() - from,
{
    if from < text.len() && is_digit(text[from]) {
        lemma_digits_end(text, from + 1);
    }
}

/// The query that a frame stands for, if it stands for one.
pub fn match_query(frame: &str) -> (name: Option<String>)
    ensures
        match query_name(frame@) {
            Some(query) => name matches Some(n) && n@ == query,
            None => name is None,
        },
{
    let chars = chars_of(frame);
    let impl_prefix = chars_of("rustc::ty::maps::<impl rustc::ty::maps::queries::");
    let impl_suffix = chars_of(">::force");
    let compute_prefix = chars_of("rustc::ty::maps::__query_compute::");
    let mangled_prefix = chars_of("_ZN5rustc2ty4maps15__query_compute");
    if starts_with(&chars, &impl_prefix) && ends_with(&chars, &impl_suffix) && impl_suffix.len()
        <= chars.len() - impl_prefix.len() {
        Some(string_of(&chars, impl_prefix.len(), chars.len() - impl_suffix.len()))
    } else if starts_with(&chars, &compute_prefix) {
        Some(string_of(&chars, compute_prefix.len(), chars.len()))
    } else if starts_with(&chars, &mangled_prefix) {
        mangled(&chars, mangled_prefix.len())
    } else {
        None
    }
}

/// Cuts the stack of a sample down to the queries that it runs, under a
/// `main()` frame.
pub fn to_query_stack(trace_args: &mut TraceArgs)
    ensures
        final(trace_args)@.stack == query_stack(old(trace_args)@.stack),
        final(trace_args)@.header == old(trace_args)@.header,
        final(trace_args)@.process_name == old(trace_args)@.process_name,
{
    let ghost raw = texts(trace_args.stack@);
    let mut stack: Vec<String> = Vec::new();
    stack.push("main()".to_string());
    let mut i: usize = 0;
    assert(raw.take(0) =~= Seq::empty());
    assert(texts(stack@) =~= seq!["main()"@] + query_names(raw.take(0)));
    while i < trace_args.stack.len()
        invariant
            i <= trace_args.stack.len(),
            *trace_args == *old(trace_args),
            raw == texts(trace_args.stack@),
            texts(stack@) == seq!["main()"@] + query_names(raw.take(i as int)),
        decreases trace_args.stack.len() - i,
    {
        let ghost before = texts(stack@);
        proof {
            let upto = raw.take(i as int + 1);
            assert(upto.drop_last() =~= raw.take(i as int));
            assert(upto.last() == trace_args.stack@[i as int]@);
        }
        if let Some(name) = match_query(trace_args.stack[i].as_str()) {
            stack.push(name);
            assert(texts(stack@) =~= before.push(name@));
            assert(texts(stack@) =~= seq!["main()"@] + query_names(raw.take(i as int + 1)));
        }
        i += 1;
    }
    assert(raw.take(raw.len() as int) =~= raw);
    trace_args.stack = stack;
}

} // verus!
