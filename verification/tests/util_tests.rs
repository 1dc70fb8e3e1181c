use perf_focus::intern::Interner;
use perf_focus::order::{mark_top, rank_by_key, rank_by_key_and_name};
use perf_focus::text::{chars_of, push_decimal, push_text, string_of, text_less};
use perf_focus::util::{percent, percent_below};

#[test]
fn percent_is_truncated() {
    assert_eq!(percent(1, 3), 33);
    assert_eq!(percent(2, 3), 66);
    assert_eq!(percent(3, 3), 100);
    assert_eq!(percent(0, 3), 0);
    assert_eq!(percent(199, 200), 99);
    assert_eq!(percent(1, 200), 0);
    assert_eq!(percent(5, 2), 250);
}

#[test]
fn percent_of_nothing_is_zero() {
    assert_eq!(percent(0, 0), 0);
    assert_eq!(percent(7, 0), 0);
}

#[test]
fn percent_stays_within_the_machine() {
    assert_eq!(percent(usize::MAX, usize::MAX), 100);
    assert_eq!(percent(usize::MAX, 1), u32::MAX);
    assert_eq!(percent(usize::MAX / 2, usize::MAX), 49);
}

#[test]
fn percent_is_compared_without_cutting_off() {
    assert!(percent_below(1, 3, 34));
    assert!(!percent_below(1, 3, 33));
    assert!(!percent_below(0, 3, 0));
    assert!(percent_below(0, 0, 1));
    assert!(!percent_below(5, 0, 0));
    assert!(!percent_below(usize::MAX, 1, usize::MAX));
    assert!(percent_below(usize::MAX / 100, 1, usize::MAX));
    assert!(!percent_below(usize::MAX, usize::MAX, 100));
    assert!(percent_below(usize::MAX, usize::MAX, 101));
}

#[test]
fn decimal_is_written_without_leading_zeros() {
    let mut out = String::new();
    push_decimal(&mut out, 0);
    push_text(&mut out, ",");
    push_decimal(&mut out, 7);
    push_text(&mut out, ",");
    push_decimal(&mut out, 10);
    push_text(&mut out, ",");
    push_decimal(&mut out, 1234567890);
    assert_eq!(out, "0,7,10,1234567890");
    let mut out = String::new();
    push_decimal(&mut out, usize::MAX);
    assert_eq!(out, format!("{}", usize::MAX));
}

#[test]
fn strings_go_to_characters_and_back() {
    let chars = chars_of("a\u{e9}\u{1f600}b");
    assert_eq!(chars, vec!['a', '\u{e9}', '\u{1f600}', 'b']);
    assert_eq!(string_of(&chars, 0, 4), "a\u{e9}\u{1f600}b");
    assert_eq!(string_of(&chars, 1, 3), "\u{e9}\u{1f600}");
    assert_eq!(string_of(&chars, 2, 2), "");
    assert!(chars_of("").is_empty());
}

#[test]
fn ranking_is_by_key_then_by_index() {
    assert_eq!(rank_by_key(&vec![3, 1, 2]), vec![1, 2, 0]);
    assert_eq!(rank_by_key(&vec![5, 5, 1, 5]), vec![2, 0, 1, 3]);
    assert_eq!(rank_by_key(&vec![]), Vec::<usize>::new());
    assert_eq!(rank_by_key(&vec![0, 0, 0]), vec![0, 1, 2]);
    assert_eq!(rank_by_key(&vec![9, 8, 7, 6]), vec![3, 2, 1, 0]);
}

#[test]
fn top_is_marked_by_key_then_by_index() {
    assert_eq!(mark_top(&vec![3, 1, 2], 2), vec![true, false, true]);
    assert_eq!(mark_top(&vec![5, 5, 1, 5], 2), vec![false, true, false, true]);
    assert_eq!(mark_top(&vec![5, 5, 1, 5], 0), vec![false, false, false, false]);
    assert_eq!(mark_top(&vec![5, 5, 1, 5], 9), vec![true, true, true, true]);
    assert_eq!(mark_top(&vec![], 3), Vec::<bool>::new());
}

#[test]
fn names_are_numbered_in_order_of_appearance() {
    let mut names = Interner::new();
    assert_eq!(names.len(), 0);
    assert_eq!(names.intern("a"), 0);
    assert_eq!(names.intern("b"), 1);
    assert_eq!(names.intern("a"), 0);
    assert_eq!(names.intern(""), 2);
    assert_eq!(names.len(), 3);
    assert_eq!(names.get("b"), Some(1));
    assert_eq!(names.get("c"), None);
    assert_eq!(names.name(1), "b");
}

#[test]
fn texts_are_ordered_as_strings_are() {
    let texts = ["", "a", "ab", "b", "B", "\u{e9}", "z", "\u{1f600}", "aa", "a\u{0}"];
    for a in texts {
        for b in texts {
            assert_eq!(text_less(&chars_of(a), &chars_of(b)), a < b);
        }
    }
}

#[test]
fn ranking_is_by_key_then_by_name() {
    let names: Vec<Vec<char>> = ["d", "c", "b", "a"].iter().map(|n| chars_of(n)).collect();
    assert_eq!(rank_by_key_and_name(&vec![1, 1, 1, 1], &names), vec![3, 2, 1, 0]);
    assert_eq!(rank_by_key_and_name(&vec![1, 2, 1, 2], &names), vec![2, 0, 3, 1]);
    assert_eq!(rank_by_key_and_name(&vec![4, 3, 2, 1], &names), vec![3, 2, 1, 0]);
    assert_eq!(rank_by_key_and_name(&vec![], &vec![]), Vec::<usize>::new());
    assert_eq!(chars_of("ab"), vec!['a', 'b']);
}

#[test]
fn interned_names_are_handed_out_as_characters() {
    let mut names = Interner::new();
    names.intern("ab");
    names.intern("");
    names.intern("c");
    assert_eq!(names.chars(), vec![vec!['a', 'b'], vec![], vec!['c']]);
}
