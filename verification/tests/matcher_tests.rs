use perf_focus::matcher::{
    empty_matcher, EmptyMatcher, MatchError, Matcher, NotMatcher, OrMatcher, ParenMatcher,
    RegexMatcher, SearchResult, SkipMatcher, ThenMatcher, WildcardMatcher,
};
use perf_focus::parser::parse_matcher;

fn regex(text: &str) -> Matcher {
    RegexMatcher::new(text).unwrap()
}

fn stack(frames: &[&str]) -> Vec<String> {
    frames.iter().map(|f| f.to_string()).collect()
}

fn found(first_matching_frame: usize, first_callee_frame: usize) -> Option<SearchResult> {
    Some(SearchResult { first_matching_frame, first_callee_frame })
}

#[test]
fn matcher() {
    let x = [format!("a"), format!("b"), format!("c")];
    let m = regex("b");
    let r = m.search_trace(&x).unwrap();
    assert_eq!(&x[..r.first_matching_frame], &[format!("a")]);
    assert_eq!(&x[r.first_callee_frame..], &[format!("c")]);
}

#[test]
fn matcher_2() {
    let x = [format!("a"), format!("b"), format!("c")];
    let m = ThenMatcher::new(regex("b"), regex("c"));
    let r = m.search_trace(&x).unwrap();
    assert_eq!(&x[..r.first_matching_frame], &[format!("a")]);
    assert!(x[r.first_callee_frame..].is_empty());
}

#[test]
fn matcher_3() {
    let x = [format!("a"), format!("b"), format!("c")];
    let m = ThenMatcher::new(regex("a"), regex("c"));
    assert!(m.search_trace(&x).is_none());
}

#[test]
fn matcher_4() {
    let m = ThenMatcher::new(regex("a"), SkipMatcher::new(regex("c")));

    assert!(m.search_trace(&[format!("a"), format!("b"), format!("c")])
             .unwrap().first_matching_frame == 0);

    assert!(m.search_trace(&[format!("x"), format!("a"), format!("b"), format!("c")])
             .unwrap().first_matching_frame == 1);

    assert!(m.search_trace(&[format!("x"), format!("a"), format!("b"), format!("b"), format!("c")])
             .unwrap().first_matching_frame == 1);
}

#[test]
fn matcher_parse_a_dotdot_c() {
    let m = parse_matcher("{a}..{c}").unwrap();

    assert!(m.search_trace(&[format!("a"), format!("b"), format!("c")])
             .unwrap().first_matching_frame == 0);

    assert!(m.search_trace(&[format!("x"), format!("a"), format!("b"), format!("c")])
             .unwrap().first_matching_frame == 1);

    assert!(m.search_trace(&[format!("x"), format!("a"), format!("b"), format!("b"), format!("c")])
             .unwrap().first_matching_frame == 1);
}

#[test]
fn matcher_parse_a_then_c() {
    let m = parse_matcher("{a},{c}").unwrap();

    assert!(m.search_trace(&[format!("a"), format!("b"), format!("c")])
             .is_none());

    assert!(m.search_trace(&[format!("a"), format!("c")])
             .unwrap().first_matching_frame == 0);
}

#[test]
fn single_frame_query_reports_both_offsets() {
    let m = parse_matcher("{b}").unwrap();
    assert_eq!(m.search_trace(&stack(&["a", "b", "c"])), found(1, 2));
}

#[test]
fn sequence_query_needs_adjacent_frames() {
    let m = parse_matcher("{b},{c}").unwrap();
    assert_eq!(m.search_trace(&stack(&["a", "b", "c"])), found(1, 3));
    assert_eq!(m.search_trace(&stack(&["a", "b", "d"])), None);
}

#[test]
fn skip_query_spans_the_frames_between() {
    let m = parse_matcher("{a}..{c}").unwrap();
    assert_eq!(m.search_trace(&stack(&["x", "a", "b", "c"])), found(1, 4));
    assert_eq!(m.search_trace(&stack(&["x", "a", "b", "b", "c"])), found(1, 5));
}

#[test]
fn negated_skip_looks_at_everything_above() {
    let m = parse_matcher("{a}..!{b}").unwrap();
    assert_eq!(m.search_trace(&stack(&["b", "a", "c"])), found(1, 2));
    assert_eq!(m.search_trace(&stack(&["a", "b"])), None);
}

#[test]
fn failed_skip_stops_the_search() {
    // Once `a` is found, the skip is committed: that there is no `c` above
    // the first `a` ends the search, whatever stands further up.
    let m = parse_matcher("{a}..{c}").unwrap();
    assert_eq!(m.search_trace(&stack(&["a", "b", "a", "c"])), found(0, 4));
    assert_eq!(m.search_trace(&stack(&["a", "b"])), None);
    assert_eq!(m.search_trace(&stack(&["c", "a", "b"])), None);
    // A negation fails recoverably, so the search goes on to the next `a`.
    let m = parse_matcher("{a}..!{b}").unwrap();
    assert_eq!(m.search_trace(&stack(&["x", "a", "y", "b", "a", "z"])), found(4, 5));
}

#[test]
fn skip_with_barrier_does_not_cross_it() {
    let m = parse_matcher("!{x}..{c}").unwrap();
    assert_eq!(m.search_trace(&stack(&["a", "b", "c"])), found(0, 3));
    assert_eq!(m.search_trace(&stack(&["a", "x", "c"])), None);
    assert_eq!(m.search_trace(&stack(&["c", "x"])), found(0, 1));
}

#[test]
fn empty_matcher_matches_at_once() {
    let m = empty_matcher();
    assert!(m.is_empty());
    assert_eq!(m.search_trace(&stack(&["a"])), found(0, 0));
    assert_eq!(m.search_trace(&stack(&["a", "b", "c"])), found(0, 0));
    assert_eq!(EmptyMatcher::new().search_trace(&stack(&["q"])), found(0, 0));
}

#[test]
fn nothing_is_found_in_an_empty_stack() {
    assert_eq!(empty_matcher().search_trace(&stack(&[])), None);
    assert_eq!(WildcardMatcher::new().search_trace(&stack(&[])), None);
    assert_eq!(NotMatcher::new(regex("a")).search_trace(&stack(&[])), None);
}

#[test]
fn offsets_are_in_order_and_in_range() {
    let queries = ["{a}", "{a},{b}", "{a}..{c}", ".", "..{c}", "{a}..!{b}", "({b}),.", "{c}/{a}"];
    let stacks = [
        stack(&["a"]),
        stack(&["a", "b", "c"]),
        stack(&["c", "b", "a"]),
        stack(&["x", "a", "b", "b", "c", "a"]),
    ];
    for query in queries {
        let m = parse_matcher(query).unwrap();
        for frames in &stacks {
            if let Some(r) = m.search_trace(frames) {
                assert!(r.first_matching_frame <= r.first_callee_frame);
                assert!(r.first_callee_frame <= frames.len());
            }
        }
    }
}

#[test]
fn negation_is_found_where_the_matcher_fails() {
    // On one frame, `!m` is found exactly when `m` is not.
    for frame in ["a", "b"] {
        let frames = stack(&[frame]);
        let plain = regex("a").search_trace(&frames);
        let negated = NotMatcher::new(regex("a")).search_trace(&frames);
        assert_eq!(negated.is_some(), plain.is_none());
    }
    // On more frames both can be found: `a` at the bottom, `!a` one up.
    let frames = stack(&["a", "b"]);
    assert_eq!(regex("a").search_trace(&frames), found(0, 1));
    assert_eq!(NotMatcher::new(regex("a")).search_trace(&frames), found(1, 1));
    // Where the matcher matches at every position, the negation is not found.
    let frames = stack(&["a", "a"]);
    assert_eq!(regex("a").search_trace(&frames), found(0, 1));
    assert_eq!(NotMatcher::new(regex("a")).search_trace(&frames), None);
}

#[test]
fn match_trace_hands_back_what_follows() {
    let frames = stack(&["a", "b", "c"]);
    match regex("a").match_trace(&frames) {
        Ok(rest) => assert_eq!(rest, &frames[1..]),
        Err(_) => panic!("no match"),
    }
    match WildcardMatcher::new().match_trace(&frames) {
        Ok(rest) => assert_eq!(rest, &frames[1..]),
        Err(_) => panic!("no match"),
    }
    match EmptyMatcher::new().match_trace(&frames) {
        Ok(rest) => assert_eq!(rest, &frames[..]),
        Err(_) => panic!("no match"),
    }
    match ParenMatcher::new(ThenMatcher::new(regex("a"), regex("b"))).match_trace(&frames) {
        Ok(rest) => assert_eq!(rest, &frames[2..]),
        Err(_) => panic!("no match"),
    }
    match NotMatcher::new(regex("b")).match_trace(&frames) {
        Ok(rest) => assert_eq!(rest, &frames[..]),
        Err(_) => panic!("no match"),
    }
    match SkipMatcher::new(regex("c")).match_trace(&frames) {
        Ok(rest) => assert!(rest.is_empty()),
        Err(_) => panic!("no match"),
    }
}

#[test]
fn failures_come_in_two_kinds() {
    let frames = stack(&["a", "b"]);
    assert_eq!(regex("b").match_trace(&frames).unwrap_err(), MatchError::RecoverableError);
    assert_eq!(regex("a").match_trace(&[]).unwrap_err(), MatchError::RecoverableError);
    assert_eq!(WildcardMatcher::new().match_trace(&[]).unwrap_err(), MatchError::RecoverableError);
    assert_eq!(
        NotMatcher::new(regex("a")).match_trace(&frames).unwrap_err(),
        MatchError::RecoverableError
    );
    assert_eq!(
        SkipMatcher::new(regex("c")).match_trace(&frames).unwrap_err(),
        MatchError::IrrecoverableError
    );
    assert_eq!(
        ThenMatcher::new(regex("a"), SkipMatcher::new(regex("c"))).match_trace(&frames).unwrap_err(),
        MatchError::IrrecoverableError
    );
    assert_eq!(
        ThenMatcher::new(regex("a"), regex("c")).match_trace(&frames).unwrap_err(),
        MatchError::RecoverableError
    );
}

#[test]
fn alternative_is_tried_after_a_recoverable_failure_only() {
    let frames = stack(&["a", "b"]);
    match OrMatcher::new(regex("x"), regex("a")).match_trace(&frames) {
        Ok(rest) => assert_eq!(rest, &frames[1..]),
        Err(_) => panic!("no match"),
    }
    match OrMatcher::new(regex("a"), regex("x")).match_trace(&frames) {
        Ok(rest) => assert_eq!(rest, &frames[1..]),
        Err(_) => panic!("no match"),
    }
    assert_eq!(
        OrMatcher::new(regex("x"), regex("y")).match_trace(&frames).unwrap_err(),
        MatchError::RecoverableError
    );
    // A skip that fails is final, though the alternative would match.
    assert_eq!(
        OrMatcher::new(SkipMatcher::new(regex("x")), regex("a")).match_trace(&frames).unwrap_err(),
        MatchError::IrrecoverableError
    );
    // Under a negation, any failure makes the negation succeed.
    match NotMatcher::new(SkipMatcher::new(regex("x"))).match_trace(&frames) {
        Ok(rest) => assert_eq!(rest, &frames[..]),
        Err(_) => panic!("no match"),
    }
}

#[test]
fn search_while_stops_where_the_condition_fails() {
    let frames = stack(&["a", "b", "c"]);
    let any = empty_matcher();
    assert_eq!(regex("c").search_trace_while(&frames, &any), found(2, 3));
    let not_b = NotMatcher::new(regex("b"));
    assert_eq!(regex("c").search_trace_while(&frames, &not_b), None);
    assert_eq!(regex("b").search_trace_while(&frames, &not_b), found(1, 2));
    let m = SkipMatcher::with_condition(regex("c"), NotMatcher::new(regex("b")));
    assert!(m.match_trace(&frames).is_err());
    let m = SkipMatcher::with_condition(regex("b"), NotMatcher::new(regex("c")));
    match m.match_trace(&frames) {
        Ok(rest) => assert_eq!(rest, &frames[2..]),
        Err(_) => panic!("no match"),
    }
}

#[test]
fn regex_matches_anywhere_in_the_frame() {
    let frames = stack(&["alloc::vec::Vec<T>::push", "main"]);
    assert_eq!(regex("Vec").search_trace(&frames), found(0, 1));
    assert_eq!(regex("^main$").search_trace(&frames), found(1, 2));
    assert_eq!(regex("^vec").search_trace(&frames), None);
    assert_eq!(regex("^alloc::.*push$").search_trace(&frames), found(0, 1));
}

#[test]
fn regex_that_does_not_compile_gives_no_matcher() {
    match RegexMatcher::new("a(") {
        Err(error) => {
            assert_eq!(error.pattern, "a(");
            assert!(!error.reason.is_empty());
        }
        Ok(_) => panic!("no error"),
    }
    assert!(RegexMatcher::new("a").is_ok());
}

#[test]
fn queries_are_written_out_as_text() {
    assert_eq!(regex("a+").describe(), "{a+}");
    assert_eq!(WildcardMatcher::new().describe(), ".");
    assert_eq!(empty_matcher().describe(), "()");
    assert_eq!(ParenMatcher::new(regex("a")).describe(), "({a})");
    assert_eq!(NotMatcher::new(regex("a")).describe(), "!{a}");
    assert_eq!(ThenMatcher::new(regex("a"), regex("b")).describe(), "{a},{b}");
    assert_eq!(OrMatcher::new(regex("a"), regex("b")).describe(), "{a}/{b}");
    assert_eq!(SkipMatcher::new(regex("a")).describe(), "..{a}");
    assert_eq!(
        SkipMatcher::with_condition(regex("a"), NotMatcher::new(regex("b"))).describe(),
        "..{a} while !{b}"
    );
    assert_eq!(parse_matcher("{a}..{c}").unwrap().describe(), "{a},..{c}");
    assert_eq!(parse_matcher("{a}..!{b}").unwrap().describe(), "{a},!..{b}");
    assert_eq!(parse_matcher("!{a}..{b}").unwrap().describe(), "..{b} while !{a}");
}

#[test]
fn copy_of_a_matcher_says_and_finds_the_same() {
    let queries = ["{a}..{c}", "!{x}..({b}/.)", "{a},{b}/{c}", "..{a+}", "{a}..!{b}"];
    let frames = stack(&["x", "a", "b", "b", "c"]);
    for query in queries {
        let m = parse_matcher(query).unwrap();
        let copy = m.clone();
        assert_eq!(copy.describe(), m.describe());
        assert_eq!(copy.search_trace(&frames), m.search_trace(&frames));
    }
}
