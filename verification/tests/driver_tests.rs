use perf_focus::driver::{
    focus_frames, marker_frame, print_trace, rename_frame, Driver, GraphMode, Options, Outcome,
    Rename, Selection,
};
use perf_focus::matcher::SearchResult;
use perf_focus::parser::parse_matcher;
use perf_focus::pattern::Pattern;
use perf_focus::trace::{each_trace, TraceArgs};

fn frames(names: &[&str]) -> Vec<String> {
    names.iter().map(|f| f.to_string()).collect()
}

fn rename(pattern: &str, replacement: &str) -> Rename {
    Rename { pattern: Pattern::new(pattern).unwrap(), replacement: replacement.to_string() }
}

fn options(query: &str, selection: Selection) -> Options {
    Options {
        process_name_filter: None,
        rustc_query: false,
        matcher: parse_matcher(query).unwrap(),
        selection,
        renames: vec![],
    }
}

fn sample(process: &str, stack: &[&str]) -> TraceArgs {
    let mut header = vec![format!("{} 1 2: cycles:", process)];
    for frame in stack.iter().rev() {
        header.push(format!("\t7f00 {} (/bin/x)", frame));
    }
    TraceArgs { header, process_name: process.to_string(), stack: frames(stack) }
}

#[test]
fn pattern_reports_what_is_wrong_with_its_text() {
    match Pattern::new("[a") {
        Err(error) => {
            assert_eq!(error.pattern, "[a");
            assert!(!error.reason.is_empty());
        }
        Ok(_) => panic!("no error"),
    }
    assert_eq!(Pattern::new("[a]").unwrap().text(), "[a]");
}

#[test]
fn frames_are_renamed_rule_by_rule() {
    let rules = vec![rename("<[^>]*>", "<..>"), rename("^(\\w+)::", "$1/")];
    assert_eq!(rename_frame(&rules, "alloc::vec::Vec<u8>::push"), "alloc/vec::Vec<..>::push");
    assert_eq!(rename_frame(&rules, "main"), "main");
    assert_eq!(rename_frame(&vec![], "a::b"), "a::b");
    let rules = vec![rename("a", "b"), rename("b", "c")];
    assert_eq!(rename_frame(&rules, "aba"), "ccc");
}

#[test]
fn match_is_shown_by_a_marker_frame() {
    let matcher = parse_matcher("{a}..{b}").unwrap();
    assert_eq!(marker_frame(&matcher), "matched `{a},..{b}`");
}

#[test]
fn counted_frames_depend_on_the_mode() {
    let stack = frames(&["main", "x::a", "x::b", "x::c", "leaf"]);
    let result = SearchResult { first_matching_frame: 2, first_callee_frame: 4 };
    let marker = "matched `q`".to_string();
    let rules = vec![rename("^x::", "")];
    assert_eq!(
        focus_frames(GraphMode::All, &stack, result, &marker, &rules),
        vec!["main", "a", "b", "c", "leaf"]
    );
    assert_eq!(
        focus_frames(GraphMode::Caller, &stack, result, &marker, &rules),
        vec!["matched `q`", "a", "main"]
    );
    assert_eq!(
        focus_frames(GraphMode::Callee, &stack, result, &marker, &rules),
        vec!["matched `q`", "leaf"]
    );
}

#[test]
fn counted_frames_stay_within_the_stack() {
    let stack = frames(&["a", "b"]);
    let marker = "m".to_string();
    let none = SearchResult { first_matching_frame: 0, first_callee_frame: 0 };
    assert_eq!(focus_frames(GraphMode::Caller, &stack, none, &marker, &vec![]), vec!["m"]);
    assert_eq!(
        focus_frames(GraphMode::Callee, &stack, none, &marker, &vec![]),
        vec!["m", "a", "b"]
    );
    let all = SearchResult { first_matching_frame: 2, first_callee_frame: 2 };
    assert_eq!(
        focus_frames(GraphMode::Caller, &stack, all, &marker, &vec![]),
        vec!["m", "b", "a"]
    );
    assert_eq!(focus_frames(GraphMode::Callee, &stack, all, &marker, &vec![]), vec!["m"]);
    let beyond = SearchResult { first_matching_frame: 7, first_callee_frame: 9 };
    assert_eq!(
        focus_frames(GraphMode::Caller, &stack, beyond, &marker, &vec![]),
        vec!["m", "b", "a"]
    );
    assert_eq!(focus_frames(GraphMode::Callee, &stack, beyond, &marker, &vec![]), vec!["m"]);
    assert!(focus_frames(GraphMode::All, &[], none, &marker, &vec![]).is_empty());
}

#[test]
fn sample_is_shown_with_the_match_marked() {
    let header = frames(&["proc 1", "  z", "  b", "  y", "  a", "  x"]);
    let selected = SearchResult { first_matching_frame: 1, first_callee_frame: 4 };
    assert_eq!(
        print_trace(&header, Some(selected)),
        vec!["proc 1", "    z", "|   b", "|   y", "|   a", "    x", ""]
    );
    assert_eq!(
        print_trace(&header, None),
        vec!["proc 1", "  z", "  b", "  y", "  a", "  x", ""]
    );
    let nothing = SearchResult { first_matching_frame: 0, first_callee_frame: 0 };
    assert_eq!(
        print_trace(&header, Some(nothing)),
        vec!["proc 1", "    z", "    b", "    y", "    a", "    x", ""]
    );
    let everything = SearchResult { first_matching_frame: 0, first_callee_frame: 5 };
    assert_eq!(
        print_trace(&header, Some(everything)),
        vec!["proc 1", "|   z", "|   b", "|   y", "|   a", "|   x", ""]
    );
    assert_eq!(print_trace(&[], None), vec![""]);
}

#[test]
fn run_tells_matches_from_misses() {
    let mut driver = Driver::new(options("{b}", Selection::Nothing));
    let mut hit = sample("p", &["a", "b", "c"]);
    let mut miss = sample("p", &["a", "c"]);
    assert_eq!(
        driver.sample(&mut hit),
        Outcome::Matched(SearchResult { first_matching_frame: 1, first_callee_frame: 2 })
    );
    assert_eq!(driver.sample(&mut miss), Outcome::Missed);
    assert_eq!(driver.sample(&mut hit), Outcome::Matched(SearchResult {
        first_matching_frame: 1,
        first_callee_frame: 2
    }));
    assert_eq!(driver.matches(), 2);
    assert_eq!(driver.not_matches(), 1);
    assert_eq!(driver.matcher().describe(), "{b}");
    assert_eq!(driver.histogram().total(), 0);
    assert_eq!(driver.tree().root().hits_total(), 0);
}

#[test]
fn run_skips_other_processes() {
    let mut opts = options("{b}", Selection::Histogram(GraphMode::All));
    opts.process_name_filter = Pattern::new("^rustc$").ok();
    let mut driver = Driver::new(opts);
    assert_eq!(driver.sample(&mut sample("cargo", &["a", "b"])), Outcome::Skipped);
    assert!(matches!(driver.sample(&mut sample("rustc", &["a", "b"])), Outcome::Matched(_)));
    assert_eq!(driver.sample(&mut sample("rustc", &["a"])), Outcome::Missed);
    assert_eq!(driver.matches(), 1);
    assert_eq!(driver.not_matches(), 1);
    assert_eq!(driver.histogram().get("a"), 1);
    assert_eq!(driver.histogram().get("b"), 1);
}

#[test]
fn run_builds_the_histogram_of_callees() {
    let mut driver = Driver::new(options("{b}", Selection::Histogram(GraphMode::Callee)));
    driver.sample(&mut sample("p", &["a", "b", "c", "d"]));
    driver.sample(&mut sample("p", &["b", "d"]));
    driver.sample(&mut sample("p", &["a", "c"]));
    driver.finish(10);
    let hist = driver.histogram();
    assert_eq!(hist.get("matched `{b}`"), 2);
    assert_eq!(hist.get("c"), 1);
    assert_eq!(hist.get("d"), 2);
    assert_eq!(hist.get("a"), 0);
    assert_eq!(hist.get("b"), 0);
    assert_eq!(hist.total(), 2);
}

#[test]
fn run_builds_the_tree_of_callers() {
    let mut driver = Driver::new(options("{c}", Selection::Tree(GraphMode::Caller)));
    driver.sample(&mut sample("p", &["main", "a", "c"]));
    driver.sample(&mut sample("p", &["main", "b", "c", "x"]));
    driver.sample(&mut sample("p", &["main", "b", "c"]));
    driver.sample(&mut sample("p", &["main"]));
    driver.finish(10);
    assert_eq!(
        driver.tree().dump(4, usize::MAX, 0),
        vec![
            "| matched `{c}` (75% total, 0% self)",
            ": | b (50% total, 0% self)",
            ": : | main (50% total, 50% self)",
            ": | a (25% total, 0% self)",
            ": : | main (25% total, 25% self)",
        ]
    );
}

#[test]
fn run_builds_the_graph_of_all_frames() {
    let mut opts = options("{b}", Selection::Graph(GraphMode::All));
    opts.renames = vec![rename("^x::", "")];
    let mut driver = Driver::new(opts);
    driver.sample(&mut sample("p", &["main", "x::a", "x::b"]));
    driver.sample(&mut sample("p", &["main", "x::b"]));
    driver.sample(&mut sample("p", &["main", "x::a"]));
    driver.sample(&mut sample("p", &["main"]));
    driver.finish(2);
    assert_eq!(driver.graph().node_count("main"), 2);
    assert_eq!(driver.graph().node_count("b"), 2);
    assert_eq!(driver.graph().node_count("a"), 1);
    assert_eq!(
        driver.graph().dump(),
        "digraph G {\n  node [ shape=box ];  n0 -> n2 [label=\"50%\"];\n  n0 [label=\"main (50%)\"];\n  n2 [label=\"b (50%)\"];\n}\n"
    );
}

#[test]
fn run_looks_at_compiler_queries() {
    let mut opts = options("{type_of}", Selection::Histogram(GraphMode::All));
    opts.rustc_query = true;
    let mut driver = Driver::new(opts);
    let mut args = sample(
        "rustc",
        &["main", "rustc::ty::maps::__query_compute::type_of", "memcpy"],
    );
    assert_eq!(
        driver.sample(&mut args),
        Outcome::Matched(SearchResult { first_matching_frame: 1, first_callee_frame: 2 })
    );
    assert_eq!(args.stack, vec!["main()", "type_of"]);
    assert_eq!(driver.histogram().get("main()"), 1);
    assert_eq!(driver.histogram().get("type_of"), 1);
    assert_eq!(driver.histogram().get("memcpy"), 0);
}

#[test]
fn run_goes_over_a_profile() {
    let text = "rustc 1 1.0: cycles:\n\t1 leaf (/a)\n\t2 hot (/a)\n\t3 main (/a)\n\nrustc 1 1.1: cycles:\n\t1 other (/a)\n\t3 main (/a)\n\nrustc 1 1.2: cycles:\n\t2 hot (/a)\n\t3 main (/a)\n";
    let lines: Vec<String> = text.lines().map(|l| l.to_string()).collect();
    let mut driver = Driver::new(options("{hot}", Selection::Tree(GraphMode::All)));
    for mut args in each_trace(lines) {
        driver.sample(&mut args);
    }
    driver.finish(22);
    assert_eq!(driver.matches(), 2);
    assert_eq!(driver.not_matches(), 1);
    assert_eq!(
        driver.tree().dump(3, usize::MAX, 0),
        vec![
            "| main (66% total, 0% self)",
            ": | hot (66% total, 33% self)",
            ": : | leaf (33% total, 33% self)",
        ]
    );
}
