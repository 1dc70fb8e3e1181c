use perf_focus::rustc_query::{match_query, to_query_stack};
use perf_focus::trace::TraceArgs;

fn name(frame: &str) -> Option<String> {
    match_query(frame)
}

#[test]
fn query_is_read_from_the_impl_form() {
    assert_eq!(
        name("rustc::ty::maps::<impl rustc::ty::maps::queries::borrowck<'tcx>>::force"),
        Some("borrowck<'tcx>".to_string())
    );
    assert_eq!(
        name("rustc::ty::maps::<impl rustc::ty::maps::queries::>::force"),
        Some("".to_string())
    );
    assert_eq!(name("rustc::ty::maps::<impl rustc::ty::maps::queries::borrowck<'tcx>>::get"), None);
}

#[test]
fn query_is_read_from_the_compute_form() {
    assert_eq!(
        name("rustc::ty::maps::__query_compute::type_of"),
        Some("type_of".to_string())
    );
    assert_eq!(name("rustc::ty::maps::__query_compute::"), Some("".to_string()));
}

#[test]
fn query_is_read_from_the_mangled_form() {
    assert_eq!(
        name("_ZN5rustc2ty4maps15__query_compute7type_of17h0123456789abcdefE"),
        Some("type_of".to_string())
    );
    assert_eq!(
        name("_ZN5rustc2ty4maps15__query_compute12typeck_tablX"),
        Some("typeck_tablX".to_string())
    );
    assert_eq!(name("_ZN5rustc2ty4maps15__query_compute0x"), Some("".to_string()));
}

#[test]
fn mangled_frame_that_is_cut_short_stands_for_no_query() {
    assert_eq!(name("_ZN5rustc2ty4maps15__query_compute"), None);
    assert_eq!(name("_ZN5rustc2ty4maps15__query_computeX"), None);
    assert_eq!(name("_ZN5rustc2ty4maps15__query_compute7"), None);
    assert_eq!(name("_ZN5rustc2ty4maps15__query_compute7type_o"), None);
    assert_eq!(name("_ZN5rustc2ty4maps15__query_compute99999999999999999999999999x"), None);
}

#[test]
fn other_frames_stand_for_no_query() {
    assert_eq!(name("main"), None);
    assert_eq!(name(""), None);
    assert_eq!(name("rustc::ty::maps::__query_compute"), None);
    assert_eq!(name("xrustc::ty::maps::__query_compute::type_of"), None);
}

#[test]
fn stack_is_cut_down_to_its_queries() {
    let mut args = TraceArgs {
        header: vec!["rustc 1".to_string()],
        process_name: "rustc".to_string(),
        stack: vec![
            "main".to_string(),
            "rustc::ty::maps::__query_compute::type_of".to_string(),
            "std::panic".to_string(),
            "rustc::ty::maps::<impl rustc::ty::maps::queries::borrowck<'tcx>>::force".to_string(),
            "memcpy".to_string(),
        ],
    };
    to_query_stack(&mut args);
    assert_eq!(args.stack, vec!["main()", "type_of", "borrowck<'tcx>"]);
    assert_eq!(args.process_name, "rustc");
    assert_eq!(args.header, vec!["rustc 1"]);
    let mut args =
        TraceArgs { header: vec![], process_name: String::new(), stack: vec![] };
    to_query_stack(&mut args);
    assert_eq!(args.stack, vec!["main()"]);
}
