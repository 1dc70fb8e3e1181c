use perf_focus::histogram::Histogram;
use perf_focus::util::percent;

fn frames(names: &[&str]) -> Vec<String> {
    names.iter().map(|f| f.to_string()).collect()
}

#[test]
fn histogram_counts_samples_per_frame() {
    let mut hist = Histogram::new();
    hist.add_frames(&frames(&["x", "y"]));
    hist.add_frames(&frames(&["y", "z"]));
    hist.add_frames(&frames(&["y"]));
    assert_eq!(hist.get("x"), 1);
    assert_eq!(hist.get("y"), 3);
    assert_eq!(hist.get("z"), 1);
    assert_eq!(hist.get("w"), 0);
    assert_eq!(hist.total(), 3);
    assert_eq!(percent(hist.get("x"), hist.total()), 33);
    assert_eq!(percent(hist.get("y"), hist.total()), 100);
    assert_eq!(percent(hist.get("z"), hist.total()), 33);
}

#[test]
fn frame_counts_once_per_sample() {
    let mut hist = Histogram::new();
    hist.add_frames(&frames(&["a", "b", "a", "a", "b"]));
    assert_eq!(hist.get("a"), 1);
    assert_eq!(hist.get("b"), 1);
    hist.add_frames(&frames(&["a", "a"]));
    assert_eq!(hist.get("a"), 2);
    assert_eq!(hist.get("b"), 1);
    assert_eq!(hist.total(), 2);
}

#[test]
fn count_is_at_most_the_number_of_samples() {
    let mut hist = Histogram::new();
    let samples = [
        frames(&["a", "b", "c"]),
        frames(&["a", "a"]),
        frames(&[]),
        frames(&["c", "b", "c", "d"]),
    ];
    for (seen, sample) in samples.iter().enumerate() {
        let before: Vec<usize> = ["a", "b", "c", "d"].iter().map(|f| hist.get(f)).collect();
        hist.add_frames(sample);
        let mut added = 0;
        for (i, frame) in ["a", "b", "c", "d"].iter().enumerate() {
            let now = hist.get(frame);
            assert!(now <= seen + 1);
            let expected = if sample.iter().any(|f| f == frame) { 1 } else { 0 };
            assert_eq!(now - before[i], expected);
            added += now - before[i];
        }
        let mut unique = sample.clone();
        unique.sort();
        unique.dedup();
        assert_eq!(added, unique.len());
    }
    assert_eq!(hist.total(), 4);
}

#[test]
fn empty_histogram_has_no_rows() {
    let hist = Histogram::new();
    assert_eq!(hist.total(), 0);
    assert_eq!(hist.get("a"), 0);
    assert!(hist.dump(0, 10).is_empty());
}

#[test]
fn rows_list_the_most_frequent_frames_in_ascending_order() {
    let mut hist = Histogram::new();
    hist.add_frames(&frames(&["x", "y"]));
    hist.add_frames(&frames(&["y", "z"]));
    hist.add_frames(&frames(&["y"]));
    let rows = hist.dump(3, 10);
    let shown: Vec<(u32, usize, &str)> =
        rows.iter().map(|r| (r.percentage, r.count, r.name.as_str())).collect();
    assert_eq!(shown, vec![(33, 1, "x"), (33, 1, "z"), (100, 3, "y")]);
    let rows = hist.dump(3, 2);
    let shown: Vec<(u32, usize, &str)> =
        rows.iter().map(|r| (r.percentage, r.count, r.name.as_str())).collect();
    assert_eq!(shown, vec![(33, 1, "z"), (100, 3, "y")]);
    let rows = hist.dump(6, 1);
    let shown: Vec<(u32, usize, &str)> =
        rows.iter().map(|r| (r.percentage, r.count, r.name.as_str())).collect();
    assert_eq!(shown, vec![(50, 3, "y")]);
    assert!(hist.dump(3, 0).is_empty());
}

#[test]
fn rows_with_the_same_count_stand_in_the_order_of_their_names() {
    let mut hist = Histogram::new();
    hist.add_frames(&frames(&["y", "x"]));
    hist.add_frames(&frames(&["b"]));
    hist.add_frames(&frames(&["ab", "a", "B", "b"]));
    let names: Vec<String> = hist.dump(3, 10).into_iter().map(|r| r.name).collect();
    assert_eq!(names, vec!["B", "a", "ab", "x", "y", "b"]);
    let names: Vec<String> = hist.dump(3, 3).into_iter().map(|r| r.name).collect();
    assert_eq!(names, vec!["x", "y", "b"]);
    let mut hist = Histogram::new();
    hist.add_frames(&frames(&["\u{e9}", "z", "e", "\u{1f600}", "ez", ""]));
    let names: Vec<String> = hist.dump(1, 10).into_iter().map(|r| r.name).collect();
    let mut sorted = names.clone();
    sorted.sort();
    assert_eq!(names, sorted);
    assert_eq!(names, vec!["", "e", "ez", "z", "\u{e9}", "\u{1f600}"]);
}
