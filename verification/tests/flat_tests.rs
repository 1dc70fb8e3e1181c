use perf_focus::flat::Flat;

fn frames(names: &[&str]) -> Vec<String> {
    names.iter().map(|f| f.to_string()).collect()
}

fn rows(flat: &Flat, total: usize) -> (Vec<(u32, String)>, Option<u32>) {
    let (rows, empty) = flat.dump(total);
    (rows.into_iter().map(|r| (r.percentage, r.name)).collect(), empty)
}

fn row(percentage: u32, name: &str) -> (u32, String) {
    (percentage, name.to_string())
}

#[test]
fn samples_are_counted_where_they_end() {
    let mut flat = Flat::new();
    flat.add_frames(&frames(&["main", "a", "x"]));
    flat.add_frames(&frames(&["main", "b", "x"]));
    flat.add_frames(&frames(&["main", "a", "y"]));
    flat.add_frames(&frames(&["main", "a", "x"]));
    assert_eq!(flat.total(), 4);
    assert_eq!(flat.empty_traces(), 0);
    assert_eq!(rows(&flat, 4), (vec![row(75, "x"), row(25, "y")], None));
    assert_eq!(rows(&flat, 8), (vec![row(37, "x"), row(12, "y")], None));
}

#[test]
fn empty_profile_has_no_rows() {
    let flat = Flat::new();
    assert_eq!(rows(&flat, 0), (vec![], None));
    assert_eq!(flat.total(), 0);
}

#[test]
fn samples_without_frames_are_counted_apart() {
    let mut flat = Flat::new();
    flat.add_frames(&frames(&[]));
    flat.add_frames(&frames(&["a"]));
    flat.add_frames(&frames(&[]));
    assert_eq!(flat.empty_traces(), 2);
    assert_eq!(flat.total(), 3);
    assert_eq!(rows(&flat, 3), (vec![row(33, "a")], Some(66)));
}

#[test]
fn rollup_moves_samples_to_the_nearest_caller_worth_mentioning() {
    let mut flat = Flat::new();
    for _ in 0..5 {
        flat.add_frames(&frames(&["main", "hot", "tiny1"]));
    }
    for _ in 0..4 {
        flat.add_frames(&frames(&["main", "hot", "tiny2"]));
    }
    flat.add_frames(&frames(&["main", "cold", "tiny3"]));
    assert_eq!(
        rows(&flat, 10),
        (vec![row(50, "tiny1"), row(40, "tiny2"), row(10, "tiny3")], None)
    );
    // `tiny1`, `tiny2`, `tiny3` and `cold` occur in fewer than 60 percent
    // of the samples; `hot` occurs in 90, `main` in all.
    flat.rollup(10, 60);
    assert_eq!(rows(&flat, 10), (vec![row(90, "hot"), row(10, "main")], None));
    assert_eq!(flat.total(), 10);
    assert_eq!(flat.empty_traces(), 0);
    flat.rollup(10, 95);
    assert_eq!(rows(&flat, 10), (vec![row(100, "main")], None));
    flat.rollup(10, 101);
    assert_eq!(rows(&flat, 10), (vec![], Some(100)));
    assert_eq!(flat.empty_traces(), 10);
}

#[test]
fn rollup_that_finds_every_leaf_worth_mentioning_changes_nothing() {
    let mut flat = Flat::new();
    flat.add_frames(&frames(&["a", "b"]));
    flat.add_frames(&frames(&["a", "c"]));
    flat.add_frames(&frames(&[]));
    let before = rows(&flat, 3);
    flat.rollup(3, 0);
    assert_eq!(rows(&flat, 3), before);
    flat.rollup(3, 33);
    assert_eq!(rows(&flat, 3), before);
    assert_eq!(flat.empty_traces(), 1);
}

#[test]
fn rows_with_the_same_share_descend_by_name() {
    let mut flat = Flat::new();
    flat.add_frames(&frames(&["a"]));
    flat.add_frames(&frames(&["b"]));
    flat.add_frames(&frames(&["c"]));
    flat.add_frames(&frames(&["c"]));
    assert_eq!(rows(&flat, 4), (vec![row(50, "c"), row(25, "b"), row(25, "a")], None));
    let mut flat = Flat::new();
    flat.add_frames(&frames(&["main", "y"]));
    flat.add_frames(&frames(&["main", "x"]));
    flat.add_frames(&frames(&["z"]));
    assert_eq!(rows(&flat, 3), (vec![row(33, "z"), row(33, "y"), row(33, "x")], None));
}
