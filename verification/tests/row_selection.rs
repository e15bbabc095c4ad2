use taper::row_selection::build_case;
use taper::row_selection::build_random_selectors;
use taper::row_selection::chunk_lengths;
use taper::row_selection::find_case;
use taper::row_selection::next_selector;
use taper::row_selection::random_column;
use taper::row_selection::selected_rows;
use taper::row_selection::Case;
use taper::row_selection::RowSelector;
use taper::row_selection::SelectionState;
use taper::row_selection::NUM_ROWS;

#[test]
fn random_selectors_cover_all_rows() {
    let selectors = build_random_selectors(10_000, 20, 456);
    assert_eq!(selectors.iter().map(|s| s.row_count).sum::<usize>(), 10_000);
    for pair in selectors.windows(2) {
        assert_ne!(pair[0].skip, pair[1].skip);
    }
    for selector in &selectors {
        assert!(1 <= selector.row_count && selector.row_count <= 20);
    }
    let selected: usize = selectors.iter().filter(|s| !s.skip).map(|s| s.row_count).sum();
    assert_eq!(selected_rows(&selectors), selected);
    assert_eq!(build_random_selectors(10_000, 20, 456), selectors);
    assert_ne!(build_random_selectors(10_000, 20, 457), selectors);
    assert_eq!(build_random_selectors(0, 0, 1), Vec::new());
}

#[test]
fn random_selectors_follow_the_generator() {
    let mut rng = fastrand::Rng::with_seed(789);
    let mut is_select = rng.bool();
    let mut remaining = 500usize;
    let mut expected = Vec::new();
    while remaining > 0 {
        let run = rng.usize(1..=5).min(remaining);
        expected.push(RowSelector { row_count: run, skip: !is_select });
        remaining -= run;
        is_select = !is_select;
    }
    assert_eq!(build_random_selectors(500, 5, 789), expected);
}

#[test]
fn random_selectors_have_known_runs() {
    let selectors = build_random_selectors(20, 5, 789);
    let runs: Vec<(usize, bool)> = selectors.iter().map(|s| (s.row_count, s.skip)).collect();
    assert_eq!(runs, vec![(5, false), (2, true), (5, false), (3, true), (5, false)]);
    let selectors = build_random_selectors(10, 3, 123);
    let runs: Vec<(usize, bool)> = selectors.iter().map(|s| (s.row_count, s.skip)).collect();
    assert_eq!(runs, vec![(2, true), (3, false), (3, true), (2, false)]);
}

#[test]
fn runs_end_with_the_rows() {
    let mut state = SelectionState { remaining: 10, is_select: true };
    assert_eq!(next_selector(&mut state, 4), RowSelector::select(4));
    assert_eq!(state, SelectionState { remaining: 6, is_select: false });
    assert_eq!(next_selector(&mut state, 4), RowSelector::skip(4));
    assert_eq!(next_selector(&mut state, 4), RowSelector::select(2));
    assert_eq!(state, SelectionState { remaining: 0, is_select: false });
}

#[test]
fn cases_are_found_by_name() {
    assert_eq!(find_case("read_all"), Some(Case::ReadAll));
    assert_eq!(find_case("skip_all"), Some(Case::SkipAll));
    assert_eq!(find_case("case7"), Some(Case::Random { max_run: 20_000, seed: 123 }));
    assert_eq!(find_case("case8"), Some(Case::Random { max_run: 2_000, seed: 123 }));
    assert_eq!(find_case("case9"), Some(Case::Random { max_run: 200, seed: 456 }));
    assert_eq!(find_case("case10"), Some(Case::Random { max_run: 20, seed: 456 }));
    assert_eq!(find_case("case11"), Some(Case::Random { max_run: 5, seed: 789 }));
    assert_eq!(find_case("case1"), None);
    assert_eq!(find_case(""), None);
}

#[test]
fn cases_cover_the_profiled_file() {
    assert_eq!(build_case("read_all"), vec![RowSelector::select(NUM_ROWS)]);
    assert_eq!(build_case("skip_all"), vec![RowSelector::skip(NUM_ROWS)]);
    let selectors = build_case("case7");
    assert_eq!(selectors, build_random_selectors(NUM_ROWS, 20_000, 123));
    assert_eq!(selectors.iter().map(|s| s.row_count).sum::<usize>(), NUM_ROWS);
}

#[test]
fn rows_are_written_in_chunks() {
    assert_eq!(chunk_lengths(10, 4), vec![4, 4, 2]);
    assert_eq!(chunk_lengths(8, 4), vec![4, 4]);
    assert_eq!(chunk_lengths(3, 4), vec![3]);
    assert_eq!(chunk_lengths(0, 4), Vec::<usize>::new());
}

#[test]
fn columns_are_drawn_from_the_generator() {
    let (values, state) = random_column(42, 4);
    assert_eq!(
        values,
        vec![
            -3859065376602572407,
            9105053682160394182,
            -3607099748945196129,
            736379965966546952
        ]
    );
    let mut rng = fastrand::Rng::with_seed(42);
    let first: Vec<i64> = (0..4).map(|_| rng.i64(..)).collect();
    assert_eq!(values, first);
    let (more, _) = random_column(state, 3);
    let rest: Vec<i64> = (0..3).map(|_| rng.i64(..)).collect();
    assert_eq!(more, rest);
}
