use rect_packing::combination::redup_comb_iter;
use rect_packing::config::RectConfiguration;
use rect_packing::matching::{calculate_matches, find_realization, worth_expanding_check};
use rect_packing::rect::Rectangle;
use rect_packing::settings::{ProgramStorage, Settings};
use rect_packing::steps::{combination_area, sort_by_area_desc, step5_sort_final_combinations};

/// Pieces 1 and 2 share a shape, 3 and 4 share another, 5 and 6 are alone.
fn six_pieces() -> RectConfiguration {
    RectConfiguration::new(
        Rectangle::new(-1, 4, 8),
        vec![
            Rectangle::new(1, 1, 2),
            Rectangle::new(2, 2, 1),
            Rectangle::new(3, 3, 3),
            Rectangle::new(4, 3, 3),
            Rectangle::new(5, 2, 4),
            Rectangle::new(6, 1, 1),
        ],
    )
}

fn sorted_sets(v: &[Vec<usize>]) -> Vec<Vec<usize>> {
    let mut out = v.to_vec();
    out.sort();
    out
}

#[test]
fn combination_area_sums_member_areas() {
    let cfg = six_pieces();
    assert_eq!(combination_area(&cfg, &vec![0, 2, 4]), 2 + 9 + 8);
    assert_eq!(combination_area(&cfg, &vec![]), 0);
}

#[test]
fn layers_sorted_by_decreasing_area_keep_ties_in_order() {
    let cfg = six_pieces();
    let combos = vec![vec![0], vec![2], vec![1], vec![4, 5], vec![3]];
    // areas 2, 9, 2, 9, 9
    assert_eq!(
        sort_by_area_desc(&cfg, &combos),
        vec![vec![2], vec![4, 5], vec![3], vec![0], vec![1]]
    );
}

#[test]
fn redup_of_a_list_lists_each_set_once() {
    let cfg = six_pieces();
    let combos = vec![vec![0, 2], vec![1, 3], vec![4]];
    let all = redup_comb_iter(&cfg, &combos);
    assert_eq!(
        sorted_sets(&all),
        vec![vec![0, 2], vec![0, 3], vec![1, 2], vec![1, 3], vec![4]]
    );
}

#[test]
fn cheap_test_counts_members_and_class_capacity() {
    let cfg = six_pieces();
    // six members in all, each class within capacity
    assert!(worth_expanding_check(&cfg, &vec![0, 2], &vec![1, 3], &vec![4, 5]));
    // too few members
    assert!(!worth_expanding_check(&cfg, &vec![0, 2], &vec![1, 3], &vec![4]));
    // class {1, 2} drawn three times
    assert!(!worth_expanding_check(&cfg, &vec![0, 2], &vec![1, 3], &vec![0, 4, 5]));
}

#[test]
fn realization_substitutes_class_mates() {
    let cfg = six_pieces();
    // both first two layers name piece 1 and piece 3; piece 2 and 4 stand in for them
    let (a, b, c) = find_realization(&cfg, &vec![0, 2], &vec![0, 2], &vec![4, 5]).expect("a covering exists");
    let mut all: Vec<usize> = a.iter().chain(b.iter()).chain(c.iter()).copied().collect();
    all.sort();
    assert_eq!(all, vec![0, 1, 2, 3, 4, 5]);
    assert_eq!(c, vec![4, 5]);
    // piece 5 has no class-mate: two layers cannot both use it
    assert!(find_realization(&cfg, &vec![4, 0], &vec![4, 2], &vec![1, 3, 5]).is_none());
}

#[test]
fn every_realizable_triple_is_recorded_once() {
    let cfg = six_pieces();
    let layers = vec![vec![0, 2], vec![1, 3], vec![4, 5], vec![0, 3]];
    let found = calculate_matches(&cfg, &layers);
    // triples (0,1,2), (0,2,3) and (1,2,3) cover the inventory; (0,1,3) lacks pieces 5 and 6
    assert_eq!(found.len(), 3);
    for (a, b, c) in found.iter() {
        let mut all: Vec<usize> = a.iter().chain(b.iter()).chain(c.iter()).copied().collect();
        all.sort();
        assert_eq!(all, vec![0, 1, 2, 3, 4, 5]);
    }
}

#[test]
fn final_ranking_puts_rare_shapes_first() {
    let cfg = six_pieces();
    let mut storage = ProgramStorage::new(cfg, Settings::default());
    storage.combined_solutions = vec![
        (vec![0, 2], vec![1, 3], vec![4, 5]),
        (vec![0, 3], vec![1, 2], vec![4, 5]),
        (vec![4, 5], vec![0, 1], vec![2, 3]),
    ];
    step5_sort_final_combinations(&mut storage);
    // shapes: {1,3}-pattern four times, {5,6} three times, {1,2} once, {3,4} once
    assert_eq!(
        storage.final_combinations,
        vec![vec![0, 1], vec![2, 3], vec![4, 5], vec![0, 2]]
    );
}
