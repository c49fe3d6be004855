use rect_packing::combination::{
    combination_from_ids, combination_to_string, dedup_comb_iter, duplicate_combination,
    get_unique_combination_key,
};
use rect_packing::config::RectConfiguration;
use rect_packing::rect::Rectangle;
use rect_packing::text::{combination_from_string, parse_ids_text};

/// Pieces 1, 2 and 5 share a shape class (2 by 1 either way), 3 and 4 another.
fn small_inventory() -> RectConfiguration {
    RectConfiguration::new(
        Rectangle::new(-1, 4, 8),
        vec![
            Rectangle::new(1, 1, 2),
            Rectangle::new(2, 2, 1),
            Rectangle::new(3, 3, 3),
            Rectangle::new(4, 3, 3),
            Rectangle::new(5, 1, 2),
            Rectangle::new(6, 2, 4),
        ],
    )
}

fn as_sets(v: &[Vec<usize>]) -> Vec<Vec<usize>> {
    let mut out: Vec<Vec<usize>> = v.to_vec();
    out.sort();
    out.dedup();
    out
}

#[test]
fn dedup_key_ignores_member_order() {
    let cfg = small_inventory();
    let a = get_unique_combination_key(&cfg, &vec![0, 2, 5]);
    let b = get_unique_combination_key(&cfg, &vec![5, 0, 2]);
    let c = get_unique_combination_key(&cfg, &vec![2, 5, 0]);
    assert_eq!(a, b);
    assert_eq!(a, c);
    // keys are sorted packed pairs: (2,1) < (3,3) < (4,2)
    let pack = |a: u64, b: u64| a * 0x1_0000_0000 + b;
    assert_eq!(a, vec![pack(2, 1), pack(3, 3), pack(4, 2)]);
}

#[test]
fn same_shapes_give_same_key() {
    let cfg = small_inventory();
    assert_eq!(
        get_unique_combination_key(&cfg, &vec![0, 2]),
        get_unique_combination_key(&cfg, &vec![1, 3])
    );
    assert_ne!(
        get_unique_combination_key(&cfg, &vec![0, 2]),
        get_unique_combination_key(&cfg, &vec![0, 5])
    );
}

#[test]
fn dedup_keeps_first_of_each_shape() {
    let cfg = small_inventory();
    let combos = vec![vec![0, 2], vec![1, 3], vec![0, 5], vec![4, 2], vec![2, 3]];
    let kept = dedup_comb_iter(&cfg, &combos);
    assert_eq!(kept, vec![vec![0, 2], vec![0, 5], vec![2, 3]]);
}

#[test]
fn redup_contains_the_original() {
    let cfg = small_inventory();
    let none = vec![false; 6];
    let original = vec![0, 2];
    let all = duplicate_combination(&cfg, &original, &none);
    assert!(all.contains(&original));
    // every class-mate substitution: {0,1,4} x {2,3}
    assert_eq!(
        as_sets(&all),
        vec![vec![0, 2], vec![0, 3], vec![1, 2], vec![1, 3], vec![2, 4], vec![3, 4]]
    );
}

#[test]
fn redup_avoids_committed_pieces_and_repeats() {
    let cfg = small_inventory();
    let mut excluded = vec![false; 6];
    excluded[0] = true;
    excluded[3] = true;
    let all = duplicate_combination(&cfg, &vec![0, 4, 2], &excluded);
    // two members of class {0,1,4} without 0, one of {2,3} without 3
    assert_eq!(as_sets(&all), vec![vec![1, 2, 4]]);
    let none = vec![false; 6];
    assert!(duplicate_combination(&cfg, &vec![], &none).is_empty());
}

#[test]
fn redup_lists_each_set_once() {
    let cfg = small_inventory();
    let none = vec![false; 6];
    // two members of the class {0, 1, 4}: each pair of them once
    let mut all = duplicate_combination(&cfg, &vec![0, 1], &none);
    assert_eq!(all.len(), 3);
    all.sort();
    assert_eq!(all, vec![vec![0, 1], vec![0, 4], vec![1, 4]]);
}

#[test]
fn combination_text_sorts_ids() {
    let cfg = RectConfiguration::new(
        Rectangle::new(-1, 4, 8),
        vec![Rectangle::new(7, 1, 1), Rectangle::new(3, 1, 1), Rectangle::new(5, 1, 1)],
    );
    assert_eq!(combination_to_string(&cfg, &vec![0, 1, 2]), "3,5,7");
    assert_eq!(combination_from_string(&cfg, "3,5,7"), Some(vec![0, 1, 2]));
}

#[test]
fn combination_text_lists_ids() {
    let cfg = small_inventory();
    assert_eq!(combination_to_string(&cfg, &vec![0, 2, 5]), "1,3,6");
    assert_eq!(combination_to_string(&cfg, &vec![]), "");
    let neg = RectConfiguration::new(
        Rectangle::new(-1, 4, 8),
        vec![Rectangle::new(-7, 1, 1), Rectangle::new(12, 1, 1)],
    );
    assert_eq!(combination_to_string(&neg, &vec![0, 1]), "-7,12");
}

#[test]
fn combination_from_ids_checks_the_inventory() {
    let cfg = small_inventory();
    assert_eq!(combination_from_ids(&cfg, &vec![6, 1, 3, 1]), Some(vec![0, 2, 5]));
    assert_eq!(combination_from_ids(&cfg, &vec![1, 9]), None);
    assert_eq!(combination_from_ids(&cfg, &vec![]), Some(vec![]));
}

#[test]
fn stored_lines_are_read_back() {
    let cfg = small_inventory();
    assert_eq!(combination_from_string(&cfg, "1,3,6"), Some(vec![0, 2, 5]));
    assert_eq!(combination_from_string(&cfg, "6,1"), Some(vec![0, 5]));
    assert_eq!(combination_from_string(&cfg, ""), Some(vec![]));
    // an id that names no piece
    assert_eq!(combination_from_string(&cfg, "1,9"), None);
    // malformed fields
    assert_eq!(combination_from_string(&cfg, "1,,3"), None);
    assert_eq!(combination_from_string(&cfg, "1,"), None);
    assert_eq!(combination_from_string(&cfg, ",1"), None);
    assert_eq!(combination_from_string(&cfg, "1;3"), None);
    assert_eq!(combination_from_string(&cfg, "-"), None);
}

#[test]
fn id_text_is_read_back() {
    assert_eq!(parse_ids_text("-7,12,0"), Some(vec![-7, 12, 0]));
    assert_eq!(parse_ids_text("-128,127"), Some(vec![-128, 127]));
    assert_eq!(parse_ids_text("128"), None);
    assert_eq!(parse_ids_text("-129"), None);
    assert_eq!(parse_ids_text("99999999999"), None);
    assert_eq!(parse_ids_text("1-2"), None);
    assert_eq!(parse_ids_text("007"), Some(vec![7]));
}

#[test]
fn combination_text_round_trips() {
    let cfg = small_inventory();
    for c in [vec![], vec![3], vec![0, 2, 5], vec![1, 2, 3, 4]] {
        let text = combination_to_string(&cfg, &c);
        assert_eq!(combination_from_string(&cfg, &text), Some(c));
    }
}
