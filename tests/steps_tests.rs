use rect_packing::combination::get_unique_combination_key;
use rect_packing::config::RectConfiguration;
use rect_packing::placement::{step3_check_candidate, step3_check_permutation};
use rect_packing::rect::{PlacedRectangle, Rectangle};
use rect_packing::settings::{ProgramStorage, Settings};
use rect_packing::steps::{step1_generate_candiates, step2_deduplication, step4_calculate_matches};

fn nine_pieces() -> RectConfiguration {
    RectConfiguration::new(
        Rectangle::new(-1, 4, 10),
        vec![
            Rectangle::new(1, 2, 2),
            Rectangle::new(2, 1, 2),
            Rectangle::new(3, 2, 3),
            Rectangle::new(4, 1, 3),
            Rectangle::new(5, 2, 4),
            Rectangle::new(6, 2, 2),
            Rectangle::new(7, 3, 2),
            Rectangle::new(8, 1, 5),
            Rectangle::new(9, 1, 2),
        ],
    )
}

fn nine_piece_settings() -> Settings {
    Settings {
        thread_count: 14,
        steps: [false, false, false, false],
        distance_between_rectangles: 10,
        min_rectangle_amount: 9,
        max_rectangle_amount: 9,
        ..Default::default()
    }
}

fn ids_to_positions(storage: &ProgramStorage, line: &str) -> Vec<usize> {
    line.trim()
        .split(',')
        .map(|id| {
            storage
                .rect_configuration
                .find_block(id.trim().parse::<i8>().unwrap())
                .unwrap()
        })
        .collect()
}

#[test]
fn test_single_permutation() {
    let storage = ProgramStorage::new(nine_pieces(), nine_piece_settings());

    // check all permutations for solution
    let s = "2,9,5,4,7,1,8,6,3".split('\n');

    for s1 in s {
        let c: Vec<Rectangle> = ids_to_positions(&storage, s1)
            .into_iter()
            .map(|i| storage.rect_configuration.available_blocks[i])
            .collect();
        assert!(step3_check_permutation(&storage, c).is_none());
    }
}

fn twenty_pieces() -> RectConfiguration {
    RectConfiguration::new(
        Rectangle::new(-1, 4, 8),
        vec![
            Rectangle::new(1, 1, 2),
            Rectangle::new(2, 1, 2),
            Rectangle::new(3, 3, 4),
            Rectangle::new(4, 2, 2),
            Rectangle::new(5, 2, 3),
            Rectangle::new(6, 2, 3),
            Rectangle::new(7, 2, 3),
            Rectangle::new(8, 2, 3),
            Rectangle::new(9, 1, 1),
            Rectangle::new(10, 1, 4),
            Rectangle::new(11, 1, 4),
            Rectangle::new(12, 3, 3),
            Rectangle::new(13, 2, 3),
            Rectangle::new(14, 2, 2),
            Rectangle::new(15, 2, 3),
            Rectangle::new(16, 2, 4),
            Rectangle::new(17, 2, 2),
            Rectangle::new(18, 1, 2),
            Rectangle::new(19, 1, 2),
            Rectangle::new(20, 1, 2),
        ],
    )
}

fn twenty_piece_settings() -> Settings {
    Settings {
        thread_count: 14,
        steps: [false, false, false, false],
        distance_between_rectangles: 10,
        min_rectangle_amount: 5,
        max_rectangle_amount: 9,
        min_solution_area: 30,
        ..Default::default()
    }
}

fn overlaps(a: &PlacedRectangle, b: &PlacedRectangle) -> bool {
    a.x < b.x + b.rect.width
        && b.x < a.x + a.rect.width
        && a.y < b.y + b.rect.height
        && b.y < a.y + a.rect.height
}

fn assert_sound_layout(storage: &ProgramStorage, layout: &[PlacedRectangle]) {
    let big = storage.rect_configuration.big_rect;
    for (i, a) in layout.iter().enumerate() {
        assert!(a.x + a.rect.width <= big.width);
        assert!(a.y + a.rect.height <= big.height);
        for b in layout.iter().skip(i + 1) {
            assert!(a.rect.id != b.rect.id);
            assert!(!overlaps(a, b));
        }
    }
}

#[test]
fn a_fitting_pair_is_placed_without_overlap() {
    let storage = ProgramStorage::new(twenty_pieces(), twenty_piece_settings());
    // pieces 3 (3 by 4) and 12 (3 by 3) side by side in the 4 by 8 container
    let c = vec![2, 11];
    let layout = step3_check_candidate(&storage, &c).expect("the pair fits");
    assert_eq!(layout.len(), 2);
    assert_sound_layout(&storage, &layout);
    // compaction has nothing left to do
    for p in layout.iter() {
        let mut q = *p;
        assert!(!q.compact(&layout));
    }
}

#[test]
fn an_oversized_subset_is_rejected() {
    let storage = ProgramStorage::new(twenty_pieces(), twenty_piece_settings());
    // pieces 3, 5, 12 and 16 cover 35 cells, more than the 32 of the container
    let c = vec![2, 4, 11, 15];
    assert!(step3_check_candidate(&storage, &c).is_none());
    assert!(step3_check_candidate(&storage, &vec![]).is_none());
}

#[test]
fn a_piece_wider_than_the_container_fails_in_its_order() {
    let storage = ProgramStorage::new(nine_pieces(), nine_piece_settings());
    let wide = Rectangle::new(30, 1, 11);
    assert!(step3_check_permutation(&storage, vec![wide]).is_none());
}

#[test]
fn a_single_order_that_fits() {
    let storage = ProgramStorage::new(nine_pieces(), nine_piece_settings());
    let c: Vec<Rectangle> = vec![
        storage.rect_configuration.available_blocks[4],
        storage.rect_configuration.available_blocks[2],
    ];
    let layout = step3_check_permutation(&storage, c).expect("two pieces in a row");
    assert_eq!((layout[0].x, layout[0].y), (0, 0));
    assert_eq!((layout[1].x, layout[1].y), (4, 0));
    assert_sound_layout(&storage, &layout);
}

#[test]
fn generated_subsets_fit_the_container_area() {
    let cfg = RectConfiguration::new(
        Rectangle::new(-1, 2, 3),
        vec![
            Rectangle::new(1, 1, 1),
            Rectangle::new(2, 1, 2),
            Rectangle::new(3, 2, 2),
            Rectangle::new(4, 1, 3),
        ],
    );
    let settings = Settings {
        min_rectangle_amount: 1,
        max_rectangle_amount: 4,
        min_solution_area: 3,
        ..Default::default()
    };
    let mut storage = ProgramStorage::new(cfg, settings);
    step1_generate_candiates(&mut storage);
    let mut found: Vec<Vec<usize>> = storage.gathered_combinations.clone();
    found.sort();
    // areas 1, 2, 4, 3; container area 6, floor 3
    assert_eq!(
        found,
        vec![vec![0, 1], vec![0, 1, 3], vec![0, 2], vec![0, 3], vec![1, 2], vec![1, 3], vec![2], vec![3]]
    );
    for c in found.iter() {
        let area: u32 = c.iter().map(|i| storage.rect_configuration.available_blocks[*i].area).sum();
        assert!(area <= 6 && area >= 3);
    }
}

#[test]
fn deduplication_keeps_one_per_shape() {
    let mut storage = ProgramStorage::new(twenty_pieces(), twenty_piece_settings());
    // pieces 5 and 6 share a shape, 1 and 2 share a shape
    storage.gathered_combinations = vec![vec![1, 4], vec![0, 5], vec![0, 4], vec![2, 3]];
    step2_deduplication(&mut storage);
    // id sums: [1,4] -> 7, [0,5] -> 7, [0,4] -> 6, [2,3] -> 7
    assert_eq!(storage.deduplicated_combinations, vec![vec![0, 4], vec![2, 3]]);
}

#[test]
fn three_layers_covering_twenty_pieces_are_found() {
    let mut storage = ProgramStorage::new(twenty_pieces(), twenty_piece_settings());
    let groups = "1,2,4,6,7,11,14,18,19
    3,5,9,10,12
    8,13,15,16,17,20";
    let layers: Vec<Vec<usize>> = groups
        .split('\n')
        .map(|line| {
            let mut c = ids_to_positions(&storage, line);
            c.sort();
            c
        })
        .collect();
    storage.solutions = layers.clone();
    step4_calculate_matches(&mut storage);
    assert_eq!(storage.combined_solutions.len(), 1);
    let (a, b, c) = &storage.combined_solutions[0];
    let mut all: Vec<usize> = a.iter().chain(b.iter()).chain(c.iter()).copied().collect();
    all.sort();
    assert_eq!(all, (0..20).collect::<Vec<usize>>());
    // each found layer has the shape pattern of one of the given layers
    let keys: Vec<Vec<u64>> = layers
        .iter()
        .map(|l| get_unique_combination_key(&storage.rect_configuration, l))
        .collect();
    for found in [a, b, c] {
        assert!(keys.contains(&get_unique_combination_key(&storage.rect_configuration, found)));
    }
}

#[test]
fn overlapping_layers_are_not_matched() {
    let mut storage = ProgramStorage::new(twenty_pieces(), twenty_piece_settings());
    // piece 3 (3 by 4) is the only one of its shape and appears twice
    storage.solutions = vec![
        vec![0, 1, 2, 3, 5, 6, 10, 13, 17, 18],
        vec![2, 4, 8, 9, 11],
        vec![7, 12, 14, 15, 16, 19],
    ];
    step4_calculate_matches(&mut storage);
    assert!(storage.combined_solutions.is_empty());
}

#[test]
fn the_smaller_layers_of_the_covering_are_feasible() {
    let storage = ProgramStorage::new(twenty_pieces(), twenty_piece_settings());
    for line in ["3,5,9,10,12", "8,13,15,16,17,20"] {
        let mut c = ids_to_positions(&storage, line);
        c.sort();
        let layout = step3_check_candidate(&storage, &c).expect("the layer fits");
        assert_sound_layout(&storage, &layout);
    }
}

#[test]
fn test_single_combination() {
    let storage = ProgramStorage::new(nine_pieces(), nine_piece_settings());

    // check all permutations for solution
    let s = "1,2,3,4,5,6,7,8,9".split('\n');

    for s1 in s {
        let mut c = ids_to_positions(&storage, s1);
        c.sort();
        assert!(step3_check_candidate(&storage, &c).is_some());
    }
}

#[test]
fn the_nine_piece_layer_of_the_covering_is_feasible() {
    let storage = ProgramStorage::new(twenty_pieces(), twenty_piece_settings());
    let mut c = ids_to_positions(&storage, "1,2,4,6,7,11,14,18,19");
    c.sort();
    let layout = step3_check_candidate(&storage, &c).expect("the layer fits");
    assert_sound_layout(&storage, &layout);
}

#[test]
fn same_footprints_give_the_same_answer() {
    let storage = ProgramStorage::new(twenty_pieces(), twenty_piece_settings());
    // pieces 1 and 2 are both 1 by 2; pieces 5 and 6 both 2 by 3
    let a = step3_check_candidate(&storage, &vec![0, 2, 4, 11]).is_some();
    let b = step3_check_candidate(&storage, &vec![1, 2, 5, 11]).is_some();
    assert_eq!(a, b);
    assert!(a);
}

#[test]
fn matching_keeps_earlier_solutions() {
    let mut storage = ProgramStorage::new(twenty_pieces(), twenty_piece_settings());
    let earlier = (vec![0], vec![1], vec![2]);
    storage.combined_solutions = vec![earlier.clone()];
    storage.solutions = vec![];
    step4_calculate_matches(&mut storage);
    assert_eq!(storage.combined_solutions, vec![earlier]);
}
