use rect_packing::config::RectConfiguration;
use rect_packing::rect::{get_smallest_side, PlacedRectangle, Rectangle};
use rect_packing::settings::{ProgramStorage, Settings};

#[test]
fn test_collision() {
    let rect1 = PlacedRectangle {
        rect: Rectangle {
            id: 2,
            width: 2,
            height: 1,
            area: 2,
        },
        x: 0,
        y: 0,
    };
    let rect2 = PlacedRectangle {
        rect: Rectangle {
            id: 6,
            width: 2,
            height: 2,
            area: 4,
        },
        x: 0,
        y: 0,
    };
    let rect3 = PlacedRectangle {
        rect: Rectangle {
            id: 9,
            width: 1,
            height: 2,
            area: 2,
        },
        x: 0,
        y: 0,
    };
    assert!(rect1.check_collision(&rect2));
    assert!(rect2.check_collision(&rect3));
    assert!(rect3.check_collision(&rect1));
}

fn placed(id: i8, width: u32, height: u32, x: u32, y: u32) -> PlacedRectangle {
    PlacedRectangle {
        rect: Rectangle::new(id, height, width),
        x,
        y,
    }
}

#[test]
fn new_orders_height_before_width() {
    let r = Rectangle::new(3, 2, 5);
    assert_eq!(r.height, 2);
    assert_eq!(r.width, 5);
    assert_eq!(r.area, 10);
}

#[test]
fn rotate_swaps_sides() {
    let r = Rectangle::new(4, 2, 7).rotate();
    assert_eq!(r.id, 4);
    assert_eq!(r.height, 7);
    assert_eq!(r.width, 2);
    assert_eq!(r.area, 14);
}

#[test]
fn orientations_keep_only_fitting_footprints() {
    let big = Rectangle::new(-1, 4, 10);
    // fits both ways
    let both = Rectangle::new(1, 2, 3).get_possible_orientations(&big);
    assert_eq!(both.len(), 2);
    assert!(both.iter().any(|r| r.width == 3 && r.height == 2));
    assert!(both.iter().any(|r| r.width == 2 && r.height == 3));
    // turned it would be five high: only as it is
    let flat = Rectangle::new(8, 1, 5).get_possible_orientations(&big);
    assert_eq!(flat.len(), 1);
    assert_eq!((flat[0].width, flat[0].height), (5, 1));
    // as it is it would be five high: only turned
    let tall = Rectangle::new(8, 5, 1).get_possible_orientations(&big);
    assert_eq!(tall.len(), 1);
    assert_eq!((tall[0].width, tall[0].height), (5, 1));
    // a square yields one footprint
    let square = Rectangle::new(6, 2, 2).get_possible_orientations(&big);
    assert_eq!(square.len(), 1);
    // too large either way
    let none = Rectangle::new(9, 11, 11).get_possible_orientations(&big);
    assert!(none.is_empty());
}

#[test]
fn dedup_key_rounds_large_sides_and_orders_them() {
    assert_eq!(Rectangle::new(1, 4500, 1980).dedup(), (4500, 1980));
    assert_eq!(Rectangle::new(2, 2235, 2740).dedup(), (2740, 2230));
    assert_eq!(Rectangle::new(3, 99, 105).dedup(), (100, 99));
    assert_eq!(Rectangle::new(4, 17, 45).dedup(), (45, 17));
    assert_eq!(Rectangle::new(5, 3235, 1735).dedup(), Rectangle::new(6, 1730, 3230).dedup());
}

#[test]
fn pieces_are_equal_by_id() {
    assert!(Rectangle::new(1, 2, 3) == Rectangle::new(1, 5, 5));
    assert!(Rectangle::new(1, 2, 3) != Rectangle::new(2, 2, 3));
}

#[test]
fn adjacent_pieces_do_not_collide_but_overlapping_ones_do() {
    let a = placed(1, 2, 2, 0, 0);
    let right = placed(2, 2, 2, 2, 0);
    let above = placed(3, 2, 2, 0, 2);
    let overlapping = placed(4, 2, 2, 1, 1);
    assert!(!a.check_collision(&right));
    assert!(!a.check_collision(&above));
    assert!(a.check_collision(&overlapping));
    assert!(overlapping.check_collision(&a));
    // the same id never collides
    assert!(!a.check_collision(&placed(1, 2, 2, 0, 0)));
}

#[test]
fn crossing_pieces_collide() {
    let wide = placed(1, 5, 1, 0, 2);
    let tall = placed(2, 1, 5, 2, 0);
    assert!(wide.check_collision(&tall));
    assert!(tall.check_collision(&wide));
}

#[test]
fn corners_and_bounds() {
    let p = placed(1, 3, 2, 4, 5);
    assert_eq!(p.get_corners(), ((4, 5), (6, 6)));
    let in_container = |height: u32, width: u32| {
        let cfg = RectConfiguration::new(Rectangle::new(-1, height, width), vec![]);
        p.check_bounds(&ProgramStorage::new(cfg, Settings::default()))
    };
    assert!(in_container(7, 7));
    assert!(!in_container(7, 6));
    assert!(!in_container(6, 7));
}

#[test]
fn compact_moves_towards_origin_until_blocked() {
    let others = vec![placed(1, 2, 2, 0, 0)];
    let mut p = placed(2, 2, 2, 5, 5);
    assert!(p.compact(&others));
    // diagonally down to (2, 2), then left to (0, 2), resting on piece 1
    assert_eq!((p.x, p.y), (0, 2));
    // compacting again moves nothing
    let mut q = p;
    assert!(!q.compact(&others));
    assert_eq!((q.x, q.y), (p.x, p.y));
}

#[test]
fn compact_alone_reaches_origin() {
    let mut p = placed(2, 3, 1, 4, 9);
    assert!(p.compact(&[]));
    assert_eq!((p.x, p.y), (0, 0));
    assert!(!p.compact(&[]));
}

#[test]
fn smallest_side_of_layout() {
    let layout = vec![placed(1, 4, 3, 0, 0), placed(2, 5, 2, 0, 3)];
    assert_eq!(get_smallest_side(&layout), 2);
    assert_eq!(get_smallest_side(&vec![]), 0);
}
