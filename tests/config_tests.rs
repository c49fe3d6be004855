use rect_packing::config::{mm100_rects, mm10_rects, mm_rects, RectConfiguration};
use rect_packing::rect::Rectangle;

#[test]
fn millimetre_inventories() {
    let mm = mm_rects();
    assert_eq!((mm.big_rect.height, mm.big_rect.width), (47, 71));
    assert_eq!(mm.available_blocks.len(), 18);
    let mm10 = mm10_rects();
    assert_eq!((mm10.big_rect.height, mm10.big_rect.width), (464, 704));
    let mm100 = mm100_rects();
    assert_eq!((mm100.big_rect.height, mm100.big_rect.width), (4635, 7040));
    assert_eq!(mm100.available_blocks[15].height, 5245);
    assert_eq!(mm100.available_blocks[15].width, 1235);
    assert_eq!(mm100.rotated_available_block_map.len(), 18);
}

#[test]
fn orientation_sets_follow_the_container() {
    let cfg = mm_rects();
    // piece 16 is 52 high: it only fits turned in a 47 high container
    let o = &cfg.rotated_available_block_map[15];
    assert_eq!(o.len(), 1);
    assert_eq!((o[0].height, o[0].width), (12, 52));
    // piece 4 is square
    assert_eq!(cfg.rotated_available_block_map[3].len(), 1);
    // piece 1 fits both ways
    assert_eq!(cfg.rotated_available_block_map[0].len(), 2);
}

#[test]
fn find_block_by_id() {
    let cfg = RectConfiguration::new(
        Rectangle::new(-1, 4, 8),
        vec![Rectangle::new(7, 1, 2), Rectangle::new(3, 2, 2)],
    );
    assert_eq!(cfg.find_block(3), Some(1));
    assert_eq!(cfg.find_block(7), Some(0));
    assert_eq!(cfg.find_block(5), None);
}
