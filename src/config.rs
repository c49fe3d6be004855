use vstd::prelude::*;

use crate::rect::{fits_in, rect_wf, rotated, RecId, Rectangle};

verus! {

/// `s` is the orientation set of piece `r` against container `big`: the piece as it is
/// and turned, each present exactly when it fits, without repeats.
pub open spec fn orientation_set(s: Seq<Rectangle>, r: Rectangle, big: Rectangle) -> bool {
    &&& s.len() <= 2
    &&& s.no_duplicates()
    &&& (s.contains(r) <==> fits_in(r, big))
    &&& (s.contains(rotated(r)) <==> fits_in(rotated(r), big))
    &&& forall|i: int| 0 <= i < s.len() ==> s[i] == r || s[i] == rotated(r)
}

/// Every piece well formed, and no two pieces share an id.
pub open spec fn inventory_wf(blocks: Seq<Rectangle>) -> bool {
    &&& forall|i: int| 0 <= i < blocks.len() ==> rect_wf(#[trigger] blocks[i])
    &&& forall|i: int, j: int|
        0 <= i < blocks.len() && 0 <= j < blocks.len() && i != j ==> blocks[i].id
            != blocks[j].id
}

/// The container, the inventory, and the orientation set of each piece, by position.
pub struct RectConfiguration {
    pub big_rect: Rectangle,
    pub available_blocks: Vec<Rectangle>,
    pub rotated_available_block_map: Vec<Vec<Rectangle>>,
}

impl RectConfiguration {
    pub open spec fn wf(&self) -> bool {
        &&& rect_wf(self.big_rect)
        &&& inventory_wf(self.available_blocks@)
        &&& self.rotated_available_block_map@.len() == self.available_blocks@.len()
        &&& forall|i: int|
            0 <= i < self.available_blocks@.len() ==> orientation_set(
                #[trigger] self.rotated_available_block_map@[i]@,
                self.available_blocks@[i],
                self.big_rect,
            )
    }

    /// A configuration for the container and inventory, with each orientation set computed.
    pub fn new(big_rect: Rectangle, available_blocks: Vec<Rectangle>) -> (r: RectConfiguration)
        requires
            rect_wf(big_rect),
            inventory_wf(available_blocks@),
        ensures
            r.wf(),
            r.big_rect == big_rect,
            r.available_blocks@ == available_blocks@,
    {
        let mut rotated_map: Vec<Vec<Rectangle>> = Vec::new();
        let mut i: usize = 0;
        while i < available_blocks.len()
            invariant
                0 <= i <= available_blocks@.len(),
                inventory_wf(available_blocks@),
                rotated_map@.len() == i,
                forall|k: int|
                    0 <= k < i ==> orientation_set(
                        #[trigger] rotated_map@[k]@,
                        available_blocks@[k],
                        big_rect,
                    ),
            decreases available_blocks@.len() - i,
        {
            let o = available_blocks[i].get_possible_orientations(&big_rect);
            rotated_map.push(o);
            i += 1;
        }
        RectConfiguration {
            big_rect,
            available_blocks,
            rotated_available_block_map: rotated_map,
        }
    }

    /// The position of the piece with the given id in the inventory.
    pub fn find_block(&self, id: RecId) -> (r: Option<usize>)
        ensures
            r matches Some(i) ==> i < self.available_blocks@.len()
                && self.available_blocks@[i as int].id == id,
            r is None ==> forall|i: int|
                0 <= i < self.available_blocks@.len() ==> self.available_blocks@[i].id != id,
    {
        let mut i: usize = 0;
        while i < self.available_blocks.len()
            invariant
                0 <= i <= self.available_blocks@.len(),
                forall|k: int| 0 <= k < i ==> self.available_blocks@[k].id != id,
            decreases self.available_blocks@.len() - i,
        {
            if self.available_blocks[i].id == id {
                return Some(i);
            }
            i += 1;
        }
        None
    }
}

/// The ids are one to the number of pieces, in order.
pub open spec fn numbered_in_order(blocks: Seq<Rectangle>) -> bool {
    forall|i: int| 0 <= i < blocks.len() ==> #[trigger] blocks[i].id == i + 1
}

proof fn lemma_numbered_unique(blocks: Seq<Rectangle>)
    requires
        numbered_in_order(blocks),
    ensures
        forall|i: int, j: int|
            0 <= i < blocks.len() && 0 <= j < blocks.len() && i != j ==> blocks[i].id
                != blocks[j].id,
{
    assert forall|i: int, j: int|
        0 <= i < blocks.len() && 0 <= j < blocks.len() && i != j implies blocks[i].id
            != blocks[j].id by {
        assert(blocks[i].id == i + 1);
        assert(blocks[j].id == j + 1);
    }
}

/// The eighteen-piece inventory measured in whole millimetres.
pub fn mm_rects() -> (r: RectConfiguration)
    ensures
        r.wf(),
        r.big_rect.id == -1 && r.big_rect.height == 47 && r.big_rect.width == 71,
        r.available_blocks@.len() == 18,
        numbered_in_order(r.available_blocks@),
{
    let blocks = vec![
        Rectangle::new(1, 45, 19),
        Rectangle::new(2, 27, 22),
        Rectangle::new(3, 27, 25),
        Rectangle::new(4, 27, 27),
        Rectangle::new(5, 32, 17),
        Rectangle::new(6, 32, 22),
        Rectangle::new(7, 17, 20),
        Rectangle::new(8, 22, 12),
        Rectangle::new(9, 17, 14),
        Rectangle::new(10, 17, 19),
        Rectangle::new(11, 24, 14),
        Rectangle::new(12, 32, 17),
        Rectangle::new(13, 44, 17),
        Rectangle::new(14, 32, 14),
        Rectangle::new(15, 22, 12),
        Rectangle::new(16, 52, 12),
        Rectangle::new(17, 45, 12),
        Rectangle::new(18, 22, 10),
    ];
    proof {
        lemma_numbered_unique(blocks@);
    }
    RectConfiguration::new(Rectangle::new(-1, 47, 71), blocks)
}

/// The same inventory in tenths of a millimetre.
pub fn mm10_rects() -> (r: RectConfiguration)
    ensures
        r.wf(),
        r.big_rect.id == -1 && r.big_rect.height == 464 && r.big_rect.width == 704,
        r.available_blocks@.len() == 18,
        numbered_in_order(r.available_blocks@),
{
    let blocks = vec![
        Rectangle::new(1, 450, 198),
        Rectangle::new(2, 274, 223),
        Rectangle::new(3, 274, 249),
        Rectangle::new(4, 274, 274),
        Rectangle::new(5, 323, 173),
        Rectangle::new(6, 323, 223),
        Rectangle::new(7, 173, 200),
        Rectangle::new(8, 224, 124),
        Rectangle::new(9, 173, 148),
        Rectangle::new(10, 173, 198),
        Rectangle::new(11, 249, 148),
        Rectangle::new(12, 323, 173),
        Rectangle::new(13, 448, 174),
        Rectangle::new(14, 323, 148),
        Rectangle::new(15, 224, 124),
        Rectangle::new(16, 524, 123),
        Rectangle::new(17, 455, 123),
        Rectangle::new(18, 224, 99),
    ];
    proof {
        lemma_numbered_unique(blocks@);
    }
    RectConfiguration::new(Rectangle::new(-1, 464, 704), blocks)
}

/// The same inventory in hundredths of a millimetre.
pub fn mm100_rects() -> (r: RectConfiguration)
    ensures
        r.wf(),
        r.big_rect.id == -1 && r.big_rect.height == 4635 && r.big_rect.width == 7040,
        r.available_blocks@.len() == 18,
        numbered_in_order(r.available_blocks@),
{
    let blocks = vec![
        Rectangle::new(1, 4500, 1980),
        Rectangle::new(2, 2740, 2235),
        Rectangle::new(3, 2740, 2490),
        Rectangle::new(4, 2740, 2740),
        Rectangle::new(5, 3235, 1730),
        Rectangle::new(6, 3230, 2235),
        Rectangle::new(7, 1735, 2000),
        Rectangle::new(8, 2240, 1240),
        Rectangle::new(9, 1735, 1485),
        Rectangle::new(10, 1735, 1980),
        Rectangle::new(11, 2495, 1485),
        Rectangle::new(12, 3235, 1735),
        Rectangle::new(13, 4485, 1740),
        Rectangle::new(14, 3235, 1485),
        Rectangle::new(15, 2240, 1240),
        Rectangle::new(16, 5245, 1235),
        Rectangle::new(17, 4550, 1235),
        Rectangle::new(18, 2240, 990),
    ];
    proof {
        lemma_numbered_unique(blocks@);
    }
    RectConfiguration::new(Rectangle::new(-1, 4635, 7040), blocks)
}

} // verus!
