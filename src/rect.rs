use vstd::prelude::*;

use crate::settings::ProgramStorage;

verus! {

/// Identity of a piece; the container carries a reserved id of its own.
pub type RecId = i8;

/// A length in the configuration's fixed unit.
pub type RecDimension = u32;

/// A rectangular piece: an id, a footprint and its area.
#[derive(Debug, Clone, Copy)]
pub struct Rectangle {
    pub id: RecId,
    pub width: RecDimension,
    pub height: RecDimension,
    pub area: u32,
}

/// The piece turned by a quarter: width and height swapped.
pub open spec fn rotated(r: Rectangle) -> Rectangle {
    Rectangle { id: r.id, width: r.height, height: r.width, area: r.area }
}

/// A piece whose area field is its width times its height, with both sides positive.
pub open spec fn rect_wf(r: Rectangle) -> bool {
    &&& r.width >= 1
    &&& r.height >= 1
    &&& r.area == r.width * r.height
}

/// The footprint fits the container, side by side.
pub open spec fn fits_in(r: Rectangle, big: Rectangle) -> bool {
    r.width <= big.width && r.height <= big.height
}

/// A side rounded down to a multiple of ten once it reaches one hundred.
pub open spec fn coarse(x: u32) -> u32 {
    if x >= 100 {
        ((x / 10) * 10) as u32
    } else {
        x
    }
}

/// The dimension-equivalence key of a footprint: both sides coarsened, larger first.
pub open spec fn dedup_spec(r: Rectangle) -> (u32, u32) {
    let x = coarse(r.height);
    let y = coarse(r.width);
    if x > y {
        (x, y)
    } else {
        (y, x)
    }
}

impl Rectangle {
    /// A piece of the given height and width (in this order).
    pub fn new(id: RecId, height: RecDimension, width: RecDimension) -> (r: Rectangle)
        requires
            width * height <= u32::MAX,
        ensures
            r.id == id,
            r.width == width,
            r.height == height,
            r.area == width * height,
    {
        Rectangle { id, width, height, area: width * height }
    }

    /// The same piece with width and height swapped.
    pub fn rotate(&self) -> (r: Rectangle)
        requires
            self.area == self.width * self.height,
        ensures
            r == rotated(*self),
    {
        proof {
            vstd::arithmetic::mul::lemma_mul_is_commutative(self.width as int, self.height as int);
        }
        Rectangle::new(self.id, self.width, self.height)
    }

    /// The footprints of this piece, as it is and turned, that fit the container;
    /// a square piece yields one footprint.
    pub fn get_possible_orientations(&self, big_rect: &Rectangle) -> (r: Vec<Rectangle>)
        requires
            self.area == self.width * self.height,
        ensures
            r@.len() <= 2,
            r@.no_duplicates(),
            r@.contains(*self) <==> fits_in(*self, *big_rect),
            r@.contains(rotated(*self)) <==> fits_in(rotated(*self), *big_rect),
            forall|i: int| 0 <= i < r@.len() ==> r@[i] == *self || r@[i] == rotated(*self),
    {
        let fits_plain = self.height <= big_rect.height && self.width <= big_rect.width;
        let fits_turned = self.width <= big_rect.height && self.height <= big_rect.width;
        let mut orientations: Vec<Rectangle> = Vec::new();
        if fits_plain {
            orientations.push(*self);
        }
        if fits_turned && self.width != self.height {
            orientations.push(self.rotate());
        }
        proof {
            let s = orientations@;
            if self.width == self.height {
                assert(rotated(*self) == *self);
            } else {
                assert(rotated(*self) != *self);
            }
            if fits_plain && fits_turned && self.width != self.height {
                assert(s =~= seq![*self, rotated(*self)]);
                assert(s[0] == *self && s[1] == rotated(*self));
            } else if fits_plain {
                assert(s =~= seq![*self]);
                assert(s[0] == *self);
            } else if fits_turned && self.width != self.height {
                assert(s =~= seq![rotated(*self)]);
                assert(s[0] == rotated(*self));
            } else {
                assert(s =~= Seq::<Rectangle>::empty());
            }
        }
        orientations
    }

    /// The dimension-equivalence key of this piece.
    pub fn dedup(&self) -> (r: (RecDimension, RecDimension))
        ensures
            r == dedup_spec(*self),
    {
        let x = if self.height >= 100 {
            (self.height / 10) * 10
        } else {
            self.height
        };
        let y = if self.width >= 100 {
            (self.width / 10) * 10
        } else {
            self.width
        };
        if x > y {
            return (x, y);
        }
        (y, x)
    }
}

impl PartialEq for Rectangle {
    /// Pieces are the same piece when their ids agree.
    fn eq(&self, other: &Rectangle) -> (r: bool) {
        self.id == other.id
    }
}

impl vstd::std_specs::cmp::PartialEqSpecImpl for Rectangle {
    open spec fn obeys_eq_spec() -> bool {
        true
    }

    open spec fn eq_spec(&self, other: &Rectangle) -> bool {
        self.id == other.id
    }
}

/// A piece at a position; it covers the unit cells `x..x+width` by `y..y+height`.
#[derive(Debug, Clone, Copy)]
pub struct PlacedRectangle {
    pub rect: Rectangle,
    pub x: RecDimension,
    pub y: RecDimension,
}

/// Its far corner is representable.
pub open spec fn placed_wf(p: PlacedRectangle) -> bool {
    &&& p.rect.width >= 1
    &&& p.rect.height >= 1
    &&& p.x + p.rect.width <= u32::MAX
    &&& p.y + p.rect.height <= u32::MAX
}

/// Two placed pieces of distinct ids share a unit cell: their closed corner boxes meet.
pub open spec fn collides(a: PlacedRectangle, b: PlacedRectangle) -> bool {
    &&& a.rect.id != b.rect.id
    &&& a.x < b.x + b.rect.width
    &&& b.x < a.x + a.rect.width
    &&& a.y < b.y + b.rect.height
    &&& b.y < a.y + a.rect.height
}

/// The piece collides with some piece of the layout.
pub open spec fn collides_any(p: PlacedRectangle, others: Seq<PlacedRectangle>) -> bool {
    exists|i: int| 0 <= i < others.len() && collides(#[trigger] others[i], p)
}

/// The piece moved to another position.
pub open spec fn moved_to(p: PlacedRectangle, x: int, y: int) -> PlacedRectangle {
    PlacedRectangle { rect: p.rect, x: x as u32, y: y as u32 }
}

/// No unit step towards the origin (both axes, then each axis alone) is free of collision.
pub open spec fn is_compact(p: PlacedRectangle, others: Seq<PlacedRectangle>) -> bool {
    &&& (p.x > 0 && p.y > 0 ==> collides_any(moved_to(p, p.x - 1, p.y - 1), others))
    &&& (p.x > 0 ==> collides_any(moved_to(p, p.x - 1, p.y as int), others))
    &&& (p.y > 0 ==> collides_any(moved_to(p, p.x as int, p.y - 1), others))
}

/// The piece stepped diagonally towards the origin while the step is free.
pub open spec fn slide_diag(p: PlacedRectangle, others: Seq<PlacedRectangle>) -> PlacedRectangle
    decreases p.x,
{
    if p.x > 0 && p.y > 0 && !collides_any(moved_to(p, p.x - 1, p.y - 1), others) {
        slide_diag(moved_to(p, p.x - 1, p.y - 1), others)
    } else {
        p
    }
}

/// The piece stepped left while the step is free.
pub open spec fn slide_x(p: PlacedRectangle, others: Seq<PlacedRectangle>) -> PlacedRectangle
    decreases p.x,
{
    if p.x > 0 && !collides_any(moved_to(p, p.x - 1, p.y as int), others) {
        slide_x(moved_to(p, p.x - 1, p.y as int), others)
    } else {
        p
    }
}

/// The piece stepped down while the step is free.
pub open spec fn slide_y(p: PlacedRectangle, others: Seq<PlacedRectangle>) -> PlacedRectangle
    decreases p.y,
{
    if p.y > 0 && !collides_any(moved_to(p, p.x as int, p.y - 1), others) {
        slide_y(moved_to(p, p.x as int, p.y - 1), others)
    } else {
        p
    }
}

/// One pass of compaction: diagonally, then left, then down.
pub open spec fn compact_pass(p: PlacedRectangle, others: Seq<PlacedRectangle>) -> PlacedRectangle {
    slide_y(slide_x(slide_diag(p, others), others), others)
}

/// Passes repeated while the piece moves, for at most `fuel` passes.
pub open spec fn compact_piece(p: PlacedRectangle, others: Seq<PlacedRectangle>, fuel: nat) -> PlacedRectangle
    decreases fuel,
{
    if fuel == 0 {
        p
    } else {
        let q = compact_pass(p, others);
        if q.x != p.x || q.y != p.y {
            compact_piece(q, others, (fuel - 1) as nat)
        } else {
            p
        }
    }
}

/// Where compaction (4.2) leaves the piece among `others`: every pass moves it at
/// least one step, so `x + y + 1` passes are enough to reach the fixed point.
pub open spec fn compacted_piece(p: PlacedRectangle, others: Seq<PlacedRectangle>) -> PlacedRectangle {
    compact_piece(p, others, (p.x + p.y + 1) as nat)
}

pub open spec fn all_placed_wf(s: Seq<PlacedRectangle>) -> bool {
    forall|i: int| 0 <= i < s.len() ==> placed_wf(#[trigger] s[i])
}

/// Whether the piece collides with any piece of `others`.
fn collides_with_any(p: &PlacedRectangle, others: &[PlacedRectangle]) -> (r: bool)
    requires
        placed_wf(*p),
        all_placed_wf(others@),
    ensures
        r == collides_any(*p, others@),
{
    let mut i: usize = 0;
    while i < others.len()
        invariant
            0 <= i <= others@.len(),
            placed_wf(*p),
            all_placed_wf(others@),
            forall|j: int| 0 <= j < i ==> !collides(#[trigger] others@[j], *p),
        decreases others@.len() - i,
    {
        if others[i].check_collision(p) {
            return true;
        }
        i += 1;
    }
    false
}

impl PlacedRectangle {
    /// The lower-left and the upper-right corner cell.
    pub fn get_corners(&self) -> (r: ((RecDimension, RecDimension), (RecDimension, RecDimension)))
        requires
            placed_wf(*self),
        ensures
            r.0 == (self.x, self.y),
            r.1.0 == self.x + self.rect.width - 1,
            r.1.1 == self.y + self.rect.height - 1,
    {
        (
            (self.x, self.y),
            (self.x + self.rect.width - 1, self.y + self.rect.height - 1),
        )
    }

    /// Move this piece as close to the origin as it can go without colliding with
    /// any piece of `others`; says whether it moved at all.
    pub fn compact(&mut self, others: &[PlacedRectangle]) -> (moved: bool)
        requires
            placed_wf(*old(self)),
            all_placed_wf(others@),
        ensures
            final(self).rect == old(self).rect,
            final(self).x <= old(self).x,
            final(self).y <= old(self).y,
            placed_wf(*final(self)),
            moved <==> (final(self).x != old(self).x || final(self).y != old(self).y),
            moved ==> !collides_any(*final(self), others@),
            is_compact(*final(self), others@),
            is_compact(*old(self), others@) ==> !moved,
            *final(self) == compacted_piece(*old(self), others@),
    {
        let ghost target = compacted_piece(*old(self), others@);
        let ghost mut fuel: nat = (old(self).x + old(self).y + 1) as nat;
        let mut moved_at_all = false;
        let mut moved_during_iteration = true;
        while moved_during_iteration
            invariant
                moved_during_iteration ==> compact_piece(*self, others@, fuel) == target && fuel
                    >= self.x + self.y + 1,
                !moved_during_iteration ==> *self == target,
                self.rect == old(self).rect,
                self.x <= old(self).x,
                self.y <= old(self).y,
                placed_wf(*self),
                all_placed_wf(others@),
                moved_at_all <==> (self.x != old(self).x || self.y != old(self).y),
                moved_at_all ==> !collides_any(*self, others@),
                !moved_during_iteration ==> is_compact(*self, others@),
                is_compact(*old(self), others@) && moved_during_iteration ==> *self == *old(self),
                is_compact(*old(self), others@) ==> !moved_at_all,
            decreases self.x + self.y + (if moved_during_iteration { 1int } else { 0int }),
        {
            moved_during_iteration = false;
            let start_x = self.x;
            let start_y = self.y;
            let ghost start = *self;
            let ghost dd = slide_diag(start, others@);
            // both axes at once
            let mut blocked = false;
            while !blocked && self.x > 0 && self.y > 0
                invariant
                    self.rect == old(self).rect,
                    self.x <= start_x,
                    self.y <= start_y,
                    placed_wf(*self),
                    all_placed_wf(others@),
                    (self.x != start_x || self.y != start_y) ==> !collides_any(*self, others@),
                    blocked ==> collides_any(moved_to(*self, self.x - 1, self.y - 1), others@),
                    is_compact(*old(self), others@) && start_x == old(self).x && start_y
                        == old(self).y ==> self.x == start_x && self.y == start_y,
                    blocked ==> self.x > 0 && self.y > 0,
                    !moved_during_iteration,
                    moved_at_all ==> !collides_any(*self, others@),
                    slide_diag(*self, others@) == dd,
                    blocked ==> *self == dd,
                decreases self.x + self.y + (if blocked { 0int } else { 1int }),
            {
                let trial = PlacedRectangle { rect: self.rect, x: self.x - 1, y: self.y - 1 };
                if collides_with_any(&trial, others) {
                    blocked = true;
                } else {
                    *self = trial;
                }
            }
            assert(*self == dd);
            let ghost xx = slide_x(dd, others@);
            let diag_x = self.x;
            let diag_y = self.y;
            // the horizontal axis alone
            blocked = false;
            while !blocked && self.x > 0
                invariant
                    self.rect == old(self).rect,
                    self.x <= diag_x,
                    self.y == diag_y,
                    diag_x <= start_x,
                    diag_y <= start_y,
                    placed_wf(*self),
                    all_placed_wf(others@),
                    (self.x != start_x || self.y != start_y) ==> !collides_any(*self, others@),
                    blocked ==> collides_any(moved_to(*self, self.x - 1, self.y as int), others@),
                    is_compact(*old(self), others@) && start_x == old(self).x && start_y
                        == old(self).y ==> self.x == start_x && self.y == start_y,
                    blocked ==> self.x > 0,
                    moved_at_all ==> !collides_any(*self, others@),
                    slide_x(*self, others@) == xx,
                    blocked ==> *self == xx,
                decreases self.x + (if blocked { 0int } else { 1int }),
            {
                let trial = PlacedRectangle { rect: self.rect, x: self.x - 1, y: self.y };
                if collides_with_any(&trial, others) {
                    blocked = true;
                } else {
                    *self = trial;
                }
            }
            assert(*self == xx);
            let ghost yy = slide_y(xx, others@);
            let hor_x = self.x;
            // the vertical axis alone
            blocked = false;
            while !blocked && self.y > 0
                invariant
                    self.rect == old(self).rect,
                    self.x == hor_x,
                    self.y <= diag_y,
                    hor_x <= diag_x,
                    diag_x <= start_x,
                    diag_y <= start_y,
                    placed_wf(*self),
                    all_placed_wf(others@),
                    (self.x != start_x || self.y != start_y) ==> !collides_any(*self, others@),
                    blocked ==> collides_any(moved_to(*self, self.x as int, self.y - 1), others@),
                    is_compact(*old(self), others@) && start_x == old(self).x && start_y
                        == old(self).y ==> self.x == start_x && self.y == start_y,
                    blocked ==> self.y > 0,
                    moved_at_all ==> !collides_any(*self, others@),
                    slide_y(*self, others@) == yy,
                    blocked ==> *self == yy,
                decreases self.y + (if blocked { 0int } else { 1int }),
            {
                let trial = PlacedRectangle { rect: self.rect, x: self.x, y: self.y - 1 };
                if collides_with_any(&trial, others) {
                    blocked = true;
                } else {
                    *self = trial;
                }
            }
            assert(*self == yy);
            assert(*self == compact_pass(start, others@));
            if self.x != start_x || self.y != start_y {
                moved_during_iteration = true;
                moved_at_all = true;
                proof {
                    fuel = (fuel - 1) as nat;
                }
            } else {
                assert(*self == start);
                assert(moved_to(*self, self.x - 1, self.y - 1) == moved_to(*self, diag_x - 1, diag_y - 1));
            }
        }
        moved_at_all
    }

    /// Whether the two pieces collide: distinct ids and a shared unit cell.
    pub fn check_collision(&self, other: &PlacedRectangle) -> (r: bool)
        requires
            placed_wf(*self),
            placed_wf(*other),
        ensures
            r == collides(*self, *other),
    {
        if self.rect.id == other.rect.id {
            return false;
        }
        let ((sx0, sy0), (sx1, sy1)) = self.get_corners();
        let ((ox0, oy0), (ox1, oy1)) = other.get_corners();
        sx0 <= ox1 && ox0 <= sx1 && sy0 <= oy1 && oy0 <= sy1
    }

    /// Whether the piece lies inside the container of the configuration, whose origin
    /// is at (0, 0).
    pub fn check_bounds(&self, storage: &ProgramStorage) -> (r: bool)
        requires
            placed_wf(*self),
        ensures
            r == (self.x + self.rect.width <= storage.rect_configuration.big_rect.width && self.y
                + self.rect.height <= storage.rect_configuration.big_rect.height),
    {
        let big_rect = &storage.rect_configuration.big_rect;
        self.x + self.rect.width <= big_rect.width && self.y + self.rect.height <= big_rect.height
    }
}

/// The shortest side among the placed pieces, 0 for none.
pub fn get_smallest_side(rects: &Vec<PlacedRectangle>) -> (r: RecDimension)
    ensures
        rects@.len() == 0 ==> r == 0,
        rects@.len() > 0 ==> (exists|i: int|
            0 <= i < rects@.len() && (r == rects@[i].rect.width || r == rects@[i].rect.height)),
        forall|i: int|
            0 <= i < rects@.len() ==> r <= rects@[i].rect.width && r <= rects@[i].rect.height,
{
    if rects.len() == 0 {
        return 0;
    }
    let mut best: RecDimension = if rects[0].rect.width < rects[0].rect.height {
        rects[0].rect.width
    } else {
        rects[0].rect.height
    };
    let mut i: usize = 1;
    while i < rects.len()
        invariant
            1 <= i <= rects@.len(),
            exists|k: int|
                0 <= k < rects@.len() && (best == rects@[k].rect.width || best
                    == rects@[k].rect.height),
            forall|k: int|
                0 <= k < i ==> best <= rects@[k].rect.width && best <= rects@[k].rect.height,
        decreases rects@.len() - i,
    {
        let r = rects[i].rect;
        let side = if r.width < r.height {
            r.width
        } else {
            r.height
        };
        if side < best {
            best = side;
        }
        i += 1;
    }
    best
}

} // verus!
