use vstd::prelude::*;

use crate::combination::{increasing, within, Combination};
use crate::config::orientation_set;
use crate::combinatorics::{
    cartesian_product, first_of_each_key, index_permutations, is_choice, is_permutation,
};
use crate::rect::{
    collides, collides_any, compact_pass, compact_piece, compacted_piece, is_compact, moved_to,
    placed_wf, rect_wf, slide_diag, slide_x, slide_y, PlacedRectangle, Rectangle,
};
use crate::settings::ProgramStorage;

verus! {

/// The heights of the pieces, each with one clearance added, summed.
pub open spec fn stacked_height(c: Seq<Rectangle>, d: int) -> int
    decreases c.len(),
{
    if c.len() == 0 {
        0
    } else {
        stacked_height(c.drop_last(), d) + c.last().height + d
    }
}

/// The sum of all coordinates of a layout.
pub open spec fn coord_sum(s: Seq<PlacedRectangle>) -> int
    decreases s.len(),
{
    if s.len() == 0 {
        0
    } else {
        coord_sum(s.drop_last()) + s.last().x + s.last().y
    }
}

/// A layout of `c` in its order inside `big`: no two pieces of distinct ids share a
/// cell, each lies within `[0, width) x [0, height)`, and none can take a unit step
/// towards the origin.
pub open spec fn layout_sound(p: Seq<PlacedRectangle>, c: Seq<Rectangle>, big: Rectangle) -> bool {
    &&& p.len() == c.len()
    &&& forall|i: int| 0 <= i < p.len() ==> (#[trigger] p[i]).rect == c[i]
    &&& forall|i: int, j: int|
        0 <= i < p.len() && 0 <= j < p.len() ==> !collides(#[trigger] p[i], #[trigger] p[j])
    &&& forall|i: int|
        0 <= i < p.len() ==> (#[trigger] p[i]).x + p[i].rect.width <= big.width && p[i].y
            + p[i].rect.height <= big.height
    &&& forall|i: int| 0 <= i < p.len() ==> is_compact(#[trigger] p[i], p)
}

/// The largest of `s[from..to]`, and 0 for an empty range.
pub open spec fn range_max(s: Seq<int>, from: int, to: int) -> int
    decreases to - from,
{
    if to <= from {
        0
    } else {
        let m = range_max(s, from, to - 1);
        if s[to - 1] > m {
            s[to - 1]
        } else {
            m
        }
    }
}

/// `s` with the entries of `from..to` set to `v`.
pub open spec fn fill(s: Seq<int>, from: int, to: int, v: int) -> Seq<int> {
    Seq::new(s.len(), |c: int| if from <= c < to { v } else { s[c] })
}

/// The state of the shelf pass: the next column counting clearances, the width used in
/// the current row, the column heights with clearances, the column heights without,
/// the pieces placed so far, and whether the pass is still going.
pub type ShelfState = (int, int, Seq<int>, Seq<int>, Seq<PlacedRectangle>, bool);

/// One piece of the shelf pass: wrap to a new row when the row is full (failing if the
/// pieces so far already stand too high), then set the piece on the highest column
/// under it, one clearance above any piece below.
pub open spec fn shelf_step(st: ShelfState, r: Rectangle, big: Rectangle, d: int) -> ShelfState {
    let (x_ws, x_n, tws, t, placed, going) = st;
    if !going {
        st
    } else if r.width > big.width {
        (x_ws, x_n, tws, t, placed, false)
    } else {
        let wrap = x_n + r.width > big.width;
        if wrap && range_max(t, 0, t.len() as int) > big.height {
            (x_ws, x_n, tws, t, placed, false)
        } else {
            let x0 = if wrap { 0 } else { x_ws };
            let n0 = if wrap { 0 } else { x_n };
            let low_ws = range_max(tws, x0, x0 + r.width);
            let y = if low_ws > 0 { low_ws + d } else { 0 };
            let low = range_max(t, x0, x0 + r.width);
            (
                x0 + r.width + d,
                n0 + r.width,
                fill(tws, x0, x0 + r.width, y + r.height),
                fill(t, x0, x0 + r.width, low + r.height),
                placed.push(PlacedRectangle { rect: r, x: x0 as u32, y: y as u32 }),
                true,
            )
        }
    }
}

/// The shelf pass over the pieces in order, on `size` columns.
pub open spec fn shelf(c: Seq<Rectangle>, big: Rectangle, d: int, size: nat) -> ShelfState
    decreases c.len(),
{
    if c.len() == 0 {
        (0, 0, Seq::new(size, |i: int| 0), Seq::new(size, |i: int| 0), Seq::empty(), true)
    } else {
        shelf_step(shelf(c.drop_last(), big, d, size), c.last(), big, d)
    }
}

/// The shelf pass, with room for every clearance, ends without standing too high.
pub open spec fn shelf_fits(c: Seq<Rectangle>, big: Rectangle, d: int) -> bool {
    let st = shelf(c, big, d, (big.width + c.len() * d) as nat);
    st.5 && range_max(st.3, 0, st.3.len() as int) <= big.height
}

/// Where the shelf pass puts each piece, before compaction.
pub open spec fn shelf_layout(c: Seq<Rectangle>, big: Rectangle, d: int) -> Seq<PlacedRectangle> {
    shelf(c, big, d, (big.width + c.len() * d) as nat).4
}

proof fn lemma_range_max(s: Seq<int>, from: int, to: int)
    ensures
        range_max(s, from, to) >= 0,
        forall|c: int| from <= c < to ==> s[c] <= range_max(s, from, to),
        range_max(s, from, to) == 0 || exists|c: int| from <= c < to && s[c] == range_max(s, from, to),
    decreases to - from,
{
    if to > from {
        lemma_range_max(s, from, to - 1);
    }
}

/// What `column_max` finds over non-negative entries is the range maximum.
proof fn lemma_column_max_is_range_max(v: Seq<u32>, s: Seq<int>, from: int, to: int, r: u32)
    requires
        0 <= from <= to <= v.len(),
        s.len() == v.len(),
        forall|c: int| 0 <= c < v.len() ==> s[c] == v[c] as int,
        forall|c: int| from <= c < to ==> v[c] <= r,
        from == to ==> r == 0,
        from < to ==> exists|c: int| from <= c < to && v[c] == r,
    ensures
        r == range_max(s, from, to),
{
    lemma_range_max(s, from, to);
    if from < to {
        let c = choose|c: int| from <= c < to && v[c] == r;
        if range_max(s, from, to) != 0 {
            let c2 = choose|c2: int| from <= c2 < to && s[c2] == range_max(s, from, to);
            assert(v[c2] <= r);
        }
    }
}

proof fn lemma_shelf_stays_stopped(c: Seq<Rectangle>, big: Rectangle, d: int, size: nat, k: int)
    requires
        0 <= k <= c.len(),
        !shelf(c.subrange(0, k), big, d, size).5,
    ensures
        !shelf(c, big, d, size).5,
    decreases c.len() - k,
{
    if k < c.len() {
        assert(c.subrange(0, k + 1).drop_last() =~= c.subrange(0, k));
        lemma_shelf_stays_stopped(c, big, d, size, k + 1);
    } else {
        assert(c.subrange(0, k) =~= c);
    }
}

/// Every piece of the layout lies within `[0, width) x [0, height)`.
pub open spec fn in_container(p: Seq<PlacedRectangle>, big: Rectangle) -> bool {
    forall|i: int|
        0 <= i < p.len() ==> (#[trigger] p[i]).x + p[i].rect.width <= big.width && p[i].y
            + p[i].rect.height <= big.height
}

/// One full compaction pass over the layout from piece `i` on: each piece in turn
/// compacted against the layout as it stands.
pub open spec fn layout_pass(s: Seq<PlacedRectangle>, i: int) -> Seq<PlacedRectangle>
    decreases s.len() - i,
{
    if i < 0 || i >= s.len() {
        s
    } else {
        layout_pass(s.update(i, compacted_piece(s[i], s)), i + 1)
    }
}

/// Full passes repeated while any piece moves, for at most `fuel` passes.
pub open spec fn compact_layout(s: Seq<PlacedRectangle>, fuel: nat) -> Seq<PlacedRectangle>
    decreases fuel,
{
    if fuel == 0 {
        s
    } else {
        let t = layout_pass(s, 0);
        if t != s {
            compact_layout(t, (fuel - 1) as nat)
        } else {
            s
        }
    }
}

/// The shelf layout after compaction (4.2) to its fixed point: every pass that moves a
/// piece lowers the sum of coordinates, so that sum plus one passes are enough.
pub open spec fn compacted_layout(c: Seq<Rectangle>, big: Rectangle, d: int) -> Seq<PlacedRectangle> {
    let s = shelf_layout(c, big, d);
    compact_layout(s, (coord_sum(s) + 1) as nat)
}

/// The pieces in this order and orientation can be placed: the shelf pass succeeds and
/// the compacted layout lies inside the container.
pub open spec fn feasible(c: Seq<Rectangle>, big: Rectangle, d: int) -> bool {
    shelf_fits(c, big, d) && in_container(compacted_layout(c, big, d), big)
}

/// Two placed pieces at the same spot with the same footprint.
pub open spec fn same_spot(a: PlacedRectangle, b: PlacedRectangle) -> bool {
    a.x == b.x && a.y == b.y && a.rect.width == b.rect.width && a.rect.height == b.rect.height
}

pub open spec fn same_spots(s1: Seq<PlacedRectangle>, s2: Seq<PlacedRectangle>) -> bool {
    s1.len() == s2.len() && forall|i: int| 0 <= i < s1.len() ==> same_spot(#[trigger] s1[i], s2[i])
}

/// No two pieces of the layout share an id.
pub open spec fn distinct_ids(s: Seq<PlacedRectangle>) -> bool {
    forall|i: int, j: int| 0 <= i < s.len() && 0 <= j < s.len() && i != j ==> s[i].rect.id != s[j].rect.id
}

/// `q1` stands for piece `i` of `s1` and `q2` for piece `i` of `s2`, at the same spot.
pub open spec fn matched(q1: PlacedRectangle, s1: Seq<PlacedRectangle>, q2: PlacedRectangle, s2: Seq<PlacedRectangle>, i: int) -> bool {
    &&& same_spots(s1, s2)
    &&& distinct_ids(s1)
    &&& distinct_ids(s2)
    &&& 0 <= i < s1.len()
    &&& same_spot(q1, q2)
    &&& q1.rect.id == s1[i].rect.id
    &&& q2.rect.id == s2[i].rect.id
}

proof fn lemma_collides_matched(q1: PlacedRectangle, s1: Seq<PlacedRectangle>, q2: PlacedRectangle, s2: Seq<PlacedRectangle>, i: int)
    requires
        matched(q1, s1, q2, s2, i),
    ensures
        collides_any(q1, s1) == collides_any(q2, s2),
{
    if collides_any(q1, s1) {
        let j = choose|j: int| 0 <= j < s1.len() && collides(#[trigger] s1[j], q1);
        assert(same_spot(s1[j], s2[j]));
        assert(collides(s2[j], q2));
    }
    if collides_any(q2, s2) {
        let j = choose|j: int| 0 <= j < s2.len() && collides(#[trigger] s2[j], q2);
        assert(same_spot(s1[j], s2[j]));
        assert(collides(s1[j], q1));
    }
}

proof fn lemma_slides_matched(q1: PlacedRectangle, s1: Seq<PlacedRectangle>, q2: PlacedRectangle, s2: Seq<PlacedRectangle>, i: int)
    requires
        matched(q1, s1, q2, s2, i),
    ensures
        matched(slide_diag(q1, s1), s1, slide_diag(q2, s2), s2, i),
        matched(slide_x(q1, s1), s1, slide_x(q2, s2), s2, i),
        matched(slide_y(q1, s1), s1, slide_y(q2, s2), s2, i),
        slide_diag(q1, s1).rect == q1.rect,
        slide_x(q1, s1).rect == q1.rect,
        slide_y(q1, s1).rect == q1.rect,
        slide_diag(q2, s2).rect == q2.rect,
        slide_x(q2, s2).rect == q2.rect,
        slide_y(q2, s2).rect == q2.rect,
    decreases q1.x + q1.y,
{
    if q1.x > 0 && q1.y > 0 {
        let m1 = moved_to(q1, q1.x - 1, q1.y - 1);
        let m2 = moved_to(q2, q2.x - 1, q2.y - 1);
        lemma_collides_matched(m1, s1, m2, s2, i);
        lemma_slides_matched(m1, s1, m2, s2, i);
    }
    if q1.x > 0 {
        let m1 = moved_to(q1, q1.x - 1, q1.y as int);
        let m2 = moved_to(q2, q2.x - 1, q2.y as int);
        lemma_collides_matched(m1, s1, m2, s2, i);
        lemma_slides_matched(m1, s1, m2, s2, i);
    }
    if q1.y > 0 {
        let m1 = moved_to(q1, q1.x as int, q1.y - 1);
        let m2 = moved_to(q2, q2.x as int, q2.y - 1);
        lemma_collides_matched(m1, s1, m2, s2, i);
        lemma_slides_matched(m1, s1, m2, s2, i);
    }
}

proof fn lemma_compact_piece_matched(q1: PlacedRectangle, s1: Seq<PlacedRectangle>, q2: PlacedRectangle, s2: Seq<PlacedRectangle>, i: int, fuel: nat)
    requires
        matched(q1, s1, q2, s2, i),
    ensures
        matched(compact_piece(q1, s1, fuel), s1, compact_piece(q2, s2, fuel), s2, i),
        compact_piece(q1, s1, fuel).rect == q1.rect,
        compact_piece(q2, s2, fuel).rect == q2.rect,
    decreases fuel,
{
    if fuel > 0 {
        lemma_slides_matched(q1, s1, q2, s2, i);
        let d1 = slide_diag(q1, s1);
        let d2 = slide_diag(q2, s2);
        lemma_slides_matched(d1, s1, d2, s2, i);
        let x1 = slide_x(d1, s1);
        let x2 = slide_x(d2, s2);
        lemma_slides_matched(x1, s1, x2, s2, i);
        lemma_compact_piece_matched(compact_pass(q1, s1), s1, compact_pass(q2, s2), s2, i, (fuel - 1) as nat);
    }
}

proof fn lemma_layout_pass_matched(s1: Seq<PlacedRectangle>, s2: Seq<PlacedRectangle>, i: int)
    requires
        same_spots(s1, s2),
        distinct_ids(s1),
        distinct_ids(s2),
        0 <= i,
    ensures
        same_spots(layout_pass(s1, i), layout_pass(s2, i)),
        layout_pass(s1, i).len() == s1.len(),
        forall|j: int| 0 <= j < s1.len() ==> (#[trigger] layout_pass(s1, i)[j]).rect == s1[j].rect,
        forall|j: int| 0 <= j < s2.len() ==> (#[trigger] layout_pass(s2, i)[j]).rect == s2[j].rect,
    decreases s1.len() - i,
{
    if i < s1.len() {
        let q1 = s1[i];
        let q2 = s2[i];
        assert(same_spot(q1, q2));
        lemma_compact_piece_matched(q1, s1, q2, s2, i, (q1.x + q1.y + 1) as nat);
        let t1 = s1.update(i, compacted_piece(q1, s1));
        let t2 = s2.update(i, compacted_piece(q2, s2));
        assert(same_spots(t1, t2)) by {
            assert forall|j: int| 0 <= j < t1.len() implies same_spot(#[trigger] t1[j], t2[j]) by {
                if j != i {
                    assert(same_spot(s1[j], s2[j]));
                }
            }
        }
        assert(distinct_ids(t1));
        assert(distinct_ids(t2));
        lemma_layout_pass_matched(t1, t2, i + 1);
    }
}

proof fn lemma_compact_layout_matched(s1: Seq<PlacedRectangle>, s2: Seq<PlacedRectangle>, fuel: nat)
    requires
        same_spots(s1, s2),
        distinct_ids(s1),
        distinct_ids(s2),
    ensures
        same_spots(compact_layout(s1, fuel), compact_layout(s2, fuel)),
    decreases fuel,
{
    if fuel > 0 {
        lemma_layout_pass_matched(s1, s2, 0);
        let t1 = layout_pass(s1, 0);
        let t2 = layout_pass(s2, 0);
        assert((t1 == s1) == (t2 == s2)) by {
            if t1 == s1 {
                assert forall|j: int| 0 <= j < t2.len() implies t2[j] == s2[j] by {
                    assert(t1[j] == s1[j]);
                    assert(same_spot(t1[j], t2[j]));
                    assert(same_spot(s1[j], s2[j]));
                }
                assert(t2 =~= s2);
            }
            if t2 == s2 {
                assert forall|j: int| 0 <= j < t1.len() implies t1[j] == s1[j] by {
                    assert(t2[j] == s2[j]);
                    assert(same_spot(t1[j], t2[j]));
                    assert(same_spot(s1[j], s2[j]));
                }
                assert(t1 =~= s1);
            }
        }
        if t1 != s1 {
            assert(distinct_ids(t1));
            assert(distinct_ids(t2));
            lemma_compact_layout_matched(t1, t2, (fuel - 1) as nat);
        }
    }
}

proof fn lemma_coord_sum_spots(s1: Seq<PlacedRectangle>, s2: Seq<PlacedRectangle>)
    requires
        same_spots(s1, s2),
    ensures
        coord_sum(s1) == coord_sum(s2),
    decreases s1.len(),
{
    if s1.len() > 0 {
        assert(same_spot(s1[s1.len() - 1], s2[s2.len() - 1]));
        assert(same_spots(s1.drop_last(), s2.drop_last())) by {
            assert forall|j: int| 0 <= j < s1.drop_last().len() implies same_spot(#[trigger] s1.drop_last()[j], s2.drop_last()[j]) by {
                assert(same_spot(s1[j], s2[j]));
            }
        }
        lemma_coord_sum_spots(s1.drop_last(), s2.drop_last());
    }
}

proof fn lemma_shelf_rects(c: Seq<Rectangle>, big: Rectangle, d: int, size: nat)
    ensures
        shelf(c, big, d, size).4.len() <= c.len(),
        shelf(c, big, d, size).5 ==> shelf(c, big, d, size).4.len() == c.len(),
        forall|i: int|
            0 <= i < shelf(c, big, d, size).4.len() ==> (#[trigger] shelf(c, big, d, size).4[i]).rect == c[i],
    decreases c.len(),
{
    if c.len() > 0 {
        lemma_shelf_rects(c.drop_last(), big, d, size);
    }
}

/// No two pieces of the sequence share an id.
pub open spec fn distinct_piece_ids(c: Seq<Rectangle>) -> bool {
    forall|i: int, j: int| 0 <= i < c.len() && 0 <= j < c.len() && i != j ==> c[i].id != c[j].id
}

/// Whether pieces in an order can be placed depends on their footprints alone: pieces
/// of other ids with the same widths and heights, in the same order, are placed alike.
pub proof fn lemma_feasible_footprints(a: Seq<Rectangle>, b: Seq<Rectangle>, big: Rectangle, d: int)
    requires
        same_footprints(a, b),
        distinct_piece_ids(a),
        distinct_piece_ids(b),
    ensures
        feasible(a, big, d) == feasible(b, big, d),
{
    let size = (big.width + a.len() * d) as nat;
    lemma_shelf_footprints(a, b, big, d, size);
    lemma_shelf_rects(a, big, d, size);
    lemma_shelf_rects(b, big, d, size);
    let la = shelf_layout(a, big, d);
    let lb = shelf_layout(b, big, d);
    if shelf_fits(a, big, d) {
        assert(same_spots(la, lb)) by {
            assert forall|i: int| 0 <= i < la.len() implies same_spot(#[trigger] la[i], lb[i]) by {}
        }
        assert(distinct_ids(la)) by {
            assert forall|i: int, j: int| 0 <= i < la.len() && 0 <= j < la.len() && i != j implies la[i].rect.id != la[j].rect.id by {
                assert(la[i].rect == a[i]);
                assert(la[j].rect == a[j]);
            }
        }
        assert(distinct_ids(lb)) by {
            assert forall|i: int, j: int| 0 <= i < lb.len() && 0 <= j < lb.len() && i != j implies lb[i].rect.id != lb[j].rect.id by {
                assert(lb[i].rect == b[i]);
                assert(lb[j].rect == b[j]);
            }
        }
        lemma_coord_sum_spots(la, lb);
        lemma_compact_layout_matched(la, lb, (coord_sum(la) + 1) as nat);
        let ca = compacted_layout(a, big, d);
        let cb = compacted_layout(b, big, d);
        if in_container(ca, big) {
            assert forall|i: int| 0 <= i < cb.len() implies (#[trigger] cb[i]).x + cb[i].rect.width <= big.width
                && cb[i].y + cb[i].rect.height <= big.height by {
                assert(same_spot(ca[i], cb[i]));
                assert(ca[i].x + ca[i].rect.width <= big.width);
            }
        }
        if in_container(cb, big) {
            assert forall|i: int| 0 <= i < ca.len() implies (#[trigger] ca[i]).x + ca[i].rect.width <= big.width
                && ca[i].y + ca[i].rect.height <= big.height by {
                assert(same_spot(ca[i], cb[i]));
                assert(cb[i].x + cb[i].rect.width <= big.width);
            }
        }
    }
}

/// What a placement of `candidate` needs from the storage: a valid configuration,
/// well-formed pieces, and coordinates that stay within `u32`.
pub open spec fn placeable(storage: &ProgramStorage, candidate: Seq<Rectangle>) -> bool {
    &&& storage.rect_configuration.wf()
    &&& forall|i: int| 0 <= i < candidate.len() ==> rect_wf(#[trigger] candidate[i])
    &&& storage.rect_configuration.big_rect.width + candidate.len()
        * storage.settings.distance_between_rectangles <= u32::MAX
    &&& stacked_height(candidate, storage.settings.distance_between_rectangles as int)
        <= u32::MAX
}

proof fn lemma_stacked_prefix(c: Seq<Rectangle>, d: int, k: int)
    requires
        0 <= k <= c.len(),
        d >= 0,
    ensures
        stacked_height(c.subrange(0, k), d) <= stacked_height(c, d),
    decreases c.len() - k,
{
    if k < c.len() {
        lemma_stacked_prefix(c, d, k + 1);
        assert(c.subrange(0, k + 1).drop_last() =~= c.subrange(0, k));
    } else {
        assert(c.subrange(0, k) =~= c);
    }
}

proof fn lemma_coord_sum_update(s: Seq<PlacedRectangle>, i: int, p: PlacedRectangle)
    requires
        0 <= i < s.len(),
    ensures
        coord_sum(s.update(i, p)) == coord_sum(s) - s[i].x - s[i].y + p.x + p.y,
    decreases s.len(),
{
    if i == s.len() - 1 {
        assert(s.update(i, p).drop_last() =~= s.drop_last());
    } else {
        lemma_coord_sum_update(s.drop_last(), i, p);
        assert(s.update(i, p).drop_last() =~= s.drop_last().update(i, p));
    }
}

proof fn lemma_coord_sum_nonneg(s: Seq<PlacedRectangle>)
    ensures
        coord_sum(s) >= 0,
    decreases s.len(),
{
    if s.len() > 0 {
        lemma_coord_sum_nonneg(s.drop_last());
    }
}

/// The largest entry of `v` in `from..to`, 0 for an empty range.
fn column_max(v: &Vec<u32>, from: usize, to: usize) -> (r: u32)
    requires
        from <= to <= v@.len(),
    ensures
        forall|k: int| from <= k < to ==> v@[k] <= r,
        from == to ==> r == 0,
        from < to ==> exists|k: int| from <= k < to && v@[k] == r,
{
    let mut best: u32 = 0;
    let mut i: usize = from;
    while i < to
        invariant
            from <= i <= to <= v@.len(),
            forall|k: int| from <= k < i ==> v@[k] <= best,
            i == from ==> best == 0,
            i > from ==> exists|k: int| from <= k < i && v@[k] == best,
        decreases to - i,
    {
        if v[i] > best || i == from {
            best = v[i];
        }
        i += 1;
    }
    best
}

/// Set the entries of `v` in `from..to` to `val`.
fn fill_columns(v: &mut Vec<u32>, from: usize, to: usize, val: u32)
    requires
        from <= to <= old(v)@.len(),
    ensures
        final(v)@.len() == old(v)@.len(),
        forall|k: int| from <= k < to ==> final(v)@[k] == val,
        forall|k: int|
            0 <= k < old(v)@.len() && !(from <= k < to) ==> final(v)@[k] == old(v)@[k],
{
    let mut i: usize = from;
    while i < to
        invariant
            from <= i <= to <= v@.len(),
            v@.len() == old(v)@.len(),
            forall|k: int| from <= k < i ==> v@[k] == val,
            forall|k: int| 0 <= k < v@.len() && !(from <= k < i) ==> v@[k] == old(v)@[k],
        decreases to - i,
    {
        v.set(i, val);
        i += 1;
    }
}

/// Place the pieces in exactly the given order and orientation: shelf packing left to
/// right with the configured clearance, wrapping to a new row at the container's width,
/// then compaction towards the origin. `None` when a height bound is exceeded or a
/// piece ends outside the container.
pub fn step3_check_permutation(storage: &ProgramStorage, candidate: Vec<Rectangle>) -> (r: Option<
    Vec<PlacedRectangle>,
>)
    requires
        placeable(storage, candidate@),
    ensures
        r matches Some(p) ==> layout_sound(p@, candidate@, storage.rect_configuration.big_rect),
        r matches Some(p) ==> p@ == compacted_layout(
            candidate@,
            storage.rect_configuration.big_rect,
            storage.settings.distance_between_rectangles as int,
        ),
        r is Some <==> feasible(
            candidate@,
            storage.rect_configuration.big_rect,
            storage.settings.distance_between_rectangles as int,
        ),
        (exists|i: int|
            0 <= i < candidate@.len() && #[trigger] candidate@[i].width
                > storage.rect_configuration.big_rect.width) ==> r is None,
{
    let big = storage.rect_configuration.big_rect;
    let big_width = big.width;
    let distance = storage.settings.distance_between_rectangles;
    let n = candidate.len();
    let ghost d = distance as int;
    let ghost cand = candidate@;
    assert((n as int) * d <= u32::MAX) by (nonlinear_arith)
        requires
            big_width + (n as int) * d <= u32::MAX,
            big_width >= 0,
    ;
    let x_size: u32 = big_width + ((n as u64) * (distance as u64)) as u32;
    let mut taken_with_spaces: Vec<u32> = vec![0u32; x_size as usize];
    let mut taken: Vec<u32> = vec![0u32; x_size as usize];
    let mut placed_rects: Vec<PlacedRectangle> = Vec::new();
    let mut x_with_spaces: u32 = 0;
    let mut x_normal: u32 = 0;
    let mut k: usize = 0;
    let ghost size = x_size as nat;
    proof {
        assert(shelf(cand.subrange(0, 0), big, d, size).2 =~= taken_with_spaces@.map_values(|v: u32| v as int));
        assert(shelf(cand.subrange(0, 0), big, d, size).3 =~= taken@.map_values(|v: u32| v as int));
        assert(shelf(cand.subrange(0, 0), big, d, size).4 =~= placed_rects@);
        lemma_stacked_prefix(cand, d, n as int);
        lemma_stacked_prefix(cand, d, 0);
        assert(cand.subrange(0, n as int) =~= cand);
    }
    while k < n
        invariant
            placeable(storage, cand),
            candidate@ == cand,
            n == cand.len(),
            d == distance,
            distance == storage.settings.distance_between_rectangles,
            big == storage.rect_configuration.big_rect,
            big_width == big.width,
            x_size == big_width + n * d,
            0 <= k <= n,
            size == x_size,
            shelf(cand.subrange(0, k as int), big, d, size).5,
            shelf(cand.subrange(0, k as int), big, d, size).0 == x_with_spaces,
            shelf(cand.subrange(0, k as int), big, d, size).1 == x_normal,
            shelf(cand.subrange(0, k as int), big, d, size).2 == taken_with_spaces@.map_values(|v: u32| v as int),
            shelf(cand.subrange(0, k as int), big, d, size).3 == taken@.map_values(|v: u32| v as int),
            shelf(cand.subrange(0, k as int), big, d, size).4 == placed_rects@,
            taken_with_spaces@.len() == x_size,
            taken@.len() == x_size,
            x_normal <= big_width,
            x_with_spaces <= x_normal + k * d,
            forall|i: int| 0 <= i < k ==> cand[i].width <= big.width,
            forall|c: int| 0 <= c < x_size ==> taken@[c] <= taken_with_spaces@[c],
            forall|c: int|
                0 <= c < x_size ==> taken_with_spaces@[c] <= stacked_height(
                    cand.subrange(0, k as int),
                    d,
                ),
            stacked_height(cand.subrange(0, k as int), d) <= stacked_height(cand, d),
            stacked_height(cand, d) <= u32::MAX,
            placed_rects@.len() == k,
            forall|j: int| 0 <= j < k ==> (#[trigger] placed_rects@[j]).rect == cand[j],
            forall|j: int|
                0 <= j < k ==> (#[trigger] placed_rects@[j]).x + placed_rects@[j].rect.width
                    <= x_size,
            forall|j: int, c: int|
                0 <= j < k && placed_rects@[j].x <= c < placed_rects@[j].x
                    + placed_rects@[j].rect.width ==> (#[trigger] placed_rects@[j]).y
                    + placed_rects@[j].rect.height <= #[trigger] taken_with_spaces@[c],
            forall|j: int, l: int|
                0 <= j < k && 0 <= l < k ==> !collides(
                    #[trigger] placed_rects@[j],
                    #[trigger] placed_rects@[l],
                ),
        decreases n - k,
    {
        let rect = candidate[k];
        let w = rect.width;
        let h = rect.height;
        let ghost st = shelf(cand.subrange(0, k as int), big, d, size);
        proof {
            assert(cand.subrange(0, k + 1).drop_last() =~= cand.subrange(0, k as int));
            assert(cand.subrange(0, k + 1).last() == rect);
        }
        if w > big_width {
            proof {
                assert(shelf(cand.subrange(0, k + 1), big, d, size) == shelf_step(st, rect, big, d));
                assert(!shelf_step(st, rect, big, d).5);
                lemma_shelf_stays_stopped(cand, big, d, size, k + 1);
                assert(size == (big.width + cand.len() * d) as nat);
            }
            return None;
        }
        if w > big_width - x_normal {
            x_normal = 0;
            x_with_spaces = 0;
            let highest = column_max(&taken, 0, x_size as usize);
            proof {
                lemma_column_max_is_range_max(taken@, st.3, 0, x_size as int, highest);
            }
            if highest > big.height {
                proof {
                    assert(shelf(cand.subrange(0, k + 1), big, d, size) == shelf_step(st, rect, big, d));
                    assert(st.3.len() == x_size);
                    assert(!shelf_step(st, rect, big, d).5);
                    lemma_shelf_stays_stopped(cand, big, d, size, k + 1);
                    assert(size == (big.width + cand.len() * d) as nat);
                }
                return None;
            }
        }
        proof {
            assert((k as int) * d <= (n as int) * d) by (nonlinear_arith)
                requires
                    k < n,
                    d >= 0,
            ;
            assert(((k + 1) as int) * d == (k as int) * d + d) by (nonlinear_arith);
            assert(((k + 1) as int) * d <= (n as int) * d) by (nonlinear_arith)
                requires
                    k + 1 <= n,
                    d >= 0,
            ;
            assert(cand.subrange(0, k + 1).drop_last() =~= cand.subrange(0, k as int));
            lemma_stacked_prefix(cand, d, k + 1);
        }
        let x0 = x_with_spaces;
        let x1 = x_with_spaces + w;
        let mut ymax_with_spaces = column_max(&taken_with_spaces, x0 as usize, x1 as usize);
        let ymax = column_max(&taken, x0 as usize, x1 as usize);
        proof {
            lemma_column_max_is_range_max(taken_with_spaces@, st.2, x0 as int, x1 as int, ymax_with_spaces);
            lemma_column_max_is_range_max(taken@, st.3, x0 as int, x1 as int, ymax);
        }
        if ymax_with_spaces > 0 {
            ymax_with_spaces = ymax_with_spaces + distance;
        }
        let p = PlacedRectangle { rect, x: x0, y: ymax_with_spaces };
        proof {
            assert forall|j: int| 0 <= j < k implies !collides(
                #[trigger] placed_rects@[j],
                p,
            ) && !collides(p, placed_rects@[j]) by {
                let q = placed_rects@[j];
                if q.x < x1 && x0 < q.x + q.rect.width {
                    let c = if q.x > x0 {
                        q.x as int
                    } else {
                        x0 as int
                    };
                    assert(q.y + q.rect.height <= taken_with_spaces@[c]);
                }
            }
        }
        let ghost old_tws = taken_with_spaces@;
        placed_rects.push(p);
        let top_with_spaces = ymax_with_spaces + h;
        let top = ymax + h;
        fill_columns(&mut taken_with_spaces, x0 as usize, x1 as usize, top_with_spaces);
        fill_columns(&mut taken, x0 as usize, x1 as usize, top);
        proof {
            assert forall|j: int, c: int|
                0 <= j < k + 1 && placed_rects@[j].x <= c < placed_rects@[j].x
                    + placed_rects@[j].rect.width implies (#[trigger] placed_rects@[j]).y
                + placed_rects@[j].rect.height <= #[trigger] taken_with_spaces@[c] by {
                if j < k {
                    assert(placed_rects@[j].y + placed_rects@[j].rect.height <= old_tws[c]);
                    if x0 <= c < x1 {
                        assert(old_tws[c] <= ymax_with_spaces);
                    }
                }
            }
        }
        x_with_spaces = x1 + distance;
        x_normal = x_normal + w;
        proof {
            let st2 = shelf(cand.subrange(0, k + 1), big, d, size);
            assert(st2 == shelf_step(st, rect, big, d));
            assert(st2.2 =~= taken_with_spaces@.map_values(|v: u32| v as int));
            assert(st2.3 =~= taken@.map_values(|v: u32| v as int));
            assert(st2.4 =~= placed_rects@);
        }
        k += 1;
    }
    proof {
        assert(cand.subrange(0, n as int) =~= cand);
    }
    let highest = column_max(&taken, 0, x_size as usize);
    let ghost layout = placed_rects@;
    proof {
        let st = shelf(cand, big, d, size);
        assert(size == (big.width + cand.len() * d) as nat);
        lemma_column_max_is_range_max(taken@, st.3, 0, x_size as int, highest);
        assert(layout == shelf_layout(cand, big, d));
    }
    if highest > big.height {
        return None;
    }
    proof {
        assert forall|j: int| 0 <= j < n implies placed_wf(#[trigger] placed_rects@[j]) by {
            let q = placed_rects@[j];
            assert(q.x <= q.x as int);
            assert(q.y + q.rect.height <= taken_with_spaces@[q.x as int]);
        }
    }
    let ghost target = compact_layout(layout, (coord_sum(layout) + 1) as nat);
    let ghost mut fuel: nat = (coord_sum(layout) + 1) as nat;
    proof {
        lemma_coord_sum_nonneg(layout);
    }
    let mut compacted = true;
    while compacted
        invariant
            compacted ==> compact_layout(placed_rects@, fuel) == target && fuel >= coord_sum(
                placed_rects@,
            ) + 1,
            !compacted ==> placed_rects@ == target,
            placeable(storage, cand),
            big == storage.rect_configuration.big_rect,
            placed_rects@.len() == n,
            n == cand.len(),
            forall|j: int| 0 <= j < n ==> (#[trigger] placed_rects@[j]).rect == cand[j],
            forall|j: int| 0 <= j < n ==> placed_wf(#[trigger] placed_rects@[j]),
            forall|j: int, l: int|
                0 <= j < n && 0 <= l < n ==> !collides(
                    #[trigger] placed_rects@[j],
                    #[trigger] placed_rects@[l],
                ),
            !compacted ==> forall|j: int|
                0 <= j < n ==> is_compact(#[trigger] placed_rects@[j], placed_rects@),
        decreases coord_sum(placed_rects@) + (if compacted { 1int } else { 0int }),
    {
        compacted = false;
        let ghost start_sum = coord_sum(placed_rects@);
        let ghost pass_start = placed_rects@;
        let mut i: usize = 0;
        while i < n
            invariant
                placeable(storage, cand),
                big == storage.rect_configuration.big_rect,
                0 <= i <= n,
                placed_rects@.len() == n,
                n == cand.len(),
                forall|j: int| 0 <= j < n ==> (#[trigger] placed_rects@[j]).rect == cand[j],
                forall|j: int| 0 <= j < n ==> placed_wf(#[trigger] placed_rects@[j]),
                forall|j: int, l: int|
                    0 <= j < n && 0 <= l < n ==> !collides(
                        #[trigger] placed_rects@[j],
                        #[trigger] placed_rects@[l],
                    ),
                !compacted ==> coord_sum(placed_rects@) == start_sum,
                compacted ==> coord_sum(placed_rects@) < start_sum,
                !compacted ==> forall|j: int|
                    0 <= j < i ==> is_compact(#[trigger] placed_rects@[j], placed_rects@),
                !compacted ==> placed_rects@ == pass_start,
                layout_pass(placed_rects@, i as int) == layout_pass(pass_start, 0),
            decreases n - i,
        {
            let mut p = placed_rects[i];
            let ghost before = placed_rects@;
            if p.compact(placed_rects.as_slice()) {
                proof {
                    lemma_coord_sum_update(placed_rects@, i as int, p);
                    assert forall|l: int| 0 <= l < n implies !collides(
                        #[trigger] placed_rects@[l],
                        p,
                    ) && !collides(p, placed_rects@[l]) by {
                        if collides(placed_rects@[l], p) {
                            assert(collides_any(p, placed_rects@));
                        }
                    }
                }
                placed_rects.set(i, p);
                compacted = true;
            } else {
                assert(before.update(i as int, p) =~= before);
            }
            assert(layout_pass(before, i as int) == layout_pass(placed_rects@, i + 1));
            i += 1;
        }
        proof {
            lemma_coord_sum_nonneg(placed_rects@);
            assert(layout_pass(placed_rects@, n as int) == placed_rects@);
            if compacted {
                assert(placed_rects@ != pass_start);
                fuel = (fuel - 1) as nat;
            }
        }
    }
    let mut i: usize = 0;
    while i < n
        invariant
            0 <= i <= n,
            placed_rects@.len() == n,
            placed_rects@ == compacted_layout(cand, big, d),
            shelf_fits(cand, big, d),
            cand == candidate@,
            big == storage.rect_configuration.big_rect,
            d == storage.settings.distance_between_rectangles,
            forall|j: int| 0 <= j < n ==> placed_wf(#[trigger] placed_rects@[j]),
            forall|j: int|
                0 <= j < i ==> (#[trigger] placed_rects@[j]).x + placed_rects@[j].rect.width
                    <= big.width && placed_rects@[j].y + placed_rects@[j].rect.height
                    <= big.height,
        decreases n - i,
    {
        if !placed_rects[i].check_bounds(storage) {
            proof {
                let j = i as int;
                assert(!in_container(placed_rects@, big)) by {
                    assert(placed_rects@[j].x + placed_rects@[j].rect.width > big.width
                        || placed_rects@[j].y + placed_rects@[j].rect.height > big.height);
                }
            }
            return None;
        }
        i += 1;
    }
    Some(placed_rects)
}

/// A piece's width, height and clearance, summed.
pub open spec fn span(r: Rectangle, d: int) -> int {
    r.width + r.height + d
}

/// Any ordering of the members, in any orientation, keeps its coordinates within `u32`.
pub open spec fn coordinates_fit(storage: &ProgramStorage, candidate: Seq<usize>) -> bool {
    forall|i: int|
        0 <= i < candidate.len() ==> candidate.len() * span(
            storage.rect_configuration.available_blocks@[#[trigger] candidate[i] as int],
            storage.settings.distance_between_rectangles as int,
        ) + storage.rect_configuration.big_rect.width <= u32::MAX
}

/// `choice` picks one orientation of each member of `candidate`, in its order.
pub open spec fn is_orientation_choice(storage: &ProgramStorage, candidate: Seq<usize>, choice: Seq<Rectangle>) -> bool {
    &&& choice.len() == candidate.len()
    &&& forall|j: int|
        0 <= j < choice.len() ==> storage.rect_configuration.rotated_available_block_map@[candidate[j] as int]@.contains(
            #[trigger] choice[j],
        )
}

/// The pieces of `choice` in the order that `perm` lists their positions.
pub open spec fn arrangement(choice: Seq<Rectangle>, perm: Seq<usize>) -> Seq<Rectangle> {
    perm.map_values(|j: usize| choice[j as int])
}

/// `t` lists the members of `candidate` in some order, each in one of its orientations.
pub open spec fn is_arrangement(storage: &ProgramStorage, candidate: Seq<usize>, t: Seq<Rectangle>) -> bool {
    exists|choice: Seq<Rectangle>, perm: Seq<usize>|
        is_orientation_choice(storage, candidate, choice) && is_permutation(perm, candidate.len())
            && t == #[trigger] arrangement(choice, perm)
}

/// Pieces with the same widths and heights, in order.
pub open spec fn same_footprints(a: Seq<Rectangle>, b: Seq<Rectangle>) -> bool {
    &&& a.len() == b.len()
    &&& forall|j: int| 0 <= j < a.len() ==> a[j].width == b[j].width && a[j].height == b[j].height
}

/// The shelf pass sees only footprints: the same footprints give the same columns
/// and the same positions.
proof fn lemma_shelf_footprints(a: Seq<Rectangle>, b: Seq<Rectangle>, big: Rectangle, d: int, size: nat)
    requires
        same_footprints(a, b),
    ensures
        ({
            let sa = shelf(a, big, d, size);
            let sb = shelf(b, big, d, size);
            &&& sa.0 == sb.0
            &&& sa.1 == sb.1
            &&& sa.2 == sb.2
            &&& sa.3 == sb.3
            &&& sa.5 == sb.5
            &&& sa.4.len() == sb.4.len()
            &&& forall|i: int|
                0 <= i < sa.4.len() ==> sa.4[i].x == sb.4[i].x && sa.4[i].y == sb.4[i].y
                    && sa.4[i].rect.width == sb.4[i].rect.width && sa.4[i].rect.height
                    == sb.4[i].rect.height
        }),
    decreases a.len(),
{
    if a.len() > 0 {
        lemma_shelf_footprints(a.drop_last(), b.drop_last(), big, d, size);
    }
}

/// A footprint as one integer, the width in the high half.
pub open spec fn footprint(r: Rectangle) -> u64 {
    (r.width as int * 0x1_0000_0000 + r.height as int) as u64
}

proof fn lemma_footprint_injective(a: Rectangle, b: Rectangle)
    requires
        footprint(a) == footprint(b),
    ensures
        a.width == b.width && a.height == b.height,
{
    let x = a.width as int;
    let y = a.height as int;
    let u = b.width as int;
    let v = b.height as int;
    assert(x * 0x1_0000_0000 + y == u * 0x1_0000_0000 + v);
    assert(x == u && y == v) by (nonlinear_arith)
        requires
            x * 0x1_0000_0000 + y == u * 0x1_0000_0000 + v,
            0 <= y < 0x1_0000_0000,
            0 <= v < 0x1_0000_0000,
            0 <= x,
            0 <= u,
    ;
}

proof fn lemma_stacked_bound(t: Seq<Rectangle>, d: int, l: int, nn: int)
    requires
        d >= 0,
        t.len() <= nn,
        forall|j: int| 0 <= j < t.len() ==> nn * span(#[trigger] t[j], d) <= l,
    ensures
        stacked_height(t, d) * nn <= t.len() * l,
    decreases t.len(),
{
    if t.len() > 0 {
        let t1 = t.drop_last();
        lemma_stacked_bound(t1, d, l, nn);
        let x = t.last();
        assert(nn * span(x, d) <= l);
        let a = stacked_height(t1, d);
        let s = x.height + d;
        assert(s <= span(x, d));
        assert((a + s) * nn <= t.len() * l) by (nonlinear_arith)
            requires
                a * nn <= t1.len() * l,
                nn * span(x, d) <= l,
                s <= span(x, d),
                nn >= 0,
                t.len() == t1.len() + 1,
        ;
    }
}

/// The footprint of each piece of the arrangement, packed.
fn footprint_key(t: &Vec<Rectangle>, perm: &Vec<usize>) -> (r: Vec<u64>)
    requires
        forall|j: int| 0 <= j < perm@.len() ==> perm@[j] < t@.len(),
    ensures
        r@ == arrangement(t@, perm@).map_values(|p: Rectangle| footprint(p)),
{
    let mut r: Vec<u64> = Vec::new();
    let mut j: usize = 0;
    while j < perm.len()
        invariant
            0 <= j <= perm@.len(),
            r@ == arrangement(t@, perm@.subrange(0, j as int)).map_values(|p: Rectangle| footprint(p)),
            forall|k: int| 0 <= k < perm@.len() ==> perm@[k] < t@.len(),
        decreases perm@.len() - j,
    {
        let piece = t[perm[j]];
        r.push((piece.width as u64) * 0x1_0000_0000 + (piece.height as u64));
        j += 1;
        assert(r@ =~= arrangement(t@, perm@.subrange(0, j as int)).map_values(|p: Rectangle| footprint(p)));
    }
    assert(perm@.subrange(0, j as int) =~= perm@);
    r
}

proof fn lemma_arrangement_ids(storage: &ProgramStorage, candidate: Seq<usize>, choice: Seq<Rectangle>, perm: Seq<usize>)
    requires
        storage.rect_configuration.wf(),
        within(storage.rect_configuration.available_blocks@.len(), candidate),
        increasing(candidate),
        is_orientation_choice(storage, candidate, choice),
        is_permutation(perm, candidate.len()),
    ensures
        distinct_piece_ids(arrangement(choice, perm)),
{
    let cfg = storage.rect_configuration;
    let t = arrangement(choice, perm);
    assert forall|k: int| 0 <= k < choice.len() implies (#[trigger] choice[k]).id == cfg.available_blocks@[candidate[k] as int].id by {
        let m = candidate[k] as int;
        let o = cfg.rotated_available_block_map@[m]@;
        assert(orientation_set(o, cfg.available_blocks@[m], cfg.big_rect));
        assert(o.contains(choice[k]));
        let q = choose|q: int| 0 <= q < o.len() && o[q] == choice[k];
    }
    assert forall|i: int, j: int| 0 <= i < t.len() && 0 <= j < t.len() && i != j implies t[i].id != t[j].id by {
        let pi = perm[i] as int;
        let pj = perm[j] as int;
        assert(pi != pj);
        assert(candidate[pi] != candidate[pj]) by {
            if pi < pj {
                assert(candidate[pi] < candidate[pj]);
            } else {
                assert(candidate[pj] < candidate[pi]);
            }
        }
    }
}

/// Whether the subset can be placed: every orientation choice and every ordering of
/// its pieces, orderings that differ only among equal footprints tried once, each run
/// through the shelf placement and compaction. The first feasible layout is returned.
pub fn step3_check_candidate(storage: &ProgramStorage, candidate: &Combination) -> (r: Option<
    Vec<PlacedRectangle>,
>)
    requires
        storage.rect_configuration.wf(),
        within(storage.rect_configuration.available_blocks@.len(), candidate@),
        increasing(candidate@),
        coordinates_fit(storage, candidate@),
    ensures
        r matches Some(p) ==> exists|t: Seq<Rectangle>|
            #[trigger] is_arrangement(storage, candidate@, t) && layout_sound(
                p@,
                t,
                storage.rect_configuration.big_rect,
            ) && p@ == compacted_layout(
                t,
                storage.rect_configuration.big_rect,
                storage.settings.distance_between_rectangles as int,
            ),
        r is Some <==> candidate@.len() > 0 && exists|t: Seq<Rectangle>|
            #[trigger] is_arrangement(storage, candidate@, t) && feasible(
                t,
                storage.rect_configuration.big_rect,
                storage.settings.distance_between_rectangles as int,
            ),
{
    let n = candidate.len();
    if n == 0 {
        return None;
    }
    let ghost cfg = storage.rect_configuration;
    let ghost big = storage.rect_configuration.big_rect;
    let ghost d = storage.settings.distance_between_rectangles as int;
    let mut sets: Vec<Vec<Rectangle>> = Vec::new();
    let mut i: usize = 0;
    while i < n
        invariant
            0 <= i <= n,
            n == candidate@.len(),
            cfg == storage.rect_configuration,
            cfg.wf(),
            within(cfg.available_blocks@.len(), candidate@),
            sets@.len() == i,
            forall|k: int|
                0 <= k < i ==> (#[trigger] sets@[k])@ == cfg.rotated_available_block_map@[candidate@[k] as int]@,
        decreases n - i,
    {
        let src = &storage.rect_configuration.rotated_available_block_map[candidate[i]];
        let mut copy: Vec<Rectangle> = Vec::new();
        let mut k: usize = 0;
        while k < src.len()
            invariant
                0 <= k <= src@.len(),
                copy@ == src@.subrange(0, k as int),
            decreases src@.len() - k,
        {
            copy.push(src[k]);
            k += 1;
        }
        assert(copy@ =~= src@);
        sets.push(copy);
        i += 1;
    }
    let products = cartesian_product(&sets);
    let perms = index_permutations(n);
    let mut a: usize = 0;
    while a < products.len()
        invariant
            0 <= a <= products@.len(),
            n == candidate@.len(),
            n > 0,
            cfg == storage.rect_configuration,
            big == cfg.big_rect,
            d == storage.settings.distance_between_rectangles,
            cfg.wf(),
            within(cfg.available_blocks@.len(), candidate@),
            increasing(candidate@),
            coordinates_fit(storage, candidate@),
            sets@.len() == n,
            forall|k: int|
                0 <= k < n ==> (#[trigger] sets@[k])@ == cfg.rotated_available_block_map@[candidate@[k] as int]@,
            forall|k: int| 0 <= k < products@.len() ==> is_choice(#[trigger] products@[k]@, sets@),
            forall|k: int| 0 <= k < perms@.len() ==> is_permutation(#[trigger] perms@[k]@, n as nat),
            forall|s: Seq<usize>|
                is_permutation(s, n as nat) ==> exists|i: int| 0 <= i < perms@.len() && #[trigger] perms@[i]@ == s,
            forall|a2: int, b2: int|
                0 <= a2 < a && 0 <= b2 < perms@.len() ==> !feasible(
                    #[trigger] arrangement(products@[a2]@, perms@[b2]@),
                    big,
                    d,
                ),
        decreases products@.len() - a,
    {
        let product = &products[a];
        let mut keys: Vec<Vec<u64>> = Vec::new();
        let mut b: usize = 0;
        while b < perms.len()
            invariant
                0 <= b <= perms@.len(),
                keys@.len() == b,
                product@.len() == n,
                forall|k: int| 0 <= k < perms@.len() ==> is_permutation(#[trigger] perms@[k]@, n as nat),
                forall|k: int|
                    0 <= k < b ==> #[trigger] keys@[k]@ == arrangement(product@, perms@[k]@).map_values(
                        |p: Rectangle| footprint(p),
                    ),
            decreases perms@.len() - b,
        {
            keys.push(footprint_key(product, &perms[b]));
            b += 1;
        }
        let firsts = first_of_each_key(&keys);
        let mut f: usize = 0;
        while f < firsts.len()
            invariant
                0 <= f <= firsts@.len(),
                0 <= a < products@.len(),
                product == &products@[a as int],
                keys@.len() == perms@.len(),
                forall|k: int| 0 <= k < firsts@.len() ==> firsts@[k] < keys@.len(),
                n == candidate@.len(),
                n > 0,
                cfg == storage.rect_configuration,
                big == cfg.big_rect,
                d == storage.settings.distance_between_rectangles,
                cfg.wf(),
                within(cfg.available_blocks@.len(), candidate@),
                increasing(candidate@),
                coordinates_fit(storage, candidate@),
                sets@.len() == n,
                forall|k: int|
                    0 <= k < n ==> (#[trigger] sets@[k])@ == cfg.rotated_available_block_map@[candidate@[k] as int]@,
                is_choice(product@, sets@),
                forall|k: int| 0 <= k < perms@.len() ==> is_permutation(#[trigger] perms@[k]@, n as nat),
                forall|q: int|
                    0 <= q < f ==> !feasible(
                        #[trigger] arrangement(product@, perms@[firsts@[q] as int]@),
                        big,
                        d,
                    ),
            decreases firsts@.len() - f,
        {
            let perm = &perms[firsts[f]];
            assert(is_permutation(perm@, n as nat));
            let mut t: Vec<Rectangle> = Vec::new();
            let mut j: usize = 0;
            while j < n
                invariant
                    0 <= j <= n,
                    n == candidate@.len(),
                    is_permutation(perm@, n as nat),
                    is_choice(product@, sets@),
                    sets@.len() == n,
                    t@ == arrangement(product@, perm@.subrange(0, j as int)),
                decreases n - j,
            {
                t.push(product[perm[j]]);
                j += 1;
                assert(t@ =~= arrangement(product@, perm@.subrange(0, j as int)));
            }
            proof {
                assert(perm@.subrange(0, n as int) =~= perm@);
                let tt = t@;
                assert(is_orientation_choice(storage, candidate@, product@)) by {
                    assert forall|j: int| 0 <= j < n implies cfg.rotated_available_block_map@[candidate@[j] as int]@.contains(
                        #[trigger] product@[j],
                    ) by {
                        assert(sets@[j]@.contains(product@[j]));
                    }
                }
                assert(is_arrangement(storage, candidate@, tt));
                assert forall|j: int| 0 <= j < tt.len() implies rect_wf(#[trigger] tt[j]) && n * span(tt[j], d) + cfg.big_rect.width <= u32::MAX by {
                    let pj = perm@[j] as int;
                    let m = candidate@[pj] as int;
                    assert(tt[j] == product@[pj]);
                    assert(cfg.rotated_available_block_map@[m]@.contains(tt[j]));
                    let q = choose|q: int| 0 <= q < cfg.rotated_available_block_map@[m]@.len() && cfg.rotated_available_block_map@[m]@[q] == tt[j];
                    assert(crate::rect::rect_wf(cfg.available_blocks@[m]));
                    assert(n * span(cfg.available_blocks@[m], d) + cfg.big_rect.width <= u32::MAX);
                    assert(span(tt[j], d) == span(cfg.available_blocks@[m], d));
                    vstd::arithmetic::mul::lemma_mul_is_commutative(tt[j].width as int, tt[j].height as int);
                }
                let l = u32::MAX - cfg.big_rect.width;
                lemma_stacked_bound(tt, d, l, n as int);
                assert(stacked_height(tt, d) <= l) by (nonlinear_arith)
                    requires
                        stacked_height(tt, d) * (n as int) <= (n as int) * l,
                        n > 0,
                ;
                let x = tt[0];
                assert(n * span(x, d) + cfg.big_rect.width <= u32::MAX);
                assert(n * d <= n * span(x, d)) by (nonlinear_arith)
                    requires
                        d <= span(x, d),
                        n >= 0,
                ;
                assert(placeable(storage, tt));
            }
            if let Some(sol) = step3_check_permutation(storage, t) {
                return Some(sol);
            }
            f += 1;
        }
        proof {
            assert forall|b2: int| 0 <= b2 < perms@.len() implies !feasible(
                #[trigger] arrangement(products@[a as int]@, perms@[b2]@),
                big,
                d,
            ) by {
                let g = crate::combination::lemma_first_with_key(keys@, b2);
                assert(firsts@.contains(g as usize));
                let q = choose|q: int| 0 <= q < firsts@.len() && firsts@[q] == g as usize;
                let ta = arrangement(product@, perms@[b2]@);
                let tb = arrangement(product@, perms@[g]@);
                assert(keys@[g]@ == keys@[b2]@);
                assert forall|j: int| 0 <= j < ta.len() implies ta[j].width == tb[j].width && ta[j].height == tb[j].height by {
                    assert(keys@[b2]@[j] == footprint(ta[j]));
                    assert(keys@[g]@[j] == footprint(tb[j]));
                    lemma_footprint_injective(ta[j], tb[j]);
                }
                lemma_arrangement_ids(storage, candidate@, product@, perms@[b2]@);
                lemma_arrangement_ids(storage, candidate@, product@, perms@[g]@);
                lemma_feasible_footprints(ta, tb, big, d);
            }
        }
        a += 1;
    }
    proof {
        if exists|t: Seq<Rectangle>| #[trigger] is_arrangement(storage, candidate@, t) && feasible(t, big, d) {
            let t = choose|t: Seq<Rectangle>| #[trigger] is_arrangement(storage, candidate@, t) && feasible(t, big, d);
            let (choice, perm) = choose|choice: Seq<Rectangle>, perm: Seq<usize>|
                is_orientation_choice(storage, candidate@, choice) && is_permutation(perm, candidate@.len())
                    && t == #[trigger] arrangement(choice, perm);
            assert(is_choice(choice, sets@)) by {
                assert forall|j: int| 0 <= j < choice.len() implies sets@[j]@.contains(#[trigger] choice[j]) by {
                    assert(cfg.rotated_available_block_map@[candidate@[j] as int]@.contains(choice[j]));
                }
            }
            let a2 = choose|i: int| 0 <= i < products@.len() && #[trigger] products@[i]@ == choice;
            let b2 = choose|i: int| 0 <= i < perms@.len() && #[trigger] perms@[i]@ == perm;
            assert(!feasible(arrangement(products@[a2]@, perms@[b2]@), big, d));
            assert(false);
        }
    }
    None
}

} // verus!
