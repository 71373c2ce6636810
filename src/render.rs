//! The drawable projection of a grid: one point per live cell, with the y axis
//! flipped so that row 0 is drawn at the top of a canvas whose origin is at
//! the bottom left.
use vstd::prelude::*;

verus! {

/// The points of the live cells of row `y` of a grid of height `h`, left to right.
pub open spec fn row_points(r: Seq<bool>, y: int, h: int) -> Seq<(u32, u32)>
    decreases r.len(),
{
    if r.len() == 0 {
        Seq::empty()
    } else {
        row_points(r.drop_last(), y, h) + if r.last() {
            seq![flipped(r.len() - 1, y, h)]
        } else {
            Seq::empty()
        }
    }
}

/// The points of the live cells of the first rows `w` of a grid of height
/// `h`, row by row.
pub open spec fn grid_points(w: Seq<Seq<bool>>, h: int) -> Seq<(u32, u32)>
    decreases w.len(),
{
    if w.len() == 0 {
        Seq::empty()
    } else {
        grid_points(w.drop_last(), h) + row_points(w.last(), w.len() - 1, h)
    }
}


/// The point at which the live cell (x, y) of a grid of height `h` is drawn.
pub open spec fn flipped(x: int, y: int, h: int) -> (u32, u32) {
    (x as u32, (h - y) as u32)
}

proof fn lemma_row_points_members(r: Seq<bool>, y: int, h: int, p: (u32, u32))
    ensures
        row_points(r, y, h).contains(p) <==> exists|x: int|
            0 <= x < r.len() && #[trigger] r[x] && p == flipped(x, y, h),
    decreases r.len(),
{
    if r.len() > 0 {
        let r0 = r.drop_last();
        let front = row_points(r0, y, h);
        let back = if r.last() {
            seq![flipped(r.len() - 1, y, h)]
        } else {
            Seq::empty()
        };
        let all = row_points(r, y, h);
        assert(all == front + back);
        lemma_row_points_members(r0, y, h, p);
        if all.contains(p) {
            let i = choose|i: int| 0 <= i < all.len() && all[i] == p;
            if i < front.len() {
                assert(front[i] == p);
                let x = choose|x: int| 0 <= x < r0.len() && #[trigger] r0[x] && p == flipped(x, y, h);
                assert(r[x]);
            } else {
                assert(r[r.len() - 1]);
            }
        }
        if exists|x: int| 0 <= x < r.len() && #[trigger] r[x] && p == flipped(x, y, h) {
            let x = choose|x: int| 0 <= x < r.len() && #[trigger] r[x] && p == flipped(x, y, h);
            if x < r0.len() {
                assert(r0[x]);
                let i = choose|i: int| 0 <= i < front.len() && front[i] == p;
                assert(all[i] == p);
            } else {
                assert(all[front.len() as int] == p);
            }
        }
    }
}

/// The points drawn for a grid are exactly those of its live cells, with the
/// y axis flipped: (x, h - y) stands among them if and only if (x, y) is alive.
pub proof fn lemma_points_are_live_cells(w: Seq<Seq<bool>>, h: int, p: (u32, u32))
    ensures
        grid_points(w, h).contains(p) <==> exists|x: int, y: int|
            0 <= y < w.len() && 0 <= x < w[y].len() && #[trigger] w[y][x] && p == flipped(
                x,
                y,
                h,
            ),
    decreases w.len(),
{
    if w.len() > 0 {
        let w0 = w.drop_last();
        let y0 = w.len() - 1;
        let front = grid_points(w0, h);
        let back = row_points(w.last(), y0, h);
        let all = grid_points(w, h);
        assert(all == front + back);
        lemma_points_are_live_cells(w0, h, p);
        lemma_row_points_members(w.last(), y0, h, p);
        if all.contains(p) {
            let i = choose|i: int| 0 <= i < all.len() && all[i] == p;
            if i < front.len() {
                assert(front[i] == p);
                let (x, y) = choose|x: int, y: int|
                    0 <= y < w0.len() && 0 <= x < w0[y].len() && #[trigger] w0[y][x] && p
                        == flipped(x, y, h);
                assert(w[y][x]);
            } else {
                assert(back[i - front.len()] == p);
                let x = choose|x: int|
                    0 <= x < w.last().len() && #[trigger] w.last()[x] && p == flipped(x, y0, h);
                assert(w[y0][x]);
            }
        }
        if exists|x: int, y: int|
            0 <= y < w.len() && 0 <= x < w[y].len() && #[trigger] w[y][x] && p == flipped(x, y, h)
        {
            let (x, y) = choose|x: int, y: int|
                0 <= y < w.len() && 0 <= x < w[y].len() && #[trigger] w[y][x] && p == flipped(
                    x,
                    y,
                    h,
                );
            if y < y0 {
                assert(w0[y][x]);
                let i = choose|i: int| 0 <= i < front.len() && front[i] == p;
                assert(all[i] == p);
            } else {
                assert(w.last()[x]);
                let j = choose|j: int| 0 <= j < back.len() && back[j] == p;
                assert(all[front.len() + j] == p);
            }
        }
    }
}

} // verus!
