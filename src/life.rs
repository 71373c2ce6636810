//! The mathematical model of a grid and of one generation.
use vstd::prelude::*;

verus! {

/// A grid is a sequence of rows; row index is y, column index is x.
pub open spec fn is_rect(w: Seq<Seq<bool>>, width: nat, height: nat) -> bool {
    &&& w.len() == height
    &&& forall|y: int| 0 <= y < w.len() ==> (#[trigger] w[y]).len() == width
}

/// The grid of the given dimensions with every cell dead.
pub open spec fn dead_grid(width: nat, height: nat) -> Seq<Seq<bool>> {
    Seq::new(height, |y: int| Seq::new(width, |x: int| false))
}

/// Whether (x, y) lies inside the grid and holds a live cell.
pub open spec fn alive_at(w: Seq<Seq<bool>>, x: int, y: int) -> bool {
    0 <= y < w.len() && 0 <= x < w[y].len() && w[y][x]
}

/// 1 for a live in-bounds cell, 0 otherwise (outside the grid counts as dead).
pub open spec fn live(w: Seq<Seq<bool>>, x: int, y: int) -> int {
    if alive_at(w, x, y) { 1 } else { 0 }
}

/// The number of live cells among the eight around (x, y); positions outside
/// the grid are not counted, so the grid does not wrap.
pub open spec fn neighbor_count(w: Seq<Seq<bool>>, x: int, y: int) -> int {
    live(w, x - 1, y - 1) + live(w, x, y - 1) + live(w, x + 1, y - 1)
    + live(w, x - 1, y) + live(w, x + 1, y)
    + live(w, x - 1, y + 1) + live(w, x, y + 1) + live(w, x + 1, y + 1)
}

/// Conway's rule: a dead cell is born with exactly three live neighbors; a
/// live cell survives with two or three.
pub open spec fn next_state(alive: bool, n: int) -> bool {
    if alive { n == 2 || n == 3 } else { n == 3 }
}

/// The next generation of row `y`, computed from the whole current grid.
pub open spec fn next_row(w: Seq<Seq<bool>>, y: int) -> Seq<bool> {
    Seq::new(w[y].len(), |x: int| next_state(w[y][x], neighbor_count(w, x, y)))
}

/// The next generation of the whole grid, every cell judged on the current one.
pub open spec fn next_grid(w: Seq<Seq<bool>>) -> Seq<Seq<bool>> {
    Seq::new(w.len(), |y: int| next_row(w, y))
}


/// 1 where (x, y) lies inside a grid of the given dimensions, 0 otherwise.
pub open spec fn inside(x: int, y: int, width: int, height: int) -> int {
    if 0 <= x < width && 0 <= y < height { 1 } else { 0 }
}

/// How many of the eight positions around (x, y) lie inside the grid.
pub open spec fn candidate_count(x: int, y: int, width: int, height: int) -> int {
    inside(x - 1, y - 1, width, height) + inside(x, y - 1, width, height)
    + inside(x + 1, y - 1, width, height) + inside(x - 1, y, width, height)
    + inside(x + 1, y, width, height) + inside(x - 1, y + 1, width, height)
    + inside(x, y + 1, width, height) + inside(x + 1, y + 1, width, height)
}

/// A dead cell with exactly three live neighbors is born; with two it stays
/// dead. A live cell with two or three survives; with fewer than two or more
/// than three it dies.
pub proof fn lemma_rule(w: Seq<Seq<bool>>, width: nat, height: nat, x: int, y: int)
    requires
        is_rect(w, width, height),
        0 <= x < width,
        0 <= y < height,
    ensures
        !w[y][x] && neighbor_count(w, x, y) == 3 ==> next_grid(w)[y][x],
        !w[y][x] && neighbor_count(w, x, y) != 3 ==> !next_grid(w)[y][x],
        w[y][x] && (neighbor_count(w, x, y) == 2 || neighbor_count(w, x, y) == 3)
            ==> next_grid(w)[y][x],
        w[y][x] && neighbor_count(w, x, y) <= 1 ==> !next_grid(w)[y][x],
        w[y][x] && neighbor_count(w, x, y) >= 4 ==> !next_grid(w)[y][x],
        next_grid(w)[y].len() == width,
{
    assert(w[y].len() == width);
}

/// A cell never counts more live neighbors than it has positions around it
/// inside the grid; the grid does not wrap. A corner of a grid at least 2 by 2
/// has three such positions, and a cell on an edge but not in a corner five.
pub proof fn lemma_bounded_neighbors(w: Seq<Seq<bool>>, width: nat, height: nat, x: int, y: int)
    requires
        is_rect(w, width, height),
        0 <= x < width,
        0 <= y < height,
    ensures
        0 <= neighbor_count(w, x, y) <= candidate_count(x, y, width as int, height as int) <= 8,
        width >= 2 && height >= 2 && (x == 0 || x == width - 1) && (y == 0 || y == height - 1)
            ==> candidate_count(x, y, width as int, height as int) == 3,
        width >= 3 && height >= 3 && (x == 0 || x == width - 1) && 0 < y < height - 1
            ==> candidate_count(x, y, width as int, height as int) == 5,
        width >= 3 && height >= 3 && (y == 0 || y == height - 1) && 0 < x < width - 1
            ==> candidate_count(x, y, width as int, height as int) == 5,
{
    assert forall|dx: int, dy: int|
        -1 <= dx <= 1 && -1 <= dy <= 1 implies #[trigger] live(w, x + dx, y + dy) <= inside(
        x + dx,
        y + dy,
        width as int,
        height as int,
    ) by {
        if alive_at(w, x + dx, y + dy) {
            assert(w[y + dy].len() == width);
        }
    }
    assert(live(w, x - 1, y - 1) <= inside(x - 1, y - 1, width as int, height as int));
    assert(live(w, x + 0, y - 1) <= inside(x + 0, y - 1, width as int, height as int));
    assert(live(w, x + 1, y - 1) <= inside(x + 1, y - 1, width as int, height as int));
    assert(live(w, x - 1, y + 0) <= inside(x - 1, y + 0, width as int, height as int));
    assert(live(w, x + 1, y + 0) <= inside(x + 1, y + 0, width as int, height as int));
    assert(live(w, x - 1, y + 1) <= inside(x - 1, y + 1, width as int, height as int));
    assert(live(w, x + 0, y + 1) <= inside(x + 0, y + 1, width as int, height as int));
    assert(live(w, x + 1, y + 1) <= inside(x + 1, y + 1, width as int, height as int));
}

/// A grid with every cell dead stays dead: nothing is born from nothing.
pub proof fn lemma_dead_stays_dead(width: nat, height: nat)
    ensures
        next_grid(dead_grid(width, height)) == dead_grid(width, height),
{
    let d = dead_grid(width, height);
    assert forall|y: int| 0 <= y < height implies #[trigger] next_row(d, y) =~= d[y] by {
        assert forall|x: int| 0 <= x < width implies neighbor_count(d, x, y) == 0 by {}
    }
    assert(next_grid(d) =~= d);
}

/// The grid of the given dimensions whose only live cells are the horizontal
/// line of three centered on (x, y).
pub open spec fn horizontal_blinker(width: nat, height: nat, x: int, y: int) -> Seq<Seq<bool>> {
    Seq::new(height, |b: int| Seq::new(width, |a: int| b == y && x - 1 <= a <= x + 1))
}

/// The grid of the given dimensions whose only live cells are the vertical
/// line of three centered on (x, y).
pub open spec fn vertical_blinker(width: nat, height: nat, x: int, y: int) -> Seq<Seq<bool>> {
    Seq::new(height, |b: int| Seq::new(width, |a: int| a == x && y - 1 <= b <= y + 1))
}

/// A horizontal line of three live cells with an empty margin around it turns
/// into the vertical line through its middle, and back: it oscillates with
/// period two.
pub proof fn lemma_blinker(width: nat, height: nat, x: int, y: int)
    requires
        1 <= x < width - 1,
        1 <= y < height - 1,
    ensures
        next_grid(horizontal_blinker(width, height, x, y)) == vertical_blinker(width, height, x, y),
        next_grid(vertical_blinker(width, height, x, y)) == horizontal_blinker(width, height, x, y),
        next_grid(next_grid(horizontal_blinker(width, height, x, y))) == horizontal_blinker(
            width,
            height,
            x,
            y,
        ),
{
    let hz = horizontal_blinker(width, height, x, y);
    let vt = vertical_blinker(width, height, x, y);
    assert forall|b: int| 0 <= b < height implies #[trigger] next_row(hz, b) =~= vt[b] by {
        assert forall|a: int| 0 <= a < width implies next_row(hz, b)[a] == vt[b][a] by {}
    }
    assert(next_grid(hz) =~= vt);
    assert forall|b: int| 0 <= b < height implies #[trigger] next_row(vt, b) =~= hz[b] by {
        assert forall|a: int| 0 <= a < width implies next_row(vt, b)[a] == hz[b][a] by {}
    }
    assert(next_grid(vt) =~= hz);
}

} // verus!
