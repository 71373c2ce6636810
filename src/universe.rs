//! The grid engine: a fixed-size grid of cells that steps one generation at a time.
use vstd::prelude::*;

use vstd::utf8::encode_utf8;

use crate::life::{alive_at, dead_grid, is_rect, neighbor_count, next_grid};
use crate::render::{grid_points, row_points};
use crate::text::{
    cells_of, grid_text, lemma_split_lines_nonempty, lines_uniform, parse_text, row_text,
    split_lines,
};

verus! {

/// Why an operation on a grid was refused.
#[derive(Clone, Copy, Debug, PartialEq, Eq, Structural)]
pub enum UniverseError {
    /// The point (x, y) lies outside the grid.
    OutOfBounds { x: u32, y: u32 },
    /// The text's lines are not all of the same length.
    MalformedText,
}

/// The rows of a grid of vectors, as sequences.
pub open spec fn grid_view(v: Seq<Vec<bool>>) -> Seq<Seq<bool>> {
    Seq::new(v.len(), |y: int| v[y]@)
}

/// A fixed-size grid of cells, `true` meaning alive.
pub struct Universe {
    world: Vec<Vec<bool>>,
    size: (u32, u32),
}

impl Universe {
    /// The cells, row by row.
    pub closed spec fn cells(&self) -> Seq<Seq<bool>> {
        grid_view(self.world@)
    }

    /// The dimensions (width, height).
    pub closed spec fn dims(&self) -> (u32, u32) {
        self.size
    }

    /// Every row has `width` cells and there are `height` rows.
    pub open spec fn wf(&self) -> bool {
        is_rect(self.cells(), self.dims().0 as nat, self.dims().1 as nat)
    }

    /// The dimensions (width, height) of the grid.
    pub fn size(&self) -> (r: (u32, u32))
        ensures
            r == self.dims(),
    {
        self.size
    }

    /// A grid of `x_size` columns and `y_size` rows with every cell dead.
    pub fn new(x_size: u32, y_size: u32) -> (r: Universe)
        ensures
            r.wf(),
            r.dims() == (x_size, y_size),
            r.cells() == dead_grid(x_size as nat, y_size as nat),
    {
        let mut row: Vec<bool> = Vec::new();
        let mut x: u32 = 0;
        while x < x_size
            invariant
                x <= x_size,
                row@ == Seq::new(x as nat, |i: int| false),
            decreases x_size - x,
        {
            row.push(false);
            x = x + 1;
        }
        let mut world: Vec<Vec<bool>> = Vec::new();
        let mut y: u32 = 0;
        while y < y_size
            invariant
                y <= y_size,
                row@ == Seq::new(x_size as nat, |i: int| false),
                world@.len() == y,
                forall|j: int| 0 <= j < y ==> (#[trigger] world@[j])@ == row@,
            decreases y_size - y,
        {
            world.push(row.clone());
            y = y + 1;
        }
        let r = Universe { world, size: (x_size, y_size) };
        assert(r.cells() =~= dead_grid(x_size as nat, y_size as nat));
        r
    }

    /// Whether (x, y) lies inside the grid and holds a live cell.
    fn is_alive_at(&self, x: i64, y: i64) -> (r: bool)
        requires
            self.wf(),
        ensures
            r == alive_at(self.cells(), x as int, y as int),
    {
        if 0 <= x && x < self.size.0 as i64 && 0 <= y && y < self.size.1 as i64 {
            assert(self.world@[y as int]@ == self.cells()[y as int]);
            self.world[y as usize][x as usize]
        } else {
            false
        }
    }

    /// The number of live cells among the eight around (x, y), not wrapping.
    fn live_neighbors(&self, x: u32, y: u32) -> (n: u8)
        requires
            self.wf(),
        ensures
            n == neighbor_count(self.cells(), x as int, y as int),
    {
        let xi = x as i64;
        let yi = y as i64;
        let mut n: u8 = 0;
        if self.is_alive_at(xi - 1, yi - 1) { n = n + 1; }
        if self.is_alive_at(xi, yi - 1) { n = n + 1; }
        if self.is_alive_at(xi + 1, yi - 1) { n = n + 1; }
        if self.is_alive_at(xi - 1, yi) { n = n + 1; }
        if self.is_alive_at(xi + 1, yi) { n = n + 1; }
        if self.is_alive_at(xi - 1, yi + 1) { n = n + 1; }
        if self.is_alive_at(xi, yi + 1) { n = n + 1; }
        if self.is_alive_at(xi + 1, yi + 1) { n = n + 1; }
        n
    }

    /// Advances the grid by one generation. Every cell of the next generation
    /// is computed from the current one into a fresh grid, which then replaces it.
    pub fn update(&mut self)
        requires
            old(self).wf(),
        ensures
            final(self).wf(),
            final(self).dims() == old(self).dims(),
            final(self).cells() == next_grid(old(self).cells()),
    {
        let ghost w = self.cells();
        let (width, height) = self.size;
        let mut new_world: Vec<Vec<bool>> = Vec::new();
        let mut y: u32 = 0;
        while y < height
            invariant
                self.wf(),
                self.cells() == w,
                self.size == (width, height),
                y <= height,
                new_world@.len() == y,
                forall|j: int| 0 <= j < y ==> (#[trigger] new_world@[j])@ == next_grid(w)[j],
            decreases height - y,
        {
            let mut row: Vec<bool> = Vec::new();
            let mut x: u32 = 0;
            while x < width
                invariant
                    self.wf(),
                    self.cells() == w,
                    self.size == (width, height),
                    y < height,
                    x <= width,
                    row@.len() == x,
                    forall|i: int| 0 <= i < x ==> #[trigger] row@[i] == next_grid(w)[y as int][i],
                decreases width - x,
            {
                let n = self.live_neighbors(x, y);
                let here = self.is_alive_at(x as i64, y as i64);
                let next = if here { n == 2 || n == 3 } else { n == 3 };
                row.push(next);
                x = x + 1;
            }
            assert(row@ =~= next_grid(w)[y as int]);
            new_world.push(row);
            y = y + 1;
        }
        self.world = new_world;
        assert(self.cells() =~= next_grid(w));
    }

    /// Reads a grid from text: one row per line, split at each newline byte,
    /// a cell alive where its byte is `'1'`. The width is the byte length of
    /// the first line, the height the number of lines (a trailing newline
    /// adds a final empty line). Fails where the lines differ in length.
    pub fn from_string(string: String) -> (r: Result<Universe, UniverseError>)
        requires
            encode_utf8(string@).len() < u32::MAX,
        ensures
            r is Ok <==> lines_uniform(split_lines(encode_utf8(string@))),
            r matches Ok(u) ==> {
                &&& u.wf()
                &&& parse_text(encode_utf8(string@)) == Some(u.cells())
                &&& u.dims() == (
                    split_lines(encode_utf8(string@))[0].len() as u32,
                    split_lines(encode_utf8(string@)).len() as u32,
                )
            },
            r matches Err(e) ==> e == UniverseError::MalformedText,
    {
        let bytes = string.as_str().as_bytes();
        let ghost b = encode_utf8(string@);
        assert(bytes@ == b);
        let mut rows: Vec<Vec<bool>> = Vec::new();
        let mut current: Vec<bool> = Vec::new();
        let mut i: usize = 0;
        while i < bytes.len()
            invariant
                b == encode_utf8(string@),
                bytes@ == b,
                b.len() < u32::MAX,
                i <= b.len(),
                rows@.len() + 1 == split_lines(b.take(i as int)).len(),
                forall|y: int| 0 <= y < rows@.len() ==>
                    (#[trigger] rows@[y])@ == cells_of(split_lines(b.take(i as int))[y]),
                current@ == cells_of(split_lines(b.take(i as int)).last()),
                rows@.len() <= i,
                current@.len() <= i,
                forall|y: int| 0 <= y < rows@.len() ==> (#[trigger] rows@[y])@.len() <= i,
            decreases b.len() - i,
        {
            let ghost prev = split_lines(b.take(i as int));
            proof {
                lemma_split_lines_nonempty(b.take(i as int));
                assert(b.take(i + 1).drop_last() =~= b.take(i as int));
            }
            if bytes[i] == 10u8 {
                rows.push(current);
                current = Vec::new();
                assert(current@ =~= cells_of(Seq::empty()));
            } else {
                current.push(bytes[i] == 49u8);
                assert(current@ =~= cells_of(prev.last().push(b[i as int])));
            }
            i = i + 1;
        }
        assert(b.take(i as int) =~= b);
        let ghost lines = split_lines(b);
        rows.push(current);
        assert(grid_view(rows@) =~= Seq::new(lines.len(), |y: int| cells_of(lines[y])));
        let width = rows[0].len();
        let mut k: usize = 0;
        while k < rows.len()
            invariant
                lines == split_lines(encode_utf8(string@)),
                rows@.len() == lines.len(),
                grid_view(rows@) == Seq::new(lines.len(), |y: int| cells_of(lines[y])),
                width == lines[0].len(),
                k <= rows@.len(),
                forall|y: int| 0 <= y < k ==> (#[trigger] lines[y]).len() == width,
            decreases rows@.len() - k,
        {
            assert(rows@[k as int]@ == grid_view(rows@)[k as int]);
            if rows[k].len() != width {
                assert(lines[k as int].len() != lines[0].len());
                assert(!lines_uniform(lines));
                return Err(UniverseError::MalformedText);
            }
            k = k + 1;
        }
        let height = rows.len();
        let u = Universe { world: rows, size: (width as u32, height as u32) };
        assert(rows@[0]@.len() <= b.len());
        assert(u.cells()[0].len() == width);
        assert(u.cells() =~= Seq::new(lines.len(), |y: int| cells_of(lines[y])));
        Ok(u)
    }

    /// The grid as text: one line per row, `'1'` for a live cell and `'0'` for
    /// a dead one, each line ending in a newline.
    pub fn to_string(&self) -> (r: String)
        requires
            self.wf(),
        ensures
            r@ == grid_text(self.cells()),
    {
        let ghost w = self.cells();
        let mut out = String::new();
        proof {
            reveal_strlit("1");
            reveal_strlit("0");
            reveal_strlit("\n");
        }
        assert("1"@ =~= seq!['1']);
        assert("0"@ =~= seq!['0']);
        assert("\n"@ =~= seq!['\n']);
        let mut y: usize = 0;
        while y < self.world.len()
            invariant
                self.wf(),
                w == self.cells(),
                y <= w.len(),
                "1"@ == seq!['1'],
                "0"@ == seq!['0'],
                "\n"@ == seq!['\n'],
                out@ == grid_text(w.take(y as int)),
            decreases w.len() - y,
        {
            let row = &self.world[y];
            assert(row@ == w[y as int]);
            let mut x: usize = 0;
            while x < row.len()
                invariant
                    y < w.len(),
                    "1"@ == seq!['1'],
                    "0"@ == seq!['0'],
                    row@ == w[y as int],
                    x <= row@.len(),
                    out@ == grid_text(w.take(y as int)) + row_text(row@.take(x as int)),
                decreases row@.len() - x,
            {
                if row[x] {
                    out.append("1");
                } else {
                    out.append("0");
                }
                assert(row_text(row@.take(x + 1)) =~= row_text(row@.take(x as int)).push(
                    if row@[x as int] { '1' } else { '0' },
                ));
                assert(out@ =~= grid_text(w.take(y as int)) + row_text(row@.take(x + 1)));
                x = x + 1;
            }
            assert(row@.take(x as int) =~= row@);
            out.append("\n");
            assert(w.take(y + 1).drop_last() =~= w.take(y as int));
            assert(w.take(y + 1).last() == w[y as int]);
            assert(out@ =~= grid_text(w.take(y + 1)));
            y = y + 1;
        }
        assert(w.take(y as int) =~= w);
        out
    }

    /// Marks the cell at (x, y) alive. Fails, changing nothing, where the point
    /// lies outside the grid: valid coordinates are `x < width` and `y < height`.
    pub fn add(&mut self, x: u32, y: u32) -> (r: Result<(), UniverseError>)
        requires
            old(self).wf(),
        ensures
            final(self).wf(),
            final(self).dims() == old(self).dims(),
            r is Ok <==> x < old(self).dims().0 && y < old(self).dims().1,
            r is Ok ==> final(self).cells() == old(self).cells().update(
                y as int,
                old(self).cells()[y as int].update(x as int, true),
            ),
            r matches Err(e) ==> e == (UniverseError::OutOfBounds { x, y }) && final(self).cells()
                == old(self).cells(),
    {
        if x >= self.size.0 || y >= self.size.1 {
            return Err(UniverseError::OutOfBounds { x, y });
        }
        let ghost w = self.cells();
        assert(self.world@[y as int]@ == w[y as int]);
        self.world[y as usize].set(x as usize, true);
        assert(self.cells() =~= w.update(y as int, w[y as int].update(x as int, true)));
        Ok(())
    }

    /// The points at which the live cells are drawn: (x, height - y) for each
    /// live cell (x, y), row by row and left to right within a row.
    pub fn points(&self) -> (r: Vec<(u32, u32)>)
        requires
            self.wf(),
        ensures
            r@ == grid_points(self.cells(), self.dims().1 as int),
    {
        let ghost w = self.cells();
        let height = self.size.1;
        let mut out: Vec<(u32, u32)> = Vec::new();
        let mut y: usize = 0;
        while y < self.world.len()
            invariant
                self.wf(),
                w == self.cells(),
                height == self.dims().1,
                y <= w.len(),
                out@ == grid_points(w.take(y as int), height as int),
            decreases w.len() - y,
        {
            let row = &self.world[y];
            assert(row@ == w[y as int]);
            let mut x: usize = 0;
            while x < row.len()
                invariant
                    y < w.len(),
                    w.len() == height,
                    row@ == w[y as int],
                    x <= row@.len(),
                    out@ == grid_points(w.take(y as int), height as int) + row_points(
                        row@.take(x as int),
                        y as int,
                        height as int,
                    ),
                decreases row@.len() - x,
            {
                assert(row@.take(x + 1).drop_last() =~= row@.take(x as int));
                if row[x] {
                    out.push((x as u32, height - y as u32));
                }
                assert(out@ =~= grid_points(w.take(y as int), height as int) + row_points(
                    row@.take(x + 1),
                    y as int,
                    height as int,
                ));
                x = x + 1;
            }
            assert(row@.take(x as int) =~= row@);
            assert(w.take(y + 1).drop_last() =~= w.take(y as int));
            y = y + 1;
        }
        assert(w.take(y as int) =~= w);
        out
    }
}

} // verus!
