//! The line-based text encoding of a grid: one line per row, `'1'` for a live
//! cell. Reading goes by bytes; any byte other than `'1'` is a dead cell.
use vstd::prelude::*;
use vstd::utf8::{encode_utf8, is_ascii_chars, is_ascii_chars_encode_utf8};

use crate::life::is_rect;

verus! {

/// The lines of `b`, split at every newline byte. There is always at least
/// one line: a trailing newline yields a final empty line.
pub open spec fn split_lines(b: Seq<u8>) -> Seq<Seq<u8>>
    decreases b.len(),
{
    if b.len() == 0 {
        seq![Seq::empty()]
    } else {
        let prev = split_lines(b.drop_last());
        if b.last() == 10u8 {
            prev.push(Seq::empty())
        } else {
            prev.update(prev.len() - 1, prev.last().push(b.last()))
        }
    }
}

/// The cells that one line of text stands for.
pub open spec fn cells_of(line: Seq<u8>) -> Seq<bool> {
    Seq::new(line.len(), |x: int| line[x] == 49u8)
}

/// Every line is as long as the first.
pub open spec fn lines_uniform(lines: Seq<Seq<u8>>) -> bool {
    forall|y: int| 0 <= y < lines.len() ==> (#[trigger] lines[y]).len() == lines[0].len()
}

/// The grid that the bytes `b` encode, or `None` where the lines differ in length.
pub open spec fn parse_text(b: Seq<u8>) -> Option<Seq<Seq<bool>>> {
    let lines = split_lines(b);
    if lines_uniform(lines) {
        Some(Seq::new(lines.len(), |y: int| cells_of(lines[y])))
    } else {
        None
    }
}

/// One row as text: `'1'` for a live cell, `'0'` for a dead one.
pub open spec fn row_text(r: Seq<bool>) -> Seq<char> {
    Seq::new(r.len(), |x: int| if r[x] { '1' } else { '0' })
}

/// A grid as text: each row followed by a newline.
pub open spec fn grid_text(w: Seq<Seq<bool>>) -> Seq<char>
    decreases w.len(),
{
    if w.len() == 0 {
        Seq::empty()
    } else {
        grid_text(w.drop_last()) + row_text(w.last()) + seq!['\n']
    }
}

/// The bytes of one row's text.
pub open spec fn row_bytes(r: Seq<bool>) -> Seq<u8> {
    Seq::new(r.len(), |x: int| if r[x] { 49u8 } else { 48u8 })
}

pub proof fn lemma_split_lines_nonempty(b: Seq<u8>)
    ensures
        split_lines(b).len() >= 1,
    decreases b.len(),
{
    if b.len() > 0 {
        lemma_split_lines_nonempty(b.drop_last());
    }
}

/// Appending bytes without a newline extends the last line.
proof fn lemma_split_append_plain(a: Seq<u8>, r: Seq<u8>)
    requires
        forall|i: int| 0 <= i < r.len() ==> r[i] != 10u8,
    ensures
        split_lines(a + r) == split_lines(a).update(
            split_lines(a).len() - 1,
            split_lines(a).last() + r,
        ),
    decreases r.len(),
{
    lemma_split_lines_nonempty(a);
    if r.len() == 0 {
        assert(a + r =~= a);
        assert(split_lines(a).last() + r =~= split_lines(a).last());
        assert(split_lines(a).update(split_lines(a).len() - 1, split_lines(a).last())
            =~= split_lines(a));
    } else {
        let r0 = r.drop_last();
        lemma_split_append_plain(a, r0);
        assert((a + r).drop_last() =~= a + r0);
        assert((a + r).last() == r.last());
        lemma_split_lines_nonempty(a + r0);
        let prev = split_lines(a + r0);
        assert(prev.last() =~= split_lines(a).last() + r0);
        assert(prev.last().push(r.last()) =~= split_lines(a).last() + r);
        assert(split_lines(a + r) =~= split_lines(a).update(
            split_lines(a).len() - 1,
            split_lines(a).last() + r,
        ));
    }
}

/// The bytes of a row of ASCII text are its characters, one for one.
proof fn lemma_row_text_bytes(r: Seq<bool>)
    ensures
        encode_utf8(row_text(r)) == row_bytes(r),
{
    let t = row_text(r);
    assert(is_ascii_chars(t));
    is_ascii_chars_encode_utf8(t);
    assert(encode_utf8(t) =~= row_bytes(r));
}


/// The bytes of a grid's text.
pub open spec fn grid_bytes(w: Seq<Seq<bool>>) -> Seq<u8>
    decreases w.len(),
{
    if w.len() == 0 {
        Seq::empty()
    } else {
        grid_bytes(w.drop_last()) + row_bytes(w.last()) + seq![10u8]
    }
}

/// The lines of a grid's text: one per row.
pub open spec fn grid_lines(w: Seq<Seq<bool>>) -> Seq<Seq<u8>> {
    Seq::new(w.len(), |y: int| row_bytes(w[y]))
}

/// The bytes of ASCII characters, one for one.
spec fn ascii_bytes(t: Seq<char>) -> Seq<u8> {
    Seq::new(t.len(), |i: int| t[i] as u8)
}

proof fn lemma_grid_text_ascii(w: Seq<Seq<bool>>)
    ensures
        is_ascii_chars(grid_text(w)),
        ascii_bytes(grid_text(w)) == grid_bytes(w),
    decreases w.len(),
{
    if w.len() > 0 {
        lemma_grid_text_ascii(w.drop_last());
        let t0 = grid_text(w.drop_last());
        let r = row_text(w.last());
        assert(grid_text(w) == t0 + r + seq!['\n']);
        assert(ascii_bytes(r) =~= row_bytes(w.last()));
        assert(ascii_bytes(grid_text(w)) =~= ascii_bytes(t0) + ascii_bytes(r) + seq![10u8]);
    }
}

/// The UTF-8 bytes of a grid's text, with or without its final newline.
pub proof fn lemma_grid_text_bytes(w: Seq<Seq<bool>>)
    ensures
        encode_utf8(grid_text(w)) == grid_bytes(w),
        w.len() > 0 ==> encode_utf8(grid_text(w).drop_last()) == grid_bytes(w).drop_last(),
{
    lemma_grid_text_ascii(w);
    let t = grid_text(w);
    is_ascii_chars_encode_utf8(t);
    assert(encode_utf8(t) =~= ascii_bytes(t));
    if w.len() > 0 {
        assert(t == grid_text(w.drop_last()) + row_text(w.last()) + seq!['\n']);
        let d = t.drop_last();
        assert(is_ascii_chars(d));
        is_ascii_chars_encode_utf8(d);
        assert(encode_utf8(d) =~= ascii_bytes(t).drop_last());
    }
}

/// Splitting a grid's bytes gives one line per row and a final empty line;
/// without the final newline, exactly one line per row.
pub proof fn lemma_split_grid_bytes(w: Seq<Seq<bool>>)
    ensures
        split_lines(grid_bytes(w)) == grid_lines(w).push(Seq::empty()),
        w.len() > 0 ==> split_lines(grid_bytes(w).drop_last()) == grid_lines(w),
    decreases w.len(),
{
    if w.len() == 0 {
        assert(grid_lines(w).push(Seq::empty()) =~= seq![Seq::empty()]);
    } else {
        let w0 = w.drop_last();
        lemma_split_grid_bytes(w0);
        let row = row_bytes(w.last());
        let body = grid_bytes(w0) + row;
        assert forall|i: int| 0 <= i < row.len() implies row[i] != 10u8 by {}
        lemma_split_append_plain(grid_bytes(w0), row);
        let l0 = grid_lines(w0).push(Seq::empty());
        assert(Seq::<u8>::empty() + row =~= row);
        assert(l0.update(l0.len() - 1, l0.last() + row) =~= grid_lines(w));
        assert(grid_bytes(w) == body + seq![10u8]);
        assert((body + seq![10u8]).drop_last() =~= body);
        assert(grid_bytes(w).drop_last() =~= body);
    }
}


/// Reading back a grid's text, without its final newline, gives the same grid:
/// as many lines as rows, each as long as a row, the same cell in each place.
/// A grid without rows has no such text.
pub proof fn lemma_round_trip(w: Seq<Seq<bool>>, width: nat, height: nat)
    requires
        is_rect(w, width, height),
        height >= 1,
    ensures
        split_lines(encode_utf8(grid_text(w).drop_last())).len() == height,
        split_lines(encode_utf8(grid_text(w).drop_last()))[0].len() == width,
        parse_text(encode_utf8(grid_text(w).drop_last())) == Some(w),
{
    lemma_grid_text_bytes(w);
    lemma_split_grid_bytes(w);
    let lines = grid_lines(w);
    assert(w[0].len() == width);
    assert(lines_uniform(lines));
    assert(Seq::new(lines.len(), |y: int| cells_of(lines[y])) =~= w) by {
        assert forall|y: int| 0 <= y < w.len() implies cells_of(lines[y]) =~= w[y] by {}
    }
}

/// Reading back a grid's full text, final newline included, gives one more
/// line, empty. It is accepted only where every line is empty too: a grid of
/// width 0, or one without rows.
pub proof fn lemma_trailing_row(w: Seq<Seq<bool>>, width: nat, height: nat)
    requires
        is_rect(w, width, height),
    ensures
        split_lines(encode_utf8(grid_text(w))) == grid_lines(w).push(Seq::empty()),
        parse_text(encode_utf8(grid_text(w))) == if width == 0 || height == 0 {
            Some(w.push(Seq::empty()))
        } else {
            None
        },
{
    lemma_grid_text_bytes(w);
    lemma_split_grid_bytes(w);
    let lines = grid_lines(w).push(Seq::empty());
    if width == 0 || height == 0 {
        assert(lines_uniform(lines));
        assert(Seq::new(lines.len(), |y: int| cells_of(lines[y])) =~= w.push(Seq::empty())) by {
            assert forall|y: int| 0 <= y < w.len() implies cells_of(lines[y]) =~= w[y] by {}
            assert(cells_of(lines[w.len() as int]) =~= Seq::<bool>::empty());
        }
    } else {
        assert(lines[0].len() == width);
        assert(lines[height as int].len() == 0);
        assert(!lines_uniform(lines));
    }
}

} // verus!
