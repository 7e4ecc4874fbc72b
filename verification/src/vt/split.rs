//! Printing a run of text in two pieces, as the pieces come: it lands as the whole run
//! does unless the second piece starts on the right half of a wide character whose left
//! half the first piece overwrote.
use vstd::prelude::*;

use super::model::{TermV, LineV, printable, printable_run, lemma_printable_run, width_spec, min};
use super::laws::{lemma_run_within, lemma_run_prefix, lemma_run_stop};
use super::lemmas::{grows_by, lemma_scroll_up, lemma_set_wrapped, lemma_set_cell, lemma_set_line, lemma_scr_ok};
use super::cursor::room;
use crate::vt::{Cell, TAIL, WIDE};

verus! {

/// A cell's left half of a wide character, blanked.
pub open spec fn blank_head(p: Cell) -> Cell {
    Cell { cp: 32, attr: p.attr & !WIDE, ..p }
}

/// A cell's right half of a wide character, blanked.
pub open spec fn blank_tail(q: Cell) -> Cell {
    Cell { cp: 32, attr: q.attr & !TAIL, ..q }
}

/// The cells `cs` of a row `cols` wide once the wide character that column `x` belongs to
/// has been split off it.
pub open spec fn unlink_cells(cs: Seq<Cell>, x: int, cols: int) -> Seq<Cell> {
    Seq::new(cs.len(), |j: int|
        if j == x - 1 && x > 0 && cs[x].attr & TAIL != 0 {
            blank_head(cs[j])
        } else if j == x + 1 && x + 1 < cols && cs[x].attr & WIDE != 0 {
            blank_tail(cs[j])
        } else {
            cs[j]
        })
}

/// The cells `cs` with the run of bytes `run` written from column `x` on.
pub open spec fn write_run(cs: Seq<Cell>, x: int, run: Seq<u8>, fg: u32, bg: u32, attr: u32) -> Seq<Cell> {
    Seq::new(cs.len(), |j: int| if x <= j < x + run.len() { Cell { cp: run[j - x] as u32, fg, bg, attr } } else { cs[j] })
}

/// The cells of a row after a run is written from column `x` on.
pub open spec fn chunk_cells(cs: Seq<Cell>, x: int, run: Seq<u8>, cols: int, fg: u32, bg: u32, attr: u32) -> Seq<Cell> {
    write_run(unlink_cells(unlink_cells(cs, x, cols), x + run.len() - 1, cols), x, run, fg, bg, attr)
}

proof fn lemma_bits(a: u32)
    ensures
        (a & !WIDE) & !WIDE == a & !WIDE,
        (a & !TAIL) & !TAIL == a & !TAIL,
        (a & !TAIL) & WIDE == a & WIDE,
        (a & !TAIL) & TAIL == 0,
        (a & !WIDE) & TAIL == a & TAIL,
{
    assert((a & !64u32) & !64u32 == a & !64u32) by (bit_vector);
    assert((a & !128u32) & !128u32 == a & !128u32) by (bit_vector);
    assert((a & !128u32) & 64u32 == a & 64u32) by (bit_vector);
    assert((a & !128u32) & 128u32 == 0) by (bit_vector);
    assert((a & !64u32) & 128u32 == a & 128u32) by (bit_vector);
}

/// Writing `r1` and then `r2` right after it, within one row, leaves the cells that
/// writing `r1 + r2` at once leaves, unless the cell right after `r1` is then a right half.
proof fn lemma_chunk_cells_merge(cs: Seq<Cell>, x: int, r1: Seq<u8>, r2: Seq<u8>, cols: int, fg: u32, bg: u32, attr: u32)
    requires
        cs.len() == cols,
        0 <= x,
        1 <= r1.len(),
        1 <= r2.len(),
        x + r1.len() + r2.len() <= cols,
        chunk_cells(cs, x, r1, cols, fg, bg, attr)[x + r1.len()].attr & TAIL == 0,
    ensures
        chunk_cells(chunk_cells(cs, x, r1, cols, fg, bg, attr), x + r1.len(), r2, cols, fg, bg, attr)
            == chunk_cells(cs, x, r1 + r2, cols, fg, bg, attr),
{
    let n1 = r1.len() as int;
    let n2 = r2.len() as int;
    let n = n1 + n2;
    let xm = x + n1;
    let r = r1 + r2;
    let u1 = unlink_cells(cs, x, cols);
    let w2 = unlink_cells(u1, x + n - 1, cols);
    let whole = write_run(w2, x, r, fg, bg, attr);
    let a2 = unlink_cells(u1, xm - 1, cols);
    let v = write_run(a2, x, r1, fg, bg, attr);
    let b1 = unlink_cells(v, xm, cols);
    let b2 = unlink_cells(b1, xm + n2 - 1, cols);
    let split = write_run(b2, xm, r2, fg, bg, attr);
    assert(v == chunk_cells(cs, x, r1, cols, fg, bg, attr));
    assert(r.len() == n);
    assert forall|j: int| 0 <= j < cols implies #[trigger] split[j] == whole[j] by {
        lemma_bits(cs[j].attr);
        if x <= j < xm {
            assert(r[j - x] == r1[j - x]);
        } else if xm <= j < x + n {
            assert(r[j - x] == r2[j - xm]);
        } else if j == x - 1 {
            lemma_bits(blank_head(cs[j]).attr);
        } else if j == x + n {
            lemma_bits(cs[j - 1].attr);
            lemma_bits(cs[x].attr);
            lemma_bits(cs[xm].attr);
            lemma_bits(blank_tail(cs[j]).attr);
        }
    }
    assert(split =~= whole);
}

/// The row under the cursor is there and is as wide as the grid.
pub open spec fn row_fits(u: TermV) -> bool {
    &&& u.alt < u.screens.len()
    &&& u.y < u.scr().len()
    &&& u.scr()[u.y as int].cells.len() == u.cols
    &&& u.y < u.dirty.len()
}

/// More text printed at the cursor of `u` continues the run printed last as the run
/// printed at once would: the cursor waits to wrap, stands at the start of its row or past
/// its end, or rests on a cell that is not the right half of a wide character.
pub open spec fn clean_split(u: TermV) -> bool {
    u.pend || u.x == 0 || u.x >= u.cols || (row_fits(u) && u.scr()[u.y as int].cells[u.x as int].attr & TAIL == 0)
}

/// `s` with the cells of row `y` replaced by `cs`.
pub open spec fn with_row(s: TermV, y: int, cs: Seq<Cell>) -> TermV {
    s.set_line(y, LineV { cells: cs, wrapped: s.scr()[y].wrapped })
}

proof fn lemma_unlink_row(s: TermV, y: int, x: int)
    requires
        s.alt < s.screens.len(),
        0 <= y < s.scr().len(),
        s.scr()[y].cells.len() == s.cols,
        0 <= x < s.cols,
    ensures
        s.unlink_wide(y, x) == with_row(s, y, unlink_cells(s.scr()[y].cells, x, s.cols as int)),
{
    let cs = s.scr()[y].cells;
    let c = cs[x];
    let s1 = if c.attr & TAIL != 0 && x > 0 {
        s.set_cell(y, x - 1, Cell { cp: 32, attr: cs[x - 1].attr & !WIDE, ..cs[x - 1] })
    } else {
        s
    };
    assert(s1.scr() =~~= s.scr().update(y, s1.scr()[y]));
    if x + 1 < s.cols {
        assert(s1.scr()[y].cells[x + 1] == cs[x + 1]);
    }
    assert(s.unlink_wide(y, x).scr() =~~= with_row(s, y, unlink_cells(cs, x, s.cols as int)).scr());
    assert(s.unlink_wide(y, x).screens =~~= with_row(s, y, unlink_cells(cs, x, s.cols as int)).screens);
}

proof fn lemma_with_row_twice(s: TermV, y: int, c1: Seq<Cell>, c2: Seq<Cell>)
    requires
        s.alt < s.screens.len(),
        0 <= y < s.scr().len(),
    ensures
        with_row(with_row(s, y, c1), y, c2) == with_row(s, y, c2),
        with_row(s, y, c1).scr()[y].cells == c1,
        with_row(s, y, c1).scr().len() == s.scr().len(),
        with_row(s, y, c1).screens.len() == s.screens.len(),
{
    let t = with_row(s, y, c1);
    assert(t.scr() == s.scr().update(y, LineV { cells: c1, wrapped: s.scr()[y].wrapped }));
    assert(with_row(t, y, c2).screens =~~= with_row(s, y, c2).screens);
}

/// Writing a run that fits the row: the row's cells become `chunk_cells`, and the cursor
/// moves past the run.
proof fn lemma_chunk_row(s: TermV, run: Seq<u8>)
    requires
        row_fits(s),
        1 <= run.len(),
        s.x + run.len() <= s.cols,
    ensures
        s.chunk(run) == with_row(s, s.y as int, chunk_cells(s.scr()[s.y as int].cells, s.x as int, run, s.cols as int, s.fg, s.bg, s.attr))
            .advance(run[run.len() - 1] as u32, s.x as int, run.len() as int),
{
    reveal(TermV::chunk);
    let (x, y, n) = (s.x as int, s.y as int, run.len() as int);
    let cs = s.scr()[y].cells;
    let u1 = unlink_cells(cs, x, s.cols as int);
    let u2 = unlink_cells(u1, x + n - 1, s.cols as int);
    lemma_unlink_row(s, y, x);
    let s1 = with_row(s, y, u1);
    lemma_with_row_twice(s, y, u1, u2);
    lemma_unlink_row(s1, y, x + n - 1);
    let s2 = with_row(s, y, u2);
    let w = write_run(u2, x, run, s.fg, s.bg, s.attr);
    lemma_with_row_twice(s, y, u2, w);
    assert(s2.write_cells(y, x, run, s.fg, s.bg, s.attr) == with_row(s2, y, w)) by {
        assert(s2.scr()[y].cells == u2);
        assert(s2.scr()[y].wrapped == s.scr()[y].wrapped);
    }
}

/// Writing `r1` and then `r2` right after it, within one row, leaves the terminal as
/// writing `r1 + r2` at once does, unless the cell after `r1` is then a right half.
proof fn lemma_chunk_merge(s: TermV, r1: Seq<u8>, r2: Seq<u8>)
    requires
        row_fits(s),
        1 <= r1.len(),
        1 <= r2.len(),
        s.x + r1.len() + r2.len() <= s.cols,
        s.chunk(r1).scr()[s.y as int].cells[s.x + r1.len()].attr & TAIL == 0,
    ensures
        s.chunk(r1).chunk(r2) == s.chunk(r1 + r2),
{
    let (x, y) = (s.x as int, s.y as int);
    let (n1, n2) = (r1.len() as int, r2.len() as int);
    let cols = s.cols as int;
    let cs = s.scr()[y].cells;
    let c1 = chunk_cells(cs, x, r1, cols, s.fg, s.bg, s.attr);
    let r = r1 + r2;
    let d = chunk_cells(cs, x, r, cols, s.fg, s.bg, s.attr);
    lemma_chunk_row(s, r1);
    lemma_with_row_twice(s, y, c1, c1);
    let w1 = with_row(s, y, c1);
    let v = w1.advance(r1[n1 - 1] as u32, x, n1);
    assert(v.x == x + n1);
    assert(v.scr() == w1.scr());
    assert(row_fits(v));
    lemma_chunk_row(v, r2);
    lemma_chunk_cells_merge(cs, x, r1, r2, cols, s.fg, s.bg, s.attr);
    lemma_chunk_row(s, r);
    assert(r[r.len() - 1] == r2[n2 - 1]);
    let lhs = with_row(v, y, d).advance(r2[n2 - 1] as u32, x + n1, n2);
    let rhs = with_row(s, y, d).advance(r2[n2 - 1] as u32, x, n1 + n2);
    assert(with_row(v, y, d).screens =~~= with_row(s, y, d).screens) by {
        lemma_with_row_twice(s, y, c1, d);
    }
    assert(v.dirty == w1.mark(y).dirty);
    assert(w1.dirty == s.dirty);
    assert(with_row(v, y, d).dirty == v.dirty);
    assert(with_row(s, y, d).dirty == s.dirty);
    assert(lhs.dirty == with_row(v, y, d).mark(y).dirty);
    assert(rhs.dirty == with_row(s, y, d).mark(y).dirty);
    if 0 <= y < s.rows {
        assert(s.dirty.update(y, true).update(y, true) =~= s.dirty.update(y, true));
    }
    assert(lhs.dirty =~= rhs.dirty);
    assert(lhs =~~= rhs);
}

/// The fields that say how the next byte is read.
pub open spec fn same_reader(a: TermV, b: TermV) -> bool {
    a.st == b.st && a.uneed == b.uneed && a.cs == b.cs && a.g0 == b.g0 && a.g1 == b.g1
}

proof fn lemma_linefeed_wf(s: TermV)
    requires
        s.wf(),
        room(s, 0),
    ensures
        s.linefeed().wf(),
        grows_by(s, s.linefeed(), 1),
        same_reader(s, s.linefeed()),
{
    if s.y == s.bot {
        lemma_scroll_up(s, s.top as int, s.bot as int, 1, true);
    }
}

proof fn lemma_wrap_wf(s: TermV)
    requires
        s.wf(),
        room(s, 0),
    ensures
        s.wrap().wf(),
        grows_by(s, s.wrap(), 1),
        same_reader(s, s.wrap()),
{
    lemma_set_wrapped(s, s.y as int);
    let s1 = TermV { x: 0, ..s.set_wrapped(s.y as int) };
    lemma_linefeed_wf(s1);
}

proof fn lemma_pre_put_wf(s: TermV, w: int)
    requires
        s.wf(),
        room(s, 1),
    ensures
        s.pre_put(w).wf(),
        grows_by(s, s.pre_put(w), 2),
        same_reader(s, s.pre_put(w)),
{
    let s1 = if s.pend && s.modes.awm { s.wrap() } else { s };
    if s.pend && s.modes.awm {
        lemma_wrap_wf(s);
    }
    assert(s1.wf() && grows_by(s, s1, 1) && same_reader(s, s1));
    let s2 = TermV { pend: false, ..s1 };
    assert(s2.wf() && grows_by(s, s2, 1) && same_reader(s, s2));
    if w == 2 && s2.x >= s2.cols - 1 {
        if s2.modes.awm {
            lemma_wrap_wf(s2);
            assert(s.pre_put(w) == s2.wrap());
        } else {
            let s3 = TermV { x: if s2.cols >= 2 { (s2.cols - 2) as usize } else { 0 }, ..s2 };
            assert(s.pre_put(w) == s3);
        }
    } else {
        assert(s.pre_put(w) == s2);
    }
}

proof fn lemma_unlink_wf(s: TermV, y: int, x: int)
    requires
        s.wf(),
        0 <= y < s.rows,
        0 <= x < s.cols,
    ensures
        s.unlink_wide(y, x).wf(),
        grows_by(s, s.unlink_wide(y, x), 0),
        same_reader(s, s.unlink_wide(y, x)),
        s.unlink_wide(y, x).x == s.x,
        s.unlink_wide(y, x).y == s.y,
{
    lemma_scr_ok(s);
    lemma_unlink_row(s, y, x);
    lemma_set_line(s, y, LineV { cells: unlink_cells(s.scr()[y].cells, x, s.cols as int), wrapped: s.scr()[y].wrapped });
}

proof fn lemma_put_char_wf(s: TermV, cp0: u32)
    requires
        s.wf(),
        room(s, 1),
    ensures
        s.put_char(cp0).wf(),
        grows_by(s, s.put_char(cp0), 2),
        same_reader(s, s.put_char(cp0)),
{
    reveal(TermV::put_char);
    let cp = s.map_charset(cp0);
    let w = width_spec(cp) as int;
    if w != 0 {
        lemma_pre_put_wf(s, w);
        let s4 = s.pre_put(w);
        let (x, y) = (s4.x as int, s4.y as int);
        lemma_unlink_wf(s4, y, x);
        let s5a = s4.unlink_wide(y, x);
        let cell = Cell { cp, fg: s5a.fg, bg: s5a.bg, attr: s5a.attr | (if w == 2 { WIDE } else { 0 }) };
        lemma_set_cell(s5a, y, x, cell);
        let s5 = s5a.set_cell(y, x, cell);
        if w == 2 && x + 1 < s5.cols {
            lemma_unlink_wf(s5, y, x + 1);
            let s6 = s5.unlink_wide(y, x + 1);
            lemma_set_cell(s6, y, x + 1, Cell { cp: 0, fg: s6.fg, bg: s6.bg, attr: s6.attr | TAIL });
        }
    }
}

proof fn lemma_chunk_wf(s: TermV, run: Seq<u8>)
    requires
        s.wf(),
        !s.pend,
        1 <= run.len(),
        s.x + run.len() <= s.cols,
    ensures
        s.chunk(run).wf(),
        grows_by(s, s.chunk(run), 0),
        same_reader(s, s.chunk(run)),
{
    lemma_scr_ok(s);
    lemma_chunk_row(s, run);
    let y = s.y as int;
    let c = chunk_cells(s.scr()[y].cells, s.x as int, run, s.cols as int, s.fg, s.bg, s.attr);
    lemma_set_line(s, y, LineV { cells: c, wrapped: s.scr()[y].wrapped });
}

/// A run of text printed in two pieces lands as it does printed at once, unless the first
/// piece leaves the cursor on the right half of a wide character whose left half it
/// overwrote.
pub(crate) proof fn lemma_put_run_split(s: TermV, r1: Seq<u8>, r2: Seq<u8>)
    requires
        s.wf(),
        room(s, 2 * (r1.len() + r2.len()) as int),
        clean_split(s.put_run(r1)),
    ensures
        s.put_run(r1).put_run(r2) == s.put_run(r1 + r2),
        s.put_run(r1).wf(),
        grows_by(s, s.put_run(r1), 2 * r1.len() as int),
        same_reader(s, s.put_run(r1)),
    decreases r1.len(),
{
    reveal(TermV::put_run);
    let r = r1 + r2;
    if r1.len() == 0 {
        assert(r =~= r2);
    } else if r2.len() == 0 {
        assert(r =~= r1);
        lemma_put_run_wf(s, r1);
    } else if s.pend || s.x >= s.cols {
        assert(r[0] == r1[0]);
        assert(r.drop_first() =~= r1.drop_first() + r2);
        lemma_put_char_wf(s, r1[0] as u32);
        lemma_put_run_split(s.put_char(r1[0] as u32), r1.drop_first(), r2);
    } else {
        let room_left = s.cols - s.x;
        if r1.len() >= room_left {
            let n = room_left;
            assert(r.take(n) =~= r1.take(n));
            assert(r.skip(n) =~= r1.skip(n) + r2);
            lemma_chunk_wf(s, r1.take(n));
            lemma_put_run_split(s.chunk(r1.take(n)), r1.skip(n), r2);
        } else {
            let n1 = r1.len() as int;
            assert(r1.take(n1) =~= r1);
            assert(r1.skip(n1) =~= Seq::<u8>::empty());
            lemma_chunk_wf(s, r1);
            let u = s.chunk(r1);
            assert(u.put_run(Seq::<u8>::empty()) == u);
            assert(s.put_run(r1) == u);
            lemma_scr_ok(s);
            lemma_chunk_row(s, r1);
            let n2 = min(u.cols - u.x, r2.len() as int);
            let n = n1 + n2;
            assert(r.take(n) =~= r1 + r2.take(n2));
            assert(r.skip(n) =~= r2.skip(n2));
            lemma_chunk_merge(s, r1, r2.take(n2));
        }
    }
}

/// Printing a run keeps the state well formed, hands out at most two lines per byte, and
/// leaves the reading of the next byte as it was.
pub(crate) proof fn lemma_put_run_wf(s: TermV, r1: Seq<u8>)
    requires
        s.wf(),
        room(s, 2 * r1.len() as int),
    ensures
        s.put_run(r1).wf(),
        grows_by(s, s.put_run(r1), 2 * r1.len() as int),
        same_reader(s, s.put_run(r1)),
    decreases r1.len(),
{
    reveal(TermV::put_run);
    if r1.len() == 0 {
    } else if s.pend || s.x >= s.cols {
        lemma_put_char_wf(s, r1[0] as u32);
        lemma_put_run_wf(s.put_char(r1[0] as u32), r1.drop_first());
    } else {
        let n = min(s.cols - s.x, r1.len() as int);
        lemma_chunk_wf(s, r1.take(n));
        lemma_put_run_wf(s.chunk(r1.take(n)), r1.skip(n));
    }
}

/// After a run of printable bytes, the leading printable run of `r + b` goes on into `b`.
pub(crate) proof fn lemma_run_concat(r: Seq<u8>, b: Seq<u8>)
    requires
        forall|i: int| 0 <= i < r.len() ==> printable(#[trigger] r[i]),
    ensures
        printable_run(r + b) == r.len() + printable_run(b),
{
    let s = r + b;
    let kb = printable_run(b) as int;
    lemma_run_within(b);
    assert forall|q: int| 0 <= q < r.len() + kb implies printable(#[trigger] s[q]) by {
        if q < r.len() {
            assert(s[q] == r[q]);
        } else {
            lemma_run_prefix(b, q - r.len());
            assert(s[q] == b[q - r.len()]);
        }
    }
    if kb < b.len() {
        lemma_run_stop(b);
        assert(s[r.len() + kb] == b[kb]);
    }
    lemma_printable_run(s, r.len() + kb);
}

/// Text fed in two pieces lands as it does fed at once, unless the first piece leaves the
/// cursor on the right half of a wide character whose left half it overwrote (the line-id
/// bound only keeps the count of lines handed out within a `u64`).
pub proof fn text_in_two_pieces(t: TermV, a: Seq<u8>, b: Seq<u8>)
    requires
        t.wf(),
        1 <= a.len(),
        forall|i: int| 0 <= i < a.len() ==> printable(#[trigger] a[i]),
        forall|i: int| 0 <= i < b.len() ==> printable(#[trigger] b[i]),
        t.fast(a[0]),
        room(t, 2 * (a.len() + b.len()) as int),
        clean_split(t.feed(a)),
    ensures
        t.feed(a + b) == t.feed(a).feed(b),
{
    reveal(TermV::feed);
    let r = a + b;
    if b.len() == 0 {
        assert(r =~= a);
        return;
    }
    lemma_printable_run(a, a.len() as int);
    lemma_printable_run(b, b.len() as int);
    assert forall|i: int| 0 <= i < r.len() implies printable(#[trigger] r[i]) by {
        if i < a.len() {
            assert(r[i] == a[i]);
        } else {
            assert(r[i] == b[i - a.len()]);
        }
    }
    lemma_printable_run(r, r.len() as int);
    assert(r[0] == a[0]);
    assert(r.take(r.len() as int) =~= r);
    assert(r.skip(r.len() as int) =~= Seq::<u8>::empty());
    assert(a.take(a.len() as int) =~= a);
    assert(a.skip(a.len() as int) =~= Seq::<u8>::empty());
    assert(b.take(b.len() as int) =~= b);
    assert(b.skip(b.len() as int) =~= Seq::<u8>::empty());
    let u = t.put_run(a);
    assert(u.feed(Seq::<u8>::empty()) == u);
    assert(t.feed(a) == u);
    lemma_put_run_split(t, a, b);
    assert(u.fast(b[0]));
    let w = u.put_run(b);
    assert(w.feed(Seq::<u8>::empty()) == w);
    assert(u.feed(b) == w);
    let z = t.put_run(r);
    assert(z.feed(Seq::<u8>::empty()) == z);
}

} // verus!
