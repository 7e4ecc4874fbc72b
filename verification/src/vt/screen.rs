//! Cell and line access on the screen shown, and the scrollback.
use vstd::prelude::*;

use super::model::{TermV, LineV, lines_view, blank_line, blank_lines, max, trim, non_blank, resize_cells, resize_screen, initial};
use super::lemmas::{lemma_set_line_twice, lemma_set_line_same, lemma_set_cell_scr, lemma_set_cell, lemma_set_wrapped, lemma_clear_cells, lemma_sb_push, lemma_sb_push_lines, lemma_scroll_up, lemma_scroll_down, lemma_scr_ok, grows_by};
use crate::vt::{UNDER, STRIKE, REV, TAIL};
use crate::vt::{Cell, Line, Term, Modes, Saved, St};

verus! {

impl Term {
    pub open spec fn wf(&self) -> bool {
        self@.wf()
    }

    proof fn lemma_view_lengths(&self)
        requires
            self.wf(),
        ensures
            self.screens@.len() == 2,
            self.screens@[self.alt as int]@.len() == self.rows,
            forall|i: int| 0 <= i < self.rows ==> (#[trigger] self.screens@[self.alt as int]@[i]).cells@.len() == self.cols,
            self.dirty@.len() == self.rows,
            self.tabs@.len() == self.cols,
            self.params@.len() == 16,
            self.saved@.len() == 2,
    {
        assert forall|i: int| 0 <= i < self.rows implies (#[trigger] self.screens@[self.alt as int]@[i]).cells@.len() == self.cols by {
            assert(self@.screens[self.alt as int][i].cells.len() == self.cols);
        }
    }

    proof fn lemma_view_scr(&self)
        requires
            self.screens@.len() == 2,
            self.alt <= 1,
        ensures
            self@.scr() == lines_view(self.screens@[self.alt as int]@),
            self@.scr().len() == self.screens@[self.alt as int]@.len(),
            self@.screens.len() == 2,
    {
    }

    /// The view agrees with the public fields.
    pub(crate) proof fn lemma_fields(&self)
        ensures
            self@.cols == self.cols,
            self@.rows == self.rows,
            self@.alt == self.alt,
            self@.sb_base == self.sb_base,
            self@.view == self.view,
            self@.sb == lines_view(self.sb@),
            self@.dirty == self.dirty@,
            self@.all_dirty == self.all_dirty,
            self@.x == self.x,
            self@.y == self.y,
            self@.fg == self.fg,
            self@.bg == self.bg,
            self@.attr == self.attr,
            self@.def_fg == self.def_fg,
            self@.def_bg == self.def_bg,
            self@.modes == self.modes,
            self@.out == self.out@,
    {
    }

    pub(crate) fn blank(&self) -> (b: Cell)
        ensures
            b == self@.blank(),
    {
        Cell { cp: 0, fg: self.fg, bg: self.bg, attr: 0 }
    }

    pub(crate) fn cell(&self, y: usize, x: usize) -> (c: Cell)
        requires
            self.wf(),
            y < self.rows,
            x < self.cols,
        ensures
            c == self@.scr()[y as int].cells[x as int],
    {
        proof { self.lemma_view_lengths(); }
        self.screens[self.alt][y].cells[x]
    }

    pub(crate) fn set_cell(&mut self, y: usize, x: usize, c: Cell)
        requires
            old(self).wf(),
            y < old(self).rows,
            x < old(self).cols,
        ensures
            final(self)@ == old(self)@.set_cell(y as int, x as int, c),
            final(self).wf(),
            grows_by(old(self)@, final(self)@, 0),
    {
        proof { self.lemma_view_lengths(); lemma_set_cell(self@, y as int, x as int, c); }
        let ghost s0 = self@;
        let a = self.alt;
        self.screens[a][y].cells[x] = c;
        proof {
            let t = s0.set_cell(y as int, x as int, c);
            assert(self@.screens[a as int] =~~= t.screens[a as int]);
            assert(self@.screens =~~= t.screens);
            assert(self@ =~~= t);
        }
    }

    pub(crate) fn set_wrapped(&mut self, y: usize)
        requires
            old(self).wf(),
            y < old(self).rows,
        ensures
            final(self)@ == old(self)@.set_wrapped(y as int),
            final(self).wf(),
            grows_by(old(self)@, final(self)@, 0),
    {
        proof { self.lemma_view_lengths(); lemma_set_wrapped(self@, y as int); }
        let ghost s0 = self@;
        let a = self.alt;
        self.screens[a][y].wrapped = true;
        proof {
            let t = s0.set_wrapped(y as int);
            assert(self@.screens[a as int] =~~= t.screens[a as int]);
            assert(self@.screens =~~= t.screens);
            assert(self@ =~~= t);
        }
    }

    /// Moves the view `lines` lines back into the scrollback (forward where negative), held
    /// between the live screen and the oldest line kept; where it moved, everything is to
    /// be drawn. Says whether it moved.
    pub fn scroll_view(&mut self, lines: i64) -> (moved: bool)
        requires
            old(self).wf(),
        ensures
            ({
                let v0 = old(self)@.view + lines;
                let n = old(self)@.sb.len() as int;
                let v = if v0 < 0 { 0 } else if v0 > n { n } else { v0 };
                &&& moved == (v != old(self)@.view)
                &&& final(self)@ == if moved { TermV { view: v as usize, all_dirty: true, ..old(self)@ } } else { old(self)@ }
            }),
            final(self).wf(),
    {
        proof { self.lemma_fields(); }
        let n = self.sb.len();
        let v: usize = if lines < 0 {
            let back = (0 - (lines as i128)) as u128;
            if back >= self.view as u128 { 0 } else { self.view - back as usize }
        } else {
            let room = (n - self.view) as u128;
            if lines as u128 >= room { n } else { self.view + lines as usize }
        };
        if v != self.view {
            self.view = v;
            self.all_dirty = true;
            proof {
                assert(self@ =~= TermV { view: v, all_dirty: true, ..old(self)@ });
            }
            true
        } else {
            false
        }
    }

    /// Everything to be drawn in the next frame.
    pub(crate) fn set_all_dirty(&mut self)
        requires
            old(self).wf(),
        ensures
            final(self)@ == (TermV { all_dirty: true, ..old(self)@ }),
            final(self).wf(),
    {
        self.all_dirty = true;
        proof { assert(self@ =~= TermV { all_dirty: true, ..old(self)@ }); }
    }

    /// Every row drawn: no row is marked for redrawing any more.
    pub(crate) fn clear_dirty(&mut self)
        requires
            old(self).wf(),
        ensures
            final(self)@ == (TermV { dirty: Seq::new(old(self)@.rows as nat, |i: int| false), all_dirty: false, ..old(self)@ }),
            final(self).wf(),
    {
        proof { self.lemma_view_lengths(); }
        let ghost s0 = self@;
        let n = self.dirty.len();
        let mut i: usize = 0;
        while i < n
            invariant
                n == self.dirty@.len(),
                n == s0.rows,
                i <= n,
                self@ == (TermV { dirty: self.dirty@, ..s0 }),
                forall|k: int| 0 <= k < i ==> !(#[trigger] self.dirty@[k]),
            decreases n - i,
        {
            self.dirty.set(i, false);
            i = i + 1;
        }
        self.all_dirty = false;
        proof {
            let want = TermV { dirty: Seq::new(s0.rows as nat, |i: int| false), all_dirty: false, ..s0 };
            assert(self@.dirty =~= want.dirty);
            assert(self@ =~= want);
        }
    }

    /// Marks row `y` for redrawing.
    pub fn mark(&mut self, y: usize)
        requires
            old(self).wf(),
        ensures
            final(self)@ == old(self)@.mark(y as int),
            final(self).wf(),
            grows_by(old(self)@, final(self)@, 0),
    {
        if y < self.rows {
            self.dirty.set(y, true);
            proof { assert(self@ =~~= old(self)@.mark(y as int)); }
        }
    }

    /// Removes line `i` of the screen shown.
    fn scr_remove(&mut self, i: usize) -> (l: Line)
        requires
            old(self).screens@.len() == 2,
            old(self).alt <= 1,
            i < old(self).screens@[old(self).alt as int]@.len(),
        ensures
            final(self)@ == old(self)@.set_scr(old(self)@.scr().remove(i as int)),
            l@ == old(self)@.scr()[i as int],
            final(self).screens@.len() == 2,
            final(self).alt == old(self).alt,
    {
        let ghost s0 = self@;
        let a = self.alt;
        let l = self.screens[a].remove(i);
        proof {
            let t = s0.set_scr(s0.scr().remove(i as int));
            assert(self@.screens[a as int] =~~= t.screens[a as int]);
            assert(self@.screens =~~= t.screens);
            assert(self@ =~~= t);
        }
        l
    }

    /// Inserts a line at index `i` of the screen shown.
    fn scr_insert(&mut self, i: usize, l: Line)
        requires
            old(self).screens@.len() == 2,
            old(self).alt <= 1,
            i <= old(self).screens@[old(self).alt as int]@.len(),
        ensures
            final(self)@ == old(self)@.set_scr(old(self)@.scr().insert(i as int, l@)),
            final(self).screens@.len() == 2,
            final(self).alt == old(self).alt,
    {
        let ghost s0 = self@;
        let a = self.alt;
        self.screens[a].insert(i, l);
        proof {
            let t = s0.set_scr(s0.scr().insert(i as int, l@));
            assert(self@.screens[a as int] =~~= t.screens[a as int]);
            assert(self@.screens =~~= t.screens);
            assert(self@ =~~= t);
        }
    }

    /// Blanks the cells `x0..x1` (clipped to the width) of row `y` and marks it.
    pub(crate) fn clear_cells(&mut self, y: usize, x0: usize, x1: usize)
        requires
            old(self).wf(),
            y < old(self).rows,
            x0 <= x1,
        ensures
            final(self)@ == old(self)@.clear_cells(y as int, x0 as int, x1 as int),
            final(self).wf(),
            grows_by(old(self)@, final(self)@, 0),
    {
        proof { lemma_clear_cells(self@, y as int, x0 as int, x1 as int); lemma_scr_ok(self@); }
        let ghost s0 = self@;
        let b = self.blank();
        let cols = self.cols;
        let lo = if x0 < cols { x0 } else { cols };
        let hi = if x1 < cols { x1 } else { cols };
        let ghost l0 = s0.scr()[y as int];
        proof { lemma_set_line_same(s0, y as int); }
        let mut i = lo;
        while i < hi
            invariant
                lo <= i <= hi <= cols,
                cols == self.cols,
                self.wf(),
                y < s0.rows,
                s0.wf(),
                b == s0.blank(),
                l0 == s0.scr()[y as int],
                l0.cells.len() == cols,
                self@ == s0.set_line(y as int, self@.scr()[y as int]),
                self@.scr()[y as int].wrapped == l0.wrapped,
                self@.scr()[y as int].cells.len() == cols,
                forall|j: int| 0 <= j < cols ==> #[trigger] self@.scr()[y as int].cells[j] == (if lo <= j < i { b } else { l0.cells[j] }),
            decreases hi - i,
        {
            let ghost before = self@;
            let ghost li = before.scr()[y as int];
            proof { lemma_scr_ok(before); lemma_scr_ok(s0); lemma_set_cell_scr(before, y as int, i as int, b); }
            self.set_cell(y, i, b);
            i = i + 1;
            proof {
                let ln = LineV { cells: li.cells.update(i - 1, b), wrapped: li.wrapped };
                assert(self@ == before.set_line(y as int, ln));
                lemma_set_line_twice(s0, y as int, li, ln);
                assert(self@.scr()[y as int] == ln);
            }
        }
        proof {
            let t = LineV { cells: Seq::new(l0.cells.len(), |j: int| if lo <= j < hi { b } else { l0.cells[j] }), wrapped: l0.wrapped };
            assert(self@.scr()[y as int] =~~= t);
        }
        self.mark(y);
    }

    /// Blanks the rows `lo..hi` entirely.
    pub(crate) fn clear_rows(&mut self, lo: usize, hi: usize)
        requires
            old(self).wf(),
            hi <= old(self).rows,
        ensures
            final(self)@ == old(self)@.clear_rows(lo as int, hi as int),
            final(self).wf(),
            grows_by(old(self)@, final(self)@, 0),
    {
        let mut y = lo;
        while y < hi
            invariant
                self.wf(),
                hi <= self.rows,
                lo <= y,
                y < hi ==> self@.clear_rows(y as int, hi as int) == old(self)@.clear_rows(lo as int, hi as int),
                y >= hi ==> self@ == old(self)@.clear_rows(lo as int, hi as int),
                grows_by(old(self)@, self@, 0),
            decreases hi - y,
        {
            let cols = self.cols;
            self.clear_cells(y, 0, cols);
            y = y + 1;
        }
    }

    fn trim_blank(cells: &mut Vec<Cell>, def_bg: u32)
        ensures
            final(cells)@ == trim(old(cells)@, def_bg),
    {
        while cells.len() > 0 && !Self::non_blank(&cells[cells.len() - 1], def_bg)
            invariant
                trim(cells@, def_bg) == trim(old(cells)@, def_bg),
            decreases cells.len(),
        {
            let ghost before = cells@;
            cells.pop();
            assert(cells@ =~= before.drop_last());
        }
    }

    fn non_blank(c: &Cell, def_bg: u32) -> (r: bool)
        ensures
            r == non_blank(*c, def_bg),
    {
        (c.cp != 0 && c.cp != 32) || c.bg != def_bg || c.attr & (UNDER | STRIKE | REV | TAIL) != 0
    }

    /// Appends a line to the scrollback.
    fn sb_push(&mut self, line: Line)
        requires
            old(self).wf(),
            old(self)@.lines_total() < u64::MAX,
            line@.cells.len() <= u32::MAX,
        ensures
            final(self)@ == old(self)@.sb_push(line@),
            final(self).wf(),
    {
        proof { lemma_sb_push(self@, line@); }
        let ghost l0 = line@;
        if self.sb_cap == 0 || self.alt != 0 {
            return;
        }
        let mut line = line;
        if !line.wrapped {
            let bg = self.def_bg;
            Self::trim_blank(&mut line.cells, bg);
        }
        let ghost s0 = old(self)@;
        let ghost l2 = line@;
        if self.sb.len() == self.sb_cap {
            self.sb.pop_front();
            self.sb_base = self.sb_base + 1;
        }
        self.sb.push_back(line);
        if self.view > 0 {
            self.view = if self.view < self.sb.len() { self.view + 1 } else { self.sb.len() };
        }
        proof {
            let t = s0.sb_push(l0);
            assert(l2 == (if !l0.wrapped { LineV { cells: trim(l0.cells, s0.def_bg), wrapped: l0.wrapped } } else { l0 }));
            assert(self@.sb =~~= t.sb);
            assert(self@ =~~= t);
        }
    }

    /// A line of `cols` blank cells.
    fn new_blank_line(cols: usize, b: Cell) -> (l: Line)
        ensures
            l@ == blank_line(cols as nat, b),
    {
        let cells = vec![b; cols];
        assert(cells@ =~= Seq::new(cols as nat, |i: int| b));
        Line { cells, wrapped: false }
    }

    /// Takes the `n` lines at `top` out of the screen shown and puts `n` blank lines after
    /// the line that was at `bot`; gives back the lines taken out.
    fn rotate_up(&mut self, top: usize, bot: usize, n: usize, b: Cell, cols: usize) -> (moved: Vec<Line>)
        requires
            old(self).screens@.len() == 2,
            old(self).alt <= 1,
            top <= bot < old(self)@.scr().len(),
            n <= bot - top + 1,
        ensures
            final(self)@ == old(self)@.set_scr(old(self)@.scr().subrange(0, top as int) + old(self)@.scr().subrange(top + n, bot + 1) + blank_lines(n as nat, cols as nat, b) + old(self)@.scr().subrange(bot + 1, old(self)@.scr().len() as int)),
            lines_view(moved@) == old(self)@.scr().subrange(top as int, top + n),
            final(self).screens@.len() == 2,
            final(self).alt == old(self).alt,
    {
        let ghost s0 = self@;
        let ghost sc = s0.scr();
        let mut moved: Vec<Line> = Vec::new();
        let mut i: usize = 0;
        proof {
            assert(sc.subrange(0, top as int) + sc.subrange(top as int, bot + 1) + blank_lines(0, cols as nat, b) + sc.subrange(bot + 1, sc.len() as int) =~~= sc);
            assert(s0.screens.update(s0.alt as int, sc) =~~= s0.screens);
            assert(lines_view(moved@) =~~= sc.subrange(top as int, top as int));
        }
        while i < n
            invariant
                i <= n <= bot - top + 1,
                top <= bot < sc.len(),
                sc == s0.scr(),
                s0.screens.len() == 2,
                s0.alt <= 1,
                self.screens@.len() == 2,
                self.alt == s0.alt,
                self.alt <= 1,
                self@ == s0.set_scr(sc.subrange(0, top as int) + sc.subrange(top + i, bot + 1) + blank_lines(i as nat, cols as nat, b) + sc.subrange(bot + 1, sc.len() as int)),
                lines_view(moved@) == sc.subrange(top as int, top + i),
            decreases n - i,
        {
            let ghost prev = sc.subrange(0, top as int) + sc.subrange(top + i, bot + 1) + blank_lines(i as nat, cols as nat, b) + sc.subrange(bot + 1, sc.len() as int);
            proof {
                self.lemma_view_scr();
                assert(self@.scr() == prev);
                assert(prev.len() == sc.len());
            }
            let ghost before = self@;
            let l = self.scr_remove(top);
            proof { self.lemma_view_scr(); }
            let ghost mid = self@;
            let ghost mv = moved@;
            let ghost lv = l@;
            moved.push(l);
            let nl = Self::new_blank_line(cols, b);
            self.scr_insert(bot, nl);
            i = i + 1;
            proof {
                let want = sc.subrange(0, top as int) + sc.subrange(top + i, bot + 1) + blank_lines(i as nat, cols as nat, b) + sc.subrange(bot + 1, sc.len() as int);
                let r = prev.remove(top as int);
                assert(r.len() == sc.len() - 1);
                assert forall|k: int| 0 <= k < sc.len() implies #[trigger] r.insert(bot as int, blank_line(cols as nat, b))[k] == want[k] by {
                    if k < top {
                    } else if k < bot {
                        assert(r[k] == prev[k + 1]);
                    } else if k == bot {
                    } else {
                        assert(r.insert(bot as int, blank_line(cols as nat, b))[k] == r[k - 1]);
                        assert(r[k - 1] == prev[k]);
                    }
                }
                assert(r.insert(bot as int, blank_line(cols as nat, b)) =~= want);
                assert(mid.scr() == r);
                assert(self@.scr() == want);
                assert(self@.screens =~~= s0.set_scr(want).screens);
                assert(self@ == (TermV { screens: self@.screens, ..s0 }));
                assert(self@ =~~= s0.set_scr(want));
                assert(lv == prev[top as int]);
                assert(prev[top as int] == sc[top + i - 1]);
                assert(lines_view(mv).len() == mv.len());
                assert(mv.len() == i - 1);
                assert(moved@.len() == mv.len() + 1);
                assert(moved@[mv.len() as int]@ == lv);
                assert forall|k: int| 0 <= k < i implies #[trigger] lines_view(moved@)[k] == sc.subrange(top as int, top + i)[k] by {
                    if k < i - 1 {
                        assert(moved@[k] == mv[k]);
                        assert(lines_view(mv)[k] == sc.subrange(top as int, top + i - 1)[k]);
                    }
                }
                assert(lines_view(moved@) =~~= sc.subrange(top as int, top + i));
            }
        }
        moved
    }

    /// Appends the lines of `moved`, in order, to the scrollback.
    fn push_lines(&mut self, moved: Vec<Line>)
        requires
            old(self).wf(),
            old(self)@.lines_total() + moved@.len() <= u64::MAX,
            forall|i: int| 0 <= i < moved@.len() ==> (#[trigger] lines_view(moved@)[i]).cells.len() <= u32::MAX,
        ensures
            final(self)@ == old(self)@.sb_push_lines(lines_view(moved@)),
            final(self).wf(),
    {
        let ghost m0 = lines_view(moved@);
        let mut moved = moved;
        proof { lemma_sb_push_lines(self@, lines_view(moved@)); }
        while moved.len() > 0
            invariant
                self.wf(),
                self@.sb_push_lines(lines_view(moved@)) == old(self)@.sb_push_lines(m0),
                self@.lines_total() + moved@.len() <= u64::MAX,
                forall|i: int| 0 <= i < moved@.len() ==> (#[trigger] lines_view(moved@)[i]).cells.len() <= u32::MAX,
            decreases moved@.len(),
        {
            let ghost mv = lines_view(moved@);
            let l = moved.remove(0);
            proof {
                assert(lines_view(moved@) =~~= mv.drop_first());
                assert(mv[0] == l@);
                assert forall|i: int| 0 <= i < moved@.len() implies (#[trigger] lines_view(moved@)[i]).cells.len() <= u32::MAX by {
                    assert(lines_view(moved@)[i] == mv[i + 1]);
                }
                lemma_sb_push(self@, l@);
            }
            self.sb_push(l);
        }
        proof { assert(lines_view(moved@) =~~= Seq::<LineV>::empty()); }
    }

    /// Scrolls the rows `top..=bot` up by `n`.
    pub(crate) fn scroll_up(&mut self, top: usize, bot: usize, n: usize, to_sb: bool)
        requires
            old(self).wf(),
            top <= bot < old(self).rows,
            old(self)@.lines_total() + old(self).rows <= u64::MAX,
        ensures
            final(self)@ == old(self)@.scroll_up(top as int, bot as int, n as int, to_sb),
            final(self).wf(),
            grows_by(old(self)@, final(self)@, old(self).rows as int),
            grows_by(old(self)@, final(self)@, n as int),
    {
        proof { lemma_scroll_up(self@, top as int, bot as int, n as int, to_sb); lemma_scr_ok(self@); }
        let ghost s0 = self@;
        let ghost sc = s0.scr();
        let span = bot - top + 1;
        let n = if n < span { n } else { span };
        if n == 0 {
            return;
        }
        let push = to_sb && self.alt == 0 && top == 0 && bot == self.rows - 1;
        let b = self.blank();
        let cols = self.cols;
        proof { self.lemma_view_scr(); }
        let moved = self.rotate_up(top, bot, n, b, cols);
        self.all_dirty = true;
        let ghost s1 = self@;
        proof {
            let new = sc.subrange(0, top as int) + sc.subrange(top + n, bot + 1) + blank_lines(n as nat, cols as nat, b) + sc.subrange(bot + 1, sc.len() as int);
            assert(s1 =~~= TermV { all_dirty: true, ..s0.set_scr(new) });
            super::lemmas::lemma_set_scr(s0, new);
        }
        if push {
            proof {
                assert forall|i: int| 0 <= i < moved@.len() implies (#[trigger] lines_view(moved@)[i]).cells.len() <= u32::MAX by {
                    assert(lines_view(moved@)[i] == sc[top + i]);
                }
            }
            self.push_lines(moved);
        }
    }

    /// Takes the `n` lines that end at `bot` out of the screen shown and puts `n` blank
    /// lines at `top`.
    fn rotate_down(&mut self, top: usize, bot: usize, n: usize, b: Cell, cols: usize)
        requires
            old(self).screens@.len() == 2,
            old(self).alt <= 1,
            top <= bot < old(self)@.scr().len(),
            n <= bot - top + 1,
        ensures
            final(self)@ == old(self)@.set_scr(old(self)@.scr().subrange(0, top as int) + blank_lines(n as nat, cols as nat, b) + old(self)@.scr().subrange(top as int, bot + 1 - n) + old(self)@.scr().subrange(bot + 1, old(self)@.scr().len() as int)),
            final(self).screens@.len() == 2,
            final(self).alt == old(self).alt,
    {
        let ghost s0 = self@;
        let ghost sc = s0.scr();
        let mut i: usize = 0;
        proof {
            assert(sc.subrange(0, top as int) + blank_lines(0, cols as nat, b) + sc.subrange(top as int, bot + 1) + sc.subrange(bot + 1, sc.len() as int) =~~= sc);
            assert(s0.screens.update(s0.alt as int, sc) =~~= s0.screens);
        }
        while i < n
            invariant
                i <= n <= bot - top + 1,
                top <= bot < sc.len(),
                sc == s0.scr(),
                s0.screens.len() == 2,
                s0.alt <= 1,
                self.screens@.len() == 2,
                self.alt == s0.alt,
                self.alt <= 1,
                self@ == s0.set_scr(sc.subrange(0, top as int) + blank_lines(i as nat, cols as nat, b) + sc.subrange(top as int, bot + 1 - i) + sc.subrange(bot + 1, sc.len() as int)),
            decreases n - i,
        {
            let ghost prev = sc.subrange(0, top as int) + blank_lines(i as nat, cols as nat, b) + sc.subrange(top as int, bot + 1 - i) + sc.subrange(bot + 1, sc.len() as int);
            proof {
                self.lemma_view_scr();
                assert(self@.scr() == prev);
                assert(prev.len() == sc.len());
            }
            let _gone = self.scr_remove(bot);
            proof { self.lemma_view_scr(); }
            let ghost mid = self@;
            let nl = Self::new_blank_line(cols, b);
            self.scr_insert(top, nl);
            i = i + 1;
            proof {
                let want = sc.subrange(0, top as int) + blank_lines(i as nat, cols as nat, b) + sc.subrange(top as int, bot + 1 - i) + sc.subrange(bot + 1, sc.len() as int);
                let r = prev.remove(bot as int);
                assert(r.len() == sc.len() - 1);
                assert forall|k: int| 0 <= k < sc.len() implies #[trigger] r.insert(top as int, blank_line(cols as nat, b))[k] == want[k] by {
                    if k < top {
                    } else if k == top {
                    } else if k <= bot {
                        assert(r.insert(top as int, blank_line(cols as nat, b))[k] == r[k - 1]);
                        assert(r[k - 1] == prev[k - 1]);
                    } else {
                        assert(r.insert(top as int, blank_line(cols as nat, b))[k] == r[k - 1]);
                        assert(r[k - 1] == prev[k]);
                    }
                }
                assert(r.insert(top as int, blank_line(cols as nat, b)) =~= want);
                assert(mid.scr() == r);
                assert(self@.scr() == want);
                assert(self@.screens =~~= s0.set_scr(want).screens);
                assert(self@ == (TermV { screens: self@.screens, ..s0 }));
                assert(self@ =~~= s0.set_scr(want));
            }
        }
    }

    /// Scrolls the rows `top..=bot` down by `n`.
    pub(crate) fn scroll_down(&mut self, top: usize, bot: usize, n: usize)
        requires
            old(self).wf(),
            top <= bot < old(self).rows,
        ensures
            final(self)@ == old(self)@.scroll_down(top as int, bot as int, n as int),
            final(self).wf(),
            grows_by(old(self)@, final(self)@, 0),
    {
        proof { lemma_scroll_down(self@, top as int, bot as int, n as int); lemma_scr_ok(self@); }
        let ghost s0 = self@;
        let ghost sc = s0.scr();
        let span = bot - top + 1;
        let n = if n < span { n } else { span };
        if n == 0 {
            return;
        }
        let b = self.blank();
        let cols = self.cols;
        proof { self.lemma_view_scr(); }
        self.rotate_down(top, bot, n, b, cols);
        self.all_dirty = true;
        proof {
            let new = sc.subrange(0, top as int) + blank_lines(n as nat, cols as nat, b) + sc.subrange(top as int, bot + 1 - n) + sc.subrange(bot + 1, sc.len() as int);
            assert(self@ =~~= TermV { all_dirty: true, ..s0.set_scr(new) });
        }
    }

    /// Swaps the cells of row `y` of the screen shown with `cells`.
    pub(crate) fn swap_cells(&mut self, y: usize, cells: &mut Vec<Cell>)
        requires
            old(self).screens@.len() == 2,
            old(self).alt <= 1,
            y < old(self)@.scr().len(),
        ensures
            final(self)@ == old(self)@.set_line(y as int, LineV { cells: old(cells)@, wrapped: old(self)@.scr()[y as int].wrapped }),
            final(cells)@ == old(self)@.scr()[y as int].cells,
            final(self).screens@.len() == 2,
            final(self).alt == old(self).alt,
    {
        let ghost s0 = self@;
        let a = self.alt;
        proof { self.lemma_view_scr(); }
        std::mem::swap(&mut self.screens[a][y].cells, cells);
        proof {
            let t = s0.set_line(y as int, LineV { cells: old(cells)@, wrapped: s0.scr()[y as int].wrapped });
            assert(self@.screens[a as int] =~~= t.screens[a as int]);
            assert(self@.screens =~~= t.screens);
            assert(self@ =~~= t);
        }
    }

    /// A tab stop at every eighth column of `cols`.
    fn tab_stops(cols: usize) -> (tabs: Vec<bool>)
        ensures
            tabs@ == Seq::new(cols as nat, |j: int| j % 8 == 0),
    {
        let mut tabs: Vec<bool> = Vec::new();
        let mut i: usize = 0;
        while i < cols
            invariant
                i <= cols,
                tabs@ == Seq::new(i as nat, |j: int| j % 8 == 0),
            decreases cols - i,
        {
            tabs.push(i % 8 == 0);
            i = i + 1;
            assert(tabs@ =~= Seq::new(i as nat, |j: int| j % 8 == 0));
        }
        tabs
    }

    pub(crate) fn reset_tabs(&mut self)
        requires
            old(self).wf(),
        ensures
            final(self)@ == old(self)@.reset_tabs(),
            final(self).wf(),
            grows_by(old(self)@, final(self)@, 0),
    {
        self.tabs = Self::tab_stops(self.cols);
        proof { assert(self@ =~~= old(self)@.reset_tabs()); }
    }

    /// Gives every line `c` cells and the screen `r` lines, blank ones added as `b`.
    fn resize_lines(scr: &mut Vec<Line>, c: usize, r: usize, b: Cell)
        ensures
            lines_view(final(scr)@) == resize_screen(lines_view(old(scr)@), c as nat, r as nat, b),
    {
        let ghost s0 = lines_view(scr@);
        let mut i: usize = 0;
        while i < scr.len()
            invariant
                i <= scr@.len(),
                scr@.len() == s0.len(),
                forall|k: int| 0 <= k < i ==> (#[trigger] scr@[k])@ == (LineV { cells: resize_cells(s0[k].cells, c as nat, b), wrapped: s0[k].wrapped }),
                forall|k: int| i <= k < scr@.len() ==> (#[trigger] scr@[k])@ == s0[k],
            decreases scr@.len() - i,
        {
            let mut cells: Vec<Cell> = Vec::new();
            std::mem::swap(&mut cells, &mut scr[i].cells);
            let ghost c0 = cells@;
            cells.resize(c, b);
            proof {
                assert(cells@ =~= resize_cells(c0, c as nat, b));
            }
            std::mem::swap(&mut cells, &mut scr[i].cells);
            i = i + 1;
        }
        if r <= scr.len() {
            scr.truncate(r);
        } else {
            while scr.len() < r
                invariant
                    s0.len() <= scr@.len() <= r,
                    forall|k: int| 0 <= k < s0.len() ==> (#[trigger] scr@[k])@ == (LineV { cells: resize_cells(s0[k].cells, c as nat, b), wrapped: s0[k].wrapped }),
                    forall|k: int| s0.len() <= k < scr@.len() ==> (#[trigger] scr@[k])@ == blank_line(c as nat, b),
                decreases r - scr@.len(),
            {
                let l = Self::new_blank_line(c, b);
                scr.push(l);
            }
        }
        proof {
            assert(lines_view(scr@) =~~= resize_screen(s0, c as nat, r as nat, b));
        }
    }

    /// Changes the size of the screen to `cols` by `rows` (at least 2 by 2): lines are cut
    /// or padded with blank cells, rows dropped or added at the bottom, the scrolling region
    /// reset and the cursor kept inside.
    pub fn resize(&mut self, cols: usize, rows: usize)
        requires
            old(self).wf(),
            max(cols as int, 2) <= u32::MAX,
            max(rows as int, 2) <= u32::MAX,
            max(cols as int, 2) * max(rows as int, 2) <= usize::MAX,
        ensures
            final(self)@ == old(self)@.resize(cols, rows),
            final(self).wf(),
            final(self)@.lines_total() == old(self)@.lines_total(),
    {
        let c = if cols < 2 { 2 } else { cols };
        let r = if rows < 2 { 2 } else { rows };
        if c == self.cols && r == self.rows {
            return;
        }
        let b = Cell { cp: 0, fg: self.def_fg, bg: self.def_bg, attr: 0 };
        let ghost s0 = self@;
        let mut k: usize = 0;
        while k < 2
            invariant
                k <= 2,
                self.screens@.len() == 2,
                forall|j: int| 0 <= j < k ==> lines_view((#[trigger] self.screens@[j])@) == resize_screen(s0.screens[j], c as nat, r as nat, b),
                forall|j: int| k <= j < 2 ==> lines_view((#[trigger] self.screens@[j])@) == s0.screens[j],
                self@ == (TermV { screens: self@.screens, ..s0 }),
            decreases 2 - k,
        {
            let mut scr: Vec<Line> = Vec::new();
            std::mem::swap(&mut scr, &mut self.screens[k]);
            Self::resize_lines(&mut scr, c, r, b);
            self.screens.set(k, scr);
            k = k + 1;
        }
        self.cols = c;
        self.rows = r;
        self.dirty.resize(r, true);
        self.tabs = Self::tab_stops(c);
        self.top = 0;
        self.bot = r - 1;
        self.x = if self.x < c - 1 { self.x } else { c - 1 };
        self.y = if self.y < r - 1 { self.y } else { r - 1 };
        self.view = 0;
        self.pend = false;
        self.all_dirty = true;
        proof {
            let t = old(self)@.resize(cols, rows);
            assert(self@.dirty =~= t.dirty);
            assert(self@.screens =~~= t.screens);
            assert(self@ =~~= t);
            assert forall|j: int, i: int| 0 <= j < 2 && 0 <= i < t.rows implies (#[trigger] t.screens[j][i]).cells.len() == t.cols by {
            }
        }
    }

    /// A screen of `rows` blank lines of `cols` cells.
    fn blank_screen(rows: usize, cols: usize, b: Cell) -> (v: Vec<Line>)
        ensures
            lines_view(v@) == Seq::new(rows as nat, |i: int| blank_line(cols as nat, b)),
    {
        let mut v: Vec<Line> = Vec::new();
        let mut i: usize = 0;
        while i < rows
            invariant
                i <= rows,
                lines_view(v@) == Seq::new(i as nat, |j: int| blank_line(cols as nat, b)),
            decreases rows - i,
        {
            let l = Self::new_blank_line(cols, b);
            let ghost v0 = v@;
            v.push(l);
            i = i + 1;
            proof {
                assert(lines_view(v0).len() == v0.len());
                assert forall|k: int| 0 <= k < i implies #[trigger] lines_view(v@)[k] == blank_line(cols as nat, b) by {
                    if k < i - 1 {
                        assert(v@[k] == v0[k]);
                        assert(lines_view(v0)[k] == blank_line(cols as nat, b));
                    }
                }
                assert(lines_view(v@) =~~= Seq::new(i as nat, |j: int| blank_line(cols as nat, b)));
            }
        }
        v
    }

    /// Switches between the main and the alternate screen; the alternate one starts blank.
    pub(crate) fn use_alt(&mut self, alt: bool)
        requires
            old(self).wf(),
        ensures
            final(self)@ == old(self)@.use_alt(alt),
            final(self).wf(),
            grows_by(old(self)@, final(self)@, 0),
    {
        let a: usize = if alt { 1 } else { 0 };
        if self.alt == a {
            return;
        }
        if alt {
            let b = self.blank();
            let scr = Self::blank_screen(self.rows, self.cols, b);
            self.screens.set(1, scr);
        }
        self.alt = a;
        self.view = 0;
        self.all_dirty = true;
        proof {
            let t = old(self)@.use_alt(alt);
            assert(self@.screens =~~= t.screens);
            assert(self@ =~~= t);
            lemma_scr_ok(old(self)@);
            assert forall|k: int, i: int| 0 <= k < 2 && 0 <= i < t.rows implies (#[trigger] t.screens[k][i]).cells.len() == t.cols by {
                assert(old(self)@.screens[k][i].cells.len() == t.cols);
            }
        }
    }

    /// Id of the `d`-th displayed row.
    pub fn line_id(&self, d: usize) -> (r: u64)
        requires
            self.wf(),
            self@.sb.len() - self@.view + d <= usize::MAX,
            self@.line_id(d as int) <= u64::MAX,
        ensures
            r == self@.line_id(d as int),
    {
        self.sb_base + (self.sb.len() - self.view + d) as u64
    }

    /// The line with id `id`: in the scrollback or on the screen shown.
    pub fn line_at(&self, id: u64) -> (r: Option<&Line>)
        requires
            self.wf(),
        ensures
            match r {
                Some(l) => self@.line_at(id) == Some(l@),
                None => self@.line_at(id) is None,
            },
    {
        proof { self.lemma_view_scr(); }
        if id < self.sb_base {
            return None;
        }
        let rel = (id - self.sb_base) as usize;
        if rel < self.sb.len() {
            Some(&self.sb[rel])
        } else if rel - self.sb.len() < self.screens[self.alt].len() {
            Some(&self.screens[self.alt][rel - self.sb.len()])
        } else {
            None
        }
    }

    /// A terminal of `cols` by `rows` cells in the colours `fg` on `bg`, keeping up to
    /// `sb_cap` lines of scrollback.
    pub fn new(cols: usize, rows: usize, sb_cap: usize, fg: u32, bg: u32) -> (t: Term)
        requires
            1 <= cols <= u32::MAX,
            1 <= rows <= u32::MAX,
            cols * rows <= usize::MAX,
        ensures
            t@ == initial(cols, rows, sb_cap, fg, bg),
            t.wf(),
    {
        let b = Cell { cp: 0, fg, bg, attr: 0 };
        let s0 = Self::blank_screen(rows, cols, b);
        let s1 = Self::blank_screen(rows, cols, b);
        let mut screens: Vec<Vec<Line>> = Vec::new();
        screens.push(s0);
        screens.push(s1);
        let mut saved: Vec<Saved> = Vec::new();
        saved.push(Self::unset_saved());
        saved.push(Self::unset_saved());
        let t = Term {
            cols,
            rows,
            screens,
            alt: 0,
            sb: std::collections::VecDeque::new(),
            sb_cap,
            sb_base: 0,
            view: 0,
            dirty: vec![true; rows],
            all_dirty: true,
            x: 0,
            y: 0,
            fg,
            bg,
            attr: 0,
            def_fg: fg,
            def_bg: bg,
            top: 0,
            bot: rows - 1,
            pend: false,
            modes: Modes { ckm: false, awm: true, tcem: true, origin: false, paste: false, focus: false, sync: false, mouse: 0, sgr_mouse: false },
            saved,
            tabs: Self::tab_stops(cols),
            g0: false,
            g1: false,
            cs: 0,
            last: 0,
            st: St::Ground,
            params: vec![0u32; 16],
            np: 0,
            seen: false,
            colon: 0,
            privc: 0,
            inter: 0,
            osc: Vec::new(),
            osc_over: false,
            esc_str: false,
            ucp: 0,
            uneed: 0,
            uhave: 0,
            out: Vec::new(),
            title: None,
            clip: None,
        };
        proof {
            let want = initial(cols, rows, sb_cap, fg, bg);
            assert(t@.screens =~~= want.screens);
            assert(t@.dirty =~= want.dirty);
            assert(t@.params =~= want.params);
            assert(t@.sb =~~= want.sb);
            assert(t@ =~~= want);
            assert forall|k: int, i: int| 0 <= k < 2 && 0 <= i < rows implies (#[trigger] want.screens[k][i]).cells.len() == cols by {
            }
        }
        t
    }

    /// Row `y` of the screen shown.
    pub fn line(&self, y: usize) -> (l: &Line)
        requires
            self.wf(),
            y < self@.rows,
        ensures
            l@ == self@.scr()[y as int],
    {
        proof { self.lemma_view_lengths(); }
        &self.screens[self.alt][y]
    }
}

} // verus!
