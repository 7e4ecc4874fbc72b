//! Facts about the model: what each operation keeps of a well-formed state.
use vstd::prelude::*;

use super::model::{TermV, LineV, min, blank_lines, trim};
use crate::vt::Cell;

verus! {

/// The parts of the state that no byte of input changes.
pub open spec fn same_frame(a: TermV, b: TermV) -> bool {
    &&& a.cols == b.cols
    &&& a.rows == b.rows
    &&& a.sb_cap == b.sb_cap
    &&& a.def_fg == b.def_fg
    &&& a.def_bg == b.def_bg
}

/// `b` comes from `a` without a change of size, and with at most `k` more lines handed out.
pub open spec fn grows_by(a: TermV, b: TermV, k: int) -> bool {
    same_frame(a, b) && b.lines_total() <= a.lines_total() + k
}

pub proof fn lemma_set_line(s: TermV, y: int, l: LineV)
    requires
        s.wf(),
        0 <= y < s.rows,
        l.cells.len() == s.cols,
    ensures
        s.set_line(y, l).wf(),
        same_frame(s, s.set_line(y, l)),
        s.set_line(y, l).lines_total() == s.lines_total(),
        s.set_line(y, l).scr() == s.scr().update(y, l),
{
    let t = s.set_line(y, l);
    assert forall|k: int, i: int| 0 <= k < 2 && 0 <= i < t.rows implies (#[trigger] t.screens[k][i]).cells.len() == t.cols by {
        if k == s.alt as int && i == y {
        } else {
            assert(s.screens[k][i].cells.len() == s.cols);
        }
    }
}

pub proof fn lemma_set_cell(s: TermV, y: int, x: int, c: Cell)
    requires
        s.wf(),
        0 <= y < s.rows,
        0 <= x < s.cols,
    ensures
        s.set_cell(y, x, c).wf(),
        same_frame(s, s.set_cell(y, x, c)),
        s.set_cell(y, x, c).lines_total() == s.lines_total(),
{
    assert(s.screens[s.alt as int][y].cells.len() == s.cols);
    lemma_set_line(s, y, LineV { cells: s.scr()[y].cells.update(x, c), wrapped: s.scr()[y].wrapped });
}

pub proof fn lemma_set_wrapped(s: TermV, y: int)
    requires
        s.wf(),
        0 <= y < s.rows,
    ensures
        s.set_wrapped(y).wf(),
        same_frame(s, s.set_wrapped(y)),
        s.set_wrapped(y).lines_total() == s.lines_total(),
{
    assert(s.screens[s.alt as int][y].cells.len() == s.cols);
    lemma_set_line(s, y, LineV { cells: s.scr()[y].cells, wrapped: true });
}

pub proof fn lemma_clear_cells(s: TermV, y: int, x0: int, x1: int)
    requires
        s.wf(),
        0 <= y < s.rows,
    ensures
        s.clear_cells(y, x0, x1).wf(),
        same_frame(s, s.clear_cells(y, x0, x1)),
        s.clear_cells(y, x0, x1).lines_total() == s.lines_total(),
{
    let l = s.scr()[y];
    assert(s.screens[s.alt as int][y].cells.len() == s.cols);
    let b = s.blank();
    let lo = min(x0, s.cols as int);
    let hi = min(x1, s.cols as int);
    lemma_set_line(s, y, LineV { cells: Seq::new(l.cells.len(), |i: int| if lo <= i < hi { b } else { l.cells[i] }), wrapped: l.wrapped });
}

pub proof fn lemma_clear_rows(s: TermV, lo: int, hi: int)
    requires
        s.wf(),
        0 <= lo,
        hi <= s.rows,
    ensures
        s.clear_rows(lo, hi).wf(),
        same_frame(s, s.clear_rows(lo, hi)),
        s.clear_rows(lo, hi).lines_total() == s.lines_total(),
    decreases hi - lo,
{
    if lo < hi {
        lemma_clear_cells(s, lo, 0, s.cols as int);
        lemma_clear_rows(s.clear_cells(lo, 0, s.cols as int), lo + 1, hi);
    }
}


/// Every line that an id reaches is at most `u32::MAX` cells long.
pub proof fn lemma_line_at_len(s: TermV, id: u64)
    requires
        s.wf(),
        s.line_at(id) is Some,
    ensures
        s.line_at(id)->0.cells.len() <= u32::MAX,
{
    lemma_scr_ok(s);
    let rel = (id - s.sb_base) as usize as int;
    if rel >= s.sb.len() {
        assert(s.scr()[rel - s.sb.len()].cells.len() == s.cols);
    }
}

pub proof fn lemma_trim_len(s: Seq<Cell>, bg: u32)
    ensures
        trim(s, bg).len() <= s.len(),
    decreases s.len(),
{
    if s.len() > 0 && !super::model::non_blank(s.last(), bg) {
        lemma_trim_len(s.drop_last(), bg);
    }
}

pub proof fn lemma_sb_push(s: TermV, l: LineV)
    requires
        s.wf(),
        l.cells.len() <= u32::MAX,
        s.lines_total() < u64::MAX,
    ensures
        s.sb_push(l).wf(),
        same_frame(s, s.sb_push(l)),
        s.sb_push(l).lines_total() <= s.lines_total() + 1,
        s.sb_push(l) == (TermV { sb: s.sb_push(l).sb, sb_base: s.sb_push(l).sb_base, view: s.sb_push(l).view, ..s }),
{
    if !(s.sb_cap == 0 || s.alt != 0) {
        lemma_trim_len(l.cells, s.def_bg);
        let t = s.sb_push(l);
        assert forall|i: int| 0 <= i < t.sb.len() implies (#[trigger] t.sb[i]).cells.len() <= u32::MAX by {
            if i < t.sb.len() - 1 {
                if s.sb.len() == s.sb_cap {
                    assert(t.sb[i] == s.sb[i + 1]);
                } else {
                    assert(t.sb[i] == s.sb[i]);
                }
            }
        }
    }
}

pub proof fn lemma_sb_push_lines(s: TermV, ls: Seq<LineV>)
    requires
        s.wf(),
        forall|i: int| 0 <= i < ls.len() ==> (#[trigger] ls[i]).cells.len() <= u32::MAX,
        s.lines_total() + ls.len() <= u64::MAX,
    ensures
        s.sb_push_lines(ls).wf(),
        same_frame(s, s.sb_push_lines(ls)),
        s.sb_push_lines(ls).lines_total() <= s.lines_total() + ls.len(),
        s.sb_push_lines(ls) == (TermV { sb: s.sb_push_lines(ls).sb, sb_base: s.sb_push_lines(ls).sb_base, view: s.sb_push_lines(ls).view, ..s }),
    decreases ls.len(),
{
    if ls.len() > 0 {
        lemma_sb_push(s, ls[0]);
        assert forall|i: int| 0 <= i < ls.drop_first().len() implies (#[trigger] ls.drop_first()[i]).cells.len() <= u32::MAX by {
            assert(ls.drop_first()[i] == ls[i + 1]);
        }
        lemma_sb_push_lines(s.sb_push(ls[0]), ls.drop_first());
    }
}

/// A screen of the right shape: `rows` lines of `cols` cells.
pub open spec fn screen_ok(sc: Seq<LineV>, rows: int, cols: int) -> bool {
    sc.len() == rows && forall|i: int| 0 <= i < rows ==> (#[trigger] sc[i]).cells.len() == cols
}

pub proof fn lemma_set_scr(s: TermV, sc: Seq<LineV>)
    requires
        s.wf(),
        screen_ok(sc, s.rows as int, s.cols as int),
    ensures
        s.set_scr(sc).wf(),
        same_frame(s, s.set_scr(sc)),
        s.set_scr(sc).lines_total() == s.lines_total(),
{
    let t = s.set_scr(sc);
    assert forall|k: int, i: int| 0 <= k < 2 && 0 <= i < t.rows implies (#[trigger] t.screens[k][i]).cells.len() == t.cols by {
        if k == s.alt as int {
            assert(sc[i].cells.len() == s.cols);
        } else {
            assert(s.screens[k][i].cells.len() == s.cols);
        }
    }
}

pub proof fn lemma_scr_ok(s: TermV)
    requires
        s.wf(),
    ensures
        screen_ok(s.scr(), s.rows as int, s.cols as int),
        screen_ok(s.screens[0], s.rows as int, s.cols as int),
        screen_ok(s.screens[1], s.rows as int, s.cols as int),
{
    assert forall|i: int| 0 <= i < s.rows implies (#[trigger] s.scr()[i]).cells.len() == s.cols by {
        assert(s.screens[s.alt as int][i].cells.len() == s.cols);
    }
    assert forall|i: int| 0 <= i < s.rows implies (#[trigger] s.screens[0][i]).cells.len() == s.cols by {
        assert(s.screens[0][i].cells.len() == s.cols);
    }
    assert forall|i: int| 0 <= i < s.rows implies (#[trigger] s.screens[1][i]).cells.len() == s.cols by {
        assert(s.screens[1][i].cells.len() == s.cols);
    }
}

pub proof fn lemma_scroll_up(s: TermV, top: int, bot: int, n: int, to_sb: bool)
    requires
        s.wf(),
        0 <= top <= bot < s.rows,
        s.lines_total() + s.rows <= u64::MAX,
    ensures
        s.scroll_up(top, bot, n, to_sb).wf(),
        same_frame(s, s.scroll_up(top, bot, n, to_sb)),
        s.scroll_up(top, bot, n, to_sb).lines_total() <= s.lines_total() + s.rows,
        n >= 0 ==> s.scroll_up(top, bot, n, to_sb).lines_total() <= s.lines_total() + n,
        s.scroll_up(top, bot, n, to_sb).y == s.y,
        s.scroll_up(top, bot, n, to_sb).x == s.x,
        s.scroll_up(top, bot, n, to_sb).top == s.top,
        s.scroll_up(top, bot, n, to_sb).modes == s.modes,
        s.scroll_up(top, bot, n, to_sb).st == s.st,
        s.scroll_up(top, bot, n, to_sb).uneed == s.uneed,
        s.scroll_up(top, bot, n, to_sb).cs == s.cs,
        s.scroll_up(top, bot, n, to_sb).g0 == s.g0,
        s.scroll_up(top, bot, n, to_sb).g1 == s.g1,
{
    let n2 = min(n, bot - top + 1);
    if n2 > 0 {
        lemma_scr_ok(s);
        let sc = s.scr();
        let new = sc.subrange(0, top) + sc.subrange(top + n2, bot + 1) + blank_lines(n2 as nat, s.cols as nat, s.blank()) + sc.subrange(bot + 1, sc.len() as int);
        assert forall|i: int| 0 <= i < s.rows implies (#[trigger] new[i]).cells.len() == s.cols by {
            if i < top {
            } else if i < bot + 1 - n2 {
                assert(new[i] == sc[i + n2]);
            } else if i < bot + 1 {
            } else {
                assert(new[i] == sc[i]);
            }
        }
        lemma_set_scr(s, new);
        let s1 = TermV { all_dirty: true, ..s.set_scr(new) };
        if to_sb && s.alt == 0 && top == 0 && bot == s.rows - 1 {
            lemma_sb_push_lines(s1, sc.subrange(top, top + n2));
        }
    }
}

pub proof fn lemma_scroll_down(s: TermV, top: int, bot: int, n: int)
    requires
        s.wf(),
        0 <= top <= bot < s.rows,
    ensures
        s.scroll_down(top, bot, n).wf(),
        same_frame(s, s.scroll_down(top, bot, n)),
        s.scroll_down(top, bot, n).lines_total() == s.lines_total(),
        s.scroll_down(top, bot, n).y == s.y,
        s.scroll_down(top, bot, n).x == s.x,
        s.scroll_down(top, bot, n).top == s.top,
        s.scroll_down(top, bot, n).modes == s.modes,
{
    let n2 = min(n, bot - top + 1);
    if n2 > 0 {
        lemma_scr_ok(s);
        let sc = s.scr();
        let new = sc.subrange(0, top) + blank_lines(n2 as nat, s.cols as nat, s.blank()) + sc.subrange(top, bot + 1 - n2) + sc.subrange(bot + 1, sc.len() as int);
        assert forall|i: int| 0 <= i < s.rows implies (#[trigger] new[i]).cells.len() == s.cols by {
            if i < top {
            } else if i < top + n2 {
            } else if i < bot + 1 {
                assert(new[i] == sc[i - n2]);
            } else {
                assert(new[i] == sc[i]);
            }
        }
        lemma_set_scr(s, new);
    }
}


pub proof fn lemma_set_line_scr(s: TermV, y: int, l: LineV)
    requires
        0 <= s.alt < s.screens.len(),
    ensures
        s.set_line(y, l).scr() == s.scr().update(y, l),
        s.set_line(y, l).alt == s.alt,
        s.set_line(y, l).screens.len() == s.screens.len(),
{
}

pub proof fn lemma_set_cell_scr(s: TermV, y: int, x: int, c: Cell)
    requires
        0 <= s.alt < s.screens.len(),
    ensures
        s.set_cell(y, x, c).scr() == s.scr().update(y, LineV { cells: s.scr()[y].cells.update(x, c), wrapped: s.scr()[y].wrapped }),
        s.set_cell(y, x, c).alt == s.alt,
        s.set_cell(y, x, c).screens.len() == s.screens.len(),
{
    lemma_set_line_scr(s, y, LineV { cells: s.scr()[y].cells.update(x, c), wrapped: s.scr()[y].wrapped });
}


pub proof fn lemma_set_line_twice(s: TermV, y: int, a: LineV, b: LineV)
    requires
        0 <= s.alt < s.screens.len(),
        0 <= y < s.scr().len(),
    ensures
        s.set_line(y, a).set_line(y, b) == s.set_line(y, b),
{
    assert(s.set_line(y, a).scr() == s.scr().update(y, a));
    assert(s.scr().update(y, a).update(y, b) =~= s.scr().update(y, b));
    assert(s.set_line(y, a).set_line(y, b).screens =~= s.set_line(y, b).screens);
}

pub proof fn lemma_set_line_same(s: TermV, y: int)
    requires
        0 <= s.alt < s.screens.len(),
        0 <= y < s.scr().len(),
    ensures
        s.set_line(y, s.scr()[y]) == s,
{
    assert(s.scr().update(y, s.scr()[y]) =~= s.scr());
    assert(s.screens.update(s.alt as int, s.scr()) =~= s.screens);
}

} // verus!
