//! Cursor movement, line feeds and printing of single characters.
use vstd::prelude::*;

use super::model::{TermV, tab_fwd_x, next_stop, tab_back_x, prev_stop, unset_saved, default_modes};
use super::lemmas::grows_by;
use crate::vt::{Cell, Term, Modes, Saved, WIDE, TAIL, GFX, width};

verus! {

/// Room for `k` more lines in the scrollback count, besides a scroll of the whole screen.
pub open spec fn room(s: TermV, k: int) -> bool {
    s.lines_total() + s.rows + k <= u64::MAX
}

impl Term {
    /// Moves the cursor to row `y` and column `x`, clamped to the screen (or to the
    /// scrolling region in origin mode).
    pub(crate) fn move_to(&mut self, y: i64, x: i64)
        requires
            old(self)@.wf_base(),
        ensures
            final(self)@ == old(self)@.move_to(y as int, x as int),
            final(self).wf(),
            grows_by(old(self)@, final(self)@, 0),
    {
        let ymin: i64 = if self.modes.origin { self.top as i64 } else { 0 };
        let ymax: i64 = if self.modes.origin { self.bot as i64 } else { self.rows as i64 - 1 };
        let ny: i64 = if y < ymin { ymin } else if y > ymax { ymax } else { y };
        let xmax: i64 = self.cols as i64 - 1;
        let nx: i64 = if x < 0 { 0 } else if x > xmax { xmax } else { x };
        self.y = ny as usize;
        self.x = nx as usize;
        self.pend = false;
        proof { assert(self@ =~~= old(self)@.move_to(y as int, x as int)); }
    }

    /// Moves the cursor down a row, scrolling at the bottom margin.
    #[verifier::rlimit(40)]
    pub(crate) fn linefeed(&mut self)
        requires
            old(self).wf(),
            room(old(self)@, 0),
        ensures
            final(self)@ == old(self)@.linefeed(),
            final(self).wf(),
            grows_by(old(self)@, final(self)@, 1),
    {
        if self.y == self.bot {
            let top = self.top;
            let bot = self.bot;
            self.scroll_up(top, bot, 1, true);
        } else if self.y < self.rows - 1 {
            self.y = self.y + 1;
            let y = self.y;
            self.mark(y);
        }
        self.pend = false;
        proof { assert(self@ =~~= old(self)@.linefeed()); }
    }

    /// Moves the cursor up a row, scrolling down at the top margin.
    pub(crate) fn reverse_index(&mut self)
        requires
            old(self).wf(),
        ensures
            final(self)@ == old(self)@.reverse_index(),
            final(self).wf(),
            grows_by(old(self)@, final(self)@, 0),
    {
        if self.y == self.top {
            let top = self.top;
            let bot = self.bot;
            self.scroll_down(top, bot, 1);
        } else if self.y > 0 {
            self.y = self.y - 1;
        }
        self.pend = false;
        proof { assert(self@ =~~= old(self)@.reverse_index()); }
    }

    /// Breaks up a wide character of which the cell `(y, x)` is one half.
    pub(crate) fn unlink_wide(&mut self, y: usize, x: usize)
        requires
            old(self).wf(),
            y < old(self).rows,
            x < old(self).cols,
        ensures
            final(self)@ == old(self)@.unlink_wide(y as int, x as int),
            final(self).wf(),
            grows_by(old(self)@, final(self)@, 0),
    {
        let c = self.cell(y, x);
        if c.attr & TAIL != 0 && x > 0 {
            let p = self.cell(y, x - 1);
            self.set_cell(y, x - 1, Cell { cp: 32, fg: p.fg, bg: p.bg, attr: p.attr & !WIDE });
        }
        let ghost s1 = self@;
        if c.attr & WIDE != 0 && x + 1 < self.cols {
            let q = self.cell(y, x + 1);
            self.set_cell(y, x + 1, Cell { cp: 32, fg: q.fg, bg: q.bg, attr: q.attr & !TAIL });
        }
    }

    /// The code point shown for `cp` under the character set in use.
    pub(crate) fn map_charset(&self, cp: u32) -> (r: u32)
        ensures
            r == self@.map_charset(cp),
    {
        let gfx = if self.cs == 1 { self.g1 } else { self.g0 };
        if gfx && 0x60 <= cp && cp <= 0x7e {
            GFX[(cp - 0x60) as usize] as u32
        } else {
            cp
        }
    }

    /// Wraps to the start of the next row, marking the current one as wrapped.
    fn wrap(&mut self)
        requires
            old(self).wf(),
            room(old(self)@, 0),
        ensures
            final(self)@ == old(self)@.wrap(),
            final(self).wf(),
            grows_by(old(self)@, final(self)@, 1),
    {
        let y = self.y;
        self.set_wrapped(y);
        self.x = 0;
        self.linefeed();
    }

    /// Makes room for a character of width `w`.
    #[verifier::rlimit(40)]
    fn pre_put(&mut self, w: usize)
        requires
            old(self).wf(),
            room(old(self)@, 1),
        ensures
            final(self)@ == old(self)@.pre_put(w as int),
            final(self).wf(),
            grows_by(old(self)@, final(self)@, 2),
    {
        if self.pend && self.modes.awm {
            self.wrap();
        }
        self.pend = false;
        let ghost s2 = self@;
        if w == 2 && self.x >= self.cols - 1 {
            if self.modes.awm {
                self.wrap();
            } else {
                self.x = if self.cols >= 2 { self.cols - 2 } else { 0 };
            }
        }
        proof { assert(self@ =~~= old(self)@.pre_put(w as int)); }
    }

    /// Stores `cp`, of width `w`, in the cells at the cursor.
    fn put_cells(&mut self, cp: u32, w: usize)
        requires
            old(self).wf(),
        ensures
            final(self)@ == old(self)@.put_cells(cp, w as int),
            final(self).wf(),
            grows_by(old(self)@, final(self)@, 0),
            final(self).x == old(self).x,
            final(self).y == old(self).y,
    {
        let (y, x) = (self.y, self.x);
        self.unlink_wide(y, x);
        let wattr: u32 = if w == 2 { WIDE } else { 0 };
        let cell = Cell { cp, fg: self.fg, bg: self.bg, attr: self.attr | wattr };
        self.set_cell(y, x, cell);
        if w == 2 && x + 1 < self.cols {
            self.unlink_wide(y, x + 1);
            let tail = Cell { cp: 0, fg: self.fg, bg: self.bg, attr: self.attr | TAIL };
            self.set_cell(y, x + 1, tail);
        }
    }

    /// Moves the cursor past a character of width `w` printed at column `x`.
    pub(crate) fn advance(&mut self, cp: u32, x: usize, w: usize)
        requires
            old(self).wf(),
            x < old(self).cols,
        ensures
            final(self)@ == old(self)@.advance(cp, x as int, w as int),
            final(self).wf(),
            grows_by(old(self)@, final(self)@, 0),
    {
        let y = self.y;
        self.mark(y);
        self.last = cp;
        if w >= self.cols - x {
            self.x = self.cols - 1;
            self.pend = true;
        } else {
            self.x = x + w;
        }
        proof { assert(self@ =~~= old(self)@.advance(cp, x as int, w as int)); }
    }

    /// Writes `cp`, of width `w`, at the cursor and advances the cursor.
    fn place(&mut self, cp: u32, w: usize)
        requires
            old(self).wf(),
            w == 1 || w == 2,
        ensures
            final(self)@ == old(self)@.place(cp, w as int),
            final(self).wf(),
            grows_by(old(self)@, final(self)@, 0),
    {
        let x = self.x;
        self.put_cells(cp, w);
        self.advance(cp, x, w);
    }

    /// Prints one character at the cursor.
    pub(crate) fn put_char(&mut self, cp0: u32)
        requires
            old(self).wf(),
            room(old(self)@, 1),
        ensures
            final(self)@ == old(self)@.put_char(cp0),
            final(self).wf(),
            grows_by(old(self)@, final(self)@, 2),
    {
        proof { reveal(TermV::put_char); }
        let cp = self.map_charset(cp0);
        let w = width(cp);
        if w == 0 {
            return;
        }
        self.pre_put(w);
        self.place(cp, w);
    }

    /// Moves the cursor to the `n`-th next tab stop, or to the last column.
    pub(crate) fn tab_forward(&mut self, n: usize)
        requires
            old(self).wf(),
        ensures
            final(self)@ == old(self)@.tab_forward(n as int),
            final(self).wf(),
            grows_by(old(self)@, final(self)@, 0),
    {
        let cols = self.cols;
        let ghost tabs = self@.tabs;
        let ghost target = tab_fwd_x(tabs, self.x as int, n as int, cols as int);
        let mut x = self.x;
        let mut k: usize = 0;
        while k < n
            invariant
                self.wf(),
                cols == self.cols,
                tabs == self@.tabs,
                tabs.len() == cols,
                x < cols,
                k <= n,
                tab_fwd_x(tabs, x as int, n - k, cols as int) == target,
            decreases n - k,
        {
            let mut j = x + 1;
            while j < cols && !self.tabs[j]
                invariant
                    self.wf(),
                    cols == self.cols,
                    tabs == self@.tabs,
                    tabs.len() == cols,
                    x + 1 <= j <= cols,
                    next_stop(tabs, j as int, cols as int) == next_stop(tabs, x + 1, cols as int),
                decreases cols - j,
            {
                j = j + 1;
            }
            if j >= cols {
                x = cols - 1;
                k = n;
            } else {
                x = j;
                k = k + 1;
            }
        }
        self.x = x;
        self.pend = false;
        proof { assert(self@ =~~= old(self)@.tab_forward(n as int)); }
    }

    /// Moves the cursor back to the `n`-th previous tab stop, or to the first column.
    pub(crate) fn tab_back(&mut self, n: usize)
        requires
            old(self).wf(),
        ensures
            final(self)@ == old(self)@.tab_back(n as int),
            final(self).wf(),
            grows_by(old(self)@, final(self)@, 0),
    {
        let ghost tabs = self@.tabs;
        let ghost target = tab_back_x(tabs, self.x as int, n as int);
        let mut x = self.x;
        let mut k: usize = 0;
        while k < n
            invariant
                self.wf(),
                tabs == self@.tabs,
                tabs.len() == self.cols,
                x < self.cols,
                k <= n,
                tab_back_x(tabs, x as int, n - k) == target,
            decreases n - k,
        {
            let mut j = x;
            while j > 0 && !self.tabs[j - 1]
                invariant
                    self.wf(),
                    tabs == self@.tabs,
                    tabs.len() == self.cols,
                    j <= x < self.cols,
                    prev_stop(tabs, j as int) == prev_stop(tabs, x as int),
                decreases j,
            {
                j = j - 1;
            }
            x = if j > 0 { j - 1 } else { 0 };
            k = k + 1;
        }
        self.x = x;
        self.pend = false;
        proof { assert(self@ =~~= old(self)@.tab_back(n as int)); }
    }

    /// A C0 control character.
    pub(crate) fn ctrl(&mut self, b: u8)
        requires
            old(self).wf(),
            room(old(self)@, 0),
        ensures
            final(self)@ == old(self)@.ctrl(b),
            final(self).wf(),
            grows_by(old(self)@, final(self)@, 1),
    {
        if b == 8 {
            self.x = if self.x > 0 { self.x - 1 } else { 0 };
            self.pend = false;
        } else if b == 9 {
            self.tab_forward(1);
        } else if 10 <= b && b <= 12 {
            self.linefeed();
        } else if b == 13 {
            self.x = 0;
            self.pend = false;
        } else if b == 14 {
            self.cs = 1;
        } else if b == 15 {
            self.cs = 0;
        }
        proof { assert(self@ =~~= old(self)@.ctrl(b)); }
    }

    /// Saves the cursor, its colours, attributes and character sets (DECSC).
    pub(crate) fn save_cursor(&mut self)
        requires
            old(self).wf(),
        ensures
            final(self)@ == old(self)@.save_cursor(),
            final(self).wf(),
            grows_by(old(self)@, final(self)@, 0),
    {
        let s = Saved {
            x: self.x, y: self.y, fg: self.fg, bg: self.bg, attr: self.attr,
            g0: self.g0, g1: self.g1, cs: self.cs, origin: self.modes.origin, set: true,
        };
        let a = self.alt;
        self.saved.set(a, s);
        proof { assert(self@ =~~= old(self)@.save_cursor()); }
    }

    /// Takes the colours, attributes, character sets and origin mode of `s`.
    fn load_saved(&mut self, s: Saved)
        requires
            old(self).wf(),
        ensures
            final(self)@ == old(self)@.with_saved(s),
            final(self)@.wf_base(),
            grows_by(old(self)@, final(self)@, 0),
    {
        self.fg = s.fg;
        self.bg = s.bg;
        self.attr = s.attr;
        self.g0 = s.g0;
        self.g1 = s.g1;
        self.cs = s.cs;
        let m = self.modes;
        self.modes = Modes { origin: s.origin, ..m };
        proof { assert(self@ =~= old(self)@.with_saved(s)); }
    }

    /// Restores what `save_cursor` saved, or homes the cursor when nothing was (DECRC).
    pub(crate) fn restore_cursor(&mut self)
        requires
            old(self).wf(),
        ensures
            final(self)@ == old(self)@.restore_cursor(),
            final(self).wf(),
            grows_by(old(self)@, final(self)@, 0),
    {
        let s = self.saved[self.alt];
        if !s.set {
            self.move_to(0, 0);
            return;
        }
        self.load_saved(s);
        self.move_to(s.y as i64, s.x as i64);
    }

    /// Back to the default colours and no attributes.
    pub(crate) fn sgr_reset(&mut self)
        requires
            old(self).wf(),
        ensures
            final(self)@ == old(self)@.sgr_reset(),
            final(self).wf(),
            grows_by(old(self)@, final(self)@, 0),
    {
        self.fg = self.def_fg;
        self.bg = self.def_bg;
        self.attr = 0;
        proof { assert(self@ =~~= old(self)@.sgr_reset()); }
    }

    /// A cursor state that was never saved.
    pub(crate) fn unset_saved() -> (s: Saved)
        ensures
            s == unset_saved(),
    {
        Saved { x: 0, y: 0, fg: 0, bg: 0, attr: 0, g0: false, g1: false, cs: 0, origin: false, set: false }
    }

    /// Full reset (RIS): main screen, blank, default modes, tab stops and margins.
    pub(crate) fn reset_all(&mut self)
        requires
            old(self).wf(),
        ensures
            final(self)@ == old(self)@.reset_all(),
            final(self).wf(),
            grows_by(old(self)@, final(self)@, 0),
    {
        self.use_alt(false);
        self.sgr_reset();
        let rows = self.rows;
        self.clear_rows(0, rows);
        let ghost s1 = self@;
        self.top = 0;
        self.bot = self.rows - 1;
        self.modes = Modes { ckm: false, awm: true, tcem: true, origin: false, paste: false, focus: false, sync: false, mouse: 0, sgr_mouse: false };
        self.g0 = false;
        self.g1 = false;
        self.cs = 0;
        let mut saved: Vec<Saved> = Vec::new();
        saved.push(Self::unset_saved());
        saved.push(Self::unset_saved());
        self.saved = saved;
        proof {
            assert(self@ =~~= TermV {
                top: 0, bot: (s1.rows - 1) as usize, modes: default_modes(),
                g0: false, g1: false, cs: 0, saved: seq![unset_saved(), unset_saved()],
                ..s1
            });
        }
        self.reset_tabs();
        self.move_to(0, 0);
        self.all_dirty = true;
        proof { assert(self@ =~~= old(self)@.reset_all()); }
    }
}

} // verus!
