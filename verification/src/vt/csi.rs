//! Control sequences (`CSI ... final`).
use vstd::prelude::*;

use super::model::{TermV, LineV, budget, esc_bytes};
use super::lemmas::{grows_by, lemma_set_line, lemma_scr_ok};
use super::cursor::room;
use crate::text::{dec, push_all, push_dec};
use crate::vt::{Cell, Term, Modes, Saved};

verus! {

impl Term {
    /// Appends `bytes` to the replies for the host.
    pub(crate) fn respond(&mut self, bytes: &[u8])
        requires
            old(self).wf(),
        ensures
            final(self)@ == old(self)@.respond(bytes@),
            final(self).wf(),
            grows_by(old(self)@, final(self)@, 0),
    {
        push_all(&mut self.out, bytes);
        proof { assert(self@ =~= old(self)@.respond(bytes@)); }
    }

    /// `n` line feeds.
    fn lf_n(&mut self, n: usize)
        requires
            old(self).wf(),
            room(old(self)@, n as int),
        ensures
            final(self)@ == old(self)@.lf_n(n as int),
            final(self).wf(),
            grows_by(old(self)@, final(self)@, n as int),
    {
        let mut k: usize = 0;
        while k < n
            invariant
                self.wf(),
                k <= n,
                room(old(self)@, n as int),
                self@.lf_n(n - k) == old(self)@.lf_n(n as int),
                grows_by(old(self)@, self@, k as int),
            decreases n - k,
        {
            self.linefeed();
            k = k + 1;
        }
    }

    /// `n` reverse line feeds.
    fn ri_n(&mut self, n: usize)
        requires
            old(self).wf(),
        ensures
            final(self)@ == old(self)@.ri_n(n as int),
            final(self).wf(),
            grows_by(old(self)@, final(self)@, 0),
    {
        let mut k: usize = 0;
        while k < n
            invariant
                self.wf(),
                k <= n,
                self@.ri_n(n - k) == old(self)@.ri_n(n as int),
                grows_by(old(self)@, self@, 0),
            decreases n - k,
        {
            self.reverse_index();
            k = k + 1;
        }
    }

    /// Prints the last printed character `n` more times (REP).
    fn repeat_last(&mut self, n: usize)
        requires
            old(self).wf(),
            room(old(self)@, 2 * n),
        ensures
            final(self)@ == old(self)@.repeat_last(n as int),
            final(self).wf(),
            grows_by(old(self)@, final(self)@, 2 * n),
    {
        let mut k: usize = 0;
        while k < n
            invariant
                self.wf(),
                k <= n,
                room(old(self)@, 2 * n),
                self@.repeat_last(n - k) == old(self)@.repeat_last(n as int),
                grows_by(old(self)@, self@, 2 * k),
            decreases n - k,
        {
            let c = self.last;
            self.put_char(c);
            k = k + 1;
        }
    }

    /// Replaces the cells of row `y` with `cells`, which has as many.
    fn put_line_cells(&mut self, y: usize, cells: Vec<Cell>)
        requires
            old(self).wf(),
            y < old(self).rows,
            cells@.len() == old(self).cols,
        ensures
            final(self)@ == old(self)@.set_line(y as int, LineV { cells: cells@, wrapped: old(self)@.scr()[y as int].wrapped }),
            final(self).wf(),
            grows_by(old(self)@, final(self)@, 0),
    {
        proof {
            lemma_scr_ok(self@);
            lemma_set_line(self@, y as int, LineV { cells: cells@, wrapped: self@.scr()[y as int].wrapped });
        }
        let mut cells = cells;
        self.swap_cells(y, &mut cells);
    }

    /// Inserts `n2` blank cells at the cursor, shifting the rest of the row right (ICH).
    fn insert_blanks(&mut self, n2: usize)
        requires
            old(self).wf(),
            n2 <= old(self).cols - old(self).x,
        ensures
            final(self)@ == old(self)@.insert_blanks(n2 as int),
            final(self).wf(),
            grows_by(old(self)@, final(self)@, 0),
    {
        let (x, y, cols) = (self.x, self.y, self.cols);
        let ghost c = self@.scr()[y as int].cells;
        proof { lemma_scr_ok(self@); }
        let mut nc: Vec<Cell> = Vec::new();
        let mut j: usize = 0;
        while j < cols
            invariant
                self@ == old(self)@,
                self.wf(),
                x == self.x,
                y == self.y,
                cols == self.cols,
                n2 <= cols - x,
                c == self@.scr()[y as int].cells,
                c.len() == cols,
                j <= cols,
                nc@.len() == j,
                forall|k: int| 0 <= k < j ==> #[trigger] nc@[k] == (if k < x { c[k] } else if k < x + n2 { c[cols - n2 + (k - x)] } else { c[k - n2] }),
            decreases cols - j,
        {
            let v = if j < x { self.cell(y, j) } else if j < x + n2 { self.cell(y, cols - n2 + (j - x)) } else { self.cell(y, j - n2) };
            nc.push(v);
            j = j + 1;
        }
        proof {
            assert(nc@ =~= Seq::new(c.len(), |k: int| if k < x { c[k] } else if k < x + n2 { c[cols - n2 + (k - x)] } else { c[k - n2] }));
        }
        self.put_line_cells(y, nc);
        self.clear_cells(y, x, x + n2);
    }

    /// Deletes `n2` cells at the cursor, shifting the rest of the row left (DCH).
    fn delete_chars(&mut self, n2: usize)
        requires
            old(self).wf(),
            n2 <= old(self).cols - old(self).x,
        ensures
            final(self)@ == old(self)@.delete_chars(n2 as int),
            final(self).wf(),
            grows_by(old(self)@, final(self)@, 0),
    {
        let (x, y, cols) = (self.x, self.y, self.cols);
        let ghost c = self@.scr()[y as int].cells;
        proof { lemma_scr_ok(self@); }
        let mut nc: Vec<Cell> = Vec::new();
        let mut j: usize = 0;
        while j < cols
            invariant
                self@ == old(self)@,
                self.wf(),
                x == self.x,
                y == self.y,
                cols == self.cols,
                n2 <= cols - x,
                c == self@.scr()[y as int].cells,
                c.len() == cols,
                j <= cols,
                nc@.len() == j,
                forall|k: int| 0 <= k < j ==> #[trigger] nc@[k] == (if k < x { c[k] } else if k < cols - n2 { c[k + n2] } else { c[x + k + n2 - cols] }),
            decreases cols - j,
        {
            let v = if j < x { self.cell(y, j) } else if j < cols - n2 { self.cell(y, j + n2) } else { self.cell(y, x + (j - (cols - n2))) };
            nc.push(v);
            j = j + 1;
        }
        proof {
            assert(nc@ =~= Seq::new(c.len(), |k: int| if k < x { c[k] } else if k < cols - n2 { c[k + n2] } else { c[x + k + n2 - cols] }));
        }
        self.put_line_cells(y, nc);
        self.clear_cells(y, cols - n2, cols);
    }

    /// Relative cursor movement: CUU, CUD, VPR, CUF, HPR, CUB.
    fn cursor_step(&mut self, fin: u8)
        requires
            old(self).wf(),
            fin == 65 || fin == 66 || fin == 101 || fin == 67 || fin == 97 || fin == 68,
        ensures
            final(self)@ == old(self)@.csi_cursor(fin),
            final(self).wf(),
            grows_by(old(self)@, final(self)@, 0),
    {
        proof { reveal(TermV::csi_cursor); }
        let n = self.param(0, 1) as usize;
        let (x, y, cols, rows, top, bot) = (self.x, self.y, self.cols, self.rows, self.top, self.bot);
        if fin == 65 {
            let lim = if y >= top { top } else { 0 };
            let sub = if y >= n { y - n } else { 0 };
            self.y = if sub > lim { sub } else { lim };
        } else if fin == 66 || fin == 101 {
            let lim = if y <= bot { bot } else { rows - 1 };
            self.y = if n >= lim - y { lim } else { y + n };
        } else if fin == 67 || fin == 97 {
            self.x = if n >= cols - 1 - x { cols - 1 } else { x + n };
        } else {
            self.x = if x >= n { x - n } else { 0 };
        }
        self.pend = false;
        proof { assert(self@ =~= old(self)@.csi_cursor(fin)); }
    }

    /// Cursor movement: CUU, CUD, VPR, CUF, HPR, CUB, CHA, HPA, CUP, HVP, VPA, CHT, CBT.
    fn csi_cursor(&mut self, fin: u8)
        requires
            old(self).wf(),
        ensures
            final(self)@ == old(self)@.csi_cursor(fin),
            final(self).wf(),
            grows_by(old(self)@, final(self)@, 0),
    {
        if fin == 65 || fin == 66 || fin == 101 || fin == 67 || fin == 97 || fin == 68 {
            self.cursor_step(fin);
            return;
        }
        proof { reveal(TermV::csi_cursor); }
        let n = self.param(0, 1) as usize;
        let (x, y, top) = (self.x, self.y, self.top);
        if fin == 71 || fin == 96 {
            let t: i64 = if self.modes.origin { top as i64 } else { 0 };
            self.move_to(y as i64 - t, n as i64 - 1);
        } else if fin == 72 || fin == 102 {
            let r = self.param(0, 1) as i64 - 1;
            let c = self.param(1, 1) as i64 - 1;
            self.move_to(r, c);
        } else if fin == 100 {
            self.move_to(n as i64 - 1, x as i64);
        } else if fin == 73 {
            self.tab_forward(n);
        } else {
            self.tab_back(n);
        }
    }

    /// Line feeds and scrolling: CNL, CPL, IL, DL, SU, SD.
    fn csi_lines(&mut self, fin: u8)
        requires
            old(self).wf(),
            old(self)@.lines_total() + budget(old(self)@) <= u64::MAX,
        ensures
            final(self)@ == old(self)@.csi_lines(fin),
            final(self).wf(),
            grows_by(old(self)@, final(self)@, budget(old(self)@)),
    {
        proof { reveal(TermV::csi_lines); }
        let n = self.param(0, 1) as usize;
        let (y, top, bot) = (self.y, self.top, self.bot);
        proof { let c = self.cols as int; let r = self.rows as int; assert(0 <= c * r) by (nonlinear_arith) requires 0 <= c, 0 <= r; }
        if fin == 69 {
            self.x = 0;
            proof { assert(self@ =~= TermV { x: 0, ..old(self)@ }); }
            self.lf_n(n);
        } else if fin == 70 {
            self.x = 0;
            proof { assert(self@ =~= TermV { x: 0, ..old(self)@ }); }
            self.ri_n(n);
        } else if fin == 76 {
            if top <= y && y <= bot {
                self.scroll_down(y, bot, n);
            }
        } else if fin == 77 {
            if top <= y && y <= bot {
                self.scroll_up(y, bot, n, false);
            }
        } else if fin == 83 {
            self.scroll_up(top, bot, n, true);
        } else {
            self.scroll_down(top, bot, n);
        }
    }

    /// Erasing: ICH, DCH, ED, EL, ECH.
    fn csi_erase(&mut self, fin: u8)
        requires
            old(self).wf(),
        ensures
            final(self)@ == old(self)@.csi_erase(fin),
            final(self).wf(),
            grows_by(old(self)@, final(self)@, 0),
    {
        proof { reveal(TermV::csi_erase); }
        let n = self.param(0, 1) as usize;
        let (x, y, cols, rows) = (self.x, self.y, self.cols, self.rows);
        let m = if n < cols - x { n } else { cols - x };
        if fin == 64 {
            self.insert_blanks(m);
        } else if fin == 80 {
            self.delete_chars(m);
        } else if fin == 88 {
            proof { assert(old(self)@.clear_cells(y as int, x as int, x + n) =~~= old(self)@.clear_cells(y as int, x as int, x + m)); }
            self.clear_cells(y, x, x + m);
        } else if fin == 74 {
            let p = self.param(0, 0);
            if p == 0 {
                self.clear_cells(y, x, cols);
                self.clear_rows(y + 1, rows);
            } else if p == 1 {
                self.clear_rows(0, y);
                self.clear_cells(y, 0, x + 1);
            } else if p == 2 {
                self.clear_rows(0, rows);
            } else if p == 3 {
                self.sb_base = self.sb_base + self.sb.len() as u64;
                self.sb.clear();
                self.view = 0;
                self.all_dirty = true;
                proof { assert(self@ =~~= old(self)@.csi_erase(fin)); }
            }
        } else {
            let p = self.param(0, 0);
            if p == 0 {
                self.clear_cells(y, x, cols);
            } else if p == 1 {
                self.clear_cells(y, 0, x + 1);
            } else if p == 2 {
                self.clear_cells(y, 0, cols);
            }
        }
    }

    /// Device attributes (DA).
    fn csi_attrs(&mut self)
        requires
            old(self).wf(),
        ensures
            final(self)@ == old(self)@.csi_attrs(),
            final(self).wf(),
            grows_by(old(self)@, final(self)@, 0),
    {
        proof { reveal(TermV::csi_attrs); }
        if self.privc == 62 {
            let r = vec![27u8, 91, 62, 48, 59, 48, 59, 48, 99];
            proof { assert(r@ =~= esc_bytes(seq![62u8, 48, 59, 48, 59, 48, 99])); }
            self.respond(r.as_slice());
        } else if self.privc == 0 && self.param(0, 0) == 0 {
            let r = vec![27u8, 91, 63, 54, 99];
            proof { assert(r@ =~= esc_bytes(seq![63u8, 54, 99])); }
            self.respond(r.as_slice());
        }
    }

    /// Device status report (DSR): status or cursor position.
    fn csi_status(&mut self)
        requires
            old(self).wf(),
        ensures
            final(self)@ == old(self)@.csi_status(),
            final(self).wf(),
            grows_by(old(self)@, final(self)@, 0),
    {
        proof { reveal(TermV::csi_status); }
        let p = self.param(0, 0);
        if p == 5 {
            let r = vec![27u8, 91, 48, 110];
            proof { assert(r@ =~= esc_bytes(seq![48u8, 110])); }
            self.respond(r.as_slice());
        } else if p == 6 {
            let t = if self.modes.origin { self.top } else { 0 };
            let row = self.y - t + 1;
            let col = self.x + 1;
            let mut r: Vec<u8> = vec![27u8, 91];
            push_dec(&mut r, row as u64);
            r.push(59);
            push_dec(&mut r, col as u64);
            r.push(82);
            proof {
                assert(r@ =~= esc_bytes(dec(row as nat) + seq![59u8] + dec(col as nat) + seq![82u8]));
            }
            self.respond(r.as_slice());
        }
    }

    /// The report of whether mode `m` is set (DECRQM).
    fn mode_report(&mut self)
        requires
            old(self).wf(),
        ensures
            ({
                let s = old(self)@;
                let m = s.param(0, 0);
                let v: nat = match s.mode_value(m) { Some(true) => 1, Some(false) => 2, None => 0 };
                final(self)@ == s.respond(esc_bytes(seq![63u8] + dec(m as nat) + seq![59u8] + dec(v) + seq![36u8, 121]))
            }),
            final(self).wf(),
            grows_by(old(self)@, final(self)@, 0),
    {
        let m = self.param(0, 0);
        let v: u64 = match self.mode_value(m) {
            Some(true) => 1,
            Some(false) => 2,
            None => 0,
        };
        let mut r: Vec<u8> = vec![27u8, 91, 63];
        push_dec(&mut r, m as u64);
        r.push(59);
        push_dec(&mut r, v);
        r.push(36);
        r.push(121);
        proof {
            assert(r@ =~= esc_bytes(seq![63u8] + dec(m as nat) + seq![59u8] + dec(v as nat) + seq![36u8, 121]));
        }
        self.respond(r.as_slice());
    }

    /// Soft reset (DECSTR).
    fn soft_reset(&mut self)
        requires
            old(self).wf(),
        ensures
            final(self)@ == old(self)@.soft_reset(),
            final(self).wf(),
            grows_by(old(self)@, final(self)@, 0),
    {
        self.sgr_reset();
        let md = self.modes;
        self.modes = Modes { tcem: true, origin: false, awm: true, ckm: false, ..md };
        self.top = 0;
        self.bot = self.rows - 1;
        self.g0 = false;
        self.g1 = false;
        self.cs = 0;
        let mut saved: Vec<Saved> = Vec::new();
        saved.push(Self::unset_saved());
        saved.push(Self::unset_saved());
        self.saved = saved;
        proof { assert(self@ =~~= old(self)@.soft_reset()); }
    }

    /// Sets the scrolling region (DECSTBM) and homes the cursor.
    fn set_margins(&mut self)
        requires
            old(self).wf(),
        ensures
            final(self)@ == old(self)@.set_margins(),
            final(self).wf(),
            grows_by(old(self)@, final(self)@, 0),
    {
        let p0 = self.param(0, 1);
        let top: usize = if p0 >= 1 { (p0 - 1) as usize } else { 0 };
        let p1 = self.param(1, self.rows as u32);
        let b0 = p1 as usize - 1;
        let bot = if b0 < self.rows - 1 { b0 } else { self.rows - 1 };
        if top < bot {
            self.top = top;
            self.bot = bot;
            let y: i64 = if self.modes.origin { top as i64 } else { 0 };
            proof { assert(self@ =~~= TermV { top: top, bot: bot, ..old(self)@ }); }
            self.move_to(y, 0);
        }
    }

    /// REP: the last printed character again.
    fn csi_repeat(&mut self)
        requires
            old(self).wf(),
            old(self)@.lines_total() + budget(old(self)@) <= u64::MAX,
        ensures
            final(self)@ == old(self)@.csi_repeat(),
            final(self).wf(),
            grows_by(old(self)@, final(self)@, budget(old(self)@)),
    {
        proof {
            reveal(TermV::csi_repeat);
            let c = self.cols as int;
            let r = self.rows as int;
            assert(0 <= c * r) by (nonlinear_arith) requires 0 <= c, 0 <= r;
        }
        let n = self.param(0, 1) as usize;
        if self.last != 0 {
            let cr = self.cols * self.rows;
            let k = if n < cr { n } else { cr };
            self.repeat_last(k);
        }
    }

    /// DECSTR and DECRQM.
    fn csi_p(&mut self)
        requires
            old(self).wf(),
        ensures
            final(self)@ == old(self)@.csi_p(),
            final(self).wf(),
            grows_by(old(self)@, final(self)@, 0),
    {
        proof { reveal(TermV::csi_p); }
        if self.inter == 33 {
            self.soft_reset();
        } else if self.inter == 36 && self.privc == 63 {
            self.mode_report();
        }
    }

    /// TBC, SM/RM, SGR, DECSTBM, SCOSC, SCORC.
    fn csi_misc(&mut self, fin: u8)
        requires
            old(self).wf(),
        ensures
            final(self)@ == old(self)@.csi_misc(fin),
            final(self).wf(),
            grows_by(old(self)@, final(self)@, 0),
    {
        proof { reveal(TermV::csi_misc); }
        if fin == 103 {
            if self.param(0, 0) == 3 {
                self.tabs = vec![false; self.cols];
                proof { assert(self@ =~~= old(self)@.csi_misc(fin)); }
            } else {
                let x = self.x;
                self.tabs.set(x, false);
                proof { assert(self@ =~~= old(self)@.csi_misc(fin)); }
            }
        } else if fin == 104 || fin == 108 {
            if self.privc == 63 {
                let count = self.param_count();
                self.dec_modes(count, fin == 104);
            }
        } else if fin == 109 {
            if self.privc == 0 {
                self.sgr();
            }
        } else if fin == 114 {
            if self.privc == 0 {
                self.set_margins();
            }
        } else if fin == 115 {
            if self.privc == 0 {
                self.save_cursor();
            }
        } else if fin == 117 {
            if self.privc == 0 {
                self.restore_cursor();
            }
        }
    }

    /// Executes the control sequence `CSI ... fin` collected so far.
    pub(crate) fn csi(&mut self, fin: u8)
        requires
            old(self).wf(),
            old(self)@.lines_total() + budget(old(self)@) <= u64::MAX,
        ensures
            final(self)@ == old(self)@.csi(fin),
            final(self).wf(),
            grows_by(old(self)@, final(self)@, budget(old(self)@)),
    {
        proof {
            let c = self.cols as int;
            let r = self.rows as int;
            assert(0 <= c * r) by (nonlinear_arith) requires 0 <= c, 0 <= r;
        }
        if fin == 65 || fin == 66 || fin == 101 || fin == 67 || fin == 97 || fin == 68 || fin == 71 || fin == 96
            || fin == 72 || fin == 102 || fin == 100 || fin == 73 || fin == 90 {
            self.csi_cursor(fin);
        } else if fin == 69 || fin == 70 || fin == 76 || fin == 77 || fin == 83 || fin == 84 {
            self.csi_lines(fin);
        } else if fin == 64 || fin == 80 || fin == 74 || fin == 75 || fin == 88 {
            self.csi_erase(fin);
        } else if fin == 98 {
            self.csi_repeat();
        } else if fin == 99 {
            self.csi_attrs();
        } else if fin == 110 {
            self.csi_status();
        } else if fin == 112 {
            self.csi_p();
        } else {
            self.csi_misc(fin);
        }
    }
}

} // verus!
