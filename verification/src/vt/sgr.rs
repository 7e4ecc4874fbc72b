//! Parameters of control sequences, colours (SGR) and modes (DECSET).
use vstd::prelude::*;

use super::model::{TermV, run_from, flag_modes};
use super::lemmas::grows_by;
use crate::vt::{Term, Modes, PALETTE, BOLD, FAINT, UNDER, REV, STRIKE};

verus! {

/// One channel of the 6x6x6 colour cube.
fn cube(v: u32) -> (r: u32)
    requires
        v <= 5,
    ensures
        r == super::model::pal_f(v),
{
    if v > 0 { v * 40 + 55 } else { 0 }
}

impl Term {
    /// The colour of the 256-colour palette entry `idx`; the default foreground past 255.
    pub(crate) fn palette(&self, idx: u32) -> (r: u32)
        ensures
            r == self@.palette(idx),
    {
        if idx <= 15 {
            PALETTE[idx as usize]
        } else if idx <= 231 {
            let c = idx - 16;
            (cube(c / 36) << 16u32) | (cube(c / 6 % 6) << 8u32) | cube(c % 6)
        } else if idx <= 255 {
            let v = (idx - 232) * 10 + 8;
            (v << 16u32) | (v << 8u32) | v
        } else {
            self.def_fg
        }
    }

    /// Number of parameters of the control sequence collected so far.
    pub(crate) fn param_count(&self) -> (r: usize)
        requires
            self.wf(),
        ensures
            r == self@.param_count(),
            r <= 16,
    {
        self.np + if self.seen || self.np > 0 { 1 } else { 0 }
    }

    /// Parameter `i`, or `def` where it is missing or zero.
    pub(crate) fn param(&self, i: usize, def: u32) -> (r: u32)
        requires
            self.wf(),
        ensures
            r == self@.param(i as int, def),
    {
        let count = self.param_count();
        if i >= count || self.params[i] == 0 { def } else { self.params[i] }
    }

    /// Number of parameters joined by colons to parameter `i`.
    pub(crate) fn colon_run(&self, i: usize) -> (r: usize)
        requires
            i < 16,
        ensures
            r == self@.colon_run(i as int),
            i + r < 16,
    {
        let mut j: usize = i + 1;
        while j < 16 && (self.colon >> (j as u32)) & 1u32 != 0
            invariant
                i + 1 <= j <= 16,
                run_from(self.colon, i + 1) == (j - (i + 1)) + run_from(self.colon, j as int),
            decreases 16 - j,
        {
            j = j + 1;
        }
        j - (i + 1)
    }

    /// An extended colour (`38;5;n`, `38;2;r;g;b` or `38:2::r:g:b`) starting at parameter
    /// `i`: how many parameters it takes and the colour, where complete.
    pub(crate) fn sgr_color(&self, count: usize, i: usize) -> (r: (usize, Option<u32>))
        requires
            self.wf(),
            count <= 16,
            i < count,
        ensures
            (r.0 as int, r.1) == self@.sgr_color(count as int, i as int),
            1 <= r.0 <= 6,
    {
        let run = self.colon_run(i);
        if i + 1 >= count {
            return (1, None);
        }
        let p = self.params[i + 1];
        if p == 5 {
            let c = if i + 2 < count { Some(self.palette(self.params[i + 2])) } else { None };
            (3, c)
        } else if p == 2 {
            let base = if run >= 5 { i + 3 } else { i + 2 };
            let rgb = if base + 2 < count {
                Some(((self.params[base] & 255) << 16u32) | ((self.params[base + 1] & 255) << 8u32) | (self.params[base + 2] & 255))
            } else {
                None
            };
            (base + 3 - i, rgb)
        } else {
            (2, None)
        }
    }

    /// Applies the SGR parameter at index `i`; gives the index of the last parameter used.
    #[verifier::rlimit(40)]
    fn sgr_one(&mut self, i: usize, count: usize) -> (j: usize)
        requires
            old(self).wf(),
            count <= 16,
            i < count,
        ensures
            (final(self)@, j as int) == old(self)@.sgr_one(i as int, count as int),
            final(self).wf(),
            grows_by(old(self)@, final(self)@, 0),
            i <= j < i + 16,
            final(self)@.params == old(self)@.params,
            final(self)@.colon == old(self)@.colon,
            final(self)@.np == old(self)@.np,
            final(self)@.seen == old(self)@.seen,
    {
        let p = self.params[i];
        if p == 0 {
            self.sgr_reset();
        } else if p == 1 {
            self.attr = self.attr | BOLD;
        } else if p == 2 {
            self.attr = self.attr | FAINT;
        } else if p == 4 {
            let run = self.colon_run(i);
            if run > 0 && self.params[i + 1] == 0 {
                self.attr = self.attr & !UNDER;
            } else {
                self.attr = self.attr | UNDER;
            }
            proof { assert(self@ =~~= old(self)@.sgr_one(i as int, count as int).0); }
            return i + run;
        } else if p == 7 {
            self.attr = self.attr | REV;
        } else if p == 9 {
            self.attr = self.attr | STRIKE;
        } else if p == 21 {
            self.attr = self.attr | UNDER;
        } else if p == 22 {
            self.attr = self.attr & !(BOLD | FAINT);
        } else if p == 24 {
            self.attr = self.attr & !UNDER;
        } else if p == 27 {
            self.attr = self.attr & !REV;
        } else if p == 29 {
            self.attr = self.attr & !STRIKE;
        } else if p == 38 {
            let (adv, c) = self.sgr_color(count, i);
            match c {
                Some(c) => { self.fg = c; }
                None => {}
            }
            proof { assert(self@ =~~= old(self)@.sgr_one(i as int, count as int).0); }
            return i + adv - 1;
        } else if p == 39 {
            self.fg = self.def_fg;
        } else if p == 48 {
            let (adv, c) = self.sgr_color(count, i);
            match c {
                Some(c) => { self.bg = c; }
                None => {}
            }
            proof { assert(self@ =~~= old(self)@.sgr_one(i as int, count as int).0); }
            return i + adv - 1;
        } else if p == 49 {
            self.bg = self.def_bg;
        } else if 30 <= p && p <= 37 {
            self.fg = self.palette(p - 30);
        } else if 40 <= p && p <= 47 {
            self.bg = self.palette(p - 40);
        } else if 90 <= p && p <= 97 {
            self.fg = self.palette(p - 82);
        } else if 100 <= p && p <= 107 {
            self.bg = self.palette(p - 92);
        }
        proof { assert(self@ =~~= old(self)@.sgr_one(i as int, count as int).0); }
        i
    }

    /// Select graphic rendition: colours and attributes from the parameters.
    pub(crate) fn sgr(&mut self)
        requires
            old(self).wf(),
        ensures
            final(self)@ == old(self)@.sgr(),
            final(self).wf(),
            grows_by(old(self)@, final(self)@, 0),
    {
        let count = self.param_count();
        if count == 0 {
            self.sgr_reset();
            return;
        }
        let ghost target = old(self)@.sgr_loop(0, count as int);
        let mut i: usize = 0;
        while i < count
            invariant
                self.wf(),
                count <= 16,
                count == self@.param_count(),
                i < count ==> self@.sgr_loop(i as int, count as int) == target,
                i >= count ==> self@ == target,
                grows_by(old(self)@, self@, 0),
                self@.params == old(self)@.params,
                self@.colon == old(self)@.colon,
            decreases count - i,
        {
            let j = self.sgr_one(i, count);
            i = if j + 1 < count { j + 1 } else { count };
        }
    }

    /// Whether mode `m` is set, for a mode report; `None` for a mode not known.
    pub(crate) fn mode_value(&self, m: u32) -> (r: Option<bool>)
        ensures
            r == self@.mode_value(m),
    {
        if m == 1 {
            Some(self.modes.ckm)
        } else if m == 6 {
            Some(self.modes.origin)
        } else if m == 7 {
            Some(self.modes.awm)
        } else if m == 25 {
            Some(self.modes.tcem)
        } else if m == 47 || m == 1047 || m == 1049 {
            Some(self.alt != 0)
        } else if m == 1000 || m == 1002 || m == 1003 {
            Some(self.modes.mouse == m)
        } else if m == 1004 {
            Some(self.modes.focus)
        } else if m == 1006 {
            Some(self.modes.sgr_mouse)
        } else if m == 2004 {
            Some(self.modes.paste)
        } else if m == 2026 {
            Some(self.modes.sync)
        } else {
            None
        }
    }

    /// The private modes that switch screens or save the cursor.
    fn dec_mode_screen(&mut self, m: u32, set: bool)
        requires
            old(self).wf(),
            m == 47 || m == 1047 || m == 1048 || m == 1049,
        ensures
            final(self)@ == old(self)@.dec_mode_screen(m, set),
            final(self).wf(),
            grows_by(old(self)@, final(self)@, 0),
            final(self)@.params == old(self)@.params,
    {
        if m == 47 || m == 1047 {
            self.use_alt(set);
        } else if m == 1048 {
            if set { self.save_cursor() } else { self.restore_cursor() }
        } else if set {
            self.save_cursor();
            self.use_alt(true);
        } else {
            self.use_alt(false);
            self.restore_cursor();
        }
    }

    /// The modes after setting or resetting the flag mode `m`.
    fn flag_modes(md: Modes, m: u32, set: bool) -> (r: Modes)
        ensures
            r == flag_modes(md, m, set),
    {
        if m == 1 {
            Modes { ckm: set, ..md }
        } else if m == 7 {
            Modes { awm: set, ..md }
        } else if m == 1000 || m == 1002 || m == 1003 {
            if set {
                Modes { mouse: m, ..md }
            } else if md.mouse == m {
                Modes { mouse: 0, ..md }
            } else {
                md
            }
        } else if m == 1004 {
            Modes { focus: set, ..md }
        } else if m == 1006 {
            Modes { sgr_mouse: set, ..md }
        } else if m == 2004 {
            Modes { paste: set, ..md }
        } else if m == 2026 {
            Modes { sync: set, ..md }
        } else {
            md
        }
    }

    /// Origin mode (DECOM): also homes the cursor.
    fn dec_mode_origin(&mut self, set: bool)
        requires
            old(self).wf(),
        ensures
            final(self)@ == old(self)@.dec_mode(6, set),
            final(self).wf(),
            grows_by(old(self)@, final(self)@, 0),
            final(self)@.params == old(self)@.params,
    {
        let md = self.modes;
        self.modes = Modes { origin: set, ..md };
        let y: i64 = if set { self.top as i64 } else { 0 };
        proof { assert(self@ =~= TermV { modes: Modes { origin: set, ..md }, ..old(self)@ }); }
        self.move_to(y, 0);
    }

    /// Cursor visibility (DECTCEM).
    fn dec_mode_cursor(&mut self, set: bool)
        requires
            old(self).wf(),
        ensures
            final(self)@ == old(self)@.dec_mode(25, set),
            final(self).wf(),
            grows_by(old(self)@, final(self)@, 0),
            final(self)@.params == old(self)@.params,
    {
        let md = self.modes;
        self.modes = Modes { tcem: set, ..md };
        let y = self.y;
        proof { assert(self@ =~= TermV { modes: Modes { tcem: set, ..md }, ..old(self)@ }); }
        self.mark(y);
    }

    /// A flag mode: nothing but the flag changes.
    fn dec_mode_flag(&mut self, m: u32, set: bool)
        requires
            old(self).wf(),
            !(m == 47 || m == 1047 || m == 1048 || m == 1049 || m == 6 || m == 25),
        ensures
            final(self)@ == old(self)@.dec_mode(m, set),
            final(self).wf(),
            grows_by(old(self)@, final(self)@, 0),
            final(self)@.params == old(self)@.params,
    {
        let md = self.modes;
        self.modes = Self::flag_modes(md, m, set);
        proof { assert(self@ =~= old(self)@.dec_mode(m, set)); }
    }

    /// Sets or resets the private mode `m` (DECSET / DECRST).
    pub(crate) fn dec_mode(&mut self, m: u32, set: bool)
        requires
            old(self).wf(),
        ensures
            final(self)@ == old(self)@.dec_mode(m, set),
            final(self).wf(),
            grows_by(old(self)@, final(self)@, 0),
            final(self)@.params == old(self)@.params,
    {
        if m == 47 || m == 1047 || m == 1048 || m == 1049 {
            self.dec_mode_screen(m, set);
        } else if m == 6 {
            self.dec_mode_origin(set);
        } else if m == 25 {
            self.dec_mode_cursor(set);
        } else {
            self.dec_mode_flag(m, set);
        }
    }

    /// Applies `dec_mode` to each parameter from index `i` on.
    pub(crate) fn dec_modes(&mut self, count: usize, set: bool)
        requires
            old(self).wf(),
            count <= 16,
        ensures
            final(self)@ == old(self)@.dec_modes(0, count as int, set),
            final(self).wf(),
            grows_by(old(self)@, final(self)@, 0),
    {
        let mut i: usize = 0;
        while i < count
            invariant
                self.wf(),
                count <= 16,
                i <= count,
                self@.dec_modes(i as int, count as int, set) == old(self)@.dec_modes(0, count as int, set),
                grows_by(old(self)@, self@, 0),
                self@.params == old(self)@.params,
            decreases count - i,
        {
            let m = self.params[i];
            self.dec_mode(m, set);
            i = i + 1;
        }
    }
}

} // verus!
