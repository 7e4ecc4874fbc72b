//! The mathematical model of the terminal: every operation of `Term` is
//! described here as a function from one `TermV` to the next.
use vstd::prelude::*;

use crate::text::dec;
use crate::vt::{Cell, Line, Modes, Saved, St, OSC_MAX, BOLD, FAINT, UNDER, REV, STRIKE, WIDE, TAIL, PALETTE, GFX, ZERO_W, WIDE_W};

verus! {

/// A row of cells, and whether it wrapped.
#[verifier::ext_equal]
pub struct LineV {
    pub cells: Seq<Cell>,
    pub wrapped: bool,
}

/// The state of the terminal, as values.
#[verifier::ext_equal]
pub struct TermV {
    pub cols: usize,
    pub rows: usize,
    /// The main screen and the alternate screen.
    pub screens: Seq<Seq<LineV>>,
    pub alt: usize,
    pub sb: Seq<LineV>,
    pub sb_cap: usize,
    pub sb_base: u64,
    pub view: usize,
    pub dirty: Seq<bool>,
    pub all_dirty: bool,
    pub x: usize,
    pub y: usize,
    pub fg: u32,
    pub bg: u32,
    pub attr: u32,
    pub def_fg: u32,
    pub def_bg: u32,
    pub top: usize,
    pub bot: usize,
    pub pend: bool,
    pub modes: Modes,
    pub saved: Seq<Saved>,
    pub tabs: Seq<bool>,
    pub g0: bool,
    pub g1: bool,
    pub cs: usize,
    pub last: u32,
    pub st: St,
    pub params: Seq<u32>,
    pub np: usize,
    pub seen: bool,
    pub colon: u32,
    pub privc: u8,
    pub inter: u8,
    pub osc: Seq<u8>,
    /// The OSC string grew past its limit and is to be dropped whole.
    pub osc_over: bool,
    pub esc_str: bool,
    pub ucp: u32,
    pub uneed: u8,
    pub uhave: u8,
    pub out: Seq<u8>,
    pub title: Option<Seq<char>>,
    /// Bytes a program asked to put on the clipboard, not yet taken.
    pub clip: Option<Seq<u8>>,
}

/// Rows, as values.
pub open spec fn lines_view(v: Seq<Line>) -> Seq<LineV> {
    Seq::new(v.len(), |i: int| v[i]@)
}

pub open spec fn min(a: int, b: int) -> int {
    if a <= b { a } else { b }
}

pub open spec fn max(a: int, b: int) -> int {
    if a >= b { a } else { b }
}

pub open spec fn clamp(v: int, lo: int, hi: int) -> int {
    if v < lo { lo } else if v > hi { hi } else { v }
}

pub open spec fn blank_line(cols: nat, b: Cell) -> LineV {
    LineV { cells: Seq::new(cols, |i: int| b), wrapped: false }
}

pub open spec fn blank_lines(n: nat, cols: nat, b: Cell) -> Seq<LineV> {
    Seq::new(n, |i: int| blank_line(cols, b))
}

pub open spec fn default_modes() -> Modes {
    Modes { ckm: false, awm: true, tcem: true, origin: false, paste: false, focus: false, sync: false, mouse: 0, sgr_mouse: false }
}

pub open spec fn unset_saved() -> Saved {
    Saved { x: 0, y: 0, fg: 0, bg: 0, attr: 0, g0: false, g1: false, cs: 0, origin: false, set: false }
}

pub open spec fn in_ranges_spec(r: Seq<(u32, u32)>, cp: u32) -> bool {
    exists|i: int| 0 <= i < r.len() && (#[trigger] r[i]).0 <= cp && cp <= r[i].1
}

/// Ranges in increasing order, each nonempty and ending before the next begins.
pub open spec fn ranges_sorted(r: Seq<(u32, u32)>) -> bool {
    &&& forall|i: int| 0 <= i < r.len() ==> (#[trigger] r[i]).0 <= r[i].1
    &&& forall|i: int, j: int| 0 <= i < j < r.len() ==> (#[trigger] r[i]).1 < (#[trigger] r[j]).0
}

proof fn lemma_sorted_from_steps(r: Seq<(u32, u32)>)
    requires
        forall|i: int| 0 <= i < r.len() ==> (#[trigger] r[i]).0 <= r[i].1,
        forall|i: int| 0 <= i < r.len() - 1 ==> (#[trigger] r[i]).1 < r[i + 1].0,
    ensures
        ranges_sorted(r),
{
    assert forall|i: int, j: int| 0 <= i < j < r.len() implies (#[trigger] r[i]).1 < (#[trigger] r[j]).0 by {
        lemma_step_chain(r, i, j);
    }
}

proof fn lemma_step_chain(r: Seq<(u32, u32)>, i: int, j: int)
    requires
        0 <= i < j < r.len(),
        forall|k: int| 0 <= k < r.len() ==> (#[trigger] r[k]).0 <= r[k].1,
        forall|k: int| 0 <= k < r.len() - 1 ==> (#[trigger] r[k]).1 < r[k + 1].0,
    ensures
        r[i].1 < r[j].0,
    decreases j - i,
{
    if j > i + 1 {
        lemma_step_chain(r, i, j - 1);
        assert(r[j - 1].1 < r[j].0);
    }
}

/// The tables of zero-width and wide code points are sorted.
pub proof fn lemma_tables_sorted()
    ensures
        ranges_sorted(ZERO_W@),
        ranges_sorted(WIDE_W@),
{
    assert(ZERO_W@[0].1 < ZERO_W@[1].0);
    assert(ZERO_W@[1].1 < ZERO_W@[2].0);
    assert(ZERO_W@[2].1 < ZERO_W@[3].0);
    assert(ZERO_W@[3].1 < ZERO_W@[4].0);
    assert(ZERO_W@[4].1 < ZERO_W@[5].0);
    assert(ZERO_W@[5].1 < ZERO_W@[6].0);
    assert(ZERO_W@[6].1 < ZERO_W@[7].0);
    assert(ZERO_W@[7].1 < ZERO_W@[8].0);
    assert(ZERO_W@[8].1 < ZERO_W@[9].0);
    assert(ZERO_W@[9].1 < ZERO_W@[10].0);
    assert(ZERO_W@[10].1 < ZERO_W@[11].0);
    assert(ZERO_W@[11].1 < ZERO_W@[12].0);
    assert(ZERO_W@[12].1 < ZERO_W@[13].0);
    assert(ZERO_W@[13].1 < ZERO_W@[14].0);
    assert(ZERO_W@[14].1 < ZERO_W@[15].0);
    assert(ZERO_W@[15].1 < ZERO_W@[16].0);
    assert(ZERO_W@[16].1 < ZERO_W@[17].0);
    assert(ZERO_W@[17].1 < ZERO_W@[18].0);
    assert(ZERO_W@[18].1 < ZERO_W@[19].0);
    assert(ZERO_W@[19].1 < ZERO_W@[20].0);
    assert(ZERO_W@[20].1 < ZERO_W@[21].0);
    assert(WIDE_W@[0].1 < WIDE_W@[1].0);
    assert(WIDE_W@[1].1 < WIDE_W@[2].0);
    assert(WIDE_W@[2].1 < WIDE_W@[3].0);
    assert(WIDE_W@[3].1 < WIDE_W@[4].0);
    assert(WIDE_W@[4].1 < WIDE_W@[5].0);
    assert(WIDE_W@[5].1 < WIDE_W@[6].0);
    assert(WIDE_W@[6].1 < WIDE_W@[7].0);
    assert(WIDE_W@[7].1 < WIDE_W@[8].0);
    assert(WIDE_W@[8].1 < WIDE_W@[9].0);
    assert(WIDE_W@[9].1 < WIDE_W@[10].0);
    assert(WIDE_W@[10].1 < WIDE_W@[11].0);
    assert(WIDE_W@[11].1 < WIDE_W@[12].0);
    assert(WIDE_W@[12].1 < WIDE_W@[13].0);
    assert(WIDE_W@[13].1 < WIDE_W@[14].0);
    assert(WIDE_W@[14].1 < WIDE_W@[15].0);
    assert(WIDE_W@[15].1 < WIDE_W@[16].0);
    assert(WIDE_W@[16].1 < WIDE_W@[17].0);
    assert(WIDE_W@[17].1 < WIDE_W@[18].0);
    lemma_sorted_from_steps(ZERO_W@);
    lemma_sorted_from_steps(WIDE_W@);
}

/// Number of columns a code point occupies: 0 for combining marks, 2 for wide East Asian
/// characters and emoji, 1 for everything else.
pub open spec fn width_spec(cp: u32) -> usize {
    if cp < 0x300 {
        1
    } else if in_ranges_spec(ZERO_W@, cp) {
        0
    } else if in_ranges_spec(WIDE_W@, cp) {
        2
    } else {
        1
    }
}

/// `char::is_control`: the general category Cc.
pub open spec fn is_control(c: char) -> bool {
    (c as u32) < 0x20 || (0x7f <= (c as u32) && (c as u32) < 0xa0)
}

/// Number of bytes of the UTF-8 encoding of `c`.
pub open spec fn utf8_len(c: char) -> nat {
    if (c as u32) < 0x80 { 1 } else if (c as u32) < 0x800 { 2 } else if (c as u32) < 0x10000 { 3 } else { 4 }
}

pub open spec fn utf8_len_seq(s: Seq<char>) -> nat
    decreases s.len(),
{
    if s.len() == 0 { 0 } else { utf8_len(s[0]) + utf8_len_seq(s.drop_first()) }
}

/// The characters of `s` that are not control characters.
pub open spec fn visible(s: Seq<char>) -> Seq<char> {
    s.filter(|c: char| !is_control(c))
}

/// A window title holds no control character and fits in 255 bytes of UTF-8.
pub open spec fn title_ok(t: Option<Seq<char>>) -> bool {
    match t {
        None => true,
        Some(s) => (forall|i: int| 0 <= i < s.len() ==> !is_control(#[trigger] s[i])) && utf8_len_seq(s) <= 255,
    }
}

/// A cell that shows something: a visible character, a non-default background or a line attribute.
pub open spec fn non_blank(c: Cell, def_bg: u32) -> bool {
    (c.cp != 0 && c.cp != 32) || c.bg != def_bg || c.attr & (UNDER | STRIKE | REV | TAIL) != 0
}

/// The cells with the trailing blank cells removed.
pub open spec fn trim(s: Seq<Cell>, def_bg: u32) -> Seq<Cell>
    decreases s.len(),
{
    if s.len() > 0 && !non_blank(s.last(), def_bg) {
        trim(s.drop_last(), def_bg)
    } else {
        s
    }
}

/// A new terminal: both screens blank in the given colours, cursor home, default modes,
/// a tab stop every eight columns and an empty scrollback of capacity `sb_cap`.
pub open spec fn initial(cols: usize, rows: usize, sb_cap: usize, fg: u32, bg: u32) -> TermV {
    let b = Cell { cp: 0, fg, bg, attr: 0 };
    TermV {
        cols,
        rows,
        screens: seq![blank_lines(rows as nat, cols as nat, b), blank_lines(rows as nat, cols as nat, b)],
        alt: 0,
        sb: Seq::empty(),
        sb_cap,
        sb_base: 0,
        view: 0,
        dirty: Seq::new(rows as nat, |i: int| true),
        all_dirty: true,
        x: 0,
        y: 0,
        fg,
        bg,
        attr: 0,
        def_fg: fg,
        def_bg: bg,
        top: 0,
        bot: (rows - 1) as usize,
        pend: false,
        modes: default_modes(),
        saved: seq![unset_saved(), unset_saved()],
        tabs: Seq::new(cols as nat, |i: int| i % 8 == 0),
        g0: false,
        g1: false,
        cs: 0,
        last: 0,
        st: St::Ground,
        params: Seq::new(16, |i: int| 0u32),
        np: 0,
        seen: false,
        colon: 0,
        privc: 0,
        inter: 0,
        osc: Seq::empty(),
        osc_over: false,
        esc_str: false,
        ucp: 0,
        uneed: 0,
        uhave: 0,
        out: Seq::empty(),
        title: None,
        clip: None,
    }
}

/// How many lines one input byte can push into the scrollback at most.
pub open spec fn push_budget(cols: int, rows: int) -> int {
    2 * (cols * rows) + rows + 65540
}

/// `push_budget` for the size of `s`.
pub open spec fn budget(s: TermV) -> int {
    push_budget(s.cols as int, s.rows as int)
}

impl TermV {
    /// Well-formed: every size, index and cursor position within its bounds.
    pub open spec fn wf(self) -> bool {
        &&& self.wf_base()
        &&& (self.modes.origin ==> self.top <= self.y)
    }

    /// All of `wf` but the tie of the cursor to the scrolling region in origin mode.
    pub open spec fn wf_base(self) -> bool {
        &&& 1 <= self.cols <= u32::MAX
        &&& 1 <= self.rows <= u32::MAX
        &&& self.cols * self.rows <= usize::MAX
        &&& self.screens.len() == 2
        &&& forall|k: int, i: int| 0 <= k < 2 && 0 <= i < self.rows ==> (#[trigger] self.screens[k][i]).cells.len() == self.cols
        &&& self.screens[0].len() == self.rows
        &&& self.screens[1].len() == self.rows
        &&& self.alt <= 1
        &&& self.dirty.len() == self.rows
        &&& self.x < self.cols
        &&& self.y < self.rows
        &&& self.top <= self.bot
        &&& self.bot < self.rows
        &&& self.saved.len() == 2
        &&& self.tabs.len() == self.cols
        &&& self.params.len() == 16
        &&& self.np < 16
        &&& forall|i: int| 0 <= i < 16 ==> #[trigger] self.params[i] <= 65535
        &&& self.view <= self.sb.len()
        &&& self.sb.len() <= self.sb_cap
        &&& forall|i: int| 0 <= i < self.sb.len() ==> (#[trigger] self.sb[i]).cells.len() <= u32::MAX
        &&& self.sb_base + self.sb.len() <= u64::MAX
        &&& self.osc.len() <= OSC_MAX
        &&& self.uneed <= 3
        &&& (self.uneed > 0 ==> self.uhave < self.uneed)
        &&& title_ok(self.title)
    }

    /// Line ids handed out so far: those that left the scrollback and those in it.
    pub open spec fn lines_total(self) -> int {
        self.sb_base + self.sb.len()
    }

    /// The screen being shown (main or alternate).
    pub open spec fn scr(self) -> Seq<LineV> {
        self.screens[self.alt as int]
    }

    pub open spec fn set_scr(self, s: Seq<LineV>) -> TermV {
        TermV { screens: self.screens.update(self.alt as int, s), ..self }
    }

    pub open spec fn blank(self) -> Cell {
        Cell { cp: 0, fg: self.fg, bg: self.bg, attr: 0 }
    }

    pub open spec fn set_line(self, y: int, l: LineV) -> TermV {
        self.set_scr(self.scr().update(y, l))
    }

    pub open spec fn set_cell(self, y: int, x: int, c: Cell) -> TermV {
        let l = self.scr()[y];
        self.set_line(y, LineV { cells: l.cells.update(x, c), wrapped: l.wrapped })
    }

    pub open spec fn set_wrapped(self, y: int) -> TermV {
        let l = self.scr()[y];
        self.set_line(y, LineV { cells: l.cells, wrapped: true })
    }

    pub open spec fn mark(self, y: int) -> TermV {
        if 0 <= y < self.rows {
            TermV { dirty: self.dirty.update(y, true), ..self }
        } else {
            self
        }
    }

    pub open spec fn reset_tabs(self) -> TermV {
        TermV { tabs: Seq::new(self.cols as nat, |i: int| i % 8 == 0), ..self }
    }

    /// Id of the `d`-th displayed row.
    pub open spec fn line_id(self, d: int) -> int {
        self.sb_base + (self.sb.len() - self.view + d)
    }

    /// The line that carries id `id`: in the scrollback, or on the screen shown.
    pub open spec fn line_at(self, id: u64) -> Option<LineV> {
        if id < self.sb_base {
            None
        } else {
            let rel = (id - self.sb_base) as usize as int;
            if rel < self.sb.len() {
                Some(self.sb[rel])
            } else if rel - self.sb.len() < self.scr().len() {
                Some(self.scr()[rel - self.sb.len()])
            } else {
                None
            }
        }
    }

    /// Blanks the cells `x0..x1` (clipped to the width) of row `y` and marks it.
    pub open spec fn clear_cells(self, y: int, x0: int, x1: int) -> TermV {
        let b = self.blank();
        let lo = min(x0, self.cols as int);
        let hi = min(x1, self.cols as int);
        let l = self.scr()[y];
        self.set_line(y, LineV {
            cells: Seq::new(l.cells.len(), |i: int| if lo <= i < hi { b } else { l.cells[i] }),
            wrapped: l.wrapped,
        }).mark(y)
    }

    /// Blanks the rows `lo..hi` entirely.
    pub open spec fn clear_rows(self, lo: int, hi: int) -> TermV
        decreases hi - lo,
    {
        if hi <= lo {
            self
        } else {
            self.clear_cells(lo, 0, self.cols as int).clear_rows(lo + 1, hi)
        }
    }

    /// Appends a line to the scrollback (on the main screen, when there is one).
    pub open spec fn sb_push(self, l: LineV) -> TermV {
        if self.sb_cap == 0 || self.alt != 0 {
            self
        } else {
            let l2 = if !l.wrapped { LineV { cells: trim(l.cells, self.def_bg), wrapped: l.wrapped } } else { l };
            let full = self.sb.len() == self.sb_cap;
            let sb1 = if full { self.sb.drop_first() } else { self.sb };
            let base1 = if full { (self.sb_base + 1) as u64 } else { self.sb_base };
            let sb2 = sb1.push(l2);
            TermV {
                sb: sb2,
                sb_base: base1,
                view: if self.view > 0 { min(self.view + 1, sb2.len() as int) as usize } else { self.view },
                ..self
            }
        }
    }

    pub open spec fn sb_push_lines(self, ls: Seq<LineV>) -> TermV
        decreases ls.len(),
    {
        if ls.len() == 0 {
            self
        } else {
            self.sb_push(ls[0]).sb_push_lines(ls.drop_first())
        }
    }

    /// Scrolls the rows `top..=bot` up by `n`; the lines that leave the top of the whole
    /// main screen go to the scrollback when `to_sb` is set.
    pub open spec fn scroll_up(self, top: int, bot: int, n: int, to_sb: bool) -> TermV {
        let n2 = min(n, bot - top + 1);
        if n2 <= 0 {
            self
        } else {
            let sc = self.scr();
            let new = sc.subrange(0, top) + sc.subrange(top + n2, bot + 1) + blank_lines(n2 as nat, self.cols as nat, self.blank()) + sc.subrange(bot + 1, sc.len() as int);
            let s1 = TermV { all_dirty: true, ..self.set_scr(new) };
            if to_sb && self.alt == 0 && top == 0 && bot == self.rows - 1 {
                s1.sb_push_lines(sc.subrange(top, top + n2))
            } else {
                s1
            }
        }
    }

    /// Scrolls the rows `top..=bot` down by `n`.
    pub open spec fn scroll_down(self, top: int, bot: int, n: int) -> TermV {
        let n2 = min(n, bot - top + 1);
        if n2 <= 0 {
            self
        } else {
            let sc = self.scr();
            let new = sc.subrange(0, top) + blank_lines(n2 as nat, self.cols as nat, self.blank()) + sc.subrange(top, bot + 1 - n2) + sc.subrange(bot + 1, sc.len() as int);
            TermV { all_dirty: true, ..self.set_scr(new) }
        }
    }

    pub open spec fn use_alt(self, alt: bool) -> TermV {
        let a: usize = if alt { 1 } else { 0 };
        if self.alt == a {
            self
        } else {
            let s1 = if alt {
                TermV { screens: self.screens.update(1, Seq::new(self.rows as nat, |i: int| blank_line(self.cols as nat, self.blank()))), ..self }
            } else {
                self
            };
            TermV { alt: a, view: 0, all_dirty: true, ..s1 }
        }
    }

    pub open spec fn move_to(self, y: int, x: int) -> TermV {
        let ymin: int = if self.modes.origin { self.top as int } else { 0 };
        let ymax: int = if self.modes.origin { self.bot as int } else { self.rows - 1 };
        TermV { y: clamp(y, ymin, ymax) as usize, x: clamp(x, 0, self.cols - 1) as usize, pend: false, ..self }
    }

    pub open spec fn linefeed(self) -> TermV {
        let s1 = if self.y == self.bot {
            self.scroll_up(self.top as int, self.bot as int, 1, true)
        } else if self.y < self.rows - 1 {
            TermV { y: (self.y + 1) as usize, ..self }.mark(self.y + 1)
        } else {
            self
        };
        TermV { pend: false, ..s1 }
    }

    pub open spec fn reverse_index(self) -> TermV {
        let s1 = if self.y == self.top {
            self.scroll_down(self.top as int, self.bot as int, 1)
        } else if self.y > 0 {
            TermV { y: (self.y - 1) as usize, ..self }
        } else {
            self
        };
        TermV { pend: false, ..s1 }
    }

    /// Breaks up a wide character of which the cell `(y, x)` is one half.
    pub open spec fn unlink_wide(self, y: int, x: int) -> TermV {
        let c = self.scr()[y].cells[x];
        let s1 = if c.attr & TAIL != 0 && x > 0 {
            let p = self.scr()[y].cells[x - 1];
            self.set_cell(y, x - 1, Cell { cp: 32, attr: p.attr & !WIDE, ..p })
        } else {
            self
        };
        if c.attr & WIDE != 0 && x + 1 < self.cols {
            let q = s1.scr()[y].cells[x + 1];
            s1.set_cell(y, x + 1, Cell { cp: 32, attr: q.attr & !TAIL, ..q })
        } else {
            s1
        }
    }

    pub open spec fn map_charset(self, cp: u32) -> u32 {
        let gfx = if self.cs == 1 { self.g1 } else { self.g0 };
        if gfx && 0x60 <= cp <= 0x7e { GFX@[cp - 0x60] as u32 } else { cp }
    }

    /// Wraps to the start of the next line, marking the current one as wrapped.
    pub open spec fn wrap(self) -> TermV {
        TermV { x: 0, ..self.set_wrapped(self.y as int) }.linefeed()
    }

    /// Makes room for a character of width `w`: wraps a pending line end, and a wide
    /// character that does not fit on the row.
    pub open spec fn pre_put(self, w: int) -> TermV {
        let s1 = if self.pend && self.modes.awm { self.wrap() } else { self };
        let s2 = TermV { pend: false, ..s1 };
        if w == 2 && s2.x >= s2.cols - 1 {
            if s2.modes.awm { s2.wrap() } else { TermV { x: if s2.cols >= 2 { (s2.cols - 2) as usize } else { 0 }, ..s2 } }
        } else {
            s2
        }
    }

    /// Stores the character `cp` of width `w` in the cells at the cursor.
    pub open spec fn put_cells(self, cp: u32, w: int) -> TermV {
        let s4 = self.unlink_wide(self.y as int, self.x as int);
        let x = s4.x as int;
        let y = s4.y as int;
        let cell = Cell { cp, fg: s4.fg, bg: s4.bg, attr: s4.attr | (if w == 2 { WIDE } else { 0 }) };
        let s5 = s4.set_cell(y, x, cell);
        if w == 2 && x + 1 < s5.cols {
            let s = s5.unlink_wide(y, x + 1);
            s.set_cell(y, x + 1, Cell { cp: 0, fg: s.fg, bg: s.bg, attr: s.attr | TAIL })
        } else {
            s5
        }
    }

    /// Moves the cursor past a character of width `w` printed at column `x`.
    pub open spec fn advance(self, cp: u32, x: int, w: int) -> TermV {
        let s7 = TermV { last: cp, ..self.mark(self.y as int) };
        if x + w >= s7.cols {
            TermV { x: (s7.cols - 1) as usize, pend: true, ..s7 }
        } else {
            TermV { x: (x + w) as usize, ..s7 }
        }
    }

    /// Writes the character `cp` of width `w` (1 or 2) at the cursor and advances it.
    pub open spec fn place(self, cp: u32, w: int) -> TermV {
        self.put_cells(cp, w).advance(cp, self.x as int, w)
    }

    /// Prints one character at the cursor.
    #[verifier::opaque]
    pub open spec fn put_char(self, cp0: u32) -> TermV {
        let cp = self.map_charset(cp0);
        let w = width_spec(cp);
        if w == 0 { self } else { self.pre_put(w as int).place(cp, w as int) }
    }

    pub open spec fn tab_forward(self, n: int) -> TermV {
        TermV { x: tab_fwd_x(self.tabs, self.x as int, n, self.cols as int) as usize, pend: false, ..self }
    }

    pub open spec fn tab_back(self, n: int) -> TermV {
        TermV { x: tab_back_x(self.tabs, self.x as int, n) as usize, pend: false, ..self }
    }

    pub open spec fn ctrl(self, b: u8) -> TermV {
        if b == 8 {
            TermV { x: if self.x > 0 { (self.x - 1) as usize } else { 0 }, pend: false, ..self }
        } else if b == 9 {
            self.tab_forward(1)
        } else if 10 <= b <= 12 {
            self.linefeed()
        } else if b == 13 {
            TermV { x: 0, pend: false, ..self }
        } else if b == 14 {
            TermV { cs: 1, ..self }
        } else if b == 15 {
            TermV { cs: 0, ..self }
        } else {
            self
        }
    }

    pub open spec fn save_cursor(self) -> TermV {
        TermV {
            saved: self.saved.update(self.alt as int, Saved {
                x: self.x, y: self.y, fg: self.fg, bg: self.bg, attr: self.attr,
                g0: self.g0, g1: self.g1, cs: self.cs, origin: self.modes.origin, set: true,
            }),
            ..self
        }
    }

    /// The colours, attributes, character sets and origin mode of a saved cursor.
    pub open spec fn with_saved(self, s: Saved) -> TermV {
        TermV {
            fg: s.fg, bg: s.bg, attr: s.attr, g0: s.g0, g1: s.g1, cs: s.cs,
            modes: Modes { origin: s.origin, ..self.modes },
            ..self
        }
    }

    pub open spec fn restore_cursor(self) -> TermV {
        let s = self.saved[self.alt as int];
        if !s.set {
            self.move_to(0, 0)
        } else {
            self.with_saved(s).move_to(s.y as i64 as int, s.x as i64 as int)
        }
    }

    pub open spec fn sgr_reset(self) -> TermV {
        TermV { fg: self.def_fg, bg: self.def_bg, attr: 0, ..self }
    }

    pub open spec fn reset_all(self) -> TermV {
        let s1 = self.use_alt(false).sgr_reset().clear_rows(0, self.rows as int);
        let s2 = TermV {
            top: 0, bot: (self.rows - 1) as usize, modes: default_modes(),
            g0: false, g1: false, cs: 0, saved: seq![unset_saved(), unset_saved()],
            ..s1
        }.reset_tabs().move_to(0, 0);
        TermV { all_dirty: true, ..s2 }
    }

    pub open spec fn resize(self, cols: usize, rows: usize) -> TermV {
        let c = max(cols as int, 2);
        let r = max(rows as int, 2);
        if c == self.cols && r == self.rows {
            self
        } else {
            let b = Cell { cp: 0, fg: self.def_fg, bg: self.def_bg, attr: 0 };
            TermV {
                screens: Seq::new(self.screens.len(), |k: int| resize_screen(self.screens[k], c as nat, r as nat, b)),
                cols: c as usize,
                rows: r as usize,
                dirty: Seq::new(r as nat, |i: int| if i < self.dirty.len() { self.dirty[i] } else { true }),
                top: 0,
                bot: (r - 1) as usize,
                x: min(self.x as int, c - 1) as usize,
                y: min(self.y as int, r - 1) as usize,
                view: 0,
                pend: false,
                all_dirty: true,
                ..self
            }.reset_tabs()
        }
    }

    pub open spec fn palette(self, idx: u32) -> u32 {
        if idx <= 15 {
            PALETTE@[idx as int]
        } else if idx <= 231 {
            let c = (idx - 16) as u32;
            (pal_f((c / 36) as u32) << 16u32) | (pal_f((c / 6 % 6) as u32) << 8u32) | pal_f((c % 6) as u32)
        } else if idx <= 255 {
            let v = ((idx - 232) * 10 + 8) as u32;
            (v << 16u32) | (v << 8u32) | v
        } else {
            self.def_fg
        }
    }

    pub open spec fn param_count(self) -> int {
        self.np + if self.seen || self.np > 0 { 1int } else { 0int }
    }

    pub open spec fn param(self, i: int, def: u32) -> u32 {
        if i >= self.param_count() || self.params[i] == 0 { def } else { self.params[i] }
    }

    pub open spec fn colon_run(self, i: int) -> int {
        run_from(self.colon, i + 1)
    }

    pub open spec fn sgr_color(self, count: int, i: int) -> (int, Option<u32>) {
        let run = self.colon_run(i);
        if i + 1 >= count {
            (1, None)
        } else if self.params[i + 1] == 5 {
            (3, if i + 2 < count { Some(self.palette(self.params[i + 2])) } else { None })
        } else if self.params[i + 1] == 2 {
            let base = if run >= 5 { i + 3 } else { i + 2 };
            let rgb = if base + 2 < count {
                Some(((self.params[base] & 255) << 16u32) | ((self.params[base + 1] & 255) << 8u32) | (self.params[base + 2] & 255))
            } else {
                None
            };
            (base + 3 - i, rgb)
        } else {
            (2, None)
        }
    }

    /// One SGR parameter at index `i`; gives the new state and the index of the last
    /// parameter it used.
    pub open spec fn sgr_one(self, i: int, count: int) -> (TermV, int) {
        let p = self.params[i];
        if p == 0 {
            (self.sgr_reset(), i)
        } else if p == 1 {
            (TermV { attr: self.attr | BOLD, ..self }, i)
        } else if p == 2 {
            (TermV { attr: self.attr | FAINT, ..self }, i)
        } else if p == 4 {
            let run = self.colon_run(i);
            let a = if run > 0 && self.params[i + 1] == 0 { self.attr & !UNDER } else { self.attr | UNDER };
            (TermV { attr: a, ..self }, i + run)
        } else if p == 7 {
            (TermV { attr: self.attr | REV, ..self }, i)
        } else if p == 9 {
            (TermV { attr: self.attr | STRIKE, ..self }, i)
        } else if p == 21 {
            (TermV { attr: self.attr | UNDER, ..self }, i)
        } else if p == 22 {
            (TermV { attr: self.attr & !(BOLD | FAINT), ..self }, i)
        } else if p == 24 {
            (TermV { attr: self.attr & !UNDER, ..self }, i)
        } else if p == 27 {
            (TermV { attr: self.attr & !REV, ..self }, i)
        } else if p == 29 {
            (TermV { attr: self.attr & !STRIKE, ..self }, i)
        } else if p == 38 {
            let (adv, c) = self.sgr_color(count, i);
            (match c { Some(c) => TermV { fg: c, ..self }, None => self }, i + adv - 1)
        } else if p == 39 {
            (TermV { fg: self.def_fg, ..self }, i)
        } else if p == 48 {
            let (adv, c) = self.sgr_color(count, i);
            (match c { Some(c) => TermV { bg: c, ..self }, None => self }, i + adv - 1)
        } else if p == 49 {
            (TermV { bg: self.def_bg, ..self }, i)
        } else if 30 <= p <= 37 {
            (TermV { fg: self.palette((p - 30) as u32), ..self }, i)
        } else if 40 <= p <= 47 {
            (TermV { bg: self.palette((p - 40) as u32), ..self }, i)
        } else if 90 <= p <= 97 {
            (TermV { fg: self.palette((p - 82) as u32), ..self }, i)
        } else if 100 <= p <= 107 {
            (TermV { bg: self.palette((p - 92) as u32), ..self }, i)
        } else {
            (self, i)
        }
    }

    pub open spec fn sgr_loop(self, i: int, count: int) -> TermV
        decreases count - i,
    {
        if i >= count || i < 0 {
            self
        } else {
            let (s, j) = self.sgr_one(i, count);
            if j < i || j + 1 >= count { s } else { s.sgr_loop(j + 1, count) }
        }
    }

    pub open spec fn sgr(self) -> TermV {
        let count = self.param_count();
        if count == 0 { self.sgr_reset() } else { self.sgr_loop(0, count) }
    }

    pub open spec fn mode_value(self, m: u32) -> Option<bool> {
        if m == 1 {
            Some(self.modes.ckm)
        } else if m == 6 {
            Some(self.modes.origin)
        } else if m == 7 {
            Some(self.modes.awm)
        } else if m == 25 {
            Some(self.modes.tcem)
        } else if m == 47 || m == 1047 || m == 1049 {
            Some(self.alt != 0)
        } else if m == 1000 || m == 1002 || m == 1003 {
            Some(self.modes.mouse == m)
        } else if m == 1004 {
            Some(self.modes.focus)
        } else if m == 1006 {
            Some(self.modes.sgr_mouse)
        } else if m == 2004 {
            Some(self.modes.paste)
        } else if m == 2026 {
            Some(self.modes.sync)
        } else {
            None
        }
    }

    /// The private modes that switch screens or save the cursor.
    pub open spec fn dec_mode_screen(self, m: u32, set: bool) -> TermV {
        if m == 47 || m == 1047 {
            self.use_alt(set)
        } else if m == 1048 {
            if set { self.save_cursor() } else { self.restore_cursor() }
        } else if set {
            self.save_cursor().use_alt(true)
        } else {
            self.use_alt(false).restore_cursor()
        }
    }

    pub open spec fn dec_mode(self, m: u32, set: bool) -> TermV {
        let md = self.modes;
        if m == 6 {
            TermV { modes: Modes { origin: set, ..md }, ..self }.move_to(if set { self.top as int } else { 0 }, 0)
        } else if m == 25 {
            TermV { modes: Modes { tcem: set, ..md }, ..self }.mark(self.y as int)
        } else if m == 47 || m == 1047 || m == 1048 || m == 1049 {
            self.dec_mode_screen(m, set)
        } else {
            TermV { modes: flag_modes(md, m, set), ..self }
        }
    }

    pub open spec fn dec_modes(self, i: int, count: int, set: bool) -> TermV
        decreases count - i,
    {
        if i >= count {
            self
        } else {
            self.dec_mode(self.params[i], set).dec_modes(i + 1, count, set)
        }
    }
}

/// The modes after setting or resetting the flag mode `m`; unknown modes change nothing.
pub open spec fn flag_modes(md: Modes, m: u32, set: bool) -> Modes {
    if m == 1 {
        Modes { ckm: set, ..md }
    } else if m == 7 {
        Modes { awm: set, ..md }
    } else if m == 1000 || m == 1002 || m == 1003 {
        if set {
            Modes { mouse: m, ..md }
        } else if md.mouse == m {
            Modes { mouse: 0, ..md }
        } else {
            md
        }
    } else if m == 1004 {
        Modes { focus: set, ..md }
    } else if m == 1006 {
        Modes { sgr_mouse: set, ..md }
    } else if m == 2004 {
        Modes { paste: set, ..md }
    } else if m == 2026 {
        Modes { sync: set, ..md }
    } else {
        md
    }
}

pub open spec fn pal_f(v: u32) -> u32 {
    if v > 0 { (v * 40 + 55) as u32 } else { 0 }
}

/// Number of consecutive colon-separated parameters from index `j` on.
pub open spec fn run_from(colon: u32, j: int) -> int
    decreases 16 - j,
{
    if j >= 16 || j < 0 || (colon >> (j as u32)) & 1u32 == 0 {
        0
    } else {
        1 + run_from(colon, j + 1)
    }
}

pub open spec fn next_stop(tabs: Seq<bool>, x: int, cols: int) -> int
    decreases cols - x,
{
    if x >= cols || tabs[x] { x } else { next_stop(tabs, x + 1, cols) }
}

pub open spec fn tab_fwd_x(tabs: Seq<bool>, x: int, n: int, cols: int) -> int
    decreases n,
{
    if n <= 0 {
        x
    } else {
        let j = next_stop(tabs, x + 1, cols);
        if j >= cols { cols - 1 } else { tab_fwd_x(tabs, j, n - 1, cols) }
    }
}

pub open spec fn prev_stop(tabs: Seq<bool>, x: int) -> int
    decreases x,
{
    if x <= 0 { 0 } else if tabs[x - 1] { x - 1 } else { prev_stop(tabs, x - 1) }
}

pub open spec fn tab_back_x(tabs: Seq<bool>, x: int, n: int) -> int
    decreases n,
{
    if n <= 0 { x } else { tab_back_x(tabs, prev_stop(tabs, x), n - 1) }
}

pub open spec fn resize_cells(cs: Seq<Cell>, c: nat, b: Cell) -> Seq<Cell> {
    Seq::new(c, |j: int| if j < cs.len() { cs[j] } else { b })
}

pub open spec fn resize_screen(sc: Seq<LineV>, c: nat, r: nat, b: Cell) -> Seq<LineV> {
    Seq::new(r, |i: int| if i < sc.len() { LineV { cells: resize_cells(sc[i].cells, c, b), wrapped: sc[i].wrapped } } else { blank_line(c, b) })
}


/// The value of a base64 digit, or -1 for a byte that is none.
pub open spec fn b64_digit(c: u8) -> int {
    if 65 <= c <= 90 {
        c - 65
    } else if 97 <= c <= 122 {
        c - 71
    } else if 48 <= c <= 57 {
        c + 4
    } else if c == 43 {
        62
    } else if c == 47 {
        63
    } else {
        -1
    }
}

/// The bytes that the base64 text `s` encodes: groups of four digits, the last of which
/// may end in `==` or `=`; none where `s` is anything else.
pub open spec fn b64_decode(s: Seq<u8>) -> Option<Seq<u8>>
    decreases s.len(),
{
    if s.len() == 0 {
        Some(Seq::empty())
    } else if s.len() < 4 {
        None
    } else {
        let (a, b, c, d) = (b64_digit(s[0]), b64_digit(s[1]), b64_digit(s[2]), b64_digit(s[3]));
        let last = s.len() == 4;
        if a < 0 || b < 0 {
            None
        } else if last && s[2] == 61 && s[3] == 61 {
            Some(seq![(a * 4 + b / 16) as u8])
        } else if c < 0 {
            None
        } else if last && s[3] == 61 {
            Some(seq![(a * 4 + b / 16) as u8, ((b % 16) * 16 + c / 4) as u8])
        } else if d < 0 {
            None
        } else {
            match b64_decode(s.skip(4)) {
                Some(r) => Some(seq![(a * 4 + b / 16) as u8, ((b % 16) * 16 + c / 4) as u8, ((c % 4) * 64 + d) as u8] + r),
                None => None,
            }
        }
    }
}

/// The clipboard bytes of the payload `p` of OSC 52, `selection;data`: none for the query
/// `?`, or where the data is not base64.
pub open spec fn clip_data(p: Seq<u8>) -> Option<Seq<u8>> {
    match find_byte(p, 59, 0) {
        Some(j) => {
            let data = p.skip(j + 1);
            if data == seq![63u8] { None } else { b64_decode(data) }
        },
        None => None,
    }
}

/// The characters that `String::from_utf8_lossy` makes of `b`.
pub uninterp spec fn lossy_utf8(b: Seq<u8>) -> Seq<char>;

/// The longest prefix of `s` whose UTF-8 encoding fits in `budget` bytes.
pub open spec fn cap_utf8(s: Seq<char>, budget: int) -> Seq<char>
    decreases s.len(),
{
    if s.len() == 0 || utf8_len(s[0]) > budget {
        Seq::empty()
    } else {
        seq![s[0]] + cap_utf8(s.drop_first(), budget - utf8_len(s[0]))
    }
}

/// `cap_utf8(s, b)` is a prefix of `s` whose encoding takes at most `b` bytes.
pub proof fn lemma_cap_utf8(s: Seq<char>, b: int)
    ensures
        cap_utf8(s, b).len() <= s.len(),
        forall|i: int| 0 <= i < cap_utf8(s, b).len() ==> #[trigger] cap_utf8(s, b)[i] == s[i],
        b >= 0 ==> utf8_len_seq(cap_utf8(s, b)) <= b,
    decreases s.len(),
{
    if s.len() == 0 || utf8_len(s[0]) > b {
    } else {
        let t = cap_utf8(s.drop_first(), b - utf8_len(s[0]));
        lemma_cap_utf8(s.drop_first(), b - utf8_len(s[0]));
        let c = seq![s[0]] + t;
        assert(c.drop_first() =~= t);
        assert forall|i: int| 0 <= i < c.len() implies #[trigger] c[i] == s[i] by {
            if i > 0 {
                assert(c[i] == t[i - 1]);
            }
        }
    }
}

/// A window title made of an OSC payload: decoded, stripped of control characters, capped.
pub open spec fn sanitize_title(payload: Seq<u8>) -> Seq<char> {
    cap_utf8(visible(lossy_utf8(payload)), 255)
}

/// Index of the first `b` in `s` at or after `i`.
pub open spec fn find_byte(s: Seq<u8>, b: u8, i: int) -> Option<int>
    decreases s.len() - i,
{
    if i < 0 || i >= s.len() {
        None
    } else if s[i] == b {
        Some(i)
    } else {
        find_byte(s, b, i + 1)
    }
}

pub open spec fn all_digits(s: Seq<u8>) -> bool {
    forall|i: int| 0 <= i < s.len() ==> 48 <= #[trigger] s[i] <= 57
}

pub open spec fn digits_value(s: Seq<u8>) -> nat
    decreases s.len(),
{
    if s.len() == 0 { 0 } else { digits_value(s.drop_last()) * 10 + (s.last() - 48) as nat }
}

pub open spec fn printable(b: u8) -> bool {
    0x20 <= b && b < 0x7f
}

/// Length of the leading run of printable ASCII bytes of `s`.
pub open spec fn printable_run(s: Seq<u8>) -> nat
    decreases s.len(),
{
    if s.len() == 0 || !printable(s[0]) { 0 } else { 1 + printable_run(s.drop_first()) }
}

/// The leading run of `s` is printable up to `m`, where it ends.
pub proof fn lemma_printable_run(s: Seq<u8>, m: int)
    requires
        0 <= m <= s.len(),
        forall|k: int| 0 <= k < m ==> printable(#[trigger] s[k]),
        m == s.len() || !printable(s[m]),
    ensures
        printable_run(s) == m,
    decreases m,
{
    if m > 0 {
        let t = s.drop_first();
        assert forall|k: int| 0 <= k < m - 1 implies printable(#[trigger] t[k]) by {
            assert(t[k] == s[k + 1]);
        }
        if m < s.len() {
            assert(t[m - 1] == s[m]);
        }
        lemma_printable_run(t, m - 1);
    }
}

/// Outcome of feeding one byte to the UTF-8 decoder.
#[derive(Clone, Copy, PartialEq, Eq, Structural)]
pub enum Decoded {
    Done(u32),
    Pending,
    Invalid,
}

pub open spec fn esc_bytes(s: Seq<u8>) -> Seq<u8> {
    seq![27u8, 91u8] + s
}

impl TermV {
    pub open spec fn lf_n(self, n: int) -> TermV
        decreases n,
    {
        if n <= 0 { self } else { self.linefeed().lf_n(n - 1) }
    }

    pub open spec fn ri_n(self, n: int) -> TermV
        decreases n,
    {
        if n <= 0 { self } else { self.reverse_index().ri_n(n - 1) }
    }

    /// Prints the last printed character `n` more times.
    pub open spec fn repeat_last(self, n: int) -> TermV
        decreases n,
    {
        if n <= 0 { self } else { self.put_char(self.last).repeat_last(n - 1) }
    }

    pub open spec fn insert_blanks(self, n2: int) -> TermV {
        let (x, y, cols) = (self.x as int, self.y as int, self.cols as int);
        let l = self.scr()[y];
        let c = l.cells;
        self.set_line(y, LineV {
            cells: Seq::new(c.len(), |j: int| if j < x { c[j] } else if j < x + n2 { c[cols - n2 + (j - x)] } else { c[j - n2] }),
            wrapped: l.wrapped,
        }).clear_cells(y, x, x + n2)
    }

    pub open spec fn delete_chars(self, n2: int) -> TermV {
        let (x, y, cols) = (self.x as int, self.y as int, self.cols as int);
        let l = self.scr()[y];
        let c = l.cells;
        self.set_line(y, LineV {
            cells: Seq::new(c.len(), |j: int| if j < x { c[j] } else if j < cols - n2 { c[j + n2] } else { c[x + j + n2 - cols] }),
            wrapped: l.wrapped,
        }).clear_cells(y, cols - n2, cols)
    }

    pub open spec fn respond(self, bytes: Seq<u8>) -> TermV {
        TermV { out: self.out + bytes, ..self }
    }

    pub open spec fn soft_reset(self) -> TermV {
        let md = self.modes;
        TermV {
            modes: Modes { tcem: true, origin: false, awm: true, ckm: false, ..md },
            top: 0,
            bot: (self.rows - 1) as usize,
            g0: false,
            g1: false,
            cs: 0,
            saved: seq![unset_saved(), unset_saved()],
            ..self.sgr_reset()
        }
    }

    pub open spec fn set_margins(self) -> TermV {
        let top = if self.param(0, 1) >= 1 { self.param(0, 1) - 1 } else { 0 };
        let bot = min(self.param(1, self.rows as u32) - 1, self.rows - 1);
        if top < bot {
            TermV { top: top as usize, bot: bot as usize, ..self }.move_to(if self.modes.origin { top } else { 0 }, 0)
        } else {
            self
        }
    }

    pub open spec fn is_csi_cursor(fin: u8) -> bool {
        fin == 65 || fin == 66 || fin == 101 || fin == 67 || fin == 97 || fin == 68 || fin == 71 || fin == 96
            || fin == 72 || fin == 102 || fin == 100 || fin == 73 || fin == 90
    }

    pub open spec fn is_csi_lines(fin: u8) -> bool {
        fin == 69 || fin == 70 || fin == 76 || fin == 77 || fin == 83 || fin == 84
    }

    pub open spec fn is_csi_erase(fin: u8) -> bool {
        fin == 64 || fin == 80 || fin == 74 || fin == 75 || fin == 88
    }

    /// Executes the control sequence `CSI ... fin` collected so far.
    pub open spec fn csi(self, fin: u8) -> TermV {
        if Self::is_csi_cursor(fin) {
            self.csi_cursor(fin)
        } else if Self::is_csi_lines(fin) {
            self.csi_lines(fin)
        } else if Self::is_csi_erase(fin) {
            self.csi_erase(fin)
        } else if fin == 98 {
            self.csi_repeat()
        } else if fin == 99 {
            self.csi_attrs()
        } else if fin == 110 {
            self.csi_status()
        } else if fin == 112 {
            self.csi_p()
        } else {
            self.csi_misc(fin)
        }
    }

    /// Cursor movement: CUU, CUD, VPR, CUF, HPR, CUB, CHA, HPA, CUP, HVP, VPA, CHT, CBT.
    #[verifier::opaque]
    pub open spec fn csi_cursor(self, fin: u8) -> TermV {
        let n = self.param(0, 1) as int;
        let (x, y, cols, rows, top, bot) = (self.x as int, self.y as int, self.cols as int, self.rows as int, self.top as int, self.bot as int);
        if fin == 65 {
            let lim = if y >= top { top } else { 0 };
            TermV { y: max(if y >= n { y - n } else { 0 }, lim) as usize, pend: false, ..self }
        } else if fin == 66 || fin == 101 {
            let lim = if y <= bot { bot } else { rows - 1 };
            TermV { y: min(y + n, lim) as usize, pend: false, ..self }
        } else if fin == 67 || fin == 97 {
            TermV { x: min(x + n, cols - 1) as usize, pend: false, ..self }
        } else if fin == 68 {
            TermV { x: if x >= n { (x - n) as usize } else { 0 }, pend: false, ..self }
        } else if fin == 71 || fin == 96 {
            self.move_to(y - if self.modes.origin { top } else { 0 }, n - 1)
        } else if fin == 72 || fin == 102 {
            self.move_to(self.param(0, 1) - 1, self.param(1, 1) - 1)
        } else if fin == 100 {
            self.move_to(n - 1, x)
        } else if fin == 73 {
            self.tab_forward(n)
        } else {
            self.tab_back(n)
        }
    }

    /// Line feeds and scrolling: CNL, CPL, IL, DL, SU, SD.
    #[verifier::opaque]
    pub open spec fn csi_lines(self, fin: u8) -> TermV {
        let n = self.param(0, 1) as int;
        let (y, top, bot) = (self.y as int, self.top as int, self.bot as int);
        if fin == 69 {
            TermV { x: 0, ..self }.lf_n(n)
        } else if fin == 70 {
            TermV { x: 0, ..self }.ri_n(n)
        } else if fin == 76 {
            if top <= y <= bot { self.scroll_down(y, bot, n) } else { self }
        } else if fin == 77 {
            if top <= y <= bot { self.scroll_up(y, bot, n, false) } else { self }
        } else if fin == 83 {
            self.scroll_up(top, bot, n, true)
        } else {
            self.scroll_down(top, bot, n)
        }
    }

    /// Erasing: ICH, DCH, ED, EL, ECH.
    #[verifier::opaque]
    pub open spec fn csi_erase(self, fin: u8) -> TermV {
        let n = self.param(0, 1) as int;
        let (x, y, cols, rows) = (self.x as int, self.y as int, self.cols as int, self.rows as int);
        if fin == 64 {
            self.insert_blanks(min(n, cols - x))
        } else if fin == 80 {
            self.delete_chars(min(n, cols - x))
        } else if fin == 88 {
            self.clear_cells(y, x, x + n)
        } else if fin == 74 {
            let p = self.param(0, 0);
            if p == 0 {
                self.clear_cells(y, x, cols).clear_rows(y + 1, rows)
            } else if p == 1 {
                self.clear_rows(0, y).clear_cells(y, 0, x + 1)
            } else if p == 2 {
                self.clear_rows(0, rows)
            } else if p == 3 {
                TermV { sb_base: (self.sb_base + self.sb.len()) as u64, sb: Seq::empty(), view: 0, all_dirty: true, ..self }
            } else {
                self
            }
        } else {
            let p = self.param(0, 0);
            if p == 0 {
                self.clear_cells(y, x, cols)
            } else if p == 1 {
                self.clear_cells(y, 0, x + 1)
            } else if p == 2 {
                self.clear_cells(y, 0, cols)
            } else {
                self
            }
        }
    }

    /// REP: the last printed character again, at most a screenful of times.
    #[verifier::opaque]
    pub open spec fn csi_repeat(self) -> TermV {
        let n = self.param(0, 1) as int;
        if self.last != 0 { self.repeat_last(min(n, self.cols * self.rows)) } else { self }
    }

    /// DA: the device attributes reply.
    #[verifier::opaque]
    pub open spec fn csi_attrs(self) -> TermV {
        if self.privc == 62 {
            self.respond(esc_bytes(seq![62u8, 48, 59, 48, 59, 48, 99]))
        } else if self.privc == 0 && self.param(0, 0) == 0 {
            self.respond(esc_bytes(seq![63u8, 54, 99]))
        } else {
            self
        }
    }

    /// DSR: the status report or the cursor position report.
    #[verifier::opaque]
    pub open spec fn csi_status(self) -> TermV {
        let p = self.param(0, 0);
        if p == 5 {
            self.respond(esc_bytes(seq![48u8, 110]))
        } else if p == 6 {
            let r = self.y - (if self.modes.origin { self.top as int } else { 0 }) + 1;
            self.respond(esc_bytes(dec(r as nat) + seq![59u8] + dec((self.x + 1) as nat) + seq![82u8]))
        } else {
            self
        }
    }

    /// DECSTR, and DECRQM: the report of whether a mode is set.
    #[verifier::opaque]
    pub open spec fn csi_p(self) -> TermV {
        if self.inter == 33 {
            self.soft_reset()
        } else if self.inter == 36 && self.privc == 63 {
            let m = self.param(0, 0);
            let v: nat = match self.mode_value(m) { Some(true) => 1, Some(false) => 2, None => 0 };
            self.respond(esc_bytes(seq![63u8] + dec(m as nat) + seq![59u8] + dec(v) + seq![36u8, 121]))
        } else {
            self
        }
    }

    /// TBC, SM/RM, SGR, DECSTBM, SCOSC, SCORC; every other final byte is ignored.
    #[verifier::opaque]
    pub open spec fn csi_misc(self, fin: u8) -> TermV {
        if fin == 103 {
            if self.param(0, 0) == 3 {
                TermV { tabs: Seq::new(self.tabs.len(), |i: int| false), ..self }
            } else {
                TermV { tabs: self.tabs.update(self.x as int, false), ..self }
            }
        } else if fin == 104 || fin == 108 {
            if self.privc == 63 { self.dec_modes(0, self.param_count(), fin == 104) } else { self }
        } else if fin == 109 {
            if self.privc == 0 { self.sgr() } else { self }
        } else if fin == 114 {
            if self.privc == 0 { self.set_margins() } else { self }
        } else if fin == 115 {
            if self.privc == 0 { self.save_cursor() } else { self }
        } else if fin == 117 {
            if self.privc == 0 { self.restore_cursor() } else { self }
        } else {
            self
        }
    }

    /// Executes the OSC string collected so far: one that grew past its limit is dropped
    /// whole; `0;title` and `2;title` set the title; `52;sel;data` puts the bytes that
    /// the base64 `data` encodes on the clipboard (the query `?` is not answered).
    pub open spec fn osc_dispatch(self) -> TermV {
        let osc = self.osc;
        let s0 = TermV { osc: Seq::empty(), osc_over: false, ..self };
        let semi = find_byte(osc, 59, 0);
        let num = match semi { Some(k) => osc.take(k), None => osc };
        if self.osc_over || !all_digits(num) {
            s0
        } else {
            let cmd: nat = if num.len() == 0 || digits_value(num) > u32::MAX { u32::MAX as nat } else { digits_value(num) };
            match semi {
                Some(k) => if cmd == 0 || cmd == 2 {
                    TermV { title: Some(sanitize_title(osc.skip(k + 1))), ..s0 }
                } else if cmd == 52 {
                    match clip_data(osc.skip(k + 1)) {
                        Some(v) => TermV { clip: Some(v), ..s0 },
                        None => s0,
                    }
                } else {
                    s0
                },
                None => s0,
            }
        }
    }

    /// The byte that follows ESC.
    pub open spec fn esc(self, b: u8) -> TermV {
        let s = TermV { st: St::Ground, ..self };
        if b == 91 {
            TermV { params: Seq::new(16, |i: int| 0u32), np: 0, seen: false, colon: 0, privc: 0, inter: 0, st: St::Csi, ..s }
        } else if b == 93 {
            TermV { osc: Seq::empty(), osc_over: false, esc_str: false, st: St::Osc, ..s }
        } else if b == 80 || b == 88 || b == 94 || b == 95 {
            TermV { esc_str: false, st: St::Str, ..s }
        } else if b == 40 || b == 41 || b == 35 {
            TermV { st: St::EscInt(b), ..s }
        } else if b == 55 {
            s.save_cursor()
        } else if b == 56 {
            s.restore_cursor()
        } else if b == 68 {
            s.linefeed()
        } else if b == 69 {
            TermV { x: 0, ..s }.linefeed()
        } else if b == 72 {
            TermV { tabs: s.tabs.update(s.x as int, true), ..s }
        } else if b == 77 {
            s.reverse_index()
        } else if b == 99 {
            s.reset_all()
        } else if b == 0x1b {
            TermV { st: St::Esc, ..s }
        } else {
            s
        }
    }

    /// One byte into the UTF-8 decoder.
    pub open spec fn utf8_push(self, b: u8) -> (TermV, Decoded) {
        if self.uneed == 0 {
            if b <= 0x7f {
                (self, Decoded::Done(b as u32))
            } else if 0xc0 <= b <= 0xdf {
                (TermV { ucp: (b & 0x1f) as u32, uneed: 1, uhave: 0, ..self }, Decoded::Pending)
            } else if 0xe0 <= b <= 0xef {
                (TermV { ucp: (b & 0x0f) as u32, uneed: 2, uhave: 0, ..self }, Decoded::Pending)
            } else if 0xf0 <= b <= 0xf7 {
                (TermV { ucp: (b & 0x07) as u32, uneed: 3, uhave: 0, ..self }, Decoded::Pending)
            } else {
                (self, Decoded::Invalid)
            }
        } else if b & 0xc0 != 0x80 {
            (TermV { uneed: 0, ..self }, Decoded::Invalid)
        } else {
            let ucp = (self.ucp << 6u32) | ((b & 0x3f) as u32);
            let uhave = (self.uhave + 1) as u8;
            if uhave < self.uneed {
                (TermV { ucp, uhave, ..self }, Decoded::Pending)
            } else {
                let n = self.uneed;
                let bad = (n == 1 && ucp < 0x80) || (n == 2 && ucp < 0x800) || (n == 3 && ucp < 0x10000)
                    || (0xd800 <= ucp <= 0xdfff) || ucp > 0x10ffff;
                (TermV { ucp, uhave, uneed: 0, ..self }, Decoded::Done(if bad { 0xfffd } else { ucp }))
            }
        }
    }

    /// A byte in the ground state with no UTF-8 sequence pending.
    pub open spec fn ground_plain(self, b: u8) -> TermV {
        if b == 0x1b {
            TermV { st: St::Esc, ..self }
        } else if b <= 0x1f || b == 0x7f {
            self.ctrl(b)
        } else if 0x20 <= b <= 0x7e {
            self.put_char(b as u32)
        } else {
            let (s1, r) = self.utf8_push(b);
            match r {
                Decoded::Done(cp) => s1.put_char(cp),
                Decoded::Pending => s1,
                Decoded::Invalid => s1.put_char(0xfffd),
            }
        }
    }

    pub open spec fn ground(self, b: u8) -> TermV {
        if self.uneed > 0 {
            let (s1, r) = self.utf8_push(b);
            match r {
                Decoded::Done(cp) => s1.put_char(cp),
                Decoded::Pending => s1,
                Decoded::Invalid => {
                    let s2 = s1.put_char(0xfffd);
                    if b < 0x80 || b >= 0xc0 { s2.ground_plain(b) } else { s2 }
                },
            }
        } else {
            self.ground_plain(b)
        }
    }

    /// A byte inside a control sequence.
    pub open spec fn csi_byte(self, b: u8) -> TermV {
        let in_params = self.st == St::Csi;
        if b == 0x1b {
            TermV { st: St::Esc, ..self }
        } else if b == 0x18 || b == 0x1a {
            TermV { st: St::Ground, ..self }
        } else if b <= 0x1f {
            self.ctrl(b)
        } else if in_params && 48 <= b <= 57 {
            let v = min(self.params[self.np as int] * 10 + (b - 48), 65535);
            TermV { params: self.params.update(self.np as int, v as u32), seen: true, ..self }
        } else if in_params && (b == 59 || b == 58) {
            if self.np < 15 {
                let np = (self.np + 1) as usize;
                TermV {
                    np,
                    colon: if b == 58 { self.colon | (1u32 << (np as u32)) } else { self.colon },
                    seen: true,
                    ..self
                }
            } else {
                TermV { seen: true, ..self }
            }
        } else if in_params && 60 <= b <= 63 {
            if !self.seen && self.np == 0 { TermV { privc: b, ..self } } else { self }
        } else if 0x20 <= b <= 0x2f {
            TermV { inter: b, st: St::CsiInt, ..self }
        } else if 0x40 <= b <= 0x7e {
            TermV { st: St::Ground, ..self }.csi(b)
        } else {
            self
        }
    }

    /// A byte inside an OSC string.
    pub open spec fn osc_byte(self, b: u8) -> TermV {
        if self.esc_str {
            let s = TermV { esc_str: false, st: St::Ground, ..self };
            if b == 92 { s.osc_dispatch() } else { s.esc(b) }
        } else if b == 7 {
            TermV { st: St::Ground, ..self }.osc_dispatch()
        } else if b == 0x1b {
            TermV { esc_str: true, ..self }
        } else if b == 0x18 || b == 0x1a {
            TermV { st: St::Ground, ..self }
        } else if self.osc_over || self.osc.len() >= OSC_MAX {
            TermV { osc_over: true, ..self }
        } else {
            TermV { osc: self.osc.push(b), ..self }
        }
    }

    /// A byte inside a DCS, SOS, PM or APC string, which is ignored.
    pub open spec fn str_byte(self, b: u8) -> TermV {
        if self.esc_str {
            if b == 0x1b { self } else { TermV { esc_str: false, st: St::Ground, ..self } }
        } else if b == 0x1b {
            TermV { esc_str: true, ..self }
        } else if b == 7 || b == 0x18 || b == 0x1a {
            TermV { st: St::Ground, ..self }
        } else {
            self
        }
    }

    /// One input byte through the parser.
    #[verifier::opaque]
    pub open spec fn step(self, b: u8) -> TermV {
        match self.st {
            St::Ground => self.ground(b),
            St::Esc => self.esc(b),
            St::EscInt(i) => TermV {
                g0: if i == 40 { b == 48 } else { self.g0 },
                g1: if i == 41 { b == 48 } else { self.g1 },
                st: St::Ground,
                ..self
            },
            St::Csi => self.csi_byte(b),
            St::CsiInt => self.csi_byte(b),
            St::Osc => self.osc_byte(b),
            St::Str => self.str_byte(b),
        }
    }

    /// Row `y` with the bytes of `run` written from column `x` on, in the given colours.
    pub open spec fn write_cells(self, y: int, x: int, run: Seq<u8>, fg: u32, bg: u32, attr: u32) -> TermV {
        let l = self.scr()[y];
        self.set_line(y, LineV {
            cells: Seq::new(l.cells.len(), |j: int| if x <= j < x + run.len() { Cell { cp: run[j - x] as u32, fg, bg, attr } } else { l.cells[j] }),
            wrapped: l.wrapped,
        })
    }

    /// Writes a run of printable ASCII that fits on the current row at the cursor.
    #[verifier::opaque]
    pub open spec fn chunk(self, run: Seq<u8>) -> TermV {
        let (x, y, n) = (self.x as int, self.y as int, run.len() as int);
        self.unlink_wide(y, x).unlink_wide(y, x + n - 1)
            .write_cells(y, x, run, self.fg, self.bg, self.attr)
            .advance(run[n - 1] as u32, x, n)
    }

    /// Prints a run of printable ASCII, a row's worth at a time.
    #[verifier::opaque]
    pub open spec fn put_run(self, run: Seq<u8>) -> TermV
        decreases run.len(),
    {
        if run.len() == 0 {
            self
        } else if self.pend || self.x >= self.cols {
            self.put_char(run[0] as u32).put_run(run.drop_first())
        } else {
            let n = min(self.cols - self.x, run.len() as int);
            if n <= 0 { self } else { self.chunk(run.take(n)).put_run(run.skip(n)) }
        }
    }

    /// Whether the byte `b` starts a run that can be printed without the parser.
    pub open spec fn fast(self, b: u8) -> bool {
        printable(b) && self.st == St::Ground && self.uneed == 0 && !(if self.cs == 1 { self.g1 } else { self.g0 })
    }

    /// Feeds the bytes of `buf` through the terminal.
    #[verifier::opaque]
    pub open spec fn feed(self, buf: Seq<u8>) -> TermV
        decreases buf.len(),
    {
        if buf.len() == 0 {
            self
        } else if self.fast(buf[0]) {
            let k = printable_run(buf);
            if k == 0 || k > buf.len() { self } else { self.put_run(buf.take(k as int)).feed(buf.skip(k as int)) }
        } else {
            self.step(buf[0]).feed(buf.drop_first())
        }
    }
}

} // verus!
