//! The cache of glyph masks, and the drawing of the terminal's cells into a frame
//! buffer.
use vstd::prelude::*;

use crate::font::{Font, FontV, glyph_index_spec, offsets_ok};
use crate::vt::{Cell, Term, Span, BOLD, FAINT, UNDER, REV, STRIKE, WIDE, TAIL};
use crate::vt::model::{TermV, LineV};
use super::{Fb, Geom, fill_at_px, fill_px, blend_px, rows_blended, is_proc, is_proc_spec, sel_contains, sel_contains_spec, HOLLOW, OUTLINE};

verus! {

/// The masks of the glyphs drawn so far, by glyph index, and of the procedural glyphs, by
/// code point and width; the cell size and baseline.
pub struct Atlas {
    pub cw: usize,
    pub ch: usize,
    pub base: usize,
    pub font: Font,
    ascii: Vec<u16>,
    glyphs: Vec<Option<Vec<u8>>>,
    procs: Vec<(u32, bool, Vec<u8>)>,
}

/// The masks kept, by glyph and by procedural key, with the cell size, baseline and font.
pub struct AtlasV {
    pub cw: usize,
    pub ch: usize,
    pub base: usize,
    pub font: FontV,
    pub ascii: Seq<u16>,
    pub glyphs: Seq<Option<Seq<u8>>>,
    pub procs: Seq<(u32, bool, Seq<u8>)>,
}

/// A mask, as a sequence.
pub open spec fn mask_view(m: Option<Vec<u8>>) -> Option<Seq<u8>> {
    match m {
        Some(v) => Some(v@),
        None => None,
    }
}

/// A procedural mask with its key, as a sequence.
pub open spec fn entry_view(e: (u32, bool, Vec<u8>)) -> (u32, bool, Seq<u8>) {
    (e.0, e.1, e.2@)
}

impl View for Atlas {
    type V = AtlasV;

    closed spec fn view(&self) -> AtlasV {
        AtlasV {
            cw: self.cw,
            ch: self.ch,
            base: self.base,
            font: self.font@,
            ascii: self.ascii@,
            glyphs: self.glyphs@.map_values(|m: Option<Vec<u8>>| mask_view(m)),
            procs: self.procs@.map_values(|e: (u32, bool, Vec<u8>)| entry_view(e)),
        }
    }
}

/// The width of a cell one or two wide.
pub open spec fn span_w(cw: usize, wide: bool) -> int {
    if wide { 2 * cw } else { cw as int }
}

impl AtlasV {
    pub open spec fn wf(self) -> bool {
        &&& 1 <= self.cw
        &&& 1 <= self.ch
        &&& 2 * self.cw * self.ch <= usize::MAX
        &&& offsets_ok(self.font)
        &&& self.ascii.len() == 95
        &&& forall|i: int| 0 <= i < 95 ==> #[trigger] self.ascii[i] == glyph_index_spec(self.font, (i + 0x20) as u32)
        &&& self.glyphs.len() <= u16::MAX
        &&& forall|i: int| 0 <= i < self.glyphs.len() ==> (#[trigger] self.glyphs[i] matches Some(m) ==> m.len() == self.cw * self.ch)
        &&& forall|i: int| 0 <= i < self.procs.len() ==> (#[trigger] self.procs[i]).2.len() == span_w(self.cw, self.procs[i].1) * self.ch
    }
}

/// The glyph drawn for `cp`: its index in the font, or 0 where the font has none.
pub open spec fn glyph_for(a: AtlasV, cp: u32) -> u16 {
    let gi = glyph_index_spec(a.font, cp);
    if gi == 0 || gi >= a.glyphs.len() { 0 } else { gi }
}

/// The first procedural mask from entry `i` on for `cp` in a cell one (or two) wide.
pub open spec fn proc_from(procs: Seq<(u32, bool, Seq<u8>)>, cp: u32, wide: bool, i: int) -> Option<Seq<u8>>
    decreases procs.len() - i,
{
    if i < 0 || i >= procs.len() {
        None
    } else if procs[i].0 == cp && procs[i].1 == wide {
        Some(procs[i].2)
    } else {
        proc_from(procs, cp, wide, i + 1)
    }
}

/// The procedural mask kept for `cp` in a cell one (or two) wide.
pub open spec fn proc_of(a: AtlasV, cp: u32, wide: bool) -> Option<Seq<u8>> {
    proc_from(a.procs, cp, wide, 0)
}

impl Atlas {
    pub open spec fn wf(&self) -> bool {
        self@.wf()
    }

    /// An empty cache for `font`, in cells of `cw` by `ch` pixels (at least one each) with
    /// the baseline `base` pixels down.
    pub fn new(font: Font, cw: usize, ch: usize, base: usize) -> (a: Atlas)
        requires
            offsets_ok(font@),
            2 * (if cw < 1 { 1 } else { cw as int }) * (if ch < 1 { 1 } else { ch as int }) <= usize::MAX,
        ensures
            a.wf(),
            a@ == (AtlasV {
                cw: if cw < 1 { 1 } else { cw },
                ch: if ch < 1 { 1 } else { ch },
                base,
                font: font@,
                ascii: Seq::new(95, |i: int| glyph_index_spec(font@, (i + 0x20) as u32)),
                glyphs: Seq::new(font@.num_glyphs as nat, |i: int| None::<Seq<u8>>),
                procs: Seq::empty(),
            }),
    {
        let cw = if cw < 1 { 1 } else { cw };
        let ch = if ch < 1 { 1 } else { ch };
        let mut ascii: Vec<u16> = Vec::new();
        let mut c: u32 = 0x20;
        while c < 0x7f
            invariant
                0x20 <= c <= 0x7f,
                offsets_ok(font@),
                ascii@.len() == c - 0x20,
                forall|i: int| 0 <= i < ascii@.len() ==> #[trigger] ascii@[i] == glyph_index_spec(font@, (i + 0x20) as u32),
            decreases 0x7f - c,
        {
            let g = font.glyph_index(c);
            ascii.push(g);
            c = c + 1;
        }
        let n = font.glyph_count();
        let mut glyphs: Vec<Option<Vec<u8>>> = Vec::new();
        let mut k: u16 = 0;
        while k < n
            invariant
                k <= n,
                glyphs@.len() == k,
                forall|i: int| 0 <= i < k ==> (#[trigger] glyphs@[i]) is None,
            decreases n - k,
        {
            glyphs.push(None);
            k = k + 1;
        }
        let a = Atlas { cw, ch, base, font, ascii, glyphs, procs: Vec::new() };
        proof {
            let want = AtlasV {
                cw,
                ch,
                base,
                font: font@,
                ascii: Seq::new(95, |i: int| glyph_index_spec(font@, (i + 0x20) as u32)),
                glyphs: Seq::new(font@.num_glyphs as nat, |i: int| None::<Seq<u8>>),
                procs: Seq::empty(),
            };
            assert(a@.ascii =~= want.ascii);
            assert(a@.glyphs =~= want.glyphs);
            assert(a@.procs =~= want.procs);
        }
        a
    }

    /// The glyph drawn for `cp`.
    fn glyph_for(&self, cp: u32) -> (gi: u16)
        requires
            self.wf(),
        ensures
            gi == glyph_for(self@, cp),
    {
        let gi = if 0x20 <= cp && cp < 0x7f {
            let g = self.ascii[(cp - 0x20) as usize];
            proof { assert(self@.ascii[cp - 0x20] == glyph_index_spec(self@.font, ((cp - 0x20) + 0x20) as u32)); }
            g
        } else {
            self.font.glyph_index(cp)
        };
        if gi == 0 || gi as usize >= self.glyphs.len() {
            0
        } else {
            gi
        }
    }

    /// The mask of glyph `gi`, if it has been drawn.
    fn glyph_mask(&self, gi: u16) -> (r: Option<&Vec<u8>>)
        requires
            (gi as int) < self@.glyphs.len(),
        ensures
            match r {
                Some(m) => self@.glyphs[gi as int] == Some(m@),
                None => self@.glyphs[gi as int] is None,
            },
    {
        match &self.glyphs[gi as usize] {
            Some(m) => Some(m),
            None => None,
        }
    }

    /// The procedural mask kept for `cp` in a cell one (or two) wide.
    fn proc_mask(&self, cp: u32, wide: bool) -> (r: Option<&Vec<u8>>)
        ensures
            match r {
                Some(m) => proc_of(self@, cp, wide) == Some(m@),
                None => proc_of(self@, cp, wide) is None,
            },
    {
        let mut i: usize = 0;
        while i < self.procs.len()
            invariant
                i <= self@.procs.len(),
                self@.procs.len() == self.procs@.len(),
                proc_from(self@.procs, cp, wide, i as int) == proc_from(self@.procs, cp, wide, 0),
            decreases self.procs@.len() - i,
        {
            let e = &self.procs[i];
            if e.0 == cp && e.1 == wide {
                return Some(&e.2);
            }
            i = i + 1;
        }
        None
    }

    /// Keeps `mask` as the drawing of glyph `gi`, where `gi` is a glyph of the font and the
    /// mask has one byte for each pixel of a cell; else changes nothing.
    pub fn put_glyph(&mut self, gi: u16, mask: Vec<u8>)
        requires
            old(self).wf(),
        ensures
            final(self).wf(),
            final(self)@ == (if (gi as int) < old(self)@.glyphs.len() && mask@.len() == old(self)@.cw * old(self)@.ch {
                AtlasV { glyphs: old(self)@.glyphs.update(gi as int, Some(mask@)), ..old(self)@ }
            } else {
                old(self)@
            }),
    {
        proof {
            let (c, h) = (self.cw as int, self.ch as int);
            assert(c * h <= 2 * c * h) by (nonlinear_arith) requires c >= 0, h >= 0;
        }
        if (gi as usize) < self.glyphs.len() && mask.len() == self.cw * self.ch {
            let ghost s0 = self@;
            self.glyphs.set(gi as usize, Some(mask));
            proof {
                let want = AtlasV { glyphs: s0.glyphs.update(gi as int, Some(mask@)), ..s0 };
                assert(self@.glyphs =~= want.glyphs);
                assert(self@ =~= want);
            }
        }
    }

    /// Keeps `mask` as the procedural drawing of `cp` in a cell one (or two) wide, where none
    /// is kept yet and the mask has one byte for each pixel of such a cell; else changes
    /// nothing.
    pub fn put_proc(&mut self, cp: u32, wide: bool, mask: Vec<u8>)
        requires
            old(self).wf(),
        ensures
            final(self).wf(),
            final(self)@ == (if proc_of(old(self)@, cp, wide) is None && mask@.len() == span_w(old(self)@.cw, wide) * old(self)@.ch {
                AtlasV { procs: old(self)@.procs.push((cp, wide, mask@)), ..old(self)@ }
            } else {
                old(self)@
            }),
    {
        proof {
            let (c, h) = (self.cw as int, self.ch as int);
            assert(c * h <= 2 * c * h) by (nonlinear_arith) requires c >= 0, h >= 0;
            assert(2 * c <= 2 * c * h) by (nonlinear_arith) requires c >= 0, h >= 1;
            assert(2 * c * h == (2 * c) * h) by (nonlinear_arith);
        }
        let w = if wide { 2 * self.cw } else { self.cw };
        if self.proc_mask(cp, wide).is_none() && mask.len() == w * self.ch {
            let ghost s0 = self@;
            self.procs.push((cp, wide, mask));
            proof {
                let want = AtlasV { procs: s0.procs.push((cp, wide, mask@)), ..s0 };
                assert(self@.procs =~= want.procs);
                assert(self@ =~= want);
            }
        }
    }
}

/// Colour tables: `fg` and `bg` map a brightness 0..255 to a colour; `luma` maps the
/// weighted sum of a colour's channels (0..65280) to its brightness.
pub struct Palette {
    pub fg: Vec<u32>,
    pub bg: Vec<u32>,
    pub luma: Vec<u8>,
}

impl Palette {
    pub open spec fn wf(&self) -> bool {
        self.fg@.len() == 256 && self.bg@.len() == 256 && self.luma@.len() == 65281
    }
}

/// The channels of `rgb` weighted 54, 183 and 19: 256 times its brightness.
pub open spec fn weight(rgb: u32) -> int {
    (rgb >> 16u32 & 255) * 54 + (rgb >> 8u32 & 255) * 183 + (rgb & 255) * 19
}

/// `rgb` as the table `lut` shows its brightness.
pub open spec fn amber_spec(lut: Seq<u32>, luma: Seq<u8>, rgb: u32) -> u32 {
    lut[luma[weight(rgb)] as int]
}

/// `rgb` as the table `lut` shows its brightness.
fn amber(lut: &Vec<u32>, luma: &Vec<u8>, rgb: u32) -> (c: u32)
    requires
        lut@.len() == 256,
        luma@.len() == 65281,
    ensures
        c == amber_spec(lut@, luma@, rgb),
{
    let r = rgb >> 16 & 255;
    let g = rgb >> 8 & 255;
    let b = rgb & 255;
    proof {
        assert(rgb >> 16u32 & 255 <= 255) by (bit_vector);
        assert(rgb >> 8u32 & 255 <= 255) by (bit_vector);
        assert(rgb & 255 <= 255) by (bit_vector);
    }
    let w = (r * 54 + g * 183 + b * 19) as usize;
    lut[luma[w] as usize]
}

/// What one frame is drawn from: the terminal, the masks, the buffer's shape, the
/// selection, whether the window has focus, and the colour tables.
pub struct Scene {
    pub t: TermV,
    pub a: AtlasV,
    pub g: Geom,
    pub sel: Span,
    pub focused: bool,
    pub fg: Seq<u32>,
    pub bg: Seq<u32>,
    pub luma: Seq<u8>,
}

/// The thickness of lines: a fourteenth of the cell height, at least one pixel.
pub open spec fn line_w(ch: usize) -> int {
    if ch / 14 > 1 { (ch / 14) as int } else { 1 }
}

/// A cell past the end of a line, or of a line that is not there.
pub open spec fn plain_cell(t: TermV) -> Cell {
    Cell { cp: 0, fg: t.def_fg, bg: t.def_bg, attr: 0 }
}

/// The cell at column `x` of `line`.
pub open spec fn cell_of(t: TermV, line: Option<LineV>, x: int) -> Cell {
    match line {
        Some(l) => if 0 <= x < l.cells.len() { l.cells[x] } else { plain_cell(t) },
        None => plain_cell(t),
    }
}

/// Whether displayed row `d` is to be drawn: everything is, or the live row it shows is
/// marked.
pub open spec fn row_dirty(t: TermV, d: int) -> bool {
    t.all_dirty || (t.view <= d && d - t.view < t.rows && t.dirty[d - t.view])
}

/// Whether the cursor is shown at column `x` of displayed row `d`.
pub open spec fn is_cursor(t: TermV, d: int, x: int) -> bool {
    t.view == 0 && d == t.y && t.modes.tcem && x == t.x
}

/// Whether the cell `c` at column `x` is drawn two columns wide.
pub open spec fn is_wide(t: TermV, c: Cell, x: int) -> bool {
    c.attr & WIDE != 0 && x + 1 < t.cols
}

/// The colours (before the tables) of the cell `c` at column `x` of line `id`: reversed,
/// faint, selected, and under a cursor with focus.
pub open spec fn cell_colors(c: Cell, sel: Span, id: u64, x: int, cursor: bool, focused: bool) -> (u32, u32) {
    let (f0, b0) = if c.attr & REV != 0 { (c.bg, c.fg) } else { (c.fg, c.bg) };
    let f1 = if c.attr & FAINT != 0 { f0 >> 1u32 & 0x7f7f7f } else { f0 };
    let (f2, b2) = if sel_contains_spec(sel, id, x as usize) { (0u32, 0xffffffu32) } else { (f1, b0) };
    if cursor && focused { (b2, f2) } else { (f2, b2) }
}

/// `px` with the mask `m`, if there is one, laid over the cell at `(x0, y0)`.
pub open spec fn over(px: Seq<u32>, s: Scene, m: Option<Seq<u8>>, x0: int, y0: int, w: int, fg: u32) -> Seq<u32> {
    match m {
        Some(m) => blend_px(px, s.g, x0, y0, m, w, s.a.ch as int, fg, 0),
        None => px,
    }
}

/// `px` with the character of `c` drawn at `(x0, y0)`: procedurally, from the font (twice,
/// a pixel apart, for bold), or as an empty box where the font has no glyph or the cell is
/// wide.
pub open spec fn glyph_px(px: Seq<u32>, s: Scene, c: Cell, wide: bool, x0: int, y0: int, fg: u32) -> Seq<u32> {
    let cell_w = span_w(s.a.cw, wide);
    if is_proc_spec(c.cp) {
        over(px, s, proc_of(s.a, c.cp, wide), x0, y0, cell_w, fg)
    } else {
        let gi = if wide { 0u16 } else { glyph_for(s.a, c.cp) };
        if gi != 0 {
            match s.a.glyphs[gi as int] {
                Some(m) => {
                    let p = blend_px(px, s.g, x0, y0, m, s.a.cw as int, s.a.ch as int, fg, 0);
                    if c.attr & BOLD != 0 { blend_px(p, s.g, x0, y0, m, s.a.cw as int, s.a.ch as int, fg, 1) } else { p }
                },
                None => px,
            }
        } else {
            over(px, s, proc_of(s.a, HOLLOW, wide), x0, y0, cell_w, fg)
        }
    }
}

/// `px` with the cell `c` at column `x` of displayed row `d` (line `id`) drawn: its
/// background, its character, underline and strike-through, and the outline of the cursor
/// of a window without focus.
pub open spec fn cell_px(px: Seq<u32>, s: Scene, d: int, id: u64, c: Cell, x: int) -> Seq<u32> {
    let a = s.a;
    let lt = line_w(a.ch);
    let wide = is_wide(s.t, c, x);
    let cell_w = span_w(a.cw, wide);
    let x0 = x * a.cw;
    let y0 = d * a.ch;
    let cursor = is_cursor(s.t, d, x);
    let fb = cell_colors(c, s.sel, id, x, cursor, s.focused);
    let fg = amber_spec(s.fg, s.luma, fb.0);
    let bg = amber_spec(s.bg, s.luma, fb.1);
    let p1 = fill_px(px, s.g, x0, y0, cell_w, a.ch as int, bg);
    let p2 = if c.cp != 0 && c.cp != 32 { glyph_px(p1, s, c, wide, x0, y0, fg) } else { p1 };
    let p3 = deco_px(p2, s, c, wide, x0, y0, fg);
    if cursor && !s.focused {
        over(p3, s, proc_of(a, OUTLINE, wide), x0, y0, cell_w, amber_spec(s.fg, s.luma, s.t.def_fg))
    } else {
        p3
    }
}

/// `px` with the underline and the strike-through of `c`, in the colour `fg`.
pub open spec fn deco_px(px: Seq<u32>, s: Scene, c: Cell, wide: bool, x0: int, y0: int, fg: u32) -> Seq<u32> {
    let a = s.a;
    let lt = line_w(a.ch);
    let cell_w = span_w(a.cw, wide);
    let p1 = if c.attr & UNDER != 0 {
        let uy = if y0 + a.base + lt < y0 + a.ch - lt { y0 + a.base + lt } else { y0 + a.ch - lt };
        fill_px(px, s.g, x0, uy, cell_w, lt, fg)
    } else {
        px
    };
    if c.attr & STRIKE != 0 { fill_px(p1, s.g, x0, y0 + a.ch / 2 - lt / 2, cell_w, lt, fg) } else { p1 }
}

/// `px` with the cells of displayed row `d` drawn from column `x` on: the second column of
/// a wide character is skipped.
pub open spec fn cells_px(px: Seq<u32>, s: Scene, d: int, id: u64, line: Option<LineV>, x: int) -> Seq<u32>
    decreases s.t.cols - x,
{
    if x < 0 || x >= s.t.cols {
        px
    } else {
        let c = cell_of(s.t, line, x);
        if c.attr & TAIL != 0 {
            cells_px(px, s, d, id, line, x + 1)
        } else {
            cells_px(cell_px(px, s, d, id, c, x), s, d, id, line, if is_wide(s.t, c, x) { x + 2 } else { x + 1 })
        }
    }
}

/// `px` with displayed row `d` drawn: the margin to its left, its cells, and what lies
/// right of the grid.
pub open spec fn row_px(px: Seq<u32>, s: Scene, d: int) -> Seq<u32> {
    let a = s.a;
    let def_bg = amber_spec(s.bg, s.luma, s.t.def_bg);
    let id = s.t.line_id(d) as u64;
    let y0 = d * a.ch;
    let p1 = fill_at_px(px, s.g, 0, s.g.oy + y0, s.g.ox, a.ch as int, def_bg);
    let p2 = cells_px(p1, s, d, id, s.t.line_at(id), 0);
    let edge = s.t.cols * a.cw;
    if edge < s.g.w { fill_px(p2, s.g, edge, y0, s.g.w - edge, a.ch as int, def_bg) } else { p2 }
}

/// `px` with the rows from `d` on that are to be drawn drawn.
pub open spec fn rows_px(px: Seq<u32>, s: Scene, d: int) -> Seq<u32>
    decreases s.t.rows - d,
{
    if d < 0 || d >= s.t.rows {
        px
    } else {
        rows_px(if row_dirty(s.t, d) { row_px(px, s, d) } else { px }, s, d + 1)
    }
}

/// The frame buffer after a frame: where everything is drawn, the margins above and below
/// the grid first, then the rows to be drawn, then what lies below the grid.
pub open spec fn frame_px(px: Seq<u32>, s: Scene) -> Seq<u32> {
    let t = s.t;
    let def_bg = amber_spec(s.bg, s.luma, t.def_bg);
    let gh = t.rows * s.a.ch;
    let p1 = if t.all_dirty {
        let q = fill_at_px(px, s.g, 0, 0, s.g.w, s.g.oy, def_bg);
        let bot = s.g.oy + gh;
        fill_at_px(q, s.g, 0, bot, s.g.w, if s.g.h > bot { s.g.h - bot } else { 0 }, def_bg)
    } else {
        px
    };
    let p2 = rows_px(p1, s, 0);
    if t.all_dirty && gh < s.g.h { fill_px(p2, s.g, 0, gh, s.g.w, s.g.h - gh, def_bg) } else { p2 }
}

/// Sizes small enough for the arithmetic of a frame.
pub open spec fn fits(t: TermV, a: AtlasV, g: Geom) -> bool {
    &&& (t.cols + 2) * a.cw + g.ox + g.w <= usize::MAX
    &&& (t.rows + 2) * a.ch + a.base + g.oy + g.h <= usize::MAX
    &&& ids_fit(t)
}

/// Small enough counts of lines for the ids of the rows displayed.
pub open spec fn ids_fit(t: TermV) -> bool {
    t.sb.len() + t.rows <= usize::MAX && t.lines_total() + t.rows <= u64::MAX
}

proof fn lemma_blend_rows(fy0: int, chh: int, h: int, w: int)
    requires
        chh >= 0,
        w >= 0,
    ensures
        0 <= rows_blended(fy0, chh, h) <= chh,
        rows_blended(fy0, chh, h) * w <= w * chh,
        rows_blended(fy0, chh, h) * w <= chh * w,
{
    let r = rows_blended(fy0, chh, h);
    assert(r * w <= chh * w) by (nonlinear_arith) requires 0 <= r <= chh, w >= 0;
    assert(chh * w == w * chh) by (nonlinear_arith);
}

proof fn lemma_cell_room(x: int, cols: int, cw: int, d: int, rows: int, ch: int)
    requires
        0 <= x < cols,
        0 <= d < rows,
        cw >= 1,
        ch >= 1,
    ensures
        x * cw + 2 * cw <= (cols + 2) * cw,
        x * cw + cw <= cols * cw,
        0 <= x * cw,
        d * ch + ch <= rows * ch,
        0 <= d * ch,
        rows * ch <= (rows + 2) * ch,
        cols * cw <= (cols + 2) * cw,
{
    assert(x * cw + 2 * cw <= (cols + 2) * cw) by (nonlinear_arith) requires 0 <= x < cols, cw >= 1;
    assert(x * cw + cw <= cols * cw) by (nonlinear_arith) requires 0 <= x < cols, cw >= 1;
    assert(0 <= x * cw) by (nonlinear_arith) requires 0 <= x, cw >= 1;
    assert(d * ch + ch <= rows * ch) by (nonlinear_arith) requires 0 <= d < rows, ch >= 1;
    assert(0 <= d * ch) by (nonlinear_arith) requires 0 <= d, ch >= 1;
    assert(rows * ch <= (rows + 2) * ch) by (nonlinear_arith) requires rows >= 0, ch >= 1;
    assert(cols * cw <= (cols + 2) * cw) by (nonlinear_arith) requires cols >= 0, cw >= 1;
}

/// Draws the character of `c` at `(x0, y0)` of the grid in the colour `fg`.
fn draw_glyph(fb: &mut Fb, atlas: &Atlas, c: Cell, wide: bool, x0: usize, y0: usize, fg: u32, Ghost(s): Ghost<Scene>)
    requires
        old(fb).wf(),
        atlas.wf(),
        s.g == old(fb).geom(),
        s.a == atlas@,
        old(fb).ox + x0 + 2 * atlas@.cw <= usize::MAX,
        old(fb).oy + y0 + atlas@.ch <= usize::MAX,
    ensures
        final(fb).px@ == glyph_px(old(fb).px@, s, c, wide, x0 as int, y0 as int, fg),
        final(fb).geom() == old(fb).geom(),
        final(fb).px@.len() == old(fb).px@.len(),
{
    let cw = atlas.cw;
    let ch = atlas.ch;
    let cell_w = if wide { 2 * cw } else { cw };
    proof {
        lemma_blend_rows(fb.oy + y0, ch as int, fb.h as int, cell_w as int);
        lemma_blend_rows(fb.oy + y0, ch as int, fb.h as int, cw as int);
        assert(cell_w == span_w(cw, wide));
        lemma_proc_len(atlas@, c.cp, wide, 0);
        lemma_proc_len(atlas@, HOLLOW, wide, 0);
    }
    if is_proc(c.cp) {
        match atlas.proc_mask(c.cp, wide) {
            Some(m) => fb.blend_cov(x0, y0, m.as_slice(), cell_w, ch, fg, 0),
            None => {},
        }
    } else {
        let gi = if wide { 0 } else { atlas.glyph_for(c.cp) };
        if gi != 0 {
            match atlas.glyph_mask(gi) {
                Some(m) => {
                    fb.blend_cov(x0, y0, m.as_slice(), cw, ch, fg, 0);
                    if c.attr & BOLD != 0 {
                        fb.blend_cov(x0, y0, m.as_slice(), cw, ch, fg, 1);
                    }
                },
                None => {},
            }
        } else {
            match atlas.proc_mask(HOLLOW, wide) {
                Some(m) => fb.blend_cov(x0, y0, m.as_slice(), cell_w, ch, fg, 0),
                None => {},
            }
        }
    }
}

proof fn lemma_proc_len(a: AtlasV, cp: u32, wide: bool, i: int)
    requires
        a.wf(),
        0 <= i,
    ensures
        proc_from(a.procs, cp, wide, i) matches Some(m) ==> m.len() == span_w(a.cw, wide) * a.ch,
    decreases a.procs.len() - i,
{
    if i < a.procs.len() && !(a.procs[i].0 == cp && a.procs[i].1 == wide) {
        lemma_proc_len(a, cp, wide, i + 1);
    }
}

/// The colours (before the tables) of the cell `c` at column `x` of line `id`.
fn colors(c: Cell, sel: &Span, id: u64, x: usize, cursor: bool, focused: bool) -> (r: (u32, u32))
    ensures
        r == cell_colors(c, *sel, id, x as int, cursor, focused),
{
    let mut fg = c.fg;
    let mut bg = c.bg;
    if c.attr & REV != 0 {
        let k = fg;
        fg = bg;
        bg = k;
    }
    if c.attr & FAINT != 0 {
        fg = fg >> 1 & 0x7f7f7f;
    }
    if sel_contains(sel, id, x) {
        fg = 0x000000;
        bg = 0xffffff;
    }
    if cursor && focused {
        (bg, fg)
    } else {
        (fg, bg)
    }
}

/// Draws the underline and the strike-through of `c` at `(x0, y0)` in the colour `fg`.
fn draw_deco(fb: &mut Fb, atlas: &Atlas, c: Cell, wide: bool, x0: usize, y0: usize, fg: u32, lt: usize, Ghost(s): Ghost<Scene>)
    requires
        old(fb).wf(),
        atlas.wf(),
        s.g == old(fb).geom(),
        s.a == atlas@,
        lt == line_w(atlas@.ch),
        old(fb).ox + x0 + 2 * atlas@.cw <= usize::MAX,
        old(fb).oy + y0 + atlas@.ch + atlas@.base <= usize::MAX,
    ensures
        final(fb).px@ == deco_px(old(fb).px@, s, c, wide, x0 as int, y0 as int, fg),
        final(fb).geom() == old(fb).geom(),
        final(fb).px@.len() == old(fb).px@.len(),
{
    let cw = atlas.cw;
    let ch = atlas.ch;
    let cell_w = if wide { 2 * cw } else { cw };
    if c.attr & UNDER != 0 {
        let u1 = y0 + atlas.base + lt;
        let u2 = y0 + ch - lt;
        let uy = if u1 < u2 { u1 } else { u2 };
        fb.fill(x0, uy, cell_w, lt, fg);
    }
    if c.attr & STRIKE != 0 {
        fb.fill(x0, y0 + ch / 2 - lt / 2, cell_w, lt, fg);
    }
}

/// Draws the cell `c` at column `x` of displayed row `d`, which shows line `id`.
fn draw_cell(fb: &mut Fb, t: &Term, atlas: &Atlas, pal: &Palette, sel: &Span, focused: bool, d: usize, id: u64, c: Cell, x: usize, lt: usize)
    requires
        old(fb).wf(),
        t.wf(),
        atlas.wf(),
        pal.wf(),
        fits(t@, atlas@, old(fb).geom()),
        d < t@.rows,
        x < t@.cols,
        lt == line_w(atlas@.ch),
    ensures
        final(fb).px@ == cell_px(
            old(fb).px@,
            (Scene { t: t@, a: atlas@, g: old(fb).geom(), sel: *sel, focused, fg: pal.fg@, bg: pal.bg@, luma: pal.luma@ }),
            d as int,
            id,
            c,
            x as int,
        ),
        final(fb).geom() == old(fb).geom(),
        final(fb).px@.len() == old(fb).px@.len(),
{
    let ghost sc = Scene { t: t@, a: atlas@, g: fb.geom(), sel: *sel, focused, fg: pal.fg@, bg: pal.bg@, luma: pal.luma@ };
    proof {
        t.lemma_fields();
        lemma_cell_room(x as int, t.cols as int, atlas.cw as int, d as int, t.rows as int, atlas.ch as int);
    }
    let cw = atlas.cw;
    let ch = atlas.ch;
    let wide = c.attr & WIDE != 0 && x + 1 < t.cols;
    let cell_w = if wide { cw * 2 } else { cw };
    let x0 = x * cw;
    let y0 = d * ch;
    let cursor = t.view == 0 && d == t.y && t.modes.tcem && x == t.x;
    let (f, b) = colors(c, sel, id, x, cursor, focused);
    let fg = amber(&pal.fg, &pal.luma, f);
    let bg = amber(&pal.bg, &pal.luma, b);
    fb.fill(x0, y0, cell_w, ch, bg);
    if c.cp != 0 && c.cp != 32 {
        draw_glyph(fb, atlas, c, wide, x0, y0, fg, Ghost(sc));
    }
    draw_deco(fb, atlas, c, wide, x0, y0, fg, lt, Ghost(sc));
    if cursor && !focused {
        match atlas.proc_mask(OUTLINE, wide) {
            Some(m) => {
                let cc = amber(&pal.fg, &pal.luma, t.def_fg);
                proof {
                    lemma_blend_rows(fb.oy + y0, ch as int, fb.h as int, cell_w as int);
                    lemma_proc_len(atlas@, OUTLINE, wide, 0);
                }
                fb.blend_cov(x0, y0, m.as_slice(), cell_w, ch, cc, 0);
            },
            None => {},
        }
    }
}

/// Draws displayed row `d`: the margin to its left, its cells, and what lies right of the
/// grid.
fn draw_row(fb: &mut Fb, t: &Term, atlas: &Atlas, pal: &Palette, sel: &Span, focused: bool, d: usize, lt: usize, def_bg: u32)
    requires
        old(fb).wf(),
        t.wf(),
        atlas.wf(),
        pal.wf(),
        fits(t@, atlas@, old(fb).geom()),
        d < t@.rows,
        lt == line_w(atlas@.ch),
        def_bg == amber_spec(pal.bg@, pal.luma@, t@.def_bg),
    ensures
        final(fb).px@ == row_px(
            old(fb).px@,
            (Scene { t: t@, a: atlas@, g: old(fb).geom(), sel: *sel, focused, fg: pal.fg@, bg: pal.bg@, luma: pal.luma@ }),
            d as int,
        ),
        final(fb).geom() == old(fb).geom(),
        final(fb).px@.len() == old(fb).px@.len(),
{
    let ghost sc = Scene { t: t@, a: atlas@, g: fb.geom(), sel: *sel, focused, fg: pal.fg@, bg: pal.bg@, luma: pal.luma@ };
    let ghost g0 = fb.geom();
    let ghost n0 = fb.px@.len();
    proof {
        t.lemma_fields();
        lemma_cell_room(0, t.cols as int, atlas.cw as int, d as int, t.rows as int, atlas.ch as int);
    }
    let cw = atlas.cw;
    let ch = atlas.ch;
    let id = t.line_id(d);
    let line = t.line_at(id);
    let ghost lv = t@.line_at(id);
    let py = d * ch;
    let ox = fb.ox;
    let oy = fb.oy;
    fb.fill_at(0, oy + py, ox, ch, def_bg);
    let ghost p1 = fb.px@;
    let plain = Cell { cp: 0, fg: t.def_fg, bg: t.def_bg, attr: 0 };
    let mut x: usize = 0;
    while x < t.cols
        invariant
            fb.wf(),
            fb.geom() == g0,
            fb.px@.len() == n0,
            t.wf(),
            atlas.wf(),
            pal.wf(),
            fits(t@, atlas@, g0),
            d < t@.rows,
            t.cols == t@.cols,
            lt == line_w(atlas@.ch),
            x <= t@.cols,
            sc == (Scene { t: t@, a: atlas@, g: g0, sel: *sel, focused, fg: pal.fg@, bg: pal.bg@, luma: pal.luma@ }),
            plain == plain_cell(t@),
            match line {
                Some(l) => lv == Some(l@),
                None => lv is None,
            },
            cells_px(fb.px@, sc, d as int, id, lv, x as int) == cells_px(p1, sc, d as int, id, lv, 0),
        decreases t.cols - x,
    {
        let c = match line {
            Some(l) => if x < l.cells.len() { l.cells[x] } else { plain },
            None => plain,
        };
        proof { assert(c == cell_of(t@, lv, x as int)); }
        if c.attr & TAIL != 0 {
            x = x + 1;
        } else {
            let wide = c.attr & WIDE != 0 && x + 1 < t.cols;
            draw_cell(fb, t, atlas, pal, sel, focused, d, id, c, x, lt);
            x = if wide { x + 2 } else { x + 1 };
        }
    }
    let edge = t.cols * cw;
    if edge < fb.w {
        let w = fb.w;
        fb.fill(edge, py, w - edge, ch, def_bg);
    }
}

/// Whether displayed row `d` is to be drawn.
fn row_dirty_now(t: &Term, d: usize) -> (b: bool)
    requires
        t.wf(),
        d < t@.rows,
    ensures
        b == row_dirty(t@, d as int),
{
    proof { t.lemma_fields(); }
    t.all_dirty || (d >= t.view && d - t.view < t.rows && t.dirty[d - t.view])
}

/// Draws a frame: everything where the terminal asks for it, else the rows marked since
/// the last frame; marks every row drawn in `drawn`, and clears the terminal's marks.
/// Says whether anything was drawn.
pub fn frame(t: &mut Term, atlas: &Atlas, fb: &mut Fb, sel: &Span, focused: bool, pal: &Palette, drawn: &mut Vec<bool>) -> (drew: bool)
    requires
        old(t).wf(),
        atlas.wf(),
        old(fb).wf(),
        pal.wf(),
        fits(old(t)@, atlas@, old(fb).geom()),
    ensures
        final(fb).px@ == frame_px(
            old(fb).px@,
            (Scene { t: old(t)@, a: atlas@, g: old(fb).geom(), sel: *sel, focused, fg: pal.fg@, bg: pal.bg@, luma: pal.luma@ }),
        ),
        final(fb).geom() == old(fb).geom(),
        final(fb).px@.len() == old(fb).px@.len(),
        final(t)@ == (TermV { dirty: Seq::new(old(t)@.rows as nat, |i: int| false), all_dirty: false, ..old(t)@ }),
        final(t).wf(),
        final(drawn)@ == Seq::new(old(t)@.rows as nat, |d: int| row_dirty(old(t)@, d)),
        drew <==> exists|d: int| 0 <= d < old(t)@.rows && row_dirty(old(t)@, d),
{
    let ghost t0 = t@;
    let ghost sc = Scene { t: t@, a: atlas@, g: fb.geom(), sel: *sel, focused, fg: pal.fg@, bg: pal.bg@, luma: pal.luma@ };
    let ghost g0 = fb.geom();
    let ghost n0 = fb.px@.len();
    proof {
        t.lemma_fields();
        lemma_cell_room(0, t.cols as int, atlas.cw as int, 0, t.rows as int, atlas.ch as int);
    }
    let ch = atlas.ch;
    let lt: usize = if ch / 14 > 1 { ch / 14 } else { 1 };
    let rows = t.rows;
    drawn.clear();
    while drawn.len() < rows
        invariant
            drawn@.len() <= rows,
            forall|k: int| 0 <= k < drawn@.len() ==> !(#[trigger] drawn@[k]),
        decreases rows - drawn@.len(),
    {
        drawn.push(false);
    }
    let mut drew = t.all_dirty;
    let def_bg = amber(&pal.bg, &pal.luma, t.def_bg);
    if t.all_dirty {
        let w = fb.w;
        let oy = fb.oy;
        fb.fill_at(0, 0, w, oy, def_bg);
        let bot = oy + rows * ch;
        let hh = if fb.h > bot { fb.h - bot } else { 0 };
        fb.fill_at(0, bot, w, hh, def_bg);
    }
    let ghost p1 = fb.px@;
    let mut d: usize = 0;
    while d < rows
        invariant
            fb.wf(),
            fb.geom() == g0,
            fb.px@.len() == n0,
            t.wf(),
            t@ == t0,
            atlas.wf(),
            pal.wf(),
            fits(t0, atlas@, g0),
            rows == t0.rows,
            d <= rows,
            lt == line_w(atlas@.ch),
            def_bg == amber_spec(pal.bg@, pal.luma@, t0.def_bg),
            sc == (Scene { t: t0, a: atlas@, g: g0, sel: *sel, focused, fg: pal.fg@, bg: pal.bg@, luma: pal.luma@ }),
            rows_px(fb.px@, sc, d as int) == rows_px(p1, sc, 0),
            drawn@.len() == rows,
            forall|k: int| 0 <= k < rows ==> #[trigger] drawn@[k] == (k < d && row_dirty(t0, k)),
            drew == (t0.all_dirty || exists|k: int| 0 <= k < d && row_dirty(t0, k)),
        decreases rows - d,
    {
        if row_dirty_now(t, d) {
            drew = true;
            drawn.set(d, true);
            draw_row(fb, t, atlas, pal, sel, focused, d, lt, def_bg);
        }
        d = d + 1;
    }
    proof {
        assert(drawn@ =~= Seq::new(t0.rows as nat, |k: int| row_dirty(t0, k)));
        if t0.all_dirty {
            assert(row_dirty(t0, 0));
        }
    }
    let gh = rows * ch;
    if t.all_dirty && gh < fb.h {
        let w = fb.w;
        let h = fb.h;
        fb.fill(0, gh, w, h - gh, def_bg);
    }
    t.clear_dirty();
    drew
}

/// A mask that a frame draws with: of a glyph of the font, or procedural, of a code point
/// in a cell one (or two) wide.
#[derive(Clone, Copy, Debug, PartialEq, Eq, Structural)]
pub enum Want {
    Glyph(u16),
    Proc(u32, bool),
}

/// The mask the character of `c` is drawn with.
pub open spec fn main_want(a: AtlasV, c: Cell, wide: bool) -> Want {
    if is_proc_spec(c.cp) {
        Want::Proc(c.cp, wide)
    } else {
        let gi = if wide { 0u16 } else { glyph_for(a, c.cp) };
        if gi != 0 { Want::Glyph(gi) } else { Want::Proc(HOLLOW, wide) }
    }
}

/// Whether the mask `k` is not kept yet.
pub open spec fn lacks(a: AtlasV, k: Want) -> bool {
    match k {
        Want::Glyph(gi) => (gi as int) < a.glyphs.len() && a.glyphs[gi as int] is None,
        Want::Proc(cp, wide) => proc_of(a, cp, wide) is None,
    }
}

/// Whether the cell at column `x` of displayed row `d` may be drawn with the mask `k`:
/// its character, or the outline of the cursor on it.
pub open spec fn cell_wants(t: TermV, a: AtlasV, d: int, x: int, k: Want) -> bool {
    let c = cell_of(t, t.line_at(t.line_id(d) as u64), x);
    let wide = is_wide(t, c, x);
    &&& c.attr & TAIL == 0
    &&& ((c.cp != 0 && c.cp != 32 && k == main_want(a, c, wide)) || (is_cursor(t, d, x) && k == Want::Proc(OUTLINE, wide)))
}

/// Whether a row to be drawn has a cell that may be drawn with the mask `k`.
pub open spec fn frame_wants(t: TermV, a: AtlasV, k: Want) -> bool {
    exists|d: int, x: int| 0 <= d < t.rows && row_dirty(t, d) && 0 <= x < t.cols && #[trigger] cell_wants(t, a, d, x, k)
}

impl Atlas {
    /// The mask the character of `c` is drawn with.
    fn main_want(&self, c: Cell, wide: bool) -> (k: Want)
        requires
            self.wf(),
        ensures
            k == main_want(self@, c, wide),
    {
        if is_proc(c.cp) {
            Want::Proc(c.cp, wide)
        } else {
            let gi = if wide { 0 } else { self.glyph_for(c.cp) };
            if gi != 0 { Want::Glyph(gi) } else { Want::Proc(HOLLOW, wide) }
        }
    }

    /// Whether the mask `k` is not kept yet.
    fn lacks(&self, k: Want) -> (b: bool)
        ensures
            b == lacks(self@, k),
    {
        match k {
            Want::Glyph(gi) => (gi as usize) < self.glyphs.len() && self.glyph_mask(gi).is_none(),
            Want::Proc(cp, wide) => self.proc_mask(cp, wide).is_none(),
        }
    }
}

fn has_want(v: &Vec<Want>, k: Want) -> (b: bool)
    ensures
        b == v@.contains(k),
{
    let mut i: usize = 0;
    while i < v.len()
        invariant
            i <= v@.len(),
            forall|j: int| 0 <= j < i ==> v@[j] != k,
        decreases v@.len() - i,
    {
        if v[i] == k {
            return true;
        }
        i = i + 1;
    }
    false
}

/// Adds `k` to `r` where the atlas lacks it and `r` does not hold it yet.
fn note_want(r: &mut Vec<Want>, atlas: &Atlas, k: Want)
    ensures
        final(r)@ == (if lacks(atlas@, k) && !old(r)@.contains(k) { old(r)@.push(k) } else { old(r)@ }),
{
    if atlas.lacks(k) && !has_want(r, k) {
        r.push(k);
    }
}

/// The masks that the rows to be drawn may need and the atlas lacks, each once: what is to
/// be drawn into the atlas before the frame.
pub fn wanted(t: &Term, atlas: &Atlas) -> (r: Vec<Want>)
    requires
        t.wf(),
        atlas.wf(),
        ids_fit(t@),
    ensures
        forall|d: int, x: int, k: Want|
            0 <= d < t@.rows && row_dirty(t@, d) && 0 <= x < t@.cols && #[trigger] cell_wants(t@, atlas@, d, x, k) && lacks(atlas@, k)
                ==> r@.contains(k),
        forall|i: int| 0 <= i < r@.len() ==> lacks(atlas@, #[trigger] r@[i]) && frame_wants(t@, atlas@, r@[i]),
        r@.no_duplicates(),
{
    proof { t.lemma_fields(); }
    let mut r: Vec<Want> = Vec::new();
    let rows = t.rows;
    let cols = t.cols;
    let plain = Cell { cp: 0, fg: t.def_fg, bg: t.def_bg, attr: 0 };
    let mut d: usize = 0;
    while d < rows
        invariant
            t.wf(),
            atlas.wf(),
            ids_fit(t@),
            rows == t@.rows,
            cols == t@.cols,
            d <= rows,
            plain == plain_cell(t@),
            forall|d2: int, x: int, k: Want|
                0 <= d2 < d && row_dirty(t@, d2) && 0 <= x < cols && #[trigger] cell_wants(t@, atlas@, d2, x, k) && lacks(atlas@, k)
                    ==> r@.contains(k),
            forall|i: int| 0 <= i < r@.len() ==> lacks(atlas@, #[trigger] r@[i]) && frame_wants(t@, atlas@, r@[i]),
            r@.no_duplicates(),
        decreases rows - d,
    {
        if row_dirty_now(t, d) {
            let id = t.line_id(d);
            let line = t.line_at(id);
            let ghost lv = t@.line_at(id);
            let mut x: usize = 0;
            while x < cols
                invariant
                    t.wf(),
                    atlas.wf(),
                    ids_fit(t@),
                    rows == t@.rows,
                    cols == t@.cols,
                    d < rows,
                    row_dirty(t@, d as int),
                    x <= cols,
                    id == t@.line_id(d as int),
                    lv == t@.line_at(id),
                    plain == plain_cell(t@),
                    match line {
                        Some(l) => lv == Some(l@),
                        None => lv is None,
                    },
                    forall|d2: int, x2: int, k: Want|
                        0 <= d2 < d && row_dirty(t@, d2) && 0 <= x2 < cols && #[trigger] cell_wants(t@, atlas@, d2, x2, k) && lacks(atlas@, k)
                            ==> r@.contains(k),
                    forall|x2: int, k: Want|
                        0 <= x2 < x && #[trigger] cell_wants(t@, atlas@, d as int, x2, k) && lacks(atlas@, k) ==> r@.contains(k),
                    forall|i: int| 0 <= i < r@.len() ==> lacks(atlas@, #[trigger] r@[i]) && frame_wants(t@, atlas@, r@[i]),
                    r@.no_duplicates(),
                decreases cols - x,
            {
                let c = match line {
                    Some(l) => if x < l.cells.len() { l.cells[x] } else { plain },
                    None => plain,
                };
                proof {
                    t.lemma_fields();
                    assert(c == cell_of(t@, lv, x as int));
                    assert(t@.line_id(d as int) as u64 == id);
                }
                if c.attr & TAIL == 0 {
                    let wide = c.attr & WIDE != 0 && x + 1 < cols;
                    let cursor = t.view == 0 && d == t.y && t.modes.tcem && x == t.x;
                    let ghost r0 = r@;
                    if c.cp != 0 && c.cp != 32 {
                        let k = atlas.main_want(c, wide);
                        proof { assert(cell_wants(t@, atlas@, d as int, x as int, k)); }
                        note_want(&mut r, atlas, k);
                    }
                    let ghost r1 = r@;
                    if cursor {
                        let k = Want::Proc(OUTLINE, wide);
                        proof { assert(cell_wants(t@, atlas@, d as int, x as int, k)); }
                        note_want(&mut r, atlas, k);
                    }
                    proof {
                        assert forall|j: int| 0 <= j < r0.len() implies r@[j] == r0[j] by {}
                        assert forall|k2: Want| r0.contains(k2) implies r@.contains(k2) by {
                            let j = choose|j: int| 0 <= j < r0.len() && r0[j] == k2;
                            assert(r@[j] == k2);
                        }
                        assert forall|x2: int, k2: Want|
                            0 <= x2 < x + 1 && #[trigger] cell_wants(t@, atlas@, d as int, x2, k2) && lacks(atlas@, k2) implies r@.contains(k2) by {
                            if x2 == x {
                                if c.cp != 0 && c.cp != 32 && k2 == main_want(atlas@, c, wide) {
                                    if !r0.contains(k2) {
                                        assert(r1[r1.len() - 1] == k2);
                                        assert forall|j: int| 0 <= j < r1.len() implies r@[j] == r1[j] by {}
                                        assert(r@[r1.len() - 1] == k2);
                                    }
                                } else {
                                    if !r1.contains(k2) {
                                        assert(r@[r@.len() - 1] == k2);
                                    }
                                }
                            }
                        }
                    }
                }
                x = x + 1;
            }
        }
        d = d + 1;
    }
    r
}

proof fn lemma_rows_clean(px: Seq<u32>, s: Scene, d: int)
    requires
        0 <= d,
        forall|k: int| 0 <= k < s.t.rows ==> !row_dirty(s.t, k),
    ensures
        rows_px(px, s, d) == px,
    decreases s.t.rows - d,
{
    if d < s.t.rows {
        lemma_rows_clean(px, s, d + 1);
    }
}

/// A frame drawn right after another, with nothing marked in between, draws no row, says
/// it drew nothing, and leaves every pixel as it was.
pub proof fn frame_after_frame_is_idle(
    t: TermV,
    a: AtlasV,
    g: Geom,
    sel: Span,
    focused: bool,
    fg: Seq<u32>,
    bg: Seq<u32>,
    luma: Seq<u8>,
    px: Seq<u32>,
)
    requires
        t.wf(),
    ensures
        ({
            let t2 = TermV { dirty: Seq::new(t.rows as nat, |i: int| false), all_dirty: false, ..t };
            &&& frame_px(px, (Scene { t: t2, a, g, sel, focused, fg, bg, luma })) == px
            &&& !(exists|d: int| 0 <= d < t2.rows && row_dirty(t2, d))
            &&& Seq::new(t2.rows as nat, |d: int| row_dirty(t2, d)) == Seq::new(t2.rows as nat, |d: int| false)
        }),
{
    let t2 = TermV { dirty: Seq::new(t.rows as nat, |i: int| false), all_dirty: false, ..t };
    let s = Scene { t: t2, a, g, sel, focused, fg, bg, luma };
    assert forall|k: int| 0 <= k < t2.rows implies !row_dirty(t2, k) by {}
    lemma_rows_clean(px, s, 0);
    assert(Seq::new(t2.rows as nat, |d: int| row_dirty(t2, d)) =~= Seq::new(t2.rows as nat, |d: int| false));
}

/// A reversed cell that is neither selected nor under the cursor of a focused window is
/// filled with its foreground colour and its character drawn in its background colour
/// (halved for a faint cell); without the reverse attribute the same cell, unless faint,
/// takes the two colours the other way round.
pub proof fn reverse_video_swaps(c: Cell, sel: Span, id: u64, x: int, cursor: bool, focused: bool)
    requires
        c.attr & REV != 0,
        !sel_contains_spec(sel, id, x as usize),
        !(cursor && focused),
    ensures
        cell_colors(c, sel, id, x, cursor, focused).1 == c.fg,
        cell_colors(c, sel, id, x, cursor, focused).0 == (if c.attr & FAINT != 0 { c.bg >> 1u32 & 0x7f7f7f } else { c.bg }),
        c.attr & FAINT == 0 ==> cell_colors(Cell { attr: c.attr & !REV, ..c }, sel, id, x, cursor, focused) == (c.fg, c.bg),
{
    let a = c.attr;
    assert((a & !16u32) & 16u32 == 0) by (bit_vector);
    assert((a & !16u32) & 2u32 == a & 2u32) by (bit_vector);
}

/// The colours a cell is drawn in, before the tables, as (character, fill): a plain cell
/// in its own foreground on its own background; a faint one with its foreground at half
/// brightness; a selected one black on white; and under the cursor of a focused window,
/// whatever it would be elsewhere, the other way round. The cursor of a window without
/// focus changes no colour.
pub proof fn cell_color_rules(c: Cell, sel: Span, id: u64, x: int, cursor: bool, focused: bool)
    ensures
        c.attr & REV == 0 && c.attr & FAINT == 0 && !sel_contains_spec(sel, id, x as usize) && !(cursor && focused)
            ==> cell_colors(c, sel, id, x, cursor, focused) == (c.fg, c.bg),
        c.attr & REV == 0 && c.attr & FAINT != 0 && !sel_contains_spec(sel, id, x as usize) && !(cursor && focused)
            ==> cell_colors(c, sel, id, x, cursor, focused) == (c.fg >> 1u32 & 0x7f7f7fu32, c.bg),
        sel_contains_spec(sel, id, x as usize) && !(cursor && focused)
            ==> cell_colors(c, sel, id, x, cursor, focused) == (0u32, 0xffffffu32),
        cell_colors(c, sel, id, x, true, true) == (cell_colors(c, sel, id, x, false, true).1, cell_colors(c, sel, id, x, false, true).0),
        cell_colors(c, sel, id, x, true, false) == cell_colors(c, sel, id, x, false, false),
{
}

} // verus!
