//! Pixels: filling and blending into the frame buffer, the selection test, and the
//! glyphs drawn procedurally (box drawing, blocks, scan lines) as coverage masks.
use vstd::prelude::*;

use crate::vt::Span;

pub mod atlas;
pub mod damage;
pub mod redraw;

pub use atlas::{Atlas, Palette, Want, frame, wanted};
pub use damage::Damage;

verus! {

/// The cursor-cell outline and the placeholder box, drawn as procedural glyphs.
pub const HOLLOW: u32 = 0;
pub const OUTLINE: u32 = 1;

/// `px` with the places `lo..hi` set to `v`.
pub open spec fn fill_span<T>(px: Seq<T>, lo: int, hi: int, v: T) -> Seq<T> {
    Seq::new(px.len(), |i: int| if lo <= i < hi { v } else { px[i] })
}

/// `px`, a grid of rows `stride` apart, with the columns `x0..x1` of the rows `y..ymax`
/// set to `v`.
pub open spec fn fill_rows<T>(px: Seq<T>, stride: int, y: int, ymax: int, x0: int, x1: int, v: T) -> Seq<T>
    decreases ymax - y,
{
    if y >= ymax {
        px
    } else {
        fill_rows(fill_span(px, y * stride + x0, y * stride + x1, v), stride, y + 1, ymax, x0, x1, v)
    }
}

/// The margin around the grid of cells `cw` wide: a third of a cell, at least 2 pixels.
pub fn pad_for(cw: usize) -> (p: usize)
    ensures
        p == (if cw / 3 > 2 { cw / 3 } else { 2 }),
{
    if cw / 3 > 2 { cw / 3 } else { 2 }
}

/// How many columns and rows of `cw` by `ch` cells fit in `w` by `h` pixels with a margin
/// of `pad` all round: at least one each.
pub fn grid_for(w: usize, h: usize, pad: usize, cw: usize, ch: usize) -> (r: (usize, usize))
    requires
        cw >= 1,
        ch >= 1,
    ensures
        r.0 == (if w >= 2 * pad + cw { (w - 2 * pad) / cw as int } else { 1 }),
        r.1 == (if h >= 2 * pad + ch { (h - 2 * pad) / ch as int } else { 1 }),
{
    let iw: u128 = if w as u128 >= 2 * pad as u128 { w as u128 - 2 * pad as u128 } else { 0 };
    let ih: u128 = if h as u128 >= 2 * pad as u128 { h as u128 - 2 * pad as u128 } else { 0 };
    let cols = if iw >= cw as u128 { (iw / cw as u128) as usize } else { 1 };
    let rows = if ih >= ch as u128 { (ih / ch as u128) as usize } else { 1 };
    (cols, rows)
}

/// Whether the code point is drawn procedurally rather than from the font.
pub open spec fn is_proc_spec(cp: u32) -> bool {
    (0x2500 <= cp <= 0x259f) || (0x2800 <= cp <= 0x28ff) || (0x23ba <= cp <= 0x23bd) || cp == 0x23bf || cp == 0x23fa
}

/// Whether the code point is drawn procedurally rather than from the font.
pub fn is_proc(cp: u32) -> (r: bool)
    ensures
        r == is_proc_spec(cp),
{
    (0x2500 <= cp && cp <= 0x259f) || (0x2800 <= cp && cp <= 0x28ff) || (0x23ba <= cp && cp <= 0x23bd) || cp == 0x23bf
        || cp == 0x23fa
}

/// Whether the cell at column `x` of line `id` lies in the selection.
pub open spec fn sel_contains_spec(sel: Span, id: u64, x: usize) -> bool {
    match sel {
        None => false,
        Some(((al, ac), (bl, bc))) => (id > al || (id == al && x >= ac)) && (id < bl || (id == bl && x <= bc)),
    }
}

/// Whether the cell at column `x` of line `id` lies in the selection.
pub fn sel_contains(sel: &Span, id: u64, x: usize) -> (r: bool)
    ensures
        r == sel_contains_spec(*sel, id, x),
{
    match *sel {
        None => false,
        Some(((al, ac), (bl, bc))) => (id > al || (id == al && x >= ac)) && (id < bl || (id == bl && x <= bc)),
    }
}

/// One channel of `s` over `d` at opacity `a` of 255, rounded.
pub open spec fn mix(s: u32, d: u32, a: u32) -> u32 {
    ((s * a + d * (255 - a) + 127) / 255) as u32
}

/// The pixel `p` with the colour `fg` laid over it at coverage `a` of 255; opaque.
pub open spec fn blend_spec(p: u32, fg: u32, a: u32) -> u32 {
    if a == 0 {
        p
    } else if a >= 255 {
        0xff00_0000u32 | fg
    } else {
        0xff00_0000u32 | (mix(fg >> 16u32 & 255, p >> 16u32 & 255, a) << 16u32)
            | (mix(fg >> 8u32 & 255, p >> 8u32 & 255, a) << 8u32) | mix(fg & 255, p & 255, a)
    }
}

fn mix_channel(s: u32, d: u32, a: u32) -> (r: u32)
    requires
        s <= 255,
        d <= 255,
        a <= 255,
    ensures
        r == mix(s, d, a),
        r <= 255,
{
    proof {
        assert(s * a <= 255 * 255) by (nonlinear_arith) requires s <= 255, a <= 255;
        assert(d * (255 - a) <= 255 * 255) by (nonlinear_arith) requires d <= 255, a <= 255;
        assert(s * a + d * (255 - a) <= 255 * 255) by (nonlinear_arith) requires s <= 255, d <= 255, a <= 255;
    }
    (s * a + d * (255 - a) + 127) / 255
}

/// Lays the colour `fg` over the pixel `p` at coverage `a` of 255.
pub fn blend(p: &mut u32, fg: u32, a: u32)
    ensures
        *final(p) == blend_spec(*old(p), fg, a),
{
    if a == 0 {
        return;
    }
    if a >= 255 {
        *p = 0xff00_0000 | fg;
        return;
    }
    let d = *p;
    proof {
        assert(fg >> 16u32 & 255 <= 255) by (bit_vector);
        assert(d >> 16u32 & 255 <= 255) by (bit_vector);
        assert(fg >> 8u32 & 255 <= 255) by (bit_vector);
        assert(d >> 8u32 & 255 <= 255) by (bit_vector);
        assert(fg & 255 <= 255) by (bit_vector);
        assert(d & 255 <= 255) by (bit_vector);
    }
    *p = 0xff00_0000 | (mix_channel(fg >> 16 & 255, d >> 16 & 255, a) << 16)
        | (mix_channel(fg >> 8 & 255, d >> 8 & 255, a) << 8) | mix_channel(fg & 255, d & 255, a);
}

/// Sets the columns `x0..x1` of the rows `y0..ymax` of `px`, rows `stride` apart, to `v`.
fn fill_grid<T: Copy>(px: &mut [T], stride: usize, y0: usize, ymax: usize, x0: usize, x1: usize, v: T)
    requires
        x0 <= x1 <= stride,
        ymax * stride <= old(px)@.len(),
    ensures
        final(px)@ == fill_rows(old(px)@, stride as int, y0 as int, ymax as int, x0 as int, x1 as int, v),
        final(px)@.len() == old(px)@.len(),
{
    let mut y = y0;
    while y < ymax
        invariant
            x0 <= x1 <= stride,
            ymax * stride <= px.len(),
            px@.len() == old(px)@.len(),
            y0 <= y || ymax <= y0,
            fill_rows(px@, stride as int, y as int, ymax as int, x0 as int, x1 as int, v)
                == fill_rows(old(px)@, stride as int, y0 as int, ymax as int, x0 as int, x1 as int, v),
        decreases ymax - y,
    {
        proof {
            assert(y * stride + stride <= ymax * stride) by (nonlinear_arith) requires y < ymax;
        }
        let base = y * stride;
        let ghost row0 = px@;
        let mut x = x0;
        while x < x1
            invariant
                x0 <= x <= x1 <= stride,
                base + stride <= px.len(),
                px@.len() == row0.len(),
                px@ == fill_span(row0, base + x0, base + x, v),
            decreases x1 - x,
        {
            px[base + x] = v;
            x = x + 1;
            proof { assert(px@ =~= fill_span(row0, base + x0, base + x, v)); }
        }
        y = y + 1;
    }
}

/// The shape of a frame buffer: `w` by `h` pixels, rows `stride` apart, the grid of
/// cells at `(ox, oy)`.
pub struct Geom {
    pub w: int,
    pub h: int,
    pub stride: int,
    pub ox: int,
    pub oy: int,
}

/// `px` with `w` by `h` pixels at `(x0, y0)`, clipped to the buffer, filled with `c`.
pub open spec fn fill_at_px(px: Seq<u32>, g: Geom, x0: int, y0: int, w: int, h: int, c: u32) -> Seq<u32> {
    let xa = if x0 < g.w { x0 } else { g.w };
    let xb = if xa + w < g.w { xa + w } else { g.w };
    let yb = if y0 + h < g.h { y0 + h } else { g.h };
    fill_rows(px, g.stride, y0, yb, xa, xb, 0xff00_0000u32 | c)
}

/// `px` with `w` by `h` pixels at `(x0, y0)` of the grid of cells filled with `c`.
pub open spec fn fill_px(px: Seq<u32>, g: Geom, x0: int, y0: int, w: int, h: int, c: u32) -> Seq<u32> {
    fill_at_px(px, g, g.ox + x0, g.oy + y0, w, h, c)
}

/// A frame buffer of `w` by `h` pixels, rows `stride` apart, with the grid of cells
/// drawn at `(ox, oy)`.
pub struct Fb<'a> {
    pub px: &'a mut [u32],
    pub w: usize,
    pub h: usize,
    pub stride: usize,
    pub ox: usize,
    pub oy: usize,
}

impl<'a> Fb<'a> {
    /// Every pixel of the `w` by `h` area lies in the buffer.
    pub open spec fn wf(&self) -> bool {
        self.w <= self.stride && self.h * self.stride <= self.px@.len()
    }

    /// The shape of the buffer.
    pub open spec fn geom(&self) -> Geom {
        Geom { w: self.w as int, h: self.h as int, stride: self.stride as int, ox: self.ox as int, oy: self.oy as int }
    }

    /// Fills `w` by `h` pixels at `(x0, y0)`, clipped to the buffer, with the colour `c`.
    pub fn fill_at(&mut self, x0: usize, y0: usize, w: usize, h: usize, c: u32)
        requires
            old(self).wf(),
            (if x0 < old(self).w { x0 } else { old(self).w }) + w <= usize::MAX,
            y0 + h <= usize::MAX,
        ensures
            final(self).px@ == fill_at_px(old(self).px@, old(self).geom(), x0 as int, y0 as int, w as int, h as int, c),
            final(self).w == old(self).w,
            final(self).h == old(self).h,
            final(self).stride == old(self).stride,
            final(self).ox == old(self).ox,
            final(self).oy == old(self).oy,
            final(self).px@.len() == old(self).px@.len(),
    {
        let v = 0xff00_0000 | c;
        let xa = if x0 < self.w { x0 } else { self.w };
        let xb = if xa + w < self.w { xa + w } else { self.w };
        let yb = if y0 + h < self.h { y0 + h } else { self.h };
        proof {
            let (hh, st) = (self.h as int, self.stride as int);
            assert(yb * st <= hh * st) by (nonlinear_arith) requires yb <= hh, st >= 0;
        }
        fill_grid(&mut *self.px, self.stride, y0, yb, xa, xb, v);
    }

    /// Fills `w` by `h` pixels at `(x0, y0)` of the grid of cells.
    pub fn fill(&mut self, x0: usize, y0: usize, w: usize, h: usize, c: u32)
        requires
            old(self).wf(),
            old(self).ox + x0 + w <= usize::MAX,
            old(self).oy + y0 + h <= usize::MAX,
        ensures
            final(self).px@ == fill_px(old(self).px@, old(self).geom(), x0 as int, y0 as int, w as int, h as int, c),
            final(self).w == old(self).w,
            final(self).h == old(self).h,
            final(self).stride == old(self).stride,
            final(self).ox == old(self).ox,
            final(self).oy == old(self).oy,
            final(self).px@.len() == old(self).px@.len(),
    {
        let x = self.ox + x0;
        let y = self.oy + y0;
        self.fill_at(x, y, w, h, c);
    }
}

/// The grid of pixels of row `y`, from column `xs`, with `cov` (rows `cw` apart) laid over
/// the `w` pixels from there in the colour `fg`.
pub open spec fn blend_span(px: Seq<u32>, base: int, cov: Seq<u8>, cbase: int, w: int, fg: u32) -> Seq<u32> {
    Seq::new(px.len(), |i: int| if base <= i < base + w { blend_spec(px[i], fg, cov[cbase + (i - base)] as u32) } else { px[i] })
}

/// The rows `y..ymax` of a coverage mask laid over the frame from row `fy0`, column `xs`.
pub open spec fn blend_rows(px: Seq<u32>, stride: int, fy0: int, xs: int, cov: Seq<u8>, cw: int, w: int, fg: u32, y: int, ymax: int) -> Seq<u32>
    decreases ymax - y,
{
    if y >= ymax {
        px
    } else {
        blend_rows(blend_span(px, (fy0 + y) * stride + xs, cov, y * cw, w, fg), stride, fy0, xs, cov, cw, w, fg, y + 1, ymax)
    }
}

/// How many rows of a mask of `chh` rows placed at row `fy0` fall inside `h` rows.
pub open spec fn rows_blended(fy0: int, chh: int, h: int) -> int {
    if fy0 >= h { 0 } else if chh < h - fy0 { chh } else { h - fy0 }
}

/// `px` with a coverage mask of `chh` rows of `cw` laid over the cell at `(x0, y0)` of the
/// grid, `shift` pixels to the right, in the colour `fg`; clipped to the buffer.
pub open spec fn blend_px(px: Seq<u32>, g: Geom, x0: int, y0: int, cov: Seq<u8>, cw: int, chh: int, fg: u32, shift: int) -> Seq<u32> {
    let xs = g.ox + x0 + shift;
    let fy0 = g.oy + y0;
    let w = if cw < g.w - xs { cw } else { g.w - xs };
    let ymax = rows_blended(fy0, chh, g.h);
    if xs >= g.w { px } else { blend_rows(px, g.stride, fy0, xs, cov, cw, w, fg, 0, ymax) }
}

impl<'a> Fb<'a> {
    /// Lays a coverage mask of `chh` rows of `cw` over the cell at `(x0, y0)` of the grid,
    /// `shift` pixels to the right, in the colour `fg`; clipped to the buffer.
    pub fn blend_cov(&mut self, x0: usize, y0: usize, cov: &[u8], cw: usize, chh: usize, fg: u32, shift: usize)
        requires
            old(self).wf(),
            old(self).ox + x0 + shift <= usize::MAX,
            old(self).oy + y0 + chh <= usize::MAX,
            rows_blended(old(self).oy + y0, chh as int, old(self).h as int) * cw <= cov@.len(),
        ensures
            final(self).px@ == blend_px(old(self).px@, old(self).geom(), x0 as int, y0 as int, cov@, cw as int, chh as int, fg, shift as int),
            final(self).w == old(self).w,
            final(self).h == old(self).h,
            final(self).stride == old(self).stride,
            final(self).ox == old(self).ox,
            final(self).oy == old(self).oy,
            final(self).px@.len() == old(self).px@.len(),
    {
        let xs = self.ox + x0 + shift;
        if xs >= self.w {
            return;
        }
        let w = if cw < self.w - xs { cw } else { self.w - xs };
        let fy0 = self.oy + y0;
        let ymax = if fy0 >= self.h { 0 } else if chh < self.h - fy0 { chh } else { self.h - fy0 };
        let ghost p0 = self.px@;
        let mut y: usize = 0;
        while y < ymax
            invariant
                self.w == old(self).w,
                self.h == old(self).h,
                self.stride == old(self).stride,
                self.ox == old(self).ox,
                self.oy == old(self).oy,
                y <= ymax,
                ymax <= chh,
                ymax == 0 || fy0 + ymax <= self.h,
                fy0 == self.oy + y0,
                w <= cw,
                xs + w <= self.w <= self.stride,
                self.h * self.stride <= self.px.len(),
                self.px@.len() == p0.len(),
                ymax * cw <= cov.len(),
                blend_rows(self.px@, self.stride as int, fy0 as int, xs as int, cov@, cw as int, w as int, fg, y as int, ymax as int)
                    == blend_rows(p0, self.stride as int, fy0 as int, xs as int, cov@, cw as int, w as int, fg, 0, ymax as int),
            decreases ymax - y,
        {
            proof {
                let (fy, st, hh) = (fy0 + y, self.stride as int, self.h as int);
                assert(fy * st + st <= hh * st) by (nonlinear_arith) requires fy < hh, st >= 0;
                let (yy, cc, mm) = (y as int, cw as int, ymax as int);
                assert(yy * cc + cc <= mm * cc) by (nonlinear_arith) requires yy < mm, cc >= 0;
            }
            let row = (fy0 + y) * self.stride + xs;
            let cb = y * cw;
            let ghost r0 = self.px@;
            let mut i: usize = 0;
            proof {
                assert(self.px@ =~= Seq::new(r0.len(), |k: int| if row <= k < row + i { blend_spec(r0[k], fg, cov@[cb + (k - row)] as u32) } else { r0[k] }));
            }
            while i < w
                invariant
                    i <= w,
                    self.w == old(self).w,
                    self.h == old(self).h,
                    self.stride == old(self).stride,
                    self.ox == old(self).ox,
                    self.oy == old(self).oy,
                    row + w <= self.px.len(),
                    cb + w <= cov.len(),
                    self.px@.len() == r0.len(),
                    self.px@ == Seq::new(r0.len(), |k: int| if row <= k < row + i { blend_spec(r0[k], fg, cov@[cb + (k - row)] as u32) } else { r0[k] }),
                decreases w - i,
            {
                let mut p = self.px[row + i];
                blend(&mut p, fg, cov[cb + i] as u32);
                self.px[row + i] = p;
                i = i + 1;
                proof {
                    assert(self.px@ =~= Seq::new(r0.len(), |k: int| if row <= k < row + i { blend_spec(r0[k], fg, cov@[cb + (k - row)] as u32) } else { r0[k] }));
                }
            }
            proof {
                assert(self.px@ =~= blend_span(r0, row as int, cov@, cb as int, w as int, fg));
            }
            y = y + 1;
        }
    }
}

/// The cells of `rows` rows of `w` pixels with the rectangle `x0..x1` by `y0..y1` set,
/// clipped to the mask.
pub open spec fn rect_spec(px: Seq<u8>, w: int, h: int, x0: int, y0: int, x1: int, y1: int) -> Seq<u8> {
    let xa = if x0 > 0 { x0 } else { 0 };
    let ya = if y0 > 0 { y0 } else { 0 };
    let xb0 = if x1 > 0 { x1 } else { 0 };
    let yb0 = if y1 > 0 { y1 } else { 0 };
    let xb = if xb0 < w { xb0 } else { w };
    let yb = if yb0 < h { yb0 } else { h };
    fill_rows(px, w, ya, yb, if xa < xb { xa } else { xb }, xb, 255u8)
}

/// A side of a box-drawing character: `side` 0 left, 1 right, 2 up, 3 down; `style` 1
/// light, 2 heavy, 3 double.
pub open spec fn seg_spec(px: Seq<u8>, w: int, h: int, side: int, style: int, lt: int) -> Seq<u8> {
    let (cx, cy) = (w / 2, h / 2);
    let t = if style == 2 { lt * 2 } else { lt };
    if side == 0 && style == 3 {
        rect_spec(rect_spec(px, w, h, 0, cy - 2 * lt, cx + 2 * lt, cy - lt), w, h, 0, cy + lt, cx + 2 * lt, cy + 2 * lt)
    } else if side == 0 {
        rect_spec(px, w, h, 0, cy - t / 2, cx + t / 2 + t % 2, cy - t / 2 + t)
    } else if side == 1 && style == 3 {
        rect_spec(rect_spec(px, w, h, cx - 2 * lt, cy - 2 * lt, w, cy - lt), w, h, cx - 2 * lt, cy + lt, w, cy + 2 * lt)
    } else if side == 1 {
        rect_spec(px, w, h, cx - t / 2, cy - t / 2, w, cy - t / 2 + t)
    } else if side == 2 && style == 3 {
        rect_spec(rect_spec(px, w, h, cx - 2 * lt, 0, cx - lt, cy + 2 * lt), w, h, cx + lt, 0, cx + 2 * lt, cy + 2 * lt)
    } else if side == 2 {
        rect_spec(px, w, h, cx - t / 2, 0, cx - t / 2 + t, cy + t / 2 + t % 2)
    } else if side == 3 && style == 3 {
        rect_spec(rect_spec(px, w, h, cx - 2 * lt, cy - 2 * lt, cx - lt, h), w, h, cx + lt, cy - 2 * lt, cx + 2 * lt, h)
    } else {
        rect_spec(px, w, h, cx - t / 2, cy - t / 2, cx - t / 2 + t, h)
    }
}

/// The sides of a box-drawing character from `side` on, by their styles in `v`.
pub open spec fn box_sides(px: Seq<u8>, w: int, h: int, v: u16, side: int, lt: int) -> Seq<u8>
    decreases 4 - side,
{
    if side >= 4 || side < 0 {
        px
    } else {
        let style = (v >> ((side * 2) as u16)) & 3;
        let px2 = if style != 0 { seg_spec(px, w, h, side, style as int, lt) } else { px };
        box_sides(px2, w, h, v, side + 1, lt)
    }
}

/// The empty box drawn for a character the font lacks.
pub open spec fn hollow_spec(px: Seq<u8>, w: int, h: int, lt: int) -> Seq<u8> {
    let (ix, iy) = (w / 8 + 1, h / 8 + 1);
    let p1 = rect_spec(px, w, h, ix, iy, w - ix, iy + lt);
    let p2 = rect_spec(p1, w, h, ix, h - iy - lt, w - ix, h - iy);
    let p3 = rect_spec(p2, w, h, ix, iy, ix + lt, h - iy);
    rect_spec(p3, w, h, w - ix - lt, iy, w - ix, h - iy)
}

/// The outline of a cell, for the cursor of a window without focus.
pub open spec fn outline_spec(px: Seq<u8>, w: int, h: int, lt: int) -> Seq<u8> {
    let p1 = rect_spec(px, w, h, 0, 0, w, lt);
    let p2 = rect_spec(p1, w, h, 0, h - lt, w, h);
    let p3 = rect_spec(p2, w, h, 0, 0, lt, h);
    rect_spec(p3, w, h, w - lt, 0, w, h)
}

/// The straight legs of a rounded corner: from the end of its arc, of radius half the
/// smaller side of the cell (at least 2), to the edges of the cell.
pub open spec fn arc_legs_spec(px: Seq<u8>, w: int, h: int, corner: int, lt: int) -> Seq<u8> {
    let (cx, cy) = (w / 2, h / 2);
    let m = if cx < cy { cx } else { cy };
    let r = if m > 2 { m } else { 2 };
    let (hl, hr) = (cy - lt / 2, cy - lt / 2 + lt);
    let (vl, vr) = (cx - lt / 2, cx - lt / 2 + lt);
    if corner == 0 {
        rect_spec(rect_spec(px, w, h, cx + r, hl, w, hr), w, h, vl, cy + r, vr, h)
    } else if corner == 1 {
        rect_spec(rect_spec(px, w, h, 0, hl, cx - r, hr), w, h, vl, cy + r, vr, h)
    } else if corner == 2 {
        rect_spec(rect_spec(px, w, h, 0, hl, cx - r, hr), w, h, vl, 0, vr, cy - r)
    } else {
        rect_spec(rect_spec(px, w, h, cx + r, hl, w, hr), w, h, vl, 0, vr, cy - r)
    }
}

/// The sides and their styles of the box-drawing characters U+2500..U+257F: two bits a
/// side (left, right, up, down), and 0x100 for a rounded corner.
pub const BOX: [u16; 128] = [
    0x005, 0x00a, 0x050, 0x0a0, 0x005, 0x00a, 0x050, 0x0a0, 0x005, 0x00a, 0x050, 0x0a0,
    0x044, 0x048, 0x084, 0x088, 0x041, 0x042, 0x081, 0x082, 0x014, 0x018, 0x024, 0x028,
    0x011, 0x012, 0x021, 0x022, 0x054, 0x058, 0x064, 0x094, 0x0a4, 0x068, 0x098, 0x0a8,
    0x051, 0x052, 0x061, 0x091, 0x0a1, 0x062, 0x092, 0x0a2, 0x045, 0x046, 0x049, 0x04a,
    0x085, 0x086, 0x089, 0x08a, 0x015, 0x016, 0x019, 0x01a, 0x025, 0x026, 0x029, 0x02a,
    0x055, 0x056, 0x059, 0x05a, 0x065, 0x095, 0x0a5, 0x066, 0x069, 0x096, 0x099, 0x06a,
    0x09a, 0x0a6, 0x0a9, 0x0aa, 0x005, 0x00a, 0x050, 0x0a0, 0x00f, 0x0f0, 0x04c, 0x0c4,
    0x0cc, 0x043, 0x0c1, 0x0c3, 0x01c, 0x034, 0x03c, 0x013, 0x031, 0x033, 0x05c, 0x0f4,
    0x0fc, 0x053, 0x0f1, 0x0f3, 0x04f, 0x0c5, 0x0cf, 0x01f, 0x035, 0x03f, 0x05f, 0x0f5,
    0x0ff, 0x144, 0x141, 0x111, 0x114, 0x000, 0x000, 0x000, 0x001, 0x010, 0x004, 0x040,
    0x002, 0x020, 0x008, 0x080, 0x009, 0x090, 0x006, 0x060,
];

/// The quadrants (1 upper left, 2 upper right, 4 lower left, 8 lower right) of the
/// characters U+2596..U+259F.
pub const QUAD: [u8; 10] = [4, 8, 1, 13, 9, 7, 11, 2, 6, 14];

/// What is left to draw of a procedural glyph after the parts drawn with rectangles.
pub enum Proc {
    /// Nothing more; whether the character is one of those drawn procedurally.
    Done(bool),
    /// The diagonals of U+2571..U+2573.
    Diagonal,
    /// A rounded corner, 0 to 3.
    Arc(usize),
    /// A braille pattern with these dots.
    Braille(u8),
    /// The filled circle of U+23FA.
    Circle,
}

/// Which rounded corner the box-drawing flags `v` stand for.
pub open spec fn corner_of(v: u16) -> usize {
    if v & 3 != 0 { if (v >> 4u16) & 3 != 0 { 2 } else { 1 } } else if (v >> 4u16) & 3 != 0 { 3 } else { 0 }
}

/// The quadrants `q` of a cell filled.
pub open spec fn quad_spec(px: Seq<u8>, w: int, h: int, q: u8) -> Seq<u8> {
    let p1 = if q & 1 != 0 { rect_spec(px, w, h, 0, 0, w / 2, h / 2) } else { px };
    let p2 = if q & 2 != 0 { rect_spec(p1, w, h, w / 2, 0, w, h / 2) } else { p1 };
    let p3 = if q & 4 != 0 { rect_spec(p2, w, h, 0, h / 2, w / 2, h) } else { p2 };
    if q & 8 != 0 { rect_spec(p3, w, h, w / 2, h / 2, w, h) } else { p3 }
}

/// The block element U+2580 + `i`.
pub open spec fn block_spec(px: Seq<u8>, w: int, h: int, i: int) -> Seq<u8> {
    if i == 0 {
        rect_spec(px, w, h, 0, 0, w, h / 2)
    } else if 1 <= i <= 8 {
        rect_spec(px, w, h, 0, h - h * i / 8, w, h)
    } else if 9 <= i <= 15 {
        rect_spec(px, w, h, 0, 0, w * (16 - i) / 8, h)
    } else if i == 16 {
        rect_spec(px, w, h, w / 2, 0, w, h)
    } else if 17 <= i <= 19 {
        Seq::new(px.len(), |k: int| (64 * (i - 16)) as u8)
    } else if i == 20 {
        rect_spec(px, w, h, 0, 0, w, h / 8)
    } else if i == 21 {
        rect_spec(px, w, h, w - w / 8, 0, w, h)
    } else {
        quad_spec(px, w, h, QUAD@[i - 22])
    }
}

/// The procedural glyph of `cp`: the mask with the parts drawn with rectangles, and what
/// is left to draw.
pub open spec fn proc_spec(px: Seq<u8>, w: int, h: int, cp: u32, lt: int) -> (Seq<u8>, Proc) {
    if 0x2571 <= cp <= 0x2573 {
        (px, Proc::Diagonal)
    } else if 0x2500 <= cp <= 0x257f {
        let v = BOX@[cp - 0x2500];
        if v & 0x100 != 0 {
            (px, Proc::Arc(corner_of(v)))
        } else if v == 0 {
            (px, Proc::Done(false))
        } else {
            (box_sides(px, w, h, v, 0, lt), Proc::Done(true))
        }
    } else if 0x2580 <= cp <= 0x259f {
        (block_spec(px, w, h, cp - 0x2580), Proc::Done(true))
    } else if 0x2800 <= cp <= 0x28ff {
        (px, Proc::Braille((cp - 0x2800) as u8))
    } else if 0x23ba <= cp <= 0x23bd {
        let y = (h - lt) * (cp - 0x23ba) / 3;
        (rect_spec(px, w, h, 0, y, w, y + lt), Proc::Done(true))
    } else if cp == 0x23bf {
        (seg_spec(seg_spec(px, w, h, 1, 1, lt), w, h, 2, 1, lt), Proc::Done(true))
    } else if cp == 0x23fa {
        (px, Proc::Circle)
    } else {
        (px, Proc::Done(false))
    }
}

/// A coverage mask of `w` by `h` pixels, one byte each.
pub struct Cov<'a> {
    pub px: &'a mut [u8],
    pub w: usize,
    pub h: usize,
}

/// Small enough sizes for the arithmetic of the drawing.
pub open spec fn sizes_ok(w: int, h: int, lt: int) -> bool {
    1 <= w <= 0x1000_0000 && 1 <= h <= 0x1000_0000 && 1 <= lt <= h && lt <= 0x1000_0000
}

impl<'a> Cov<'a> {
    pub open spec fn wf(&self) -> bool {
        self.w * self.h <= self.px@.len()
    }

    /// Sets the rectangle `x0..x1` by `y0..y1`, clipped to the mask.
    pub fn rect(&mut self, x0: i64, y0: i64, x1: i64, y1: i64)
        requires
            old(self).wf(),
            -0x8000_0000 <= x0 <= 0x8000_0000,
            -0x8000_0000 <= y0 <= 0x8000_0000,
            -0x8000_0000 <= x1 <= 0x8000_0000,
            -0x8000_0000 <= y1 <= 0x8000_0000,
        ensures
            final(self).px@ == rect_spec(old(self).px@, old(self).w as int, old(self).h as int, x0 as int, y0 as int, x1 as int, y1 as int),
            final(self).w == old(self).w,
            final(self).h == old(self).h,
            final(self).px@.len() == old(self).px@.len(),
    {
        let xa: usize = if x0 > 0 { x0 as usize } else { 0 };
        let ya: usize = if y0 > 0 { y0 as usize } else { 0 };
        let xb0: usize = if x1 > 0 { x1 as usize } else { 0 };
        let yb0: usize = if y1 > 0 { y1 as usize } else { 0 };
        let xb = if xb0 < self.w { xb0 } else { self.w };
        let yb = if yb0 < self.h { yb0 } else { self.h };
        proof {
            let (hh, ww) = (self.h as int, self.w as int);
            assert(yb * ww <= hh * ww) by (nonlinear_arith) requires yb <= hh, ww >= 0;
            assert(ww * hh == hh * ww) by (nonlinear_arith);
        }
        fill_grid(&mut *self.px, self.w, ya, yb, if xa < xb { xa } else { xb }, xb, 255u8);
    }

    /// One side of a box-drawing character.
    pub fn seg(&mut self, side: usize, style: u16, lt: i64)
        requires
            old(self).wf(),
            sizes_ok(old(self).w as int, old(self).h as int, lt as int),
            side < 4,
            1 <= style <= 3,
        ensures
            final(self).px@ == seg_spec(old(self).px@, old(self).w as int, old(self).h as int, side as int, style as int, lt as int),
            final(self).w == old(self).w,
            final(self).h == old(self).h,
            final(self).px@.len() == old(self).px@.len(),
    {
        let w = self.w as i64;
        let h = self.h as i64;
        let cx = (self.w / 2) as i64;
        let cy = (self.h / 2) as i64;
        let tu: u64 = if style == 2 { lt as u64 * 2 } else { lt as u64 };
        let t = tu as i64;
        let half = (tu / 2) as i64;
        let odd = (tu % 2) as i64;
        if side == 0 && style == 3 {
            self.rect(0, cy - 2 * lt, cx + 2 * lt, cy - lt);
            self.rect(0, cy + lt, cx + 2 * lt, cy + 2 * lt);
        } else if side == 0 {
            self.rect(0, cy - half, cx + half + odd, cy - half + t);
        } else if side == 1 && style == 3 {
            self.rect(cx - 2 * lt, cy - 2 * lt, w, cy - lt);
            self.rect(cx - 2 * lt, cy + lt, w, cy + 2 * lt);
        } else if side == 1 {
            self.rect(cx - half, cy - half, w, cy - half + t);
        } else if side == 2 && style == 3 {
            self.rect(cx - 2 * lt, 0, cx - lt, cy + 2 * lt);
            self.rect(cx + lt, 0, cx + 2 * lt, cy + 2 * lt);
        } else if side == 2 {
            self.rect(cx - half, 0, cx - half + t, cy + half + odd);
        } else if style == 3 {
            self.rect(cx - 2 * lt, cy - 2 * lt, cx - lt, h);
            self.rect(cx + lt, cy - 2 * lt, cx + 2 * lt, h);
        } else {
            self.rect(cx - half, cy - half, cx - half + t, h);
        }
    }

    /// The empty box drawn for a character the font lacks.
    pub fn hollow(&mut self, lt: i64)
        requires
            old(self).wf(),
            sizes_ok(old(self).w as int, old(self).h as int, lt as int),
        ensures
            final(self).px@ == hollow_spec(old(self).px@, old(self).w as int, old(self).h as int, lt as int),
            final(self).w == old(self).w,
            final(self).h == old(self).h,
            final(self).px@.len() == old(self).px@.len(),
    {
        let w = self.w as i64;
        let h = self.h as i64;
        let ix = (self.w / 8) as i64 + 1;
        let iy = (self.h / 8) as i64 + 1;
        self.rect(ix, iy, w - ix, iy + lt);
        self.rect(ix, h - iy - lt, w - ix, h - iy);
        self.rect(ix, iy, ix + lt, h - iy);
        self.rect(w - ix - lt, iy, w - ix, h - iy);
    }

    /// The outline of a cell.
    pub fn outline(&mut self, lt: i64)
        requires
            old(self).wf(),
            sizes_ok(old(self).w as int, old(self).h as int, lt as int),
        ensures
            final(self).px@ == outline_spec(old(self).px@, old(self).w as int, old(self).h as int, lt as int),
            final(self).w == old(self).w,
            final(self).h == old(self).h,
            final(self).px@.len() == old(self).px@.len(),
    {
        let w = self.w as i64;
        let h = self.h as i64;
        self.rect(0, 0, w, lt);
        self.rect(0, h - lt, w, h);
        self.rect(0, 0, lt, h);
        self.rect(w - lt, 0, w, h);
    }

    /// The straight legs of the rounded corner `corner` (0 down-right, 1 down-left, 2
    /// up-left, 3 up-right), which meet its arc.
    pub fn arc_legs(&mut self, corner: usize, lt: i64)
        requires
            old(self).wf(),
            sizes_ok(old(self).w as int, old(self).h as int, lt as int),
        ensures
            final(self).px@ == arc_legs_spec(old(self).px@, old(self).w as int, old(self).h as int, corner as int, lt as int),
            final(self).w == old(self).w,
            final(self).h == old(self).h,
            final(self).px@.len() == old(self).px@.len(),
    {
        let w = self.w as i64;
        let h = self.h as i64;
        let cx = (self.w / 2) as i64;
        let cy = (self.h / 2) as i64;
        let m = if cx < cy { cx } else { cy };
        let r = if m > 2 { m } else { 2 };
        let half = lt / 2;
        let (hl, hr) = (cy - half, cy - half + lt);
        let (vl, vr) = (cx - half, cx - half + lt);
        if corner == 0 {
            self.rect(cx + r, hl, w, hr);
            self.rect(vl, cy + r, vr, h);
        } else if corner == 1 {
            self.rect(0, hl, cx - r, hr);
            self.rect(vl, cy + r, vr, h);
        } else if corner == 2 {
            self.rect(0, hl, cx - r, hr);
            self.rect(vl, 0, vr, cy - r);
        } else {
            self.rect(cx + r, hl, w, hr);
            self.rect(vl, 0, vr, cy - r);
        }
    }

    /// The sides of a box-drawing character from `side` on.
    fn box_sides(&mut self, v: u16, lt: i64)
        requires
            old(self).wf(),
            sizes_ok(old(self).w as int, old(self).h as int, lt as int),
        ensures
            final(self).px@ == box_sides(old(self).px@, old(self).w as int, old(self).h as int, v, 0, lt as int),
            final(self).w == old(self).w,
            final(self).h == old(self).h,
            final(self).px@.len() == old(self).px@.len(),
    {
        let mut side: usize = 0;
        while side < 4
            invariant
                side <= 4,
                self.wf(),
                self.w == old(self).w,
                self.h == old(self).h,
                self.px@.len() == old(self).px@.len(),
                sizes_ok(self.w as int, self.h as int, lt as int),
                box_sides(self.px@, self.w as int, self.h as int, v, side as int, lt as int)
                    == box_sides(old(self).px@, old(self).w as int, old(self).h as int, v, 0, lt as int),
            decreases 4 - side,
        {
            let sh = (side * 2) as u16;
            let style = (v >> sh) & 3;
            proof { assert((v >> sh) & 3 <= 3) by (bit_vector); }
            if style != 0 {
                self.seg(side, style, lt);
            }
            side = side + 1;
        }
    }

    /// The quadrants `q` of the mask filled.
    fn quad(&mut self, q: u8)
        requires
            old(self).wf(),
            sizes_ok(old(self).w as int, old(self).h as int, 1),
        ensures
            final(self).px@ == quad_spec(old(self).px@, old(self).w as int, old(self).h as int, q),
            final(self).w == old(self).w,
            final(self).h == old(self).h,
            final(self).px@.len() == old(self).px@.len(),
    {
        let w = self.w as i64;
        let h = self.h as i64;
        let w2 = (self.w / 2) as i64;
        let h2 = (self.h / 2) as i64;
        if q & 1 != 0 {
            self.rect(0, 0, w2, h2);
        }
        if q & 2 != 0 {
            self.rect(w2, 0, w, h2);
        }
        if q & 4 != 0 {
            self.rect(0, h2, w2, h);
        }
        if q & 8 != 0 {
            self.rect(w2, h2, w, h);
        }
    }

    /// The block element U+2580 + `i`.
    fn block(&mut self, i: u32)
        requires
            old(self).wf(),
            sizes_ok(old(self).w as int, old(self).h as int, 1),
            i <= 31,
        ensures
            final(self).px@ == block_spec(old(self).px@, old(self).w as int, old(self).h as int, i as int),
            final(self).w == old(self).w,
            final(self).h == old(self).h,
            final(self).px@.len() == old(self).px@.len(),
    {
        let w = self.w as i64;
        let h = self.h as i64;
        if i == 0 {
            self.rect(0, 0, w, (self.h / 2) as i64);
        } else if i <= 8 {
            proof {
                let (hh, ii) = (self.h as int, i as int);
                assert(hh * ii <= 0x1000_0000 * 8) by (nonlinear_arith) requires hh <= 0x1000_0000, 0 <= ii <= 8;
                assert(0 <= hh * ii) by (nonlinear_arith) requires hh >= 0, ii >= 0;
            }
            self.rect(0, h - ((self.h * i as usize) / 8) as i64, w, h);
        } else if i <= 15 {
            proof {
                let (ww, ii) = (self.w as int, 16 - i as int);
                assert(ww * ii <= 0x1000_0000 * 8) by (nonlinear_arith) requires ww <= 0x1000_0000, 0 <= ii <= 8;
                assert(0 <= ww * ii) by (nonlinear_arith) requires ww >= 0, ii >= 0;
            }
            self.rect(0, 0, ((self.w * (16 - i) as usize) / 8) as i64, h);
        } else if i == 16 {
            self.rect((self.w / 2) as i64, 0, w, h);
        } else if i <= 19 {
            let v = (64 * (i - 16)) as u8;
            let n = self.px.len();
            let mut k: usize = 0;
            let ghost p0 = self.px@;
            while k < n
                invariant
                    k <= n,
                    n == self.px@.len(),
                    self.w == old(self).w,
                    self.h == old(self).h,
                    self.px@ == Seq::new(n as nat, |j: int| if j < k { v } else { p0[j] }),
                decreases n - k,
            {
                self.px[k] = v;
                k = k + 1;
                proof { assert(self.px@ =~= Seq::new(n as nat, |j: int| if j < k { v } else { p0[j] })); }
            }
            proof { assert(self.px@ =~= Seq::new(p0.len(), |j: int| (64 * (i - 16)) as u8)); }
        } else if i == 20 {
            self.rect(0, 0, w, (self.h / 8) as i64);
        } else if i == 21 {
            self.rect(w - (self.w / 8) as i64, 0, w, h);
        } else {
            let q = QUAD[(i - 22) as usize];
            self.quad(q);
        }
    }

    /// Draws the parts of the procedural glyph of `cp` made of rectangles, and says what is
    /// left to draw: a diagonal, a rounded corner, braille dots or a circle.
    pub fn proc_glyph(&mut self, cp: u32, lt: i64) -> (r: Proc)
        requires
            old(self).wf(),
            sizes_ok(old(self).w as int, old(self).h as int, lt as int),
        ensures
            (final(self).px@, r) == proc_spec(old(self).px@, old(self).w as int, old(self).h as int, cp, lt as int),
            final(self).w == old(self).w,
            final(self).h == old(self).h,
    {
        if 0x2571 <= cp && cp <= 0x2573 {
            Proc::Diagonal
        } else if 0x2500 <= cp && cp <= 0x257f {
            let v = BOX[(cp - 0x2500) as usize];
            if v & 0x100 != 0 {
                let corner: usize = if v & 3 != 0 { if (v >> 4) & 3 != 0 { 2 } else { 1 } } else if (v >> 4) & 3 != 0 { 3 } else { 0 };
                Proc::Arc(corner)
            } else if v == 0 {
                Proc::Done(false)
            } else {
                self.box_sides(v, lt);
                Proc::Done(true)
            }
        } else if 0x2580 <= cp && cp <= 0x259f {
            self.block(cp - 0x2580);
            Proc::Done(true)
        } else if 0x2800 <= cp && cp <= 0x28ff {
            Proc::Braille((cp - 0x2800) as u8)
        } else if 0x23ba <= cp && cp <= 0x23bd {
            proof {
                let (dd, kk) = (self.h - lt as int, cp - 0x23ba);
                assert(dd * kk <= 0x1000_0000 * 3) by (nonlinear_arith) requires 0 <= dd <= 0x1000_0000, 0 <= kk <= 3;
                assert(0 <= dd * kk) by (nonlinear_arith) requires dd >= 0, kk >= 0;
            }
            let y = ((self.h - lt as usize) * (cp - 0x23ba) as usize / 3) as i64;
            let w = self.w as i64;
            self.rect(0, y, w, y + lt);
            Proc::Done(true)
        } else if cp == 0x23bf {
            self.seg(1, 1, lt);
            self.seg(2, 1, lt);
            Proc::Done(true)
        } else if cp == 0x23fa {
            Proc::Circle
        } else {
            Proc::Done(false)
        }
    }
}

} // verus!
