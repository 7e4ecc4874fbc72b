//! What a frame leaves in the buffer: the rows it draws come out the same whatever the
//! buffer held before, and nothing else that two buffers had in common is lost.
use vstd::prelude::*;

use crate::vt::TAIL;
use crate::vt::model::{TermV, LineV};
use super::{Geom, fill_span, fill_rows, fill_at_px, fill_px, blend_span, blend_rows, blend_px};
use super::atlas::{Scene, cell_of, is_wide, row_dirty, over, glyph_px, cell_px, deco_px, cells_px, row_px, rows_px, frame_px, span_w};

verus! {

/// Wherever `p` and `q` agree, `p2` and `q2` agree too; the four are of one length.
pub open spec fn keeps(p: Seq<u32>, q: Seq<u32>, p2: Seq<u32>, q2: Seq<u32>) -> bool {
    &&& p.len() == q.len()
    &&& p2.len() == p.len()
    &&& q2.len() == q.len()
    &&& forall|i: int| 0 <= i < p.len() && p[i] == q[i] ==> #[trigger] p2[i] == q2[i]
}

/// The pixel at column `c` of row `r` of a buffer whose rows lie `stride` apart.
pub open spec fn px_at(p: Seq<u32>, stride: int, r: int, c: int) -> u32 {
    p[r * stride + c]
}

/// `p` and `q` agree on the columns `x0..x1` of the rows `y0..y1`, where they hold them.
pub open spec fn agree_rect(p: Seq<u32>, q: Seq<u32>, stride: int, y0: int, y1: int, x0: int, x1: int) -> bool {
    forall|r: int, c: int|
        y0 <= r < y1 && x0 <= c < x1 && 0 <= r * stride + c < p.len() ==> #[trigger] px_at(p, stride, r, c) == px_at(q, stride, r, c)
}

/// Column `x` of the buffer, clipped to its width.
pub open spec fn clip_x(g: Geom, x: int) -> int {
    if x < g.w { x } else { g.w }
}

/// The first pixel row of displayed row `d`.
pub open spec fn band_lo(s: Scene, d: int) -> int {
    s.g.oy + d * s.a.ch
}

/// The pixel row past the last of displayed row `d`, clipped to the buffer.
pub open spec fn band_hi(s: Scene, d: int) -> int {
    if band_lo(s, d) + s.a.ch < s.g.h { band_lo(s, d) + s.a.ch } else { s.g.h }
}

/// Drawing `line` from column `x` on meets no right half of a wide character whose left
/// half it has not drawn.
pub open spec fn no_bare_tail(t: TermV, line: Option<LineV>, x: int) -> bool
    decreases t.cols - x,
{
    if x < 0 || x >= t.cols {
        true
    } else {
        let c = cell_of(t, line, x);
        if c.attr & TAIL != 0 {
            false
        } else {
            no_bare_tail(t, line, if is_wide(t, c, x) { x + 2 } else { x + 1 })
        }
    }
}

/// Displayed row `d` holds no right half of a wide character without its left half.
pub open spec fn row_whole(t: TermV, d: int) -> bool {
    no_bare_tail(t, t.line_at(t.line_id(d) as u64), 0)
}

/// A shape whose sizes and offsets are not negative.
pub open spec fn geom_ok(g: Geom) -> bool {
    0 <= g.w && 0 <= g.h && 0 <= g.stride && 0 <= g.ox && 0 <= g.oy
}

proof fn lemma_keeps_refl(p: Seq<u32>, q: Seq<u32>)
    requires
        p.len() == q.len(),
    ensures
        keeps(p, q, p, q),
{
}

proof fn lemma_keeps_trans(p: Seq<u32>, q: Seq<u32>, p2: Seq<u32>, q2: Seq<u32>, p3: Seq<u32>, q3: Seq<u32>)
    requires
        keeps(p, q, p2, q2),
        keeps(p2, q2, p3, q3),
    ensures
        keeps(p, q, p3, q3),
{
    assert forall|i: int| 0 <= i < p.len() && p[i] == q[i] implies #[trigger] p3[i] == q3[i] by {
        assert(p2[i] == q2[i]);
    }
}

proof fn lemma_keep_rect(p: Seq<u32>, q: Seq<u32>, p2: Seq<u32>, q2: Seq<u32>, stride: int, y0: int, y1: int, x0: int, x1: int)
    requires
        keeps(p, q, p2, q2),
        agree_rect(p, q, stride, y0, y1, x0, x1),
    ensures
        agree_rect(p2, q2, stride, y0, y1, x0, x1),
{
    assert forall|r: int, c: int| y0 <= r < y1 && x0 <= c < x1 && 0 <= r * stride + c < p2.len() implies #[trigger] px_at(p2, stride, r, c) == px_at(q2, stride, r, c) by {
        assert(px_at(p, stride, r, c) == px_at(q, stride, r, c));
        assert(p2[r * stride + c] == q2[r * stride + c]);
    }
}

proof fn lemma_rect_join(p: Seq<u32>, q: Seq<u32>, stride: int, y0: int, y1: int, x0: int, xm: int, x1: int)
    requires
        agree_rect(p, q, stride, y0, y1, x0, xm),
        agree_rect(p, q, stride, y0, y1, xm, x1),
    ensures
        agree_rect(p, q, stride, y0, y1, x0, x1),
{
    assert forall|r: int, c: int| y0 <= r < y1 && x0 <= c < x1 && 0 <= r * stride + c < p.len() implies #[trigger] px_at(p, stride, r, c) == px_at(q, stride, r, c) by {
        if c < xm {
            assert(px_at(p, stride, r, c) == px_at(q, stride, r, c));
        } else {
            assert(px_at(p, stride, r, c) == px_at(q, stride, r, c));
        }
    }
}

proof fn lemma_fill_rows(p: Seq<u32>, q: Seq<u32>, stride: int, y: int, ymax: int, x0: int, x1: int, v: u32)
    requires
        p.len() == q.len(),
    ensures
        keeps(p, q, fill_rows(p, stride, y, ymax, x0, x1, v), fill_rows(q, stride, y, ymax, x0, x1, v)),
        agree_rect(fill_rows(p, stride, y, ymax, x0, x1, v), fill_rows(q, stride, y, ymax, x0, x1, v), stride, y, ymax, x0, x1),
    decreases ymax - y,
{
    if y < ymax {
        let p1 = fill_span(p, y * stride + x0, y * stride + x1, v);
        let q1 = fill_span(q, y * stride + x0, y * stride + x1, v);
        assert(keeps(p, q, p1, q1));
        lemma_fill_rows(p1, q1, stride, y + 1, ymax, x0, x1, v);
        let pf = fill_rows(p, stride, y, ymax, x0, x1, v);
        let qf = fill_rows(q, stride, y, ymax, x0, x1, v);
        lemma_keeps_trans(p, q, p1, q1, pf, qf);
        assert forall|r: int, c: int| y <= r < ymax && x0 <= c < x1 && 0 <= r * stride + c < pf.len() implies #[trigger] px_at(pf, stride, r, c) == px_at(qf, stride, r, c) by {
            if r == y {
                assert(p1[r * stride + c] == q1[r * stride + c]);
                assert(pf[r * stride + c] == qf[r * stride + c]);
            } else {
                assert(px_at(pf, stride, r, c) == px_at(qf, stride, r, c));
            }
        }
    } else {
        lemma_keeps_refl(p, q);
    }
}

proof fn lemma_fill_at(p: Seq<u32>, q: Seq<u32>, g: Geom, x0: int, y0: int, w: int, h: int, c: u32)
    requires
        p.len() == q.len(),
        0 <= w,
    ensures
        keeps(p, q, fill_at_px(p, g, x0, y0, w, h, c), fill_at_px(q, g, x0, y0, w, h, c)),
        agree_rect(
            fill_at_px(p, g, x0, y0, w, h, c),
            fill_at_px(q, g, x0, y0, w, h, c),
            g.stride,
            y0,
            if y0 + h < g.h { y0 + h } else { g.h },
            clip_x(g, x0),
            clip_x(g, x0 + w),
        ),
{
    let xa = if x0 < g.w { x0 } else { g.w };
    let xb = if xa + w < g.w { xa + w } else { g.w };
    let yb = if y0 + h < g.h { y0 + h } else { g.h };
    lemma_fill_rows(p, q, g.stride, y0, yb, xa, xb, 0xff00_0000u32 | c);
    assert(clip_x(g, x0 + w) <= xb || x0 >= g.w);
}

proof fn lemma_blend_rows(p: Seq<u32>, q: Seq<u32>, stride: int, fy0: int, xs: int, cov: Seq<u8>, cw: int, w: int, fg: u32, y: int, ymax: int)
    requires
        p.len() == q.len(),
    ensures
        keeps(p, q, blend_rows(p, stride, fy0, xs, cov, cw, w, fg, y, ymax), blend_rows(q, stride, fy0, xs, cov, cw, w, fg, y, ymax)),
    decreases ymax - y,
{
    if y < ymax {
        let p1 = blend_span(p, (fy0 + y) * stride + xs, cov, y * cw, w, fg);
        let q1 = blend_span(q, (fy0 + y) * stride + xs, cov, y * cw, w, fg);
        assert(keeps(p, q, p1, q1));
        lemma_blend_rows(p1, q1, stride, fy0, xs, cov, cw, w, fg, y + 1, ymax);
        lemma_keeps_trans(p, q, p1, q1, blend_rows(p, stride, fy0, xs, cov, cw, w, fg, y, ymax), blend_rows(q, stride, fy0, xs, cov, cw, w, fg, y, ymax));
    } else {
        lemma_keeps_refl(p, q);
    }
}

proof fn lemma_blend(p: Seq<u32>, q: Seq<u32>, g: Geom, x0: int, y0: int, cov: Seq<u8>, cw: int, chh: int, fg: u32, shift: int)
    requires
        p.len() == q.len(),
    ensures
        keeps(p, q, blend_px(p, g, x0, y0, cov, cw, chh, fg, shift), blend_px(q, g, x0, y0, cov, cw, chh, fg, shift)),
{
    let xs = g.ox + x0 + shift;
    let fy0 = g.oy + y0;
    let w = if cw < g.w - xs { cw } else { g.w - xs };
    let ymax = super::rows_blended(fy0, chh, g.h);
    if xs >= g.w {
        lemma_keeps_refl(p, q);
    } else {
        lemma_blend_rows(p, q, g.stride, fy0, xs, cov, cw, w, fg, 0, ymax);
    }
}

proof fn lemma_over(p: Seq<u32>, q: Seq<u32>, s: Scene, m: Option<Seq<u8>>, x0: int, y0: int, w: int, fg: u32)
    requires
        p.len() == q.len(),
    ensures
        keeps(p, q, over(p, s, m, x0, y0, w, fg), over(q, s, m, x0, y0, w, fg)),
{
    match m {
        Some(m) => lemma_blend(p, q, s.g, x0, y0, m, w, s.a.ch as int, fg, 0),
        None => lemma_keeps_refl(p, q),
    }
}

proof fn lemma_glyph(p: Seq<u32>, q: Seq<u32>, s: Scene, c: crate::vt::Cell, wide: bool, x0: int, y0: int, fg: u32)
    requires
        p.len() == q.len(),
    ensures
        keeps(p, q, glyph_px(p, s, c, wide, x0, y0, fg), glyph_px(q, s, c, wide, x0, y0, fg)),
{
    let cell_w = span_w(s.a.cw, wide);
    if super::is_proc_spec(c.cp) {
        lemma_over(p, q, s, super::atlas::proc_of(s.a, c.cp, wide), x0, y0, cell_w, fg);
    } else {
        let gi = if wide { 0u16 } else { super::atlas::glyph_for(s.a, c.cp) };
        if gi != 0 {
            match s.a.glyphs[gi as int] {
                Some(m) => {
                    let p1 = blend_px(p, s.g, x0, y0, m, s.a.cw as int, s.a.ch as int, fg, 0);
                    let q1 = blend_px(q, s.g, x0, y0, m, s.a.cw as int, s.a.ch as int, fg, 0);
                    lemma_blend(p, q, s.g, x0, y0, m, s.a.cw as int, s.a.ch as int, fg, 0);
                    if c.attr & crate::vt::BOLD != 0 {
                        lemma_blend(p1, q1, s.g, x0, y0, m, s.a.cw as int, s.a.ch as int, fg, 1);
                        lemma_keeps_trans(
                            p, q, p1, q1,
                            blend_px(p1, s.g, x0, y0, m, s.a.cw as int, s.a.ch as int, fg, 1),
                            blend_px(q1, s.g, x0, y0, m, s.a.cw as int, s.a.ch as int, fg, 1),
                        );
                    }
                },
                None => lemma_keeps_refl(p, q),
            }
        } else {
            lemma_over(p, q, s, super::atlas::proc_of(s.a, super::HOLLOW, wide), x0, y0, cell_w, fg);
        }
    }
}

proof fn lemma_deco(p: Seq<u32>, q: Seq<u32>, s: Scene, c: crate::vt::Cell, wide: bool, x0: int, y0: int, fg: u32)
    requires
        p.len() == q.len(),
    ensures
        keeps(p, q, deco_px(p, s, c, wide, x0, y0, fg), deco_px(q, s, c, wide, x0, y0, fg)),
{
    let a = s.a;
    let lt = super::atlas::line_w(a.ch);
    let cell_w = span_w(a.cw, wide);
    let uy = if y0 + a.base + lt < y0 + a.ch - lt { y0 + a.base + lt } else { y0 + a.ch - lt };
    let (p1, q1) = if c.attr & crate::vt::UNDER != 0 {
        lemma_fill_at(p, q, s.g, s.g.ox + x0, s.g.oy + uy, cell_w, lt, fg);
        (fill_px(p, s.g, x0, uy, cell_w, lt, fg), fill_px(q, s.g, x0, uy, cell_w, lt, fg))
    } else {
        lemma_keeps_refl(p, q);
        (p, q)
    };
    if c.attr & crate::vt::STRIKE != 0 {
        let sy = y0 + a.ch / 2 - lt / 2;
        lemma_fill_at(p1, q1, s.g, s.g.ox + x0, s.g.oy + sy, cell_w, lt, fg);
        lemma_keeps_trans(p, q, p1, q1, fill_px(p1, s.g, x0, sy, cell_w, lt, fg), fill_px(q1, s.g, x0, sy, cell_w, lt, fg));
    }
}

/// Drawing a cell keeps what two buffers had in common and makes them agree on the cell.
proof fn lemma_cell(p: Seq<u32>, q: Seq<u32>, s: Scene, d: int, id: u64, c: crate::vt::Cell, x: int)
    requires
        p.len() == q.len(),
    ensures
        keeps(p, q, cell_px(p, s, d, id, c, x), cell_px(q, s, d, id, c, x)),
        agree_rect(
            cell_px(p, s, d, id, c, x),
            cell_px(q, s, d, id, c, x),
            s.g.stride,
            band_lo(s, d),
            band_hi(s, d),
            clip_x(s.g, s.g.ox + x * s.a.cw),
            clip_x(s.g, s.g.ox + x * s.a.cw + span_w(s.a.cw, is_wide(s.t, c, x))),
        ),
{
    let a = s.a;
    let wide = is_wide(s.t, c, x);
    let cell_w = span_w(a.cw, wide);
    let x0 = x * a.cw;
    let y0 = d * a.ch;
    let cursor = super::atlas::is_cursor(s.t, d, x);
    let fb = super::atlas::cell_colors(c, s.sel, id, x, cursor, s.focused);
    let fg = super::atlas::amber_spec(s.fg, s.luma, fb.0);
    let bg = super::atlas::amber_spec(s.bg, s.luma, fb.1);
    let p1 = fill_px(p, s.g, x0, y0, cell_w, a.ch as int, bg);
    let q1 = fill_px(q, s.g, x0, y0, cell_w, a.ch as int, bg);
    lemma_fill_at(p, q, s.g, s.g.ox + x0, s.g.oy + y0, cell_w, a.ch as int, bg);
    let (p2, q2) = if c.cp != 0 && c.cp != 32 {
        lemma_glyph(p1, q1, s, c, wide, x0, y0, fg);
        (glyph_px(p1, s, c, wide, x0, y0, fg), glyph_px(q1, s, c, wide, x0, y0, fg))
    } else {
        lemma_keeps_refl(p1, q1);
        (p1, q1)
    };
    lemma_deco(p2, q2, s, c, wide, x0, y0, fg);
    let p3 = deco_px(p2, s, c, wide, x0, y0, fg);
    let q3 = deco_px(q2, s, c, wide, x0, y0, fg);
    lemma_keeps_trans(p1, q1, p2, q2, p3, q3);
    if cursor && !s.focused {
        let k = super::atlas::amber_spec(s.fg, s.luma, s.t.def_fg);
        lemma_over(p3, q3, s, super::atlas::proc_of(a, super::OUTLINE, wide), x0, y0, cell_w, k);
        lemma_keeps_trans(p1, q1, p3, q3, over(p3, s, super::atlas::proc_of(a, super::OUTLINE, wide), x0, y0, cell_w, k), over(q3, s, super::atlas::proc_of(a, super::OUTLINE, wide), x0, y0, cell_w, k));
    }
    let pf = cell_px(p, s, d, id, c, x);
    let qf = cell_px(q, s, d, id, c, x);
    assert(keeps(p1, q1, pf, qf));
    lemma_keeps_trans(p, q, p1, q1, pf, qf);
    lemma_keep_rect(p1, q1, pf, qf, s.g.stride, band_lo(s, d), band_hi(s, d), clip_x(s.g, s.g.ox + x0), clip_x(s.g, s.g.ox + x0 + cell_w));
}

/// Drawing the cells of a row from column `x` on keeps what two buffers had in common and
/// makes them agree from that column to the right end of the grid.
proof fn lemma_cells(p: Seq<u32>, q: Seq<u32>, s: Scene, d: int, id: u64, line: Option<LineV>, x: int)
    requires
        p.len() == q.len(),
        0 <= x <= s.t.cols,
    ensures
        keeps(p, q, cells_px(p, s, d, id, line, x), cells_px(q, s, d, id, line, x)),
        no_bare_tail(s.t, line, x) ==> agree_rect(
            cells_px(p, s, d, id, line, x),
            cells_px(q, s, d, id, line, x),
            s.g.stride,
            band_lo(s, d),
            band_hi(s, d),
            clip_x(s.g, s.g.ox + x * s.a.cw),
            clip_x(s.g, s.g.ox + s.t.cols * s.a.cw),
        ),
    decreases s.t.cols - x,
{
    if x >= s.t.cols {
        lemma_keeps_refl(p, q);
    } else if cell_of(s.t, line, x).attr & TAIL != 0 {
        lemma_cells(p, q, s, d, id, line, x + 1);
    } else {
        let c = cell_of(s.t, line, x);
        let wide = is_wide(s.t, c, x);
        let x2 = if wide { x + 2 } else { x + 1 };
        let cw = s.a.cw as int;
        let p1 = cell_px(p, s, d, id, c, x);
        let q1 = cell_px(q, s, d, id, c, x);
        lemma_cell(p, q, s, d, id, c, x);
        lemma_cells(p1, q1, s, d, id, line, x2);
        let pf = cells_px(p, s, d, id, line, x);
        let qf = cells_px(q, s, d, id, line, x);
        assert(pf == cells_px(p1, s, d, id, line, x2));
        lemma_keeps_trans(p, q, p1, q1, pf, qf);
        assert(x * cw + span_w(s.a.cw, wide) == x2 * cw) by (nonlinear_arith)
            requires
                x2 == (if wide { x + 2 } else { x + 1 }),
                span_w(s.a.cw, wide) == (if wide { 2 * cw } else { cw });
        if no_bare_tail(s.t, line, x) {
            lemma_keep_rect(p1, q1, pf, qf, s.g.stride, band_lo(s, d), band_hi(s, d), clip_x(s.g, s.g.ox + x * cw), clip_x(s.g, s.g.ox + x2 * cw));
            lemma_rect_join(pf, qf, s.g.stride, band_lo(s, d), band_hi(s, d), clip_x(s.g, s.g.ox + x * cw), clip_x(s.g, s.g.ox + x2 * cw), clip_x(s.g, s.g.ox + s.t.cols * cw));
        }
    }
}

/// Drawing a whole row keeps what two buffers had in common and makes them agree on the
/// row, from the left edge of the buffer to the right.
proof fn lemma_row(p: Seq<u32>, q: Seq<u32>, s: Scene, d: int)
    requires
        p.len() == q.len(),
        geom_ok(s.g),
    ensures
        keeps(p, q, row_px(p, s, d), row_px(q, s, d)),
        row_whole(s.t, d) ==> agree_rect(row_px(p, s, d), row_px(q, s, d), s.g.stride, band_lo(s, d), band_hi(s, d), 0, s.g.w),
{
    let a = s.a;
    let g = s.g;
    let def_bg = super::atlas::amber_spec(s.bg, s.luma, s.t.def_bg);
    let id = s.t.line_id(d) as u64;
    let y0 = d * a.ch;
    let p1 = fill_at_px(p, g, 0, g.oy + y0, g.ox, a.ch as int, def_bg);
    let q1 = fill_at_px(q, g, 0, g.oy + y0, g.ox, a.ch as int, def_bg);
    lemma_fill_at(p, q, g, 0, g.oy + y0, g.ox, a.ch as int, def_bg);
    let line = s.t.line_at(id);
    let p2 = cells_px(p1, s, d, id, line, 0);
    let q2 = cells_px(q1, s, d, id, line, 0);
    lemma_cells(p1, q1, s, d, id, line, 0);
    assert(g.ox + 0 * (a.cw as int) == g.ox);
    lemma_keeps_trans(p, q, p1, q1, p2, q2);
    let whole = row_whole(s.t, d);
    if whole {
        lemma_keep_rect(p1, q1, p2, q2, g.stride, band_lo(s, d), band_hi(s, d), clip_x(g, 0), clip_x(g, g.ox));
        lemma_rect_join(p2, q2, g.stride, band_lo(s, d), band_hi(s, d), 0, clip_x(g, g.ox), clip_x(g, g.ox + s.t.cols * a.cw));
    }
    let edge = s.t.cols * a.cw;
    if edge < g.w {
        let pf = fill_px(p2, g, edge, y0, g.w - edge, a.ch as int, def_bg);
        let qf = fill_px(q2, g, edge, y0, g.w - edge, a.ch as int, def_bg);
        lemma_fill_at(p2, q2, g, g.ox + edge, g.oy + y0, g.w - edge, a.ch as int, def_bg);
        lemma_keeps_trans(p, q, p2, q2, pf, qf);
        if whole {
            lemma_keep_rect(p2, q2, pf, qf, g.stride, band_lo(s, d), band_hi(s, d), 0, clip_x(g, g.ox + edge));
            lemma_rect_join(pf, qf, g.stride, band_lo(s, d), band_hi(s, d), 0, clip_x(g, g.ox + edge), g.w);
        }
    }
}

/// Displayed row `d` agrees in `p` and `q`, across the whole width of the buffer.
pub open spec fn band_agree(p: Seq<u32>, q: Seq<u32>, s: Scene, d: int) -> bool {
    agree_rect(p, q, s.g.stride, band_lo(s, d), band_hi(s, d), 0, s.g.w)
}

proof fn lemma_rows(p: Seq<u32>, q: Seq<u32>, s: Scene, d: int)
    requires
        p.len() == q.len(),
        geom_ok(s.g),
        0 <= d,
    ensures
        keeps(p, q, rows_px(p, s, d), rows_px(q, s, d)),
        forall|e: int|
            d <= e < s.t.rows && row_dirty(s.t, e) && row_whole(s.t, e) ==> #[trigger] band_agree(rows_px(p, s, d), rows_px(q, s, d), s, e),
    decreases s.t.rows - d,
{
    if d >= s.t.rows {
        lemma_keeps_refl(p, q);
    } else {
        let dirty = row_dirty(s.t, d);
        let whole = row_whole(s.t, d);
        let p1 = if dirty { row_px(p, s, d) } else { p };
        let q1 = if dirty { row_px(q, s, d) } else { q };
        if dirty {
            lemma_row(p, q, s, d);
        } else {
            lemma_keeps_refl(p, q);
        }
        lemma_rows(p1, q1, s, d + 1);
        let pf = rows_px(p, s, d);
        let qf = rows_px(q, s, d);
        lemma_keeps_trans(p, q, p1, q1, pf, qf);
        if dirty && whole {
            lemma_keep_rect(p1, q1, pf, qf, s.g.stride, band_lo(s, d), band_hi(s, d), 0, s.g.w);
        }
    }
}

/// A frame keeps every pixel on which two buffers agreed before it, and each row that it
/// draws, where the row holds no right half of a wide character without its left half,
/// comes out the same over both buffers across their whole width: what the frame shows
/// there does not depend on what the buffer held.
pub proof fn frame_redraws_marked_rows(p: Seq<u32>, q: Seq<u32>, s: Scene)
    requires
        p.len() == q.len(),
        geom_ok(s.g),
    ensures
        keeps(p, q, frame_px(p, s), frame_px(q, s)),
        forall|d: int|
            0 <= d < s.t.rows && row_dirty(s.t, d) && row_whole(s.t, d) ==> #[trigger] band_agree(frame_px(p, s), frame_px(q, s), s, d),
{
    lemma_frame(p, q, s);
}

/// A frame that draws everything, of a terminal none of whose rows holds a right half of a
/// wide character without its left half, leaves the same picture in every buffer of the
/// shape, whatever the buffer held before.
pub proof fn full_frame_forgets_old_pixels(p: Seq<u32>, q: Seq<u32>, s: Scene)
    requires
        p.len() == q.len(),
        geom_ok(s.g),
        s.g.w <= s.g.stride,
        s.g.h * s.g.stride <= p.len(),
        1 <= s.a.ch,
        s.t.all_dirty,
        forall|d: int| 0 <= d < s.t.rows ==> #[trigger] row_whole(s.t, d),
    ensures
        forall|r: int, c: int|
            0 <= r < s.g.h && 0 <= c < s.g.w ==> #[trigger] px_at(frame_px(p, s), s.g.stride, r, c) == px_at(frame_px(q, s), s.g.stride, r, c),
{
    lemma_frame(p, q, s);
    let g = s.g;
    let pf = frame_px(p, s);
    let qf = frame_px(q, s);
    let ch = s.a.ch as int;
    let gh = s.t.rows * ch;
    let bot = g.oy + gh;
    assert forall|r: int, c: int| 0 <= r < g.h && 0 <= c < g.w implies #[trigger] px_at(pf, g.stride, r, c) == px_at(qf, g.stride, r, c) by {
        assert(0 <= r * g.stride + c < pf.len()) by (nonlinear_arith)
            requires
                0 <= r < g.h,
                0 <= c < g.w,
                g.w <= g.stride,
                g.h * g.stride <= pf.len();
        if r < g.oy {
            assert(agree_rect(pf, qf, g.stride, 0, if 0 + g.oy < g.h { 0 + g.oy } else { g.h }, clip_x(g, 0), clip_x(g, 0 + g.w)));
        } else if r >= bot {
            let hh = if g.h > bot { g.h - bot } else { 0 };
            assert(agree_rect(pf, qf, g.stride, bot, if bot + hh < g.h { bot + hh } else { g.h }, clip_x(g, 0), clip_x(g, 0 + g.w)));
        } else {
            let d = (r - g.oy) / ch;
            assert(0 <= d < s.t.rows && d * ch <= r - g.oy < d * ch + ch) by (nonlinear_arith)
                requires
                    d == (r - g.oy) / ch,
                    1 <= ch,
                    0 <= r - g.oy < s.t.rows * ch;
            assert(row_whole(s.t, d));
            assert(band_agree(pf, qf, s, d));
        }
    }
}

/// What a frame keeps, and where it makes two buffers agree.
proof fn lemma_frame(p: Seq<u32>, q: Seq<u32>, s: Scene)
    requires
        p.len() == q.len(),
        geom_ok(s.g),
    ensures
        keeps(p, q, frame_px(p, s), frame_px(q, s)),
        forall|d: int|
            0 <= d < s.t.rows && row_dirty(s.t, d) && row_whole(s.t, d) ==> #[trigger] band_agree(frame_px(p, s), frame_px(q, s), s, d),
        s.t.all_dirty ==> agree_rect(
            frame_px(p, s),
            frame_px(q, s),
            s.g.stride,
            0,
            if 0 + s.g.oy < s.g.h { 0 + s.g.oy } else { s.g.h },
            clip_x(s.g, 0),
            clip_x(s.g, 0 + s.g.w),
        ),
        s.t.all_dirty ==> ({
            let bot = s.g.oy + s.t.rows * s.a.ch;
            let hh = if s.g.h > bot { s.g.h - bot } else { 0 };
            agree_rect(frame_px(p, s), frame_px(q, s), s.g.stride, bot, if bot + hh < s.g.h { bot + hh } else { s.g.h }, clip_x(s.g, 0), clip_x(s.g, 0 + s.g.w))
        }),
{
    let t = s.t;
    let g = s.g;
    let def_bg = super::atlas::amber_spec(s.bg, s.luma, t.def_bg);
    let gh = t.rows * s.a.ch;
    let bot = g.oy + gh;
    let hh = if g.h > bot { g.h - bot } else { 0 };
    let (p1, q1) = if t.all_dirty {
        let pa = fill_at_px(p, g, 0, 0, g.w, g.oy, def_bg);
        let qa = fill_at_px(q, g, 0, 0, g.w, g.oy, def_bg);
        lemma_fill_at(p, q, g, 0, 0, g.w, g.oy, def_bg);
        lemma_fill_at(pa, qa, g, 0, bot, g.w, hh, def_bg);
        let pb = fill_at_px(pa, g, 0, bot, g.w, hh, def_bg);
        let qb = fill_at_px(qa, g, 0, bot, g.w, hh, def_bg);
        lemma_keeps_trans(p, q, pa, qa, pb, qb);
        lemma_keep_rect(pa, qa, pb, qb, g.stride, 0, if 0 + g.oy < g.h { 0 + g.oy } else { g.h }, clip_x(g, 0), clip_x(g, 0 + g.w));
        (pb, qb)
    } else {
        lemma_keeps_refl(p, q);
        (p, q)
    };
    let p2 = rows_px(p1, s, 0);
    let q2 = rows_px(q1, s, 0);
    lemma_rows(p1, q1, s, 0);
    lemma_keeps_trans(p, q, p1, q1, p2, q2);
    let pf = frame_px(p, s);
    let qf = frame_px(q, s);
    if t.all_dirty && gh < g.h {
        lemma_fill_at(p2, q2, g, g.ox + 0, g.oy + gh, g.w, g.h - gh, def_bg);
    } else {
        lemma_keeps_refl(p2, q2);
    }
    assert(keeps(p2, q2, pf, qf));
    lemma_keeps_trans(p, q, p2, q2, pf, qf);
    assert forall|d: int| 0 <= d < t.rows && row_dirty(t, d) && row_whole(t, d) implies #[trigger] band_agree(pf, qf, s, d) by {
        assert(band_agree(p2, q2, s, d));
        lemma_keep_rect(p2, q2, pf, qf, g.stride, band_lo(s, d), band_hi(s, d), 0, g.w);
    }
    if t.all_dirty {
        lemma_keep_rect(p1, q1, p2, q2, g.stride, 0, if 0 + g.oy < g.h { 0 + g.oy } else { g.h }, clip_x(g, 0), clip_x(g, 0 + g.w));
        lemma_keep_rect(p2, q2, pf, qf, g.stride, 0, if 0 + g.oy < g.h { 0 + g.oy } else { g.h }, clip_x(g, 0), clip_x(g, 0 + g.w));
        lemma_keep_rect(p1, q1, p2, q2, g.stride, bot, if bot + hh < g.h { bot + hh } else { g.h }, clip_x(g, 0), clip_x(g, 0 + g.w));
        lemma_keep_rect(p2, q2, pf, qf, g.stride, bot, if bot + hh < g.h { bot + hh } else { g.h }, clip_x(g, 0), clip_x(g, 0 + g.w));
    }
}

} // verus!
