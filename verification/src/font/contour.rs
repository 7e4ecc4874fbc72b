//! The contours of a simple glyph as the segments that draw them: lines between on-curve
//! points and quadratic curves around off-curve ones, with the implied on-curve point
//! halfway between two off-curve points. Coordinates are doubled font units, so that
//! every implied point is a whole number.
use vstd::prelude::*;

use super::{Outline, OutlineV};

verus! {

/// A point in doubled font units.
pub type Pt = (i128, i128);

/// A straight segment, or a quadratic curve from its first point to its last around its
/// control point.
#[derive(Clone, Copy, Debug, PartialEq, Eq)]
pub enum Seg {
    Line(Pt, Pt),
    Quad(Pt, Pt, Pt),
}

/// Whether point `i` lies on the curve.
pub open spec fn on_curve(o: OutlineV, i: int) -> bool {
    o.flags[i] & 1 != 0
}

/// Point `i`, in doubled units.
pub open spec fn dbl(o: OutlineV, i: int) -> Pt {
    ((2 * o.xs[i]) as i128, (2 * o.ys[i]) as i128)
}

/// The point halfway between points `i` and `j`, in doubled units.
pub open spec fn mid(o: OutlineV, i: int, j: int) -> Pt {
    ((o.xs[i] + o.xs[j]) as i128, (o.ys[i] + o.ys[j]) as i128)
}

/// The segment from `prev` to `to`: around the off-curve point `ctrl` where one waits.
pub open spec fn seg_to(o: OutlineV, prev: Pt, ctrl: Option<int>, to: Pt) -> Seg {
    match ctrl {
        Some(c) => Seg::Quad(prev, dbl(o, c), to),
        None => Seg::Line(prev, to),
    }
}

/// The segments of the contour of the `n` points from `start`, from its `k`-th point on:
/// `prev` is the point reached, `ctrl` the off-curve point waiting, and the contour closes
/// at `anchor`.
pub open spec fn walk(o: OutlineV, start: int, n: int, k: int, prev: Pt, ctrl: Option<int>, anchor: Pt) -> Seq<Seg>
    decreases n - k,
{
    if k >= n {
        seq![seg_to(o, prev, ctrl, anchor)]
    } else {
        let i = start + k;
        if on_curve(o, i) {
            seq![seg_to(o, prev, ctrl, dbl(o, i))] + walk(o, start, n, k + 1, dbl(o, i), None, anchor)
        } else {
            match ctrl {
                Some(c) => seq![Seg::Quad(prev, dbl(o, c), mid(o, c, i))] + walk(o, start, n, k + 1, mid(o, c, i), Some(i), anchor),
                None => walk(o, start, n, k + 1, prev, Some(i), anchor),
            }
        }
    }
}

/// Where the contour of the `n` points from `start` begins and ends: its first point if
/// that is on the curve, else its last if that is, else the point between the two.
pub open spec fn anchor_of(o: OutlineV, start: int, n: int) -> Pt {
    if on_curve(o, start) {
        dbl(o, start)
    } else if on_curve(o, start + n - 1) {
        dbl(o, start + n - 1)
    } else {
        mid(o, start, start + n - 1)
    }
}

/// The segments of the contour of the `n` points from `start`.
pub open spec fn contour_segs(o: OutlineV, start: int, n: int) -> Seq<Seg> {
    let a = anchor_of(o, start, n);
    walk(o, start, n, 1, a, if on_curve(o, start) { None } else { Some(start) }, a)
}

/// The segments of the contours from the `c`-th on, the first starting at point `start`;
/// a contour of fewer than two points draws nothing, and the walk stops at a contour
/// whose end lies before its start or past the last point.
pub open spec fn contours_from(o: OutlineV, c: int, start: int) -> Seq<Seg>
    decreases o.ends.len() - c,
{
    if c < 0 || c >= o.ends.len() {
        Seq::empty()
    } else {
        let end = o.ends[c] as int;
        if end >= o.flags.len() || end < start {
            Seq::empty()
        } else {
            let n = end - start + 1;
            (if n < 2 { Seq::empty() } else { contour_segs(o, start, n) }) + contours_from(o, c + 1, end + 1)
        }
    }
}

/// The segments that draw all the contours of an outline.
pub open spec fn outline_segs(o: OutlineV) -> Seq<Seg> {
    contours_from(o, 0, 0)
}

fn dbl_at(p: &Outline, i: usize) -> (r: Pt)
    requires
        i < p.xs@.len(),
        i < p.ys@.len(),
    ensures
        r == dbl(p@, i as int),
{
    (2 * (p.xs[i] as i128), 2 * (p.ys[i] as i128))
}

fn mid_at(p: &Outline, i: usize, j: usize) -> (r: Pt)
    requires
        i < p.xs@.len(),
        i < p.ys@.len(),
        j < p.xs@.len(),
        j < p.ys@.len(),
    ensures
        r == mid(p@, i as int, j as int),
{
    (p.xs[i] as i128 + p.xs[j] as i128, p.ys[i] as i128 + p.ys[j] as i128)
}

fn seg_to_at(p: &Outline, prev: Pt, ctrl: Option<usize>, to: Pt) -> (r: Seg)
    requires
        p.xs@.len() == p.flags@.len(),
        p.ys@.len() == p.flags@.len(),
        ctrl matches Some(c) ==> c < p.flags@.len(),
    ensures
        r == seg_to(p@, prev, match ctrl { Some(c) => Some(c as int), None => None }, to),
{
    match ctrl {
        Some(c) => Seg::Quad(prev, dbl_at(p, c), to),
        None => Seg::Line(prev, to),
    }
}

/// Appends the segments of the contour of the `n` points from `start` to `out`.
fn push_contour(p: &Outline, start: usize, n: usize, out: &mut Vec<Seg>)
    requires
        p.xs@.len() == p.flags@.len(),
        p.ys@.len() == p.flags@.len(),
        2 <= n,
        start + n <= p.flags@.len(),
    ensures
        final(out)@ == old(out)@ + contour_segs(p@, start as int, n as int),
{
    let len = p.flags.len();
    let last = start + n - 1;
    let first_on = p.flags[start] & 1 != 0;
    let anchor = if first_on {
        dbl_at(p, start)
    } else if p.flags[last] & 1 != 0 {
        dbl_at(p, last)
    } else {
        mid_at(p, start, last)
    };
    let mut prev = anchor;
    let mut ctrl: Option<usize> = if first_on { None } else { Some(start) };
    let ghost target = old(out)@ + contour_segs(p@, start as int, n as int);
    let ghost gc = |c: Option<usize>| match c { Some(c) => Some(c as int), None => None::<int> };
    let mut k: usize = 1;
    while k < n
        invariant
            p.xs@.len() == p.flags@.len(),
            p.ys@.len() == p.flags@.len(),
            2 <= n,
            start + n <= p.flags@.len(),
            1 <= k <= n,
            len == p.flags@.len(),
            ctrl matches Some(c) ==> start <= c < start + k,
            out@ + walk(p@, start as int, n as int, k as int, prev, match ctrl { Some(c) => Some(c as int), None => None }, anchor) == target,
        decreases n - k,
    {
        let i = start + k;
        let ghost o0 = out@;
        let ghost prev0 = prev;
        let ghost ctrl0 = match ctrl { Some(c) => Some(c as int), None => None::<int> };
        if p.flags[i] & 1 != 0 {
            let to = dbl_at(p, i);
            let s = seg_to_at(p, prev, ctrl, to);
            out.push(s);
            prev = to;
            ctrl = None;
            proof {
                assert(o0 + walk(p@, start as int, n as int, k as int, prev0, ctrl0, anchor)
                    =~= out@ + walk(p@, start as int, n as int, k + 1, prev, None, anchor));
            }
        } else {
            match ctrl {
                Some(c) => {
                    let m = mid_at(p, c, i);
                    out.push(Seg::Quad(prev, dbl_at(p, c), m));
                    prev = m;
                    proof {
                        assert(o0 + walk(p@, start as int, n as int, k as int, prev0, ctrl0, anchor)
                            =~= out@ + walk(p@, start as int, n as int, k + 1, prev, Some(i as int), anchor));
                    }
                }
                None => {}
            }
            ctrl = Some(i);
        }
        k = k + 1;
    }
    let s = seg_to_at(p, prev, ctrl, anchor);
    let ghost o0 = out@;
    out.push(s);
    proof {
        assert(out@ =~= o0 + walk(p@, start as int, n as int, k as int, prev, match ctrl { Some(c) => Some(c as int), None => None }, anchor));
    }
}

/// The segments that draw the contours of `p`, in doubled font units.
pub fn segments(p: &Outline) -> (r: Vec<Seg>)
    requires
        p.xs@.len() == p.flags@.len(),
        p.ys@.len() == p.flags@.len(),
    ensures
        r@ == outline_segs(p@),
{
    let mut out: Vec<Seg> = Vec::new();
    let mut start: usize = 0;
    let mut c: usize = 0;
    let npts = p.flags.len();
    while c < p.ends.len()
        invariant
            p.xs@.len() == p.flags@.len(),
            p.ys@.len() == p.flags@.len(),
            npts == p.flags@.len(),
            c <= p.ends@.len(),
            start <= npts,
            out@ + contours_from(p@, c as int, start as int) == outline_segs(p@),
        decreases p.ends@.len() - c,
    {
        let end = p.ends[c];
        if end >= npts || end < start {
            proof { assert(out@ + Seq::<Seg>::empty() =~= out@); }
            return out;
        }
        let n = end - start + 1;
        let ghost o0 = out@;
        if n >= 2 {
            push_contour(p, start, n, &mut out);
        }
        proof {
            assert(o0 + contours_from(p@, c as int, start as int)
                =~= out@ + contours_from(p@, c + 1, end + 1));
        }
        start = end + 1;
        c = c + 1;
    }
    proof { assert(out@ + Seq::<Seg>::empty() =~= out@); }
    out
}

} // verus!
