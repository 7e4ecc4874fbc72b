use std::collections::VecDeque;
use vstd::prelude::*;
use vstd::utf8::{encode_scalar, is_scalar};

pub mod model;
pub(crate) mod lemmas;
mod screen;
mod cursor;
mod sgr;
mod csi;
mod parse;
pub mod laws;
pub mod split;

use model::{LineV, TermV, lines_view, in_ranges_spec, width_spec, lossy_utf8, ranges_sorted};

verus! {

/// Cell attributes: bold, faint, underlined, reversed, struck through; the first and
/// second columns of a wide character.
pub const BOLD: u32 = 1;
pub const FAINT: u32 = 2;
pub const UNDER: u32 = 8;
pub const REV: u32 = 16;
pub const STRIKE: u32 = 32;
pub const WIDE: u32 = 64;
pub const TAIL: u32 = 128;

/// The longest OSC string kept: a longer one is dropped whole.
pub const OSC_MAX: usize = 1572864;

/// The sixteen standard colours.
pub const PALETTE: [u32; 16] = [
    0x000000, 0xcd3131, 0x0dbc79, 0xe5e510, 0x2472c8, 0xbc3fbc, 0x11a8cd, 0xe5e5e5,
    0x666666, 0xf14c4c, 0x23d18b, 0xf5f543, 0x3b8eea, 0xd670d6, 0x29b8db, 0xffffff,
];


/// The ranges of code points that take no column.
pub const ZERO_W: [(u32, u32); 22] = [
    (0x300, 0x36f), (0x483, 0x489), (0x591, 0x5c7), (0x610, 0x61a), (0x64b, 0x65f),
    (0x670, 0x670), (0x6d6, 0x6dc), (0x6df, 0x6e4), (0x816, 0x82d), (0x900, 0x902),
    (0x93c, 0x93c), (0x941, 0x948), (0x1ab0, 0x1aff), (0x1dc0, 0x1dff), (0x200b, 0x200f),
    (0x202a, 0x202e), (0x2060, 0x2064), (0x20d0, 0x20ff), (0xfe00, 0xfe0f),
    (0xfe20, 0xfe2f), (0xfeff, 0xfeff), (0xe0100, 0xe01ef),
];

/// The ranges of code points that take two columns.
pub const WIDE_W: [(u32, u32); 19] = [
    (0x1100, 0x115f), (0x2329, 0x232a), (0x2e80, 0x303e), (0x3041, 0x33ff),
    (0x3400, 0x4dbf), (0x4e00, 0x9fff), (0xa000, 0xa4cf), (0xa960, 0xa97f),
    (0xac00, 0xd7a3), (0xf900, 0xfaff), (0xfe10, 0xfe19), (0xfe30, 0xfe6f),
    (0xff00, 0xff60), (0xffe0, 0xffe6), (0x1f300, 0x1f64f), (0x1f680, 0x1f6ff),
    (0x1f900, 0x1faff), (0x20000, 0x2fffd), (0x30000, 0x3fffd),
];

/// DEC special graphics for the code points 0x60..=0x7e.
pub const GFX: [u16; 31] = [
    0x25c6, 0x2592, 0x2409, 0x240c, 0x240d, 0x240a, 0x00b0, 0x00b1, 0x2424, 0x240b,
    0x2518, 0x2510, 0x250c, 0x2514, 0x253c, 0x23ba, 0x23bb, 0x2500, 0x23bc, 0x23bd,
    0x251c, 0x2524, 0x2534, 0x252c, 0x2502, 0x2264, 0x2265, 0x03c0, 0x2260, 0x00a3, 0x00b7,
];

/// A selection or range of screen positions: `((line id, column), (line id, column))`.
pub type Span = Option<((u64, usize), (u64, usize))>;

/// One cell of the grid: its character (0 for none), colours and attributes.
#[derive(Clone, Copy, PartialEq, Eq, Structural)]
pub struct Cell {
    pub cp: u32,
    pub fg: u32,
    pub bg: u32,
    pub attr: u32,
}

/// A row of cells, and whether it wrapped into the next one.
pub struct Line {
    pub cells: Vec<Cell>,
    pub wrapped: bool,
}

impl View for Line {
    type V = LineV;

    open spec fn view(&self) -> LineV {
        LineV { cells: self.cells@, wrapped: self.wrapped }
    }
}

/// The modes a program sets: cursor keys, autowrap, cursor shown, origin, bracketed
/// paste, focus reports, synchronized output, mouse reporting and its SGR form.
#[derive(Clone, Copy, PartialEq, Eq, Structural)]
pub struct Modes {
    pub ckm: bool,
    pub awm: bool,
    pub tcem: bool,
    pub origin: bool,
    pub paste: bool,
    pub focus: bool,
    pub sync: bool,
    pub mouse: u32,
    pub sgr_mouse: bool,
}

impl Default for Modes {
    fn default() -> (m: Modes)
        ensures
            m == (Modes { ckm: false, awm: false, tcem: false, origin: false, paste: false, focus: false, sync: false, mouse: 0, sgr_mouse: false }),
    {
        Modes { ckm: false, awm: false, tcem: false, origin: false, paste: false, focus: false, sync: false, mouse: 0, sgr_mouse: false }
    }
}

/// The cursor state kept by DECSC / `CSI s`.
#[derive(Clone, Copy, PartialEq, Eq, Structural)]
pub struct Saved {
    pub x: usize,
    pub y: usize,
    pub fg: u32,
    pub bg: u32,
    pub attr: u32,
    pub g0: bool,
    pub g1: bool,
    pub cs: usize,
    pub origin: bool,
    pub set: bool,
}

/// State of the escape-sequence parser.
#[derive(Clone, Copy, PartialEq, Eq, Structural)]
pub enum St {
    Ground,
    Esc,
    EscInt(u8),
    Csi,
    CsiInt,
    Osc,
    Str,
}

/// The terminal: both screens, the scrollback, the cursor, the modes and the state of
/// the parser; `out` holds the replies for the program, `title` and `clip` what it set.
pub struct Term {
    pub cols: usize,
    pub rows: usize,
    pub(crate) screens: Vec<Vec<Line>>,
    pub alt: usize,
    pub sb: VecDeque<Line>,
    pub(crate) sb_cap: usize,
    pub sb_base: u64,
    pub view: usize,
    pub dirty: Vec<bool>,
    pub all_dirty: bool,
    pub x: usize,
    pub y: usize,
    pub fg: u32,
    pub bg: u32,
    pub attr: u32,
    pub def_fg: u32,
    pub def_bg: u32,
    pub(crate) top: usize,
    pub(crate) bot: usize,
    pub(crate) pend: bool,
    pub modes: Modes,
    pub(crate) saved: Vec<Saved>,
    pub(crate) tabs: Vec<bool>,
    pub(crate) g0: bool,
    pub(crate) g1: bool,
    pub(crate) cs: usize,
    pub(crate) last: u32,
    pub(crate) st: St,
    pub(crate) params: Vec<u32>,
    pub(crate) np: usize,
    pub(crate) seen: bool,
    pub(crate) colon: u32,
    pub(crate) privc: u8,
    pub(crate) inter: u8,
    pub(crate) osc: Vec<u8>,
    pub(crate) osc_over: bool,
    pub(crate) esc_str: bool,
    pub(crate) ucp: u32,
    pub(crate) uneed: u8,
    pub(crate) uhave: u8,
    pub out: Vec<u8>,
    pub title: Option<String>,
    pub clip: Option<Vec<u8>>,
}

/// The bytes offered to the clipboard, as a sequence.
pub open spec fn clip_view(c: Option<Vec<u8>>) -> Option<Seq<u8>> {
    match c {
        Some(v) => Some(v@),
        None => None,
    }
}

/// The title, as characters.
pub open spec fn title_view(t: Option<String>) -> Option<Seq<char>> {
    match t {
        Some(s) => Some(s@),
        None => None,
    }
}

impl View for Term {
    type V = TermV;

    closed spec fn view(&self) -> TermV {
        TermV {
            cols: self.cols,
            rows: self.rows,
            screens: Seq::new(self.screens@.len(), |k: int| lines_view(self.screens@[k]@)),
            alt: self.alt,
            sb: lines_view(self.sb@),
            sb_cap: self.sb_cap,
            sb_base: self.sb_base,
            view: self.view,
            dirty: self.dirty@,
            all_dirty: self.all_dirty,
            x: self.x,
            y: self.y,
            fg: self.fg,
            bg: self.bg,
            attr: self.attr,
            def_fg: self.def_fg,
            def_bg: self.def_bg,
            top: self.top,
            bot: self.bot,
            pend: self.pend,
            modes: self.modes,
            saved: self.saved@,
            tabs: self.tabs@,
            g0: self.g0,
            g1: self.g1,
            cs: self.cs,
            last: self.last,
            st: self.st,
            params: self.params@,
            np: self.np,
            seen: self.seen,
            colon: self.colon,
            privc: self.privc,
            inter: self.inter,
            osc: self.osc@,
            osc_over: self.osc_over,
            esc_str: self.esc_str,
            ucp: self.ucp,
            uneed: self.uneed,
            uhave: self.uhave,
            out: self.out@,
            title: title_view(self.title),
            clip: clip_view(self.clip),
        }
    }
}


/// Whether `cp` falls in one of the ranges of `r`, which are sorted and apart.
fn in_ranges(r: &[(u32, u32)], cp: u32) -> (b: bool)
    requires
        ranges_sorted(r@),
    ensures
        b == in_ranges_spec(r@, cp),
{
    let mut lo: usize = 0;
    let mut hi: usize = r.len();
    while lo < hi
        invariant
            lo <= hi <= r@.len(),
            ranges_sorted(r@),
            forall|i: int| 0 <= i < lo ==> (#[trigger] r@[i]).1 < cp,
            forall|i: int| hi <= i < r@.len() ==> (#[trigger] r@[i]).0 > cp,
        decreases hi - lo,
    {
        let mid = lo + (hi - lo) / 2;
        let (a, z) = r[mid];
        if z < cp {
            proof {
                assert forall|i: int| 0 <= i < mid + 1 implies (#[trigger] r@[i]).1 < cp by {
                    if i < mid {
                        assert(r@[i].1 < r@[mid as int].0);
                    }
                }
            }
            lo = mid + 1;
        } else if a > cp {
            proof {
                assert forall|i: int| mid <= i < r@.len() implies (#[trigger] r@[i]).0 > cp by {
                    if i > mid {
                        assert(r@[mid as int].1 < r@[i].0);
                    }
                }
            }
            hi = mid;
        } else {
            return true;
        }
    }
    proof {
        assert forall|i: int| 0 <= i < r@.len() implies !((#[trigger] r@[i]).0 <= cp && cp <= r@[i].1) by {
            if i < lo {
            } else {
            }
        }
    }
    false
}

/// Number of columns a code point occupies: 0 for combining marks, 2 for wide East Asian
/// characters and emoji, 1 for everything else.
pub fn width(cp: u32) -> (w: usize)
    ensures
        w == width_spec(cp),
{
    proof { model::lemma_tables_sorted(); }
    if cp < 0x300 {
        1
    } else if in_ranges(&ZERO_W, cp) {
        0
    } else if in_ranges(&WIDE_W, cp) {
        2
    } else {
        1
    }
}

/// Appends the UTF-8 encoding of `cp` to `buf`; that of U+FFFD where `cp` is not a
/// Unicode scalar value.
pub fn encode_utf8(cp: u32, buf: &mut Vec<u8>)
    ensures
        final(buf)@ == old(buf)@ + encode_scalar(if is_scalar(cp) { cp } else { 0xfffd }),
{
    let c: u32 = if cp <= 0x10ffff && !(0xd800 <= cp && cp <= 0xdfff) { cp } else { 0xfffd };
    let ghost b0 = buf@;
    if c <= 0x7f {
        buf.push((c & 0x7f) as u8);
    } else if c <= 0x7ff {
        buf.push(0xc0u8 | ((c >> 6u32) & 0x1f) as u8);
        buf.push(0x80u8 | (c & 0x3f) as u8);
    } else if c <= 0xffff {
        buf.push(0xe0u8 | ((c >> 12u32) & 0x0f) as u8);
        buf.push(0x80u8 | ((c >> 6u32) & 0x3f) as u8);
        buf.push(0x80u8 | (c & 0x3f) as u8);
    } else {
        buf.push(0xf0u8 | ((c >> 18u32) & 0x7) as u8);
        buf.push(0x80u8 | ((c >> 12u32) & 0x3f) as u8);
        buf.push(0x80u8 | ((c >> 6u32) & 0x3f) as u8);
        buf.push(0x80u8 | (c & 0x3f) as u8);
    }
    proof { assert(buf@ =~= b0 + encode_scalar(c)); }
}

/// `String::from_utf8_lossy`: the characters of `b`, where every ill-formed part is
/// replaced by U+FFFD. Its result is named, not stated, here.
#[verifier::external_body]
pub(crate) fn lossy_chars(b: &[u8]) -> (r: Vec<char>)
    ensures
        r@ == lossy_utf8(b@),
{
    String::from_utf8_lossy(b).chars().collect()
}

/// `String::from_iter`: the string made of the characters of `v`, in order.
#[verifier::external_body]
pub(crate) fn string_from_chars(v: &Vec<char>) -> (s: String)
    ensures
        s@ == v@,
{
    String::from_iter(v.iter())
}

} // verus!
