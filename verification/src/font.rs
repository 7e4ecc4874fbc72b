//! The TrueType tables the terminal reads: the table directory, the character maps
//! (formats 4 and 12), horizontal metrics, glyph locations, and glyph outlines decoded
//! into integer points. Every read is bounds-checked; offsets are computed in `u64`.
use vstd::prelude::*;

pub mod contour;

verus! {

/// The byte at `o`.
pub open spec fn rd8_spec(d: Seq<u8>, o: int) -> Option<u8> {
    if 0 <= o < d.len() { Some(d[o]) } else { None }
}

/// The big-endian `u16` at `o`.
pub open spec fn rd16_spec(d: Seq<u8>, o: int) -> Option<u16> {
    if 0 <= o && o + 2 <= d.len() { Some((d[o] as int * 256 + d[o + 1] as int) as u16) } else { None }
}

/// The big-endian `i16` at `o`.
pub open spec fn rdi16_spec(d: Seq<u8>, o: int) -> Option<i16> {
    match rd16_spec(d, o) {
        Some(v) => Some(v as i16),
        None => None,
    }
}

/// The big-endian `u32` at `o`.
pub open spec fn rd32_spec(d: Seq<u8>, o: int) -> Option<u32> {
    if 0 <= o && o + 4 <= d.len() {
        Some((d[o] as int * 0x100_0000 + d[o + 1] as int * 0x1_0000 + d[o + 2] as int * 0x100 + d[o + 3] as int) as u32)
    } else {
        None
    }
}

fn rd8(d: &[u8], o: u64) -> (r: Option<u8>)
    ensures
        r == rd8_spec(d@, o as int),
{
    if o < d.len() as u64 { Some(d[o as usize]) } else { None }
}

fn rd16(d: &[u8], o: u64) -> (r: Option<u16>)
    ensures
        r == rd16_spec(d@, o as int),
{
    if o < d.len() as u64 && d.len() as u64 - o >= 2 {
        let i = o as usize;
        Some((d[i] as u16) * 256 + d[i + 1] as u16)
    } else {
        None
    }
}

fn rdi16(d: &[u8], o: u64) -> (r: Option<i16>)
    ensures
        r == rdi16_spec(d@, o as int),
{
    match rd16(d, o) {
        Some(v) => Some(v as i16),
        None => None,
    }
}

fn rd32(d: &[u8], o: u64) -> (r: Option<u32>)
    ensures
        r == rd32_spec(d@, o as int),
{
    if o < d.len() as u64 && d.len() as u64 - o >= 4 {
        let i = o as usize;
        Some((d[i] as u32) * 0x100_0000 + (d[i + 1] as u32) * 0x1_0000 + (d[i + 2] as u32) * 0x100 + d[i + 3] as u32)
    } else {
        None
    }
}

/// The offset of the table `tag` among the entries `i..n` of the directory: the first
/// entry with that tag whose offset can be read.
pub open spec fn find_table(d: Seq<u8>, n: int, tag: Seq<u8>, i: int) -> Option<u64>
    decreases n - i,
{
    if i >= n || i < 0 {
        None
    } else {
        let r = 12 + i * 16;
        if r + 4 <= d.len() && d.subrange(r, r + 4) == tag && rd32_spec(d, r + 8) is Some {
            Some(rd32_spec(d, r + 8)->0 as u64)
        } else {
            find_table(d, n, tag, i + 1)
        }
    }
}

/// The first character maps of formats 4 and 12 among the subtables `i..subs` of the
/// `cmap` table at `cmap`; none when a subtable record cannot be read.
pub open spec fn scan_cmaps(d: Seq<u8>, cmap: int, subs: int, i: int, c4: Option<u64>, c12: Option<u64>) -> Option<(Option<u64>, Option<u64>)>
    decreases subs - i,
{
    if i >= subs || i < 0 {
        Some((c4, c12))
    } else {
        match rd32_spec(d, cmap + 8 + i * 8) {
            None => None,
            Some(v) => {
                let off = cmap + v;
                match rd16_spec(d, off) {
                    None => None,
                    Some(fmt) => {
                        let n4 = if fmt == 4 && c4 is None { Some(off as u64) } else { c4 };
                        let n12 = if fmt == 12 && c12 is None { Some(off as u64) } else { c12 };
                        scan_cmaps(d, cmap, subs, i + 1, n4, n12)
                    },
                }
            },
        }
    }
}

pub open spec fn tag_head() -> Seq<u8> { seq![104u8, 101, 97, 100] }
pub open spec fn tag_hhea() -> Seq<u8> { seq![104u8, 104, 101, 97] }
pub open spec fn tag_maxp() -> Seq<u8> { seq![109u8, 97, 120, 112] }
pub open spec fn tag_cmap() -> Seq<u8> { seq![99u8, 109, 97, 112] }
pub open spec fn tag_glyf() -> Seq<u8> { seq![103u8, 108, 121, 102] }
pub open spec fn tag_loca() -> Seq<u8> { seq![108u8, 111, 99, 97] }
pub open spec fn tag_hmtx() -> Seq<u8> { seq![104u8, 109, 116, 120] }

/// What the terminal knows of a font.
pub struct FontV {
    pub data: Seq<u8>,
    pub glyf: u64,
    pub loca: u64,
    pub hmtx: u64,
    pub cmap4: Option<u64>,
    pub cmap12: Option<u64>,
    pub num_glyphs: u16,
    pub num_h_metrics: u16,
    pub long_loca: bool,
    pub units_per_em: u16,
    pub ascent: i16,
    pub descent: i16,
    pub line_gap: i16,
}

/// The font that the bytes `d` hold, if every table and field it needs can be read.
pub open spec fn parse_spec(d: Seq<u8>) -> Option<FontV> {
    match rd16_spec(d, 4) {
        None => None,
        Some(n) => {
            let head = find_table(d, n as int, tag_head(), 0);
            let hhea = find_table(d, n as int, tag_hhea(), 0);
            let maxp = find_table(d, n as int, tag_maxp(), 0);
            let cmap = find_table(d, n as int, tag_cmap(), 0);
            let glyf = find_table(d, n as int, tag_glyf(), 0);
            let loca = find_table(d, n as int, tag_loca(), 0);
            let hmtx = find_table(d, n as int, tag_hmtx(), 0);
            if head is None || hhea is None || maxp is None || cmap is None || glyf is None || loca is None || hmtx is None {
                None
            } else {
                let (head, hhea, maxp, cmap) = (head->0 as int, hhea->0 as int, maxp->0 as int, cmap->0 as int);
                let num_glyphs = rd16_spec(d, maxp + 4);
                let num_h_metrics = rd16_spec(d, hhea + 34);
                let index_format = rdi16_spec(d, head + 50);
                let units_per_em = rd16_spec(d, head + 18);
                let ascent = rdi16_spec(d, hhea + 4);
                let descent = rdi16_spec(d, hhea + 6);
                let line_gap = rdi16_spec(d, hhea + 8);
                let subs = rd16_spec(d, cmap + 2);
                if num_glyphs is None || num_h_metrics is None || index_format is None || units_per_em is None
                    || ascent is None || descent is None || line_gap is None || subs is None {
                    None
                } else {
                    match scan_cmaps(d, cmap, subs->0 as int, 0, None, None) {
                        None => None,
                        Some((c4, c12)) => Some(FontV {
                            data: d,
                            glyf: glyf->0,
                            loca: loca->0,
                            hmtx: hmtx->0,
                            cmap4: c4,
                            cmap12: c12,
                            num_glyphs: num_glyphs->0,
                            num_h_metrics: num_h_metrics->0,
                            long_loca: index_format->0 == 1,
                            units_per_em: units_per_em->0,
                            ascent: ascent->0,
                            descent: descent->0,
                            line_gap: line_gap->0,
                        }),
                    }
                }
            }
        },
    }
}

/// Outcome of the search of a format 12 character map.
pub enum Search12 {
    Found(u16),
    Broken,
    Absent,
}

/// Binary search of the groups `lo..hi` of the format 12 map at `o` for `cp`.
pub open spec fn search12(d: Seq<u8>, o: int, cp: u32, lo: int, hi: int) -> Search12
    decreases hi - lo,
{
    if lo >= hi || lo < 0 {
        Search12::Absent
    } else {
        let mid = (lo + hi) / 2;
        let g = o + 16 + mid * 12;
        match (rd32_spec(d, g), rd32_spec(d, g + 4)) {
            (Some(start), Some(end)) => {
                if cp < start {
                    search12(d, o, cp, lo, mid)
                } else if cp > end {
                    search12(d, o, cp, mid + 1, hi)
                } else {
                    Search12::Found(match rd32_spec(d, g + 8) {
                        None => 0u16,
                        Some(sg) => ((sg as int + (cp - start)) % 0x1_0000) as u16,
                    })
                }
            },
            _ => Search12::Broken,
        }
    }
}

/// Last code point of segment `k` of the format 4 map at `o` (with `segx2` twice the
/// number of segments); 0 where it cannot be read.
pub open spec fn end4(d: Seq<u8>, o: int, k: int) -> u16 {
    match rd16_spec(d, o + 14 + k * 2) { Some(v) => v, None => 0u16 }
}

/// The glyph that segment `k` of the format 4 map at `o` gives `cp16`, a code point no
/// later than the segment's end: none before the segment's start, else by the segment's
/// delta, directly or through its range of glyph ids.
pub open spec fn seg4(d: Seq<u8>, o: int, segx2: int, cp16: u16, k: int) -> u16 {
    let i = k * 2;
    let ends = o + 14;
    let starts = ends + segx2 + 2;
    let deltas = starts + segx2;
    let ranges = deltas + segx2;
    let start = match rd16_spec(d, starts + i) { Some(v) => v, None => 0xffffu16 };
    if cp16 < start {
        0
    } else {
        let delta = match rd16_spec(d, deltas + i) { Some(v) => v, None => 0u16 };
        let range = match rd16_spec(d, ranges + i) { Some(v) => v, None => 0u16 };
        if range == 0 {
            ((cp16 as int + delta as int) % 0x1_0000) as u16
        } else {
            let addr = ranges + i + range + 2 * (cp16 - start);
            let g = match rd16_spec(d, addr) { Some(v) => v, None => 0u16 };
            if g == 0 { 0 } else { ((g as int + delta as int) % 0x1_0000) as u16 }
        }
    }
}

/// The glyph of `cp16` in the segments `k..count` of the format 4 map at `o`: the first
/// segment whose end reaches it decides.
pub open spec fn scan4(d: Seq<u8>, o: int, segx2: int, cp16: u16, k: int, count: int) -> u16
    decreases count - k,
{
    if k >= count || k < 0 {
        0
    } else if cp16 > end4(d, o, k) {
        scan4(d, o, segx2, cp16, k + 1, count)
    } else {
        seg4(d, o, segx2, cp16, k)
    }
}

/// The glyph of `cp`: from the format 12 map where it has `cp`, else from the format 4
/// map for the Basic Multilingual Plane, else 0.
pub open spec fn glyph_index_spec(f: FontV, cp: u32) -> u16 {
    let r12 = match f.cmap12 {
        None => Search12::Absent,
        Some(o) => {
            let n = match rd32_spec(f.data, o + 12) { Some(v) => v, None => 0u32 };
            search12(f.data, o as int, cp, 0, n as int)
        },
    };
    match r12 {
        Search12::Found(g) => g,
        Search12::Broken => 0,
        Search12::Absent => {
            if cp > 0xffff {
                0
            } else {
                match f.cmap4 {
                    None => 0,
                    Some(o) => {
                        let segx2 = match rd16_spec(f.data, o + 6) { Some(v) => v, None => 0u16 };
                        scan4(f.data, o as int, segx2 as int, cp as u16, 0, segx2 as int / 2)
                    },
                }
            }
        },
    }
}

/// The advance width of glyph `gi`: the last metric stands for the glyphs past the
/// metrics table; half an em where it cannot be read.
pub open spec fn advance_spec(f: FontV, gi: u16) -> u16 {
    let last: int = if f.num_h_metrics >= 1 { f.num_h_metrics - 1 } else { 0 };
    let i: int = if gi < last { gi as int } else { last };
    match rd16_spec(f.data, f.hmtx + i * 4) {
        Some(v) => v,
        None => (f.units_per_em / 2) as u16,
    }
}

/// Where glyph `gi`'s outline lies in the font, if it has one.
pub open spec fn glyf_range_spec(f: FontV, gi: u16) -> Option<(u64, u64)> {
    if gi >= f.num_glyphs {
        None
    } else {
        let i = gi as int;
        let ab: Option<(int, int)> = if f.long_loca {
            match (rd32_spec(f.data, f.loca + i * 4), rd32_spec(f.data, f.loca + i * 4 + 4)) {
                (Some(a), Some(b)) => Some((a as int, b as int)),
                _ => None,
            }
        } else {
            match (rd16_spec(f.data, f.loca + i * 2), rd16_spec(f.data, f.loca + i * 2 + 2)) {
                (Some(a), Some(b)) => Some((a as int * 2, b as int * 2)),
                _ => None,
            }
        };
        match ab {
            Some((a, b)) => if a < b { Some(((f.glyf + a) as u64, (f.glyf + b) as u64)) } else { None },
            None => None,
        }
    }
}

/// The flags of a simple glyph's points from offset `o` on, after `acc`: each flag byte,
/// repeated as its repeat byte says, until there are at least `npts`; with the offset
/// after them.
pub open spec fn read_flags(d: Seq<u8>, o: int, npts: int, acc: Seq<u8>) -> Option<(Seq<u8>, int)>
    decreases (if npts > acc.len() { npts - acc.len() } else { 0 }),
{
    if acc.len() >= npts {
        Some((acc, o))
    } else {
        match rd8_spec(d, o) {
            None => None,
            Some(f) => if f & 8 != 0 {
                match rd8_spec(d, o + 1) {
                    None => None,
                    Some(rep) => {
                        let more = acc + Seq::new(rep as nat + 1, |j: int| f);
                        proof { assert(more.len() == acc.len() + rep + 1); }
                        read_flags(d, o + 2, npts, more)
                    },
                }
            } else {
                read_flags(d, o + 1, npts, acc.push(f))
            },
        }
    }
}

proof fn lemma_read_flags_len(d: Seq<u8>, o: int, npts: int, acc: Seq<u8>)
    ensures
        read_flags(d, o, npts, acc) matches Some((g, _p)) ==> g.len() >= npts && g.len() >= acc.len(),
    decreases (if npts > acc.len() { npts - acc.len() } else { 0 }),
{
    if acc.len() >= npts {
    } else {
        match rd8_spec(d, o) {
            None => {},
            Some(f) => if f & 8 != 0 {
                match rd8_spec(d, o + 1) {
                    None => {},
                    Some(rep) => {
                        let more = acc + Seq::new(rep as nat + 1, |j: int| f);
                        assert(more.len() == acc.len() + rep + 1);
                        lemma_read_flags_len(d, o + 2, npts, more);
                    },
                }
            } else {
                lemma_read_flags_len(d, o + 1, npts, acc.push(f));
            },
        }
    }
}

/// One coordinate of the points `i..` of a simple glyph from offset `o` on, starting from
/// `v`: `short` marks a one-byte delta whose sign `same` gives, else `same` marks an
/// unchanged coordinate, else a two-byte delta follows. With the offset after them.
pub open spec fn read_coords(d: Seq<u8>, flags: Seq<u8>, i: int, o: int, v: int, short: u8, same: u8) -> Option<(Seq<i64>, int)>
    decreases flags.len() - i,
{
    if i >= flags.len() || i < 0 {
        Some((Seq::empty(), o))
    } else {
        let f = flags[i];
        if f & short != 0 {
            match rd8_spec(d, o) {
                None => None,
                Some(b) => {
                    let v2 = if f & same != 0 { v + b } else { v - b };
                    match read_coords(d, flags, i + 1, o + 1, v2, short, same) {
                        None => None,
                        Some((r, o2)) => Some((seq![v2 as i64] + r, o2)),
                    }
                },
            }
        } else if f & same == 0 {
            match rdi16_spec(d, o) {
                None => None,
                Some(w) => {
                    let v2 = v + w;
                    match read_coords(d, flags, i + 1, o + 2, v2, short, same) {
                        None => None,
                        Some((r, o2)) => Some((seq![v2 as i64] + r, o2)),
                    }
                },
            }
        } else {
            match read_coords(d, flags, i + 1, o, v, short, same) {
                None => None,
                Some((r, o2)) => Some((seq![v as i64] + r, o2)),
            }
        }
    }
}

/// The points of a simple glyph: where each contour ends, each point's flags and its
/// coordinates in font units.
pub struct OutlineV {
    pub ends: Seq<usize>,
    pub flags: Seq<u8>,
    pub xs: Seq<i64>,
    pub ys: Seq<i64>,
}

/// The simple glyph with `ncont` contours at offset `off`, if all of it can be read.
pub open spec fn simple_spec(d: Seq<u8>, off: int, ncont: int) -> Option<OutlineV> {
    match rd16_spec(d, off + 10 + (ncont - 1) * 2) {
        None => None,
        Some(last) => {
            let npts = last as int + 1;
            let ends_ok = forall|i: int| 0 <= i < ncont ==> (#[trigger] rd16_spec(d, off + 10 + i * 2)) is Some;
            match rd16_spec(d, off + 10 + ncont * 2) {
                None => None,
                Some(ins) => if !ends_ok {
                    None
                } else {
                    match read_flags(d, off + 12 + ncont * 2 + ins, npts, Seq::empty()) {
                        None => None,
                        Some((fl, o2)) => {
                            let flags = fl.take(npts);
                            match read_coords(d, flags, 0, o2, 0, 2, 16) {
                                None => None,
                                Some((xs, o3)) => match read_coords(d, flags, 0, o3, 0, 4, 32) {
                                    None => None,
                                    Some((ys, _o4)) => Some(OutlineV {
                                        ends: Seq::new(ncont as nat, |i: int| rd16_spec(d, off + 10 + i * 2)->0 as usize),
                                        flags,
                                        xs,
                                        ys,
                                    }),
                                },
                            }
                        },
                    }
                },
            }
        },
    }
}

/// One component of a composite glyph: its flags, its glyph, its offset, its 2x2
/// transform in 2.14 fixed point, and where the next component starts.
pub struct Component {
    pub flags: u16,
    pub glyph: u16,
    pub dx: i16,
    pub dy: i16,
    pub m: (i16, i16, i16, i16),
    pub next: u64,
}

/// The component of a composite glyph at offset `o`; its offset and transform read as
/// 0 where out of bounds.
pub open spec fn component_spec(d: Seq<u8>, o: int) -> Option<Component> {
    match (rd16_spec(d, o), rd16_spec(d, o + 2)) {
        (Some(flags), Some(glyph)) => {
            let o1 = o + 4;
            let w = |k: int| match rdi16_spec(d, k) { Some(v) => v, None => 0i16 };
            let b = |k: int| match rd8_spec(d, k) { Some(v) => v as i8 as i16, None => 0i16 };
            let (dx, dy, o2) = if flags & 1 != 0 { (w(o1), w(o1 + 2), o1 + 4) } else { (b(o1), b(o1 + 1), o1 + 2) };
            let (m, o3) = if flags & 8 != 0 {
                ((w(o2), 0i16, 0i16, w(o2)), o2 + 2)
            } else if flags & 0x40 != 0 {
                ((w(o2), 0i16, 0i16, w(o2 + 2)), o2 + 4)
            } else if flags & 0x80 != 0 {
                ((w(o2), w(o2 + 2), w(o2 + 4), w(o2 + 6)), o2 + 8)
            } else {
                ((0x4000i16, 0i16, 0i16, 0x4000i16), o2)
            };
            Some(Component { flags, glyph, dx, dy, m, next: o3 as u64 })
        },
        _ => None,
    }
}

/// A parsed font over the bytes of a TrueType file.
pub struct Font {
    data: &'static [u8],
    glyf: u64,
    loca: u64,
    hmtx: u64,
    cmap4: Option<u64>,
    cmap12: Option<u64>,
    pub num_glyphs: u16,
    num_h_metrics: u16,
    long_loca: bool,
    pub units_per_em: u16,
    pub ascent: i16,
    pub descent: i16,
    pub line_gap: i16,
}

impl View for Font {
    type V = FontV;

    closed spec fn view(&self) -> FontV {
        FontV {
            data: self.data@,
            glyf: self.glyf,
            loca: self.loca,
            hmtx: self.hmtx,
            cmap4: self.cmap4,
            cmap12: self.cmap12,
            num_glyphs: self.num_glyphs,
            num_h_metrics: self.num_h_metrics,
            long_loca: self.long_loca,
            units_per_em: self.units_per_em,
            ascent: self.ascent,
            descent: self.descent,
            line_gap: self.line_gap,
        }
    }
}

/// Offsets small enough that the reads of the font cannot overflow a `u64`.
pub open spec fn offsets_ok(f: FontV) -> bool {
    &&& f.glyf <= u32::MAX
    &&& f.loca <= u32::MAX
    &&& f.hmtx <= u32::MAX
    &&& (f.cmap4 matches Some(o) ==> o <= 2 * (u32::MAX as int))
    &&& (f.cmap12 matches Some(o) ==> o <= 2 * (u32::MAX as int))
}

pub proof fn lemma_scan_cmaps_bounds(d: Seq<u8>, cmap: int, subs: int, i: int, c4: Option<u64>, c12: Option<u64>)
    requires
        0 <= cmap <= u32::MAX,
        c4 matches Some(o) ==> o <= 2 * (u32::MAX as int),
        c12 matches Some(o) ==> o <= 2 * (u32::MAX as int),
    ensures
        scan_cmaps(d, cmap, subs, i, c4, c12) matches Some((a, b)) ==> (a matches Some(o) ==> o <= 2 * (u32::MAX as int)) && (b matches Some(o) ==> o <= 2 * (u32::MAX as int)),
    decreases subs - i,
{
    if i >= subs || i < 0 {
    } else {
        match rd32_spec(d, cmap + 8 + i * 8) {
            None => {},
            Some(v) => {
                let off = cmap + v;
                match rd16_spec(d, off) {
                    None => {},
                    Some(fmt) => {
                        let n4 = if fmt == 4 && c4 is None { Some(off as u64) } else { c4 };
                        let n12 = if fmt == 12 && c12 is None { Some(off as u64) } else { c12 };
                        lemma_scan_cmaps_bounds(d, cmap, subs, i + 1, n4, n12);
                    },
                }
            },
        }
    }
}

proof fn lemma_find_table_bound(d: Seq<u8>, n: int, tag: Seq<u8>, i: int)
    ensures
        find_table(d, n, tag, i) matches Some(o) ==> o <= u32::MAX,
    decreases n - i,
{
    if i >= n || i < 0 {
    } else {
        let r = 12 + i * 16;
        if r + 4 <= d.len() && d.subrange(r, r + 4) == tag && rd32_spec(d, r + 8) is Some {
        } else {
            lemma_find_table_bound(d, n, tag, i + 1);
        }
    }
}

/// The offset of the table `tag` in the directory of `n` entries.
fn table_offset(d: &[u8], n: u16, tag: &[u8; 4]) -> (r: Option<u64>)
    ensures
        r == find_table(d@, n as int, tag@, 0),
        r matches Some(o) ==> o <= u32::MAX,
{
    proof { lemma_find_table_bound(d@, n as int, tag@, 0); }
    let mut i: u64 = 0;
    while i < n as u64
        invariant
            i <= n,
            find_table(d@, n as int, tag@, i as int) == find_table(d@, n as int, tag@, 0),
        decreases n - i,
    {
        let r = 12 + i * 16;
        let mut same = r < d.len() as u64 && d.len() as u64 - r >= 4;
        if same {
            let k = r as usize;
            same = d[k] == tag[0] && d[k + 1] == tag[1] && d[k + 2] == tag[2] && d[k + 3] == tag[3];
            proof {
                if same {
                    assert(d@.subrange(r as int, r + 4) =~= tag@);
                } else {
                    assert(d@.subrange(r as int, r + 4) != tag@) by {
                        if d@.subrange(r as int, r + 4) == tag@ {
                            assert(d@.subrange(r as int, r + 4)[0] == d@[k as int]);
                            assert(d@.subrange(r as int, r + 4)[1] == d@[k + 1]);
                            assert(d@.subrange(r as int, r + 4)[2] == d@[k + 2]);
                            assert(d@.subrange(r as int, r + 4)[3] == d@[k + 3]);
                        }
                    }
                }
            }
        }
        if same {
            match rd32(d, r + 8) {
                Some(o) => { return Some(o as u64); }
                None => {}
            }
        }
        i = i + 1;
    }
    None
}

/// The search of the format 12 map at `o` for `cp`.
fn search_cmap12(d: &[u8], o: u64, cp: u32) -> (r: Search12)
    requires
        o <= 2 * (u32::MAX as int),
    ensures
        r == search12(d@, o as int, cp, 0, (match rd32_spec(d@, o + 12) { Some(v) => v, None => 0u32 }) as int),
{
    let n: u64 = match rd32(d, o + 12) { Some(v) => v as u64, None => 0 };
    let mut lo: u64 = 0;
    let mut hi: u64 = n;
    while lo < hi
        invariant
            lo <= hi <= n <= u32::MAX,
            o <= 2 * (u32::MAX as int),
            n == (match rd32_spec(d@, o + 12) { Some(v) => v, None => 0u32 }),
            search12(d@, o as int, cp, lo as int, hi as int) == search12(d@, o as int, cp, 0, n as int),
        decreases hi - lo,
    {
        let mid = (lo + hi) / 2;
        let g = o + 16 + mid * 12;
        let s = rd32(d, g);
        let e = rd32(d, g + 4);
        if s.is_none() || e.is_none() {
            return Search12::Broken;
        }
        let start = s.unwrap();
        let end = e.unwrap();
        if cp < start {
            hi = mid;
        } else if cp > end {
            lo = mid + 1;
        } else {
            let v = match rd32(d, g + 8) {
                None => 0,
                Some(sg) => ((sg as u64 + (cp - start) as u64) % 0x1_0000) as u16,
            };
            return Search12::Found(v);
        }
    }
    Search12::Absent
}

/// The glyph of `cp16` in the format 4 map at `o`.
fn scan_cmap4(d: &[u8], o: u64, cp16: u16) -> (g: u16)
    requires
        o <= 2 * (u32::MAX as int),
    ensures
        ({
            let segx2 = match rd16_spec(d@, o + 6) { Some(v) => v, None => 0u16 };
            g == scan4(d@, o as int, segx2 as int, cp16, 0, segx2 as int / 2)
        }),
{
    let segx2: u64 = match rd16(d, o + 6) { Some(v) => v as u64, None => 0 };
    let ends = o + 14;
    let starts = ends + segx2 + 2;
    let deltas = starts + segx2;
    let ranges = deltas + segx2;
    let count = segx2 / 2;
    let mut k: u64 = 0;
    while k < count
        invariant
            k <= count,
            count == segx2 / 2,
            segx2 <= u16::MAX,
            segx2 == (match rd16_spec(d@, o + 6) { Some(v) => v, None => 0u16 }),
            o <= 2 * (u32::MAX as int),
            ends == o + 14,
            starts == ends + segx2 + 2,
            deltas == starts + segx2,
            ranges == deltas + segx2,
            scan4(d@, o as int, segx2 as int, cp16, k as int, count as int) == scan4(d@, o as int, segx2 as int, cp16, 0, count as int),
        decreases count - k,
    {
        let i = k * 2;
        let end = match rd16(d, ends + i) { Some(v) => v, None => 0 };
        if cp16 > end {
            k = k + 1;
        } else {
            let start = match rd16(d, starts + i) { Some(v) => v, None => 0xffff };
            if cp16 < start {
                return 0;
            }
            let delta = match rd16(d, deltas + i) { Some(v) => v, None => 0 };
            let range = match rd16(d, ranges + i) { Some(v) => v, None => 0 };
            if range == 0 {
                return ((cp16 as u32 + delta as u32) % 0x1_0000) as u16;
            }
            let addr = ranges + i + range as u64 + 2 * (cp16 - start) as u64;
            let g = match rd16(d, addr) { Some(v) => v, None => 0 };
            return if g == 0 { 0 } else { ((g as u32 + delta as u32) % 0x1_0000) as u16 };
        }
    }
    0
}

fn word_or_zero(d: &[u8], o: u64) -> (r: i16)
    ensures
        r == (match rdi16_spec(d@, o as int) { Some(v) => v, None => 0i16 }),
{
    match rdi16(d, o) { Some(v) => v, None => 0 }
}

fn byte_or_zero(d: &[u8], o: u64) -> (r: i16)
    ensures
        r == (match rd8_spec(d@, o as int) { Some(v) => v as i8 as i16, None => 0i16 }),
{
    match rd8(d, o) { Some(v) => v as i8 as i16, None => 0 }
}

/// The points of a simple glyph.
pub struct Outline {
    pub ends: Vec<usize>,
    pub flags: Vec<u8>,
    pub xs: Vec<i64>,
    pub ys: Vec<i64>,
}

impl View for Outline {
    type V = OutlineV;

    open spec fn view(&self) -> OutlineV {
        OutlineV { ends: self.ends@, flags: self.flags@, xs: self.xs@, ys: self.ys@ }
    }
}

/// The flags of `npts` points from offset `o` on, and the offset after them.
fn flags_at(d: &[u8], o: u64, npts: u64) -> (r: Option<(Vec<u8>, u64)>)
    requires
        o <= 0x3_0000_0000,
        npts <= 0x1_0000,
    ensures
        match r {
            None => read_flags(d@, o as int, npts as int, Seq::empty()) is None,
            Some((f, o2)) => read_flags(d@, o as int, npts as int, Seq::empty()) matches Some((g, p))
                && f@ == g.take(npts as int) && o2 == p && o2 <= 0x3_0003_0000 && f@.len() == npts,
        },
{
    proof { lemma_read_flags_len(d@, o as int, npts as int, Seq::empty()); }
    let mut flags: Vec<u8> = Vec::new();
    let mut p = o;
    while (flags.len() as u64) < npts
        invariant
            o <= p <= o + 2 * flags@.len(),
            flags@.len() <= npts + 256,
            npts <= 0x1_0000,
            o <= 0x3_0000_0000,
            read_flags(d@, p as int, npts as int, flags@) == read_flags(d@, o as int, npts as int, Seq::empty()),
        decreases npts + 256 - flags@.len(),
    {
        let ghost acc0 = flags@;
        let ghost p0 = p as int;
        let f = match rd8(d, p) { Some(f) => f, None => { return None; } };
        p = p + 1;
        flags.push(f);
        if f & 8 != 0 {
            let ghost before = flags@;
            let rep = match rd8(d, p) { Some(r) => r, None => { return None; } };
            p = p + 1;
            let mut k: u8 = 0;
            while k < rep
                invariant
                    k <= rep,
                    flags@ == before + Seq::new(k as nat, |j: int| f),
                decreases rep - k,
            {
                flags.push(f);
                k = k + 1;
                proof { assert(flags@ =~= before + Seq::new(k as nat, |j: int| f)); }
            }
            proof {
                assert(before.drop_last() =~= acc0);
                assert(flags@ =~= acc0 + Seq::new(rep as nat + 1, |j: int| f));
                assert(read_flags(d@, p0, npts as int, acc0) == read_flags(d@, p0 + 2, npts as int, acc0 + Seq::new(rep as nat + 1, |j: int| f)));
            }
        } else {
            proof { assert(read_flags(d@, p0, npts as int, acc0) == read_flags(d@, p0 + 1, npts as int, acc0.push(f))); }
        }
    }
    proof { lemma_read_flags_len(d@, p as int, npts as int, flags@); }
    let ghost full = flags@;
    proof { assert(read_flags(d@, p as int, npts as int, full) == Some((full, p as int))); }
    flags.truncate(npts as usize);
    proof { assert(flags@ =~= full.take(npts as int)); }
    Some((flags, p))
}

/// One coordinate of each point, by the flag bits `short` and `same`, from offset `o` on;
/// and the offset after them.
fn coords_at(d: &[u8], flags: &Vec<u8>, o: u64, short: u8, same: u8) -> (r: Option<(Vec<i64>, u64)>)
    requires
        o <= 0x4_0000_0000,
        flags@.len() <= 0x1_0000,
    ensures
        match r {
            None => read_coords(d@, flags@, 0, o as int, 0, short, same) is None,
            Some((v, o2)) => read_coords(d@, flags@, 0, o as int, 0, short, same) == Some((v@, o2 as int))
                && o2 <= o + 2 * flags@.len(),
        },
{
    let mut out: Vec<i64> = Vec::new();
    let mut p = o;
    let mut v: i64 = 0;
    let mut i: usize = 0;
    while i < flags.len()
        invariant
            i <= flags@.len() <= 0x1_0000,
            out@.len() == i,
            o <= p <= o + 2 * i,
            -0x8000 * i <= v <= 0x8000 * i,
            o <= 0x4_0000_0000,
            read_coords(d@, flags@, 0, o as int, 0, short, same) == (match read_coords(d@, flags@, i as int, p as int, v as int, short, same) {
                None => None,
                Some((r, o2)) => Some((out@ + r, o2)),
            }),
        decreases flags@.len() - i,
    {
        let f = flags[i];
        let ghost o0 = out@;
        if f & short != 0 {
            let b = match rd8(d, p) { Some(b) => b, None => { return None; } };
            p = p + 1;
            v = if f & same != 0 { v + b as i64 } else { v - b as i64 };
        } else if f & same == 0 {
            let w = match rdi16(d, p) { Some(w) => w, None => { return None; } };
            p = p + 2;
            v = v + w as i64;
        }
        out.push(v);
        i = i + 1;
        proof {
            let rest = read_coords(d@, flags@, i as int, p as int, v as int, short, same);
            match rest {
                None => {},
                Some((r, o2)) => { assert(o0 + (seq![v] + r) =~= out@ + r); },
            }
        }
    }
    proof { assert(out@ + Seq::<i64>::empty() =~= out@); }
    Some((out, p))
}

impl Font {
    /// The font in the bytes of a TrueType file; none when a table or field it needs is
    /// missing or out of bounds.
    pub fn parse(data: &'static [u8]) -> (r: Option<Font>)
        ensures
            match r {
                None => parse_spec(data@) is None,
                Some(f) => parse_spec(data@) == Some(f@) && offsets_ok(f@),
            },
    {
        let n = match rd16(data, 4) { Some(n) => n, None => { return None; } };
        let t_head = [104u8, 101, 97, 100];
        proof { assert(t_head@ =~= tag_head()); }
        let head = match table_offset(data, n, &t_head) { Some(o) => o, None => { return None; } };
        let t_hhea = [104u8, 104, 101, 97];
        proof { assert(t_hhea@ =~= tag_hhea()); }
        let hhea = match table_offset(data, n, &t_hhea) { Some(o) => o, None => { return None; } };
        let t_maxp = [109u8, 97, 120, 112];
        proof { assert(t_maxp@ =~= tag_maxp()); }
        let maxp = match table_offset(data, n, &t_maxp) { Some(o) => o, None => { return None; } };
        let t_cmap = [99u8, 109, 97, 112];
        proof { assert(t_cmap@ =~= tag_cmap()); }
        let cmap = match table_offset(data, n, &t_cmap) { Some(o) => o, None => { return None; } };
        let t_glyf = [103u8, 108, 121, 102];
        proof { assert(t_glyf@ =~= tag_glyf()); }
        let glyf = match table_offset(data, n, &t_glyf) { Some(o) => o, None => { return None; } };
        let t_loca = [108u8, 111, 99, 97];
        proof { assert(t_loca@ =~= tag_loca()); }
        let loca = match table_offset(data, n, &t_loca) { Some(o) => o, None => { return None; } };
        let t_hmtx = [104u8, 109, 116, 120];
        proof { assert(t_hmtx@ =~= tag_hmtx()); }
        let hmtx = match table_offset(data, n, &t_hmtx) { Some(o) => o, None => { return None; } };
        let num_glyphs = match rd16(data, maxp + 4) { Some(v) => v, None => { return None; } };
        let num_h_metrics = match rd16(data, hhea + 34) { Some(v) => v, None => { return None; } };
        let index_format = match rdi16(data, head + 50) { Some(v) => v, None => { return None; } };
        let units_per_em = match rd16(data, head + 18) { Some(v) => v, None => { return None; } };
        let ascent = match rdi16(data, hhea + 4) { Some(v) => v, None => { return None; } };
        let descent = match rdi16(data, hhea + 6) { Some(v) => v, None => { return None; } };
        let line_gap = match rdi16(data, hhea + 8) { Some(v) => v, None => { return None; } };
        let subs = match rd16(data, cmap + 2) { Some(v) => v, None => { return None; } };
        let mut cmap4: Option<u64> = None;
        let mut cmap12: Option<u64> = None;
        let mut i: u64 = 0;
        proof {
            assert(scan_cmaps(data@, cmap as int, subs as int, 0, None, None) is None ==> parse_spec(data@) is None);
        }
        while i < subs as u64
            invariant
                scan_cmaps(data@, cmap as int, subs as int, 0, None, None) is None ==> parse_spec(data@) is None,
                i <= subs,
                cmap <= u32::MAX,
                cmap4 matches Some(o) ==> o <= 2 * (u32::MAX as int),
                cmap12 matches Some(o) ==> o <= 2 * (u32::MAX as int),
                scan_cmaps(data@, cmap as int, subs as int, i as int, cmap4, cmap12) == scan_cmaps(data@, cmap as int, subs as int, 0, None, None),
            decreases subs - i,
        {
            let v = match rd32(data, cmap + 8 + i * 8) { Some(v) => v, None => { return None; } };
            let off = cmap + v as u64;
            let fmt = match rd16(data, off) { Some(f) => f, None => { return None; } };
            if fmt == 4 && cmap4.is_none() {
                cmap4 = Some(off);
            }
            if fmt == 12 && cmap12.is_none() {
                cmap12 = Some(off);
            }
            i = i + 1;
        }
        let f = Font {
            data,
            glyf,
            loca,
            hmtx,
            cmap4,
            cmap12,
            num_glyphs,
            num_h_metrics,
            long_loca: index_format == 1,
            units_per_em,
            ascent,
            descent,
            line_gap,
        };
        proof {
            assert(parse_spec(data@) == Some(f@));
        }
        Some(f)
    }

    /// How many glyphs the font has.
    pub(crate) fn glyph_count(&self) -> (n: u16)
        ensures
            n == self@.num_glyphs,
    {
        self.num_glyphs
    }

    /// The glyph that the character maps give for `cp`: from the format 12 map where it
    /// has `cp`, else from the format 4 map for the Basic Multilingual Plane, else 0.
    pub fn glyph_index(&self, cp: u32) -> (g: u16)
        requires
            offsets_ok(self@),
        ensures
            g == glyph_index_spec(self@, cp),
    {
        let d = self.data;
        let r12 = match self.cmap12 {
            Some(o) => search_cmap12(d, o, cp),
            None => Search12::Absent,
        };
        match r12 {
            Search12::Found(g) => g,
            Search12::Broken => 0,
            Search12::Absent => {
                if cp > 0xffff {
                    0
                } else {
                    match self.cmap4 {
                        Some(o) => scan_cmap4(d, o, cp as u16),
                        None => 0,
                    }
                }
            },
        }
    }

    /// The advance width of glyph `gi`.
    pub fn advance(&self, gi: u16) -> (a: u16)
        requires
            offsets_ok(self@),
        ensures
            a == advance_spec(self@, gi),
    {
        let last = if self.num_h_metrics >= 1 { self.num_h_metrics - 1 } else { 0 };
        let i = if gi < last { gi } else { last };
        match rd16(self.data, self.hmtx + i as u64 * 4) {
            Some(v) => v,
            None => self.units_per_em / 2,
        }
    }

    /// Where the outline of glyph `gi` lies in the font, if it has one.
    pub fn glyf_range(&self, gi: u16) -> (r: Option<(u64, u64)>)
        requires
            offsets_ok(self@),
        ensures
            r == glyf_range_spec(self@, gi),
    {
        if gi >= self.num_glyphs {
            return None;
        }
        let d = self.data;
        let i = gi as u64;
        let (a, b): (u64, u64) = if self.long_loca {
            match (rd32(d, self.loca + i * 4), rd32(d, self.loca + i * 4 + 4)) {
                (Some(a), Some(b)) => (a as u64, b as u64),
                _ => { return None; }
            }
        } else {
            match (rd16(d, self.loca + i * 2), rd16(d, self.loca + i * 2 + 2)) {
                (Some(a), Some(b)) => (a as u64 * 2, b as u64 * 2),
                _ => { return None; }
            }
        };
        if a < b { Some((self.glyf + a, self.glyf + b)) } else { None }
    }

    /// The number of contours in the glyph header at `off`: a simple glyph has at least
    /// none, a composite one a negative number.
    pub fn contours(&self, off: u64) -> (r: Option<i16>)
        ensures
            r == rdi16_spec(self@.data, off as int),
    {
        rdi16(self.data, off)
    }

    /// The component of a composite glyph at offset `o`.
    pub fn component(&self, o: u64) -> (r: Option<Component>)
        requires
            o <= u64::MAX - 16,
        ensures
            r == component_spec(self@.data, o as int),
    {
        let d = self.data;
        let flags = match rd16(d, o) { Some(v) => v, None => { return None; } };
        let glyph = match rd16(d, o + 2) { Some(v) => v, None => { return None; } };
        let o1 = o + 4;
        let (dx, dy, o2) = if flags & 1 != 0 {
            (word_or_zero(d, o1), word_or_zero(d, o1 + 2), o1 + 4)
        } else {
            (byte_or_zero(d, o1), byte_or_zero(d, o1 + 1), o1 + 2)
        };
        let (m, o3) = if flags & 8 != 0 {
            let s = word_or_zero(d, o2);
            ((s, 0i16, 0i16, s), o2 + 2)
        } else if flags & 0x40 != 0 {
            ((word_or_zero(d, o2), 0i16, 0i16, word_or_zero(d, o2 + 2)), o2 + 4)
        } else if flags & 0x80 != 0 {
            ((word_or_zero(d, o2), word_or_zero(d, o2 + 2), word_or_zero(d, o2 + 4), word_or_zero(d, o2 + 6)), o2 + 8)
        } else {
            ((0x4000i16, 0i16, 0i16, 0x4000i16), o2)
        };
        Some(Component { flags, glyph, dx, dy, m, next: o3 })
    }

    /// The points of the simple glyph with `ncont` contours at offset `off`, if all of it
    /// can be read.
    pub fn simple_points(&self, off: u64, ncont: u16) -> (r: Option<Outline>)
        requires
            ncont >= 1,
            off <= u32::MAX,
        ensures
            match r {
                None => simple_spec(self@.data, off as int, ncont as int) is None,
                Some(p) => simple_spec(self@.data, off as int, ncont as int) == Some(p@),
            },
    {
        let d = self.data;
        let nc = ncont as u64;
        let last = match rd16(d, off + 10 + (nc - 1) * 2) { Some(v) => v, None => { return None; } };
        let npts: u64 = last as u64 + 1;
        let mut ends: Vec<usize> = Vec::new();
        let mut i: u64 = 0;
        while i < nc
            invariant
                i <= nc,
                nc == ncont,
                off <= u32::MAX,
                rd16_spec(d@, off + 10 + (nc - 1) * 2) == Some(last),
                ends@.len() == i,
                forall|k: int| 0 <= k < i ==> (#[trigger] rd16_spec(d@, off + 10 + k * 2)) is Some,
                forall|k: int| 0 <= k < i ==> ends@[k] == rd16_spec(d@, off + 10 + k * 2)->0 as usize,
            decreases nc - i,
        {
            match rd16(d, off + 10 + i * 2) {
                Some(e) => { ends.push(e as usize); }
                None => { return None; }
            }
            i = i + 1;
        }
        let ins = match rd16(d, off + 10 + nc * 2) { Some(v) => v as u64, None => { return None; } };
        let (flags, o2) = match flags_at(d, off + 12 + nc * 2 + ins, npts) { Some(r) => r, None => { return None; } };
        let (xs, o3) = match coords_at(d, &flags, o2, 2, 16) { Some(r) => r, None => { return None; } };
        let (ys, _o4) = match coords_at(d, &flags, o3, 4, 32) { Some(r) => r, None => { return None; } };
        proof {
            assert(ends@ =~= Seq::new(ncont as nat, |k: int| rd16_spec(d@, off + 10 + k * 2)->0 as usize));
        }
        Some(Outline { ends, flags, xs, ys })
    }
}

/// First code point of group `i` of the format 12 map at `o`.
pub open spec fn start12(d: Seq<u8>, o: int, i: int) -> u32 {
    rd32_spec(d, o + 16 + i * 12)->0
}

/// Last code point of group `i` of the format 12 map at `o`.
pub open spec fn end12(d: Seq<u8>, o: int, i: int) -> u32 {
    rd32_spec(d, o + 16 + i * 12 + 4)->0
}

/// Glyph of the first code point of group `i` of the format 12 map at `o`.
pub open spec fn glyph12(d: Seq<u8>, o: int, i: int) -> u32 {
    rd32_spec(d, o + 16 + i * 12 + 8)->0
}

/// The `n` groups of the format 12 map at `o` lie in the file, each runs forward, and
/// each ends before the next starts.
pub open spec fn groups_sorted(d: Seq<u8>, o: int, n: int) -> bool {
    &&& forall|i: int| 0 <= i < n ==> #[trigger] rd32_spec(d, o + 16 + i * 12) is Some
        && rd32_spec(d, o + 16 + i * 12 + 4) is Some
        && rd32_spec(d, o + 16 + i * 12 + 8) is Some
        && start12(d, o, i) <= end12(d, o, i)
    &&& forall|i: int, j: int| 0 <= i < j < n ==> #[trigger] end12(d, o, i) < #[trigger] start12(d, o, j)
}

/// In sorted groups, the search finds the group that holds `cp`.
proof fn lemma_search12_found(d: Seq<u8>, o: int, cp: u32, n: int, k: int, lo: int, hi: int)
    requires
        groups_sorted(d, o, n),
        0 <= lo <= k < hi <= n,
        start12(d, o, k) <= cp <= end12(d, o, k),
    ensures
        search12(d, o, cp, lo, hi) == Search12::Found(((glyph12(d, o, k) as int + (cp - start12(d, o, k))) % 0x1_0000) as u16),
    decreases hi - lo,
{
    let mid = (lo + hi) / 2;
    assert(rd32_spec(d, o + 16 + mid * 12) is Some);
    if mid < k {
        assert(end12(d, o, mid) < start12(d, o, k));
        lemma_search12_found(d, o, cp, n, k, mid + 1, hi);
    } else if mid > k {
        assert(end12(d, o, k) < start12(d, o, mid));
        lemma_search12_found(d, o, cp, n, k, lo, mid);
    }
}

/// In sorted groups, the search finds nothing for a code point that no group holds.
proof fn lemma_search12_absent(d: Seq<u8>, o: int, cp: u32, n: int, lo: int, hi: int)
    requires
        groups_sorted(d, o, n),
        0 <= lo,
        hi <= n,
        forall|i: int| 0 <= i < n ==> !(#[trigger] start12(d, o, i) <= cp <= end12(d, o, i)),
    ensures
        search12(d, o, cp, lo, hi) == Search12::Absent,
    decreases hi - lo,
{
    if lo < hi {
        let mid = (lo + hi) / 2;
        assert(rd32_spec(d, o + 16 + mid * 12) is Some);
        assert(!(start12(d, o, mid) <= cp <= end12(d, o, mid)));
        if cp < start12(d, o, mid) {
            lemma_search12_absent(d, o, cp, n, lo, mid);
        } else {
            lemma_search12_absent(d, o, cp, n, mid + 1, hi);
        }
    }
}

/// Where the format 12 map's groups are sorted, the glyph of `cp` is that of the group
/// holding it, counted on from the group's first glyph; where no group holds it, the
/// format 4 map decides, as for a font without a format 12 map.
pub proof fn glyph_of_group(f: FontV, cp: u32)
    requires
        f.cmap12 is Some,
        groups_sorted(f.data, f.cmap12->0 as int, rd32_spec(f.data, f.cmap12->0 + 12)->0 as int),
        rd32_spec(f.data, f.cmap12->0 + 12) is Some,
    ensures
        ({
            let o = f.cmap12->0 as int;
            let n = rd32_spec(f.data, o + 12)->0 as int;
            &&& forall|k: int| 0 <= k < n && #[trigger] start12(f.data, o, k) <= cp <= end12(f.data, o, k)
                ==> glyph_index_spec(f, cp) == ((glyph12(f.data, o, k) as int + (cp - start12(f.data, o, k))) % 0x1_0000) as u16
            &&& (forall|k: int| 0 <= k < n ==> !(#[trigger] start12(f.data, o, k) <= cp <= end12(f.data, o, k)))
                ==> glyph_index_spec(f, cp) == glyph_index_spec(FontV { cmap12: None, ..f }, cp)
        }),
{
    let o = f.cmap12->0 as int;
    let n = rd32_spec(f.data, o + 12)->0 as int;
    assert forall|k: int| 0 <= k < n && #[trigger] start12(f.data, o, k) <= cp <= end12(f.data, o, k)
        implies glyph_index_spec(f, cp) == ((glyph12(f.data, o, k) as int + (cp - start12(f.data, o, k))) % 0x1_0000) as u16 by {
        lemma_search12_found(f.data, o, cp, n, k, 0, n);
    }
    if forall|k: int| 0 <= k < n ==> !(#[trigger] start12(f.data, o, k) <= cp <= end12(f.data, o, k)) {
        lemma_search12_absent(f.data, o, cp, n, 0, n);
    }
}

/// First code point of segment `k` of the format 4 map at `o`; 0xffff where it cannot be
/// read.
pub open spec fn start4(d: Seq<u8>, o: int, segx2: int, k: int) -> u16 {
    match rd16_spec(d, o + 14 + segx2 + 2 + k * 2) { Some(v) => v, None => 0xffffu16 }
}

/// Each of the `count` segments of the format 4 map at `o` ends before the next starts.
pub open spec fn segments_sorted(d: Seq<u8>, o: int, segx2: int, count: int) -> bool {
    forall|i: int, j: int| 0 <= i < j < count ==> #[trigger] end4(d, o, i) < #[trigger] start4(d, o, segx2, j)
}

proof fn lemma_scan4_found(d: Seq<u8>, o: int, segx2: int, cp16: u16, k: int, j: int, count: int)
    requires
        segments_sorted(d, o, segx2, count),
        0 <= j <= k < count,
        start4(d, o, segx2, k) <= cp16 <= end4(d, o, k),
    ensures
        scan4(d, o, segx2, cp16, j, count) == seg4(d, o, segx2, cp16, k),
    decreases k - j,
{
    if j < k {
        assert(end4(d, o, j) < start4(d, o, segx2, k));
        lemma_scan4_found(d, o, segx2, cp16, k, j + 1, count);
    } else {
        assert(k * 2 == j * 2);
    }
}

/// In a font whose format 4 map has sorted segments (and whose format 12 map, if any, does
/// not hold the code point), the glyph of a code point of the Basic Multilingual Plane is
/// the one the segment holding it gives.
pub proof fn glyph_of_segment(f: FontV, cp: u32, k: int)
    requires
        f.cmap12 is None,
        cp <= 0xffff,
        f.cmap4 is Some,
        rd16_spec(f.data, f.cmap4->0 + 6) is Some,
        segments_sorted(f.data, f.cmap4->0 as int, rd16_spec(f.data, f.cmap4->0 + 6)->0 as int, rd16_spec(f.data, f.cmap4->0 + 6)->0 as int / 2),
        0 <= k < rd16_spec(f.data, f.cmap4->0 + 6)->0 as int / 2,
        start4(f.data, f.cmap4->0 as int, rd16_spec(f.data, f.cmap4->0 + 6)->0 as int, k) <= cp
            <= end4(f.data, f.cmap4->0 as int, k),
    ensures
        glyph_index_spec(f, cp) == seg4(f.data, f.cmap4->0 as int, rd16_spec(f.data, f.cmap4->0 + 6)->0 as int, cp as u16, k),
{
    let o = f.cmap4->0 as int;
    let segx2 = rd16_spec(f.data, o + 6)->0 as int;
    lemma_scan4_found(f.data, o, segx2, cp as u16, k, 0, segx2 / 2);
}

/// Glyph `gi`'s outline lies between the offsets that the glyph-location table gives for
/// `gi` and `gi + 1`, counted from the start of the glyph table: 32-bit entries are byte
/// offsets as they stand, 16-bit entries count two-byte words. A glyph whose second offset
/// is not past its first has no outline, and consecutive glyphs' outlines abut.
pub proof fn glyph_location(f: FontV, gi: u16)
    requires
        offsets_ok(f),
        gi < f.num_glyphs,
    ensures
        ({
            let i = gi as int;
            let (a, b): (Option<int>, Option<int>) = if f.long_loca {
                (
                    match rd32_spec(f.data, f.loca + 4 * i) { Some(v) => Some(v as int), None => None },
                    match rd32_spec(f.data, f.loca + 4 * i + 4) { Some(v) => Some(v as int), None => None },
                )
            } else {
                (
                    match rd16_spec(f.data, f.loca + 2 * i) { Some(v) => Some(2 * v), None => None },
                    match rd16_spec(f.data, f.loca + 2 * i + 2) { Some(v) => Some(2 * v), None => None },
                )
            };
            &&& (a is Some && b is Some && a->0 < b->0) ==> glyf_range_spec(f, gi) == Some(((f.glyf + a->0) as u64, (f.glyf + b->0) as u64))
            &&& !(a is Some && b is Some && a->0 < b->0) ==> glyf_range_spec(f, gi) is None
        }),
        gi + 1 < f.num_glyphs ==> match (glyf_range_spec(f, gi), glyf_range_spec(f, (gi + 1) as u16)) {
            (Some((_, end)), Some((next, _))) => end == next,
            _ => true,
        },
{
    let i = gi as int;
    assert(f.loca + i * 4 == f.loca + 4 * i);
    assert(f.loca + i * 2 == f.loca + 2 * i);
    assert((i + 1) * 4 == i * 4 + 4);
    assert((i + 1) * 2 == i * 2 + 2);
}

/// A glyph id past the font's count of glyphs has no outline.
pub proof fn no_glyph_past_count(f: FontV, gi: u16)
    requires
        gi >= f.num_glyphs,
    ensures
        glyf_range_spec(f, gi) is None,
{
}

} // verus!
