use lib::font::Font;
use lib::input::cell;
use lib::render::{frame, grid_for, pad_for, wanted, Atlas, Cov, Damage, Fb, Palette, Want, HOLLOW, OUTLINE};
use lib::vt::Term;

fn be16(v: &mut Vec<u8>, x: u16) {
    v.extend_from_slice(&x.to_be_bytes());
}

fn be32(v: &mut Vec<u8>, x: u32) {
    v.extend_from_slice(&x.to_be_bytes());
}

/// A small TrueType file: three glyphs (empty, a simple triangle, a composite of the
/// triangle at half size), a format 4 map for the digits and a format 12 map for a
/// range of emoji.
fn tiny_font() -> (&'static [u8], u32) {
    let mut head = vec![0u8; 54];
    head[18..20].copy_from_slice(&1000u16.to_be_bytes());
    head[50..52].copy_from_slice(&0u16.to_be_bytes());
    let mut hhea = vec![0u8; 36];
    hhea[4..6].copy_from_slice(&800i16.to_be_bytes());
    hhea[6..8].copy_from_slice(&(-200i16).to_be_bytes());
    hhea[8..10].copy_from_slice(&50i16.to_be_bytes());
    hhea[34..36].copy_from_slice(&2u16.to_be_bytes());
    let mut maxp = vec![0u8; 6];
    maxp[4..6].copy_from_slice(&3u16.to_be_bytes());
    let mut hmtx = Vec::new();
    for (adv, lsb) in [(500u16, 0u16), (600, 0)] {
        be16(&mut hmtx, adv);
        be16(&mut hmtx, lsb);
    }
    let mut glyf = vec![0, 1, 0, 0, 0, 0, 0, 0, 0, 0, 0, 2, 0, 0, 0x01, 0x37, 0x31, 0x00, 0x64, 0x32, 0xff, 0xec, 0x1e, 0];
    glyf.extend_from_slice(&[0xff, 0xff, 0, 0, 0, 0, 0, 0, 0, 0]);
    glyf.extend_from_slice(&[0x00, 0x0b, 0x00, 0x01, 0x00, 0x05, 0xff, 0xfd, 0x20, 0x00]);
    let mut loca = Vec::new();
    for v in [0u16, 0, 12, 22] {
        be16(&mut loca, v);
    }
    let mut sub4 = Vec::new();
    for v in [4u16, 32, 0, 4, 4, 1, 0, 0x39, 0xffff, 0, 0x30, 0xffff, 5u16.wrapping_sub(0x30), 1, 0, 0] {
        be16(&mut sub4, v);
    }
    let mut sub12 = Vec::new();
    be16(&mut sub12, 12);
    be16(&mut sub12, 0);
    be32(&mut sub12, 28);
    be32(&mut sub12, 0);
    be32(&mut sub12, 1);
    be32(&mut sub12, 0x100);
    be32(&mut sub12, 0x14f);
    be32(&mut sub12, 2);
    let mut cmap = Vec::new();
    be16(&mut cmap, 0);
    be16(&mut cmap, 2);
    be16(&mut cmap, 3);
    be16(&mut cmap, 1);
    be32(&mut cmap, 20);
    be16(&mut cmap, 3);
    be16(&mut cmap, 10);
    be32(&mut cmap, 20 + sub4.len() as u32);
    cmap.extend_from_slice(&sub4);
    cmap.extend_from_slice(&sub12);
    let tables: Vec<(&[u8; 4], Vec<u8>)> = vec![
        (b"cmap", cmap), (b"glyf", glyf), (b"head", head), (b"hhea", hhea),
        (b"hmtx", hmtx), (b"loca", loca), (b"maxp", maxp),
    ];
    let mut data = vec![0u8; 12 + 16 * tables.len()];
    data[4..6].copy_from_slice(&(tables.len() as u16).to_be_bytes());
    let mut glyf_at = 0;
    for (i, (tag, body)) in tables.iter().enumerate() {
        let off = data.len() as u32;
        if *tag == b"glyf" {
            glyf_at = off;
        }
        let r = 12 + i * 16;
        data[r..r + 4].copy_from_slice(*tag);
        data[r + 8..r + 12].copy_from_slice(&off.to_be_bytes());
        data[r + 12..r + 16].copy_from_slice(&(body.len() as u32).to_be_bytes());
        data.extend_from_slice(body);
    }
    (Box::leak(data.into_boxed_slice()), glyf_at)
}


fn palette() -> Palette {
    Palette {
        fg: (0..256u32).collect(),
        bg: (0..256u32).map(|i| 0x1000 + i).collect(),
        luma: (0..=65280u32).map(|s| (s / 256) as u8).collect(),
    }
}

fn atlas() -> Atlas {
    let (data, _) = tiny_font();
    Atlas::new(Font::parse(data).unwrap(), 2, 3, 2)
}

#[test]
fn atlas_sizes_and_masks() {
    let mut a = atlas();
    assert_eq!((a.cw, a.ch, a.base), (2, 3, 2));
    let b = {
        let (data, _) = tiny_font();
        Atlas::new(Font::parse(data).unwrap(), 0, 0, 0)
    };
    assert_eq!((b.cw, b.ch), (1, 1));
    let mut t = Term::new(4, 2, 10, 0xffffff, 0);
    t.feed("a\u{100}".as_bytes());
    let w = wanted(&t, &a);
    assert_eq!(w, vec![Want::Proc(HOLLOW, false), Want::Glyph(2), Want::Proc(OUTLINE, false)]);
    a.put_glyph(2, vec![255; 5]);
    a.put_proc(HOLLOW, false, vec![255; 7]);
    assert_eq!(wanted(&t, &a).len(), 3);
    a.put_glyph(2, vec![255; 6]);
    a.put_proc(HOLLOW, false, vec![255; 6]);
    a.put_proc(OUTLINE, false, vec![0; 6]);
    assert!(wanted(&t, &a).is_empty());
}

#[test]
fn frame_paints_cells_and_margins() {
    let mut a = atlas();
    a.put_proc(HOLLOW, false, vec![255; 6]);
    let pal = palette();
    let mut t = Term::new(4, 2, 10, 0xffffff, 0);
    t.feed(b"a");
    let (w, h) = (12usize, 10usize);
    let mut px = vec![0u32; w * h];
    let mut drawn = vec![];
    let drew = {
        let mut fb = Fb { px: &mut px, w, h, stride: w, ox: 1, oy: 1 };
        frame(&mut t, &a, &mut fb, &None, true, &pal, &mut drawn)
    };
    assert!(drew);
    assert_eq!(drawn, vec![true, true]);
    assert!(!t.all_dirty && t.dirty.iter().all(|d| !d));
    let at = |x: usize, y: usize| px[y * w + x];
    assert_eq!(at(0, 0), 0xff00_1000);
    assert_eq!(at(1, 1), 0xff00_00ff);
    assert_eq!(at(2, 3), 0xff00_00ff);
    assert_eq!(at(3, 1), 0xff00_10ff);
    assert_eq!(at(5, 1), 0xff00_1000);
    assert_eq!(at(9, 2), 0xff00_1000);
    assert_eq!(at(4, 8), 0xff00_1000);
    let before = px.clone();
    let drew = {
        let mut fb = Fb { px: &mut px, w, h, stride: w, ox: 1, oy: 1 };
        frame(&mut t, &a, &mut fb, &None, true, &pal, &mut drawn)
    };
    assert!(!drew);
    assert_eq!(drawn, vec![false, false]);
    assert_eq!(px, before);
}

#[test]
fn selection_and_unfocused_cursor() {
    let mut a = atlas();
    a.put_proc(OUTLINE, false, vec![255, 0, 0, 0, 0, 0]);
    let pal = palette();
    let mut t = Term::new(4, 2, 10, 0xffffff, 0);
    let (w, h) = (8usize, 6usize);
    let mut px = vec![0u32; w * h];
    let mut drawn = vec![];
    let sel = Some(((1u64, 2usize), (1u64, 3usize)));
    {
        let mut fb = Fb { px: &mut px, w, h, stride: w, ox: 0, oy: 0 };
        frame(&mut t, &a, &mut fb, &sel, false, &pal, &mut drawn);
    }
    assert_eq!(px[0], 0xff00_00ff);
    assert_eq!(px[1], 0xff00_1000);
    assert_eq!(px[3 * w + 4], 0xff00_10ff);
    assert_eq!(px[3 * w + 7], 0xff00_10ff);
    assert_eq!(px[3 * w + 3], 0xff00_1000);
}

#[test]
fn damage_between_two_buffers() {
    let mut t = Term::new(4, 3, 10, 0xffffff, 0);
    let mut dm = Damage::new();
    dm.reset(3);
    assert_eq!(dm.stale, vec![vec![false; 3], vec![false; 3]]);
    assert_eq!(dm.all, vec![true, true]);
    assert!(dm.prepare(&mut t));
    dm.flip(&vec![true, true, true], true);
    assert_eq!((dm.cur, dm.all.clone()), (1, vec![false, true]));
    t.all_dirty = false;
    t.dirty = vec![false; 3];
    assert!(dm.prepare(&mut t));
    dm.flip(&vec![true, true, true], true);
    assert_eq!((dm.cur, dm.all.clone()), (0, vec![true, false]));
    dm.all = vec![false, false];
    t.feed(b"\r\n\r\nx");
    t.all_dirty = false;
    t.dirty = vec![false, false, true];
    assert!(!dm.prepare(&mut t));
    assert_eq!(t.dirty, vec![true, false, true]);
    assert_eq!(dm.last, (2, 1));
    dm.flip(&vec![true, false, true], false);
    assert_eq!(dm.stale[1], vec![true, false, true]);
    assert_eq!(dm.stale[0], vec![false, false, false]);
    t.dirty = vec![false; 3];
    assert!(!dm.prepare(&mut t));
    assert_eq!(t.dirty, vec![true, false, true]);
}

#[test]
fn view_scrolls_within_the_scrollback() {
    let mut t = Term::new(4, 2, 10, 0xffffff, 0);
    t.feed(b"1\r\n2\r\n3\r\n4");
    assert_eq!(t.sb.len(), 2);
    t.all_dirty = false;
    assert!(t.scroll_view(5));
    assert_eq!(t.view, 2);
    assert!(t.all_dirty);
    assert!(!t.scroll_view(1));
    assert!(t.scroll_view(-1));
    assert_eq!(t.view, 1);
    assert!(t.scroll_view(i64::MIN));
    assert_eq!(t.view, 0);
}

#[test]
fn pixel_to_cell() {
    assert_eq!(cell(10, 20, 2, 4, 8, 5, 3), (2, 2));
    assert_eq!(cell(0, 0, 2, 4, 8, 5, 3), (0, 0));
    assert_eq!(cell(1000, 1000, 2, 4, 8, 5, 3), (4, 2));
    assert_eq!(cell(5, 9, 2, 4, 8, 5, 3), (0, 0));
}

#[test]
fn rounded_corner_legs() {
    let mut buf = vec![0u8; 8 * 16];
    let mut cov = Cov { px: &mut buf, w: 8, h: 16 };
    cov.arc_legs(0, 1);
    assert_eq!(buf[12 * 8 + 4], 255);
    assert_eq!(buf[15 * 8 + 4], 255);
    assert_eq!(buf[11 * 8 + 4], 0);
    assert_eq!(buf.iter().filter(|&&v| v != 0).count(), 4);
}

fn amber_palette(gamma: f32) -> Palette {
    let phosphor = |l: f32| ((255.0 * l) as u32) << 16 | ((176.0 * l) as u32) << 8 | (0.0 * l) as u32;
    Palette {
        fg: (0..256)
            .map(|i| {
                let l = i as f32 / 255.0;
                phosphor(if l < 0.02 { l } else { l.powf(gamma) })
            })
            .collect(),
        bg: (0..256).map(|i| phosphor((i as f32 / 255.0).powf(1.3))).collect(),
        luma: (0..=65280u32).map(|s| ((s as f32 / 65280.0) * 255.0 + 0.5) as u8).collect(),
    }
}

fn supply(a: &mut Atlas, t: &Term) {
    for k in wanted(t, a) {
        match k {
            Want::Glyph(gi) => {
                let n = a.cw * a.ch;
                a.put_glyph(gi, (0..n).map(|i| ((i * 37 + gi as usize) % 256) as u8).collect());
            }
            Want::Proc(cp, wide) => {
                let n = if wide { 2 * a.cw } else { a.cw } * a.ch;
                a.put_proc(cp, wide, (0..n).map(|i| ((i * 91 + cp as usize) % 256) as u8).collect());
            }
        }
    }
}

// replay a pyrepl session split at every chunk granularity through the
// double-buffer bookkeeping; displayed pixels must equal a from-scratch full
// redraw of the same final state
#[test]
fn incremental_render_matches_full() {
    let session: Vec<u8> = [
        &b"\x1b[?2004h\x1b[?1h\x1b=\x1b[?25l\x1b[1A\n\x1b[1;35m>>> \x1b[0m\x1b[4D\x1b[?12l\x1b[?25h\x1b[4C"[..],
        b"\x1b[?25l\x1b[4D\x1b[1;35m>>> \x1b[0ma\x1b[5D\x1b[?12l\x1b[?25h\x1b[5C",
        b"\x1b[?25l\x1b[5D\x1b[1;35m>>> \x1b[0mab\x1b[6D\x1b[?12l\x1b[?25h\x1b[6C",
        b"\x1b[?25l\x1b[6D\x1b[1;35m>>> \x1b[0mabc\x1b[7D\x1b[?12l\x1b[?25h\x1b[7C",
        b"\x1b[?25l\x1b[7D\x1b[K\x1b[1;35m>>> \x1b[0mab\x1b[6D\x1b[?12l\x1b[?25h\x1b[6C",
    ]
    .concat();
    let (cols, rows) = (100usize, 30usize);
    let pal = amber_palette(0.45);
    for chunk in [1usize, 2, 3, 5, 7, 16, 64, session.len()] {
        let mut atlas = {
            let (data, _) = tiny_font();
            Atlas::new(Font::parse(data).unwrap(), 2, 3, 2)
        };
        let (w, h) = (cols * atlas.cw + 8, rows * atlas.ch + 8);
        let mut t = Term::new(cols, rows, 100, 0xffffff, 0);
        let mut bufs = [vec![0u32; w * h], vec![0u32; w * h]];
        let mut dm = Damage::new();
        dm.reset(rows);
        let mut drawn = vec![];
        let mut shown = 1usize;
        for piece in session.chunks(chunk) {
            t.feed(piece);
            let was_all = dm.prepare(&mut t);
            supply(&mut atlas, &t);
            let cur = dm.cur;
            let mut fb = Fb { px: &mut bufs[cur], w, h, stride: w, ox: 4, oy: 4 };
            let drew = frame(&mut t, &atlas, &mut fb, &None, true, &pal, &mut drawn);
            if !drew {
                continue;
            }
            dm.flip(&drawn, was_all);
            shown = cur;
        }
        let mut rt = Term::new(cols, rows, 100, 0xffffff, 0);
        rt.feed(&session);
        rt.all_dirty = true;
        supply(&mut atlas, &rt);
        let mut rbuf = vec![0u32; w * h];
        let mut fb = Fb { px: &mut rbuf, w, h, stride: w, ox: 4, oy: 4 };
        frame(&mut rt, &atlas, &mut fb, &None, true, &pal, &mut drawn);
        let diff = bufs[shown].iter().zip(&rbuf).filter(|(a, b)| a != b).count();
        assert_eq!(diff, 0, "chunk={}: {} pixels differ from full redraw", chunk, diff);
    }
}

#[test]
fn bench_full_frame() {
    let mut atlas = {
        let (data, _) = tiny_font();
        Atlas::new(Font::parse(data).unwrap(), 2, 3, 2)
    };
    let pal = amber_palette(0.45);
    let mut t = Term::new(200, 60, 100, 0xd4d4d4, 0x0e0e12);
    for _ in 0..60 {
        t.feed("│⠋⠙ hello ╭──────╮ wörld ✻ ▓▒░ 0123456789 ║═╗ ─┼─ │\r\n".as_bytes());
    }
    let (w, h) = (200 * atlas.cw + 20, 60 * atlas.ch + 20);
    let mut px = vec![0u32; w * h];
    let mut drawn = vec![];
    let n = 200u32;
    let start = std::time::Instant::now();
    for _ in 0..n {
        t.all_dirty = true;
        supply(&mut atlas, &t);
        let mut fb = Fb { px: &mut px, w, h, stride: w, ox: 10, oy: 10 };
        frame(&mut t, &atlas, &mut fb, &None, true, &pal, &mut drawn);
    }
    println!("full frame: {:?}", start.elapsed() / n);
}

#[test]
fn grid_in_a_window() {
    assert_eq!(pad_for(13), 4);
    assert_eq!(pad_for(5), 2);
    assert_eq!(grid_for(1308, 938, 4, 13, 31), (100, 30));
    assert_eq!(grid_for(10, 10, 4, 13, 31), (1, 1));
    assert_eq!(grid_for(0, 0, 0, 1, 1), (1, 1));
}

#[test]
fn redrawn_rows_forget_old_pixels() {
    let mut a = atlas();
    a.put_proc(HOLLOW, false, vec![255; 6]);
    let pal = palette();
    let (w, h) = (12usize, 10usize);
    let mut drawn = vec![];
    let mut t1 = Term::new(4, 2, 10, 0xffffff, 0);
    t1.feed(b"a\x1b[7mb");
    let mut t2 = Term::new(4, 2, 10, 0xffffff, 0);
    t2.feed(b"a\x1b[7mb");
    let mut clean = vec![0u32; w * h];
    let mut junk: Vec<u32> = (0..(w * h) as u32).map(|i| i.wrapping_mul(2654435761)).collect();
    {
        let mut fb = Fb { px: &mut clean, w, h, stride: w, ox: 1, oy: 1 };
        frame(&mut t1, &a, &mut fb, &None, true, &pal, &mut drawn);
    }
    {
        let mut fb = Fb { px: &mut junk, w, h, stride: w, ox: 1, oy: 1 };
        frame(&mut t2, &a, &mut fb, &None, true, &pal, &mut drawn);
    }
    assert_eq!(clean, junk);
    // only row 0 is marked: its band is drawn afresh, the rest is left as it was
    t1.mark(0);
    let mut stale = clean.clone();
    for p in stale.iter_mut().take(w * 3) {
        *p = 0x1234_5678;
    }
    stale[w * 8] = 0x1111_1111;
    {
        let mut fb = Fb { px: &mut stale, w, h, stride: w, ox: 1, oy: 1 };
        frame(&mut t1, &a, &mut fb, &None, true, &pal, &mut drawn);
    }
    assert_eq!(drawn, vec![true, false]);
    assert_eq!(stale[w..w * 3], clean[w..w * 3]);
    assert_eq!(stale[0], 0x1234_5678);
    assert_eq!(stale[w * 8], 0x1111_1111);
}
