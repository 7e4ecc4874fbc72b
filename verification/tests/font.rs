use lib::font::contour::{segments, Seg};
use lib::font::{Font, Outline};

fn be16(v: &mut Vec<u8>, x: u16) {
    v.extend_from_slice(&x.to_be_bytes());
}

fn be32(v: &mut Vec<u8>, x: u32) {
    v.extend_from_slice(&x.to_be_bytes());
}

/// A small TrueType file: three glyphs (empty, a simple triangle, a composite of the
/// triangle at half size), a format 4 map for the digits and a format 12 map for a
/// range of emoji.
fn tiny_font() -> (&'static [u8], u32) {
    let mut head = vec![0u8; 54];
    head[18..20].copy_from_slice(&1000u16.to_be_bytes());
    head[50..52].copy_from_slice(&0u16.to_be_bytes());
    let mut hhea = vec![0u8; 36];
    hhea[4..6].copy_from_slice(&800i16.to_be_bytes());
    hhea[6..8].copy_from_slice(&(-200i16).to_be_bytes());
    hhea[8..10].copy_from_slice(&50i16.to_be_bytes());
    hhea[34..36].copy_from_slice(&2u16.to_be_bytes());
    let mut maxp = vec![0u8; 6];
    maxp[4..6].copy_from_slice(&3u16.to_be_bytes());
    let mut hmtx = Vec::new();
    for (adv, lsb) in [(500u16, 0u16), (600, 0)] {
        be16(&mut hmtx, adv);
        be16(&mut hmtx, lsb);
    }
    let mut glyf = vec![0, 1, 0, 0, 0, 0, 0, 0, 0, 0, 0, 2, 0, 0, 0x01, 0x37, 0x31, 0x00, 0x64, 0x32, 0xff, 0xec, 0x1e, 0];
    glyf.extend_from_slice(&[0xff, 0xff, 0, 0, 0, 0, 0, 0, 0, 0]);
    glyf.extend_from_slice(&[0x00, 0x0b, 0x00, 0x01, 0x00, 0x05, 0xff, 0xfd, 0x20, 0x00]);
    let mut loca = Vec::new();
    for v in [0u16, 0, 12, 22] {
        be16(&mut loca, v);
    }
    let mut sub4 = Vec::new();
    for v in [4u16, 32, 0, 4, 4, 1, 0, 0x39, 0xffff, 0, 0x30, 0xffff, 5u16.wrapping_sub(0x30), 1, 0, 0] {
        be16(&mut sub4, v);
    }
    let mut sub12 = Vec::new();
    be16(&mut sub12, 12);
    be16(&mut sub12, 0);
    be32(&mut sub12, 28);
    be32(&mut sub12, 0);
    be32(&mut sub12, 1);
    be32(&mut sub12, 0x1f600);
    be32(&mut sub12, 0x1f64f);
    be32(&mut sub12, 2);
    let mut cmap = Vec::new();
    be16(&mut cmap, 0);
    be16(&mut cmap, 2);
    be16(&mut cmap, 3);
    be16(&mut cmap, 1);
    be32(&mut cmap, 20);
    be16(&mut cmap, 3);
    be16(&mut cmap, 10);
    be32(&mut cmap, 20 + sub4.len() as u32);
    cmap.extend_from_slice(&sub4);
    cmap.extend_from_slice(&sub12);
    let tables: Vec<(&[u8; 4], Vec<u8>)> = vec![
        (b"cmap", cmap), (b"glyf", glyf), (b"head", head), (b"hhea", hhea),
        (b"hmtx", hmtx), (b"loca", loca), (b"maxp", maxp),
    ];
    let mut data = vec![0u8; 12 + 16 * tables.len()];
    data[4..6].copy_from_slice(&(tables.len() as u16).to_be_bytes());
    let mut glyf_at = 0;
    for (i, (tag, body)) in tables.iter().enumerate() {
        let off = data.len() as u32;
        if *tag == b"glyf" {
            glyf_at = off;
        }
        let r = 12 + i * 16;
        data[r..r + 4].copy_from_slice(*tag);
        data[r + 8..r + 12].copy_from_slice(&off.to_be_bytes());
        data[r + 12..r + 16].copy_from_slice(&(body.len() as u32).to_be_bytes());
        data.extend_from_slice(body);
    }
    (Box::leak(data.into_boxed_slice()), glyf_at)
}

#[test]
fn parses_the_tables() {
    let (data, _) = tiny_font();
    let f = Font::parse(data).unwrap();
    assert_eq!(f.units_per_em, 1000);
    assert_eq!(f.num_glyphs, 3);
    assert_eq!((f.ascent, f.descent, f.line_gap), (800, -200, 50));
}

#[test]
fn truncated_or_missing_tables_fail() {
    let (data, _) = tiny_font();
    assert!(Font::parse(&data[..3]).is_none());
    assert!(Font::parse(&data[..100]).is_none());
    let mut other = data.to_vec();
    other[12..16].copy_from_slice(b"xmap");
    assert!(Font::parse(Box::leak(other.into_boxed_slice())).is_none());
}

#[test]
fn maps_characters_to_glyphs() {
    let (data, _) = tiny_font();
    let f = Font::parse(data).unwrap();
    assert_eq!(f.glyph_index('0' as u32), 5);
    assert_eq!(f.glyph_index('5' as u32), 10);
    assert_eq!(f.glyph_index('A' as u32), 0);
    assert_eq!(f.glyph_index(0x1f600), 2);
    assert_eq!(f.glyph_index(0x1f601), 3);
    assert_eq!(f.glyph_index(0x1f700), 0);
}

#[test]
fn advances_and_locations() {
    let (data, glyf) = tiny_font();
    let f = Font::parse(data).unwrap();
    assert_eq!(f.advance(0), 500);
    assert_eq!(f.advance(1), 600);
    assert_eq!(f.advance(2), 600);
    let g = glyf as u64;
    assert_eq!(f.glyf_range(0), None);
    assert_eq!(f.glyf_range(1), Some((g, g + 24)));
    assert_eq!(f.glyf_range(2), Some((g + 24, g + 44)));
    assert_eq!(f.glyf_range(3), None);
}

#[test]
fn decodes_outlines() {
    let (data, glyf) = tiny_font();
    let f = Font::parse(data).unwrap();
    let g = glyf as u64;
    assert_eq!(f.contours(g), Some(1));
    let p = f.simple_points(g, 1).unwrap();
    assert_eq!(p.ends, vec![2]);
    assert_eq!(p.flags, vec![0x01, 0x37, 0x31]);
    assert_eq!(p.xs, vec![100, 150, 150]);
    assert_eq!(p.ys, vec![-20, 10, 10]);
    assert_eq!(f.contours(g + 24), Some(-1));
    let c = f.component(g + 34).unwrap();
    assert_eq!((c.flags, c.glyph, c.dx, c.dy), (0x0b, 1, 5, -3));
    assert_eq!(c.m, (0x2000, 0, 0, 0x2000));
    assert_eq!(c.next, g + 44);
    assert!(f.component(data.len() as u64).is_none());
}

fn outline(ends: Vec<usize>, flags: Vec<u8>, pts: &[(i64, i64)]) -> Outline {
    Outline { ends, flags, xs: pts.iter().map(|p| p.0).collect(), ys: pts.iter().map(|p| p.1).collect() }
}

#[test]
fn contours_become_segments() {
    let tri = outline(vec![2], vec![1, 1, 1], &[(0, 0), (10, 0), (0, 10)]);
    assert_eq!(
        segments(&tri),
        vec![Seg::Line((0, 0), (20, 0)), Seg::Line((20, 0), (0, 20)), Seg::Line((0, 20), (0, 0))]
    );
    let curvy = outline(vec![3], vec![0, 0, 1, 0], &[(0, 0), (10, 0), (10, 10), (0, 10)]);
    assert_eq!(
        segments(&curvy),
        vec![
            Seg::Quad((0, 10), (0, 0), (10, 0)),
            Seg::Quad((10, 0), (20, 0), (20, 20)),
            Seg::Quad((20, 20), (0, 20), (0, 10)),
        ]
    );
    let skip_and_stop = outline(vec![0, 2, 1], vec![1, 1, 1], &[(5, 5), (1, 1), (2, 2)]);
    assert_eq!(segments(&skip_and_stop), vec![Seg::Line((2, 2), (4, 4)), Seg::Line((4, 4), (2, 2))]);
}
