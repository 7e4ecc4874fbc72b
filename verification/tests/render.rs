use lib::render::{blend, is_proc, sel_contains, Cov, Fb, Proc};

#[test]
fn blending() {
    let mut p = 0x00102030u32;
    blend(&mut p, 0xffffff, 0);
    assert_eq!(p, 0x00102030);
    blend(&mut p, 0x405060, 255);
    assert_eq!(p, 0xff405060);
    let mut q = 0xff000000u32;
    blend(&mut q, 0xffffff, 128);
    assert_eq!(q, 0xff808080);
}

#[test]
fn selection_test() {
    let sel = Some(((5u64, 3usize), (7u64, 2usize)));
    assert!(sel_contains(&sel, 5, 3));
    assert!(!sel_contains(&sel, 5, 2));
    assert!(sel_contains(&sel, 6, 0));
    assert!(sel_contains(&sel, 7, 2));
    assert!(!sel_contains(&sel, 7, 3));
    assert!(!sel_contains(&None, 6, 0));
}

#[test]
fn procedural_code_points() {
    assert!(is_proc(0x2500));
    assert!(is_proc(0x28ff));
    assert!(is_proc(0x23fa));
    assert!(!is_proc(0x23be));
    assert!(!is_proc('a' as u32));
}

#[test]
fn frame_buffer_fills_clip() {
    let mut px = vec![0u32; 4 * 3];
    let mut fb = Fb { px: &mut px, w: 4, h: 3, stride: 4, ox: 1, oy: 1 };
    fb.fill(0, 0, 10, 10, 0x123456);
    assert_eq!(px, vec![0, 0, 0, 0, 0, 0xff123456, 0xff123456, 0xff123456, 0, 0xff123456, 0xff123456, 0xff123456]);
}

#[test]
fn coverage_blends_into_frame() {
    let mut px = vec![0xff000000u32; 3 * 2];
    let cov = [255u8, 0, 255, 0];
    let mut fb = Fb { px: &mut px, w: 3, h: 2, stride: 3, ox: 0, oy: 0 };
    fb.blend_cov(1, 0, &cov, 2, 2, 0x00ff00, 0);
    assert_eq!(px, vec![0xff000000, 0xff00ff00, 0xff000000, 0xff000000, 0xff00ff00, 0xff000000]);
}

#[test]
fn procedural_glyphs() {
    let mut buf = vec![0u8; 4 * 4];
    let mut cov = Cov { px: &mut buf, w: 4, h: 4 };
    assert!(matches!(cov.proc_glyph(0x2580, 1), Proc::Done(true)));
    assert_eq!(buf, vec![255, 255, 255, 255, 255, 255, 255, 255, 0, 0, 0, 0, 0, 0, 0, 0]);
    let mut buf = vec![0u8; 4 * 4];
    let mut cov = Cov { px: &mut buf, w: 4, h: 4 };
    assert!(matches!(cov.proc_glyph(0x2500, 1), Proc::Done(true)));
    assert_eq!(&buf[8..12], &[255, 255, 255, 255]);
    assert_eq!(buf.iter().filter(|&&b| b != 0).count(), 4);
    let mut buf = vec![0u8; 4];
    let mut cov = Cov { px: &mut buf, w: 2, h: 2 };
    assert!(matches!(cov.proc_glyph(0x256d, 1), Proc::Arc(0)));
    assert!(matches!(cov.proc_glyph(0x2801, 1), Proc::Braille(1)));
    assert!(matches!(cov.proc_glyph(0x2572, 1), Proc::Diagonal));
    assert!(matches!(cov.proc_glyph(0x2592, 1), Proc::Done(true)));
    assert!(matches!(cov.proc_glyph('a' as u32, 1), Proc::Done(false)));
    assert_eq!(buf, vec![128, 128, 128, 128]);
}
