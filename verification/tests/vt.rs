use lib::vt::{Term, TAIL, WIDE, width, encode_utf8};

fn dump(t: &Term) -> String {
    let mut s = String::new();
    for y in 0..t.rows {
        let mut row = String::new();
        let mut keep = 0;
        for c in &t.line(y).cells {
            if c.attr & TAIL != 0 {
                continue;
            }
            if c.cp == 0 {
                row.push('.')
            } else {
                row.push(char::from_u32(c.cp).unwrap());
                keep = row.len();
            }
        }
        row.truncate(keep);
        s.push_str(&row);
        if y < t.rows - 1 {
            s.push('\n')
        }
    }
    s + &format!("@{},{}", t.y, t.x)
}

fn run(cols: usize, rows: usize, input: &str) -> Term {
    let mut t = Term::new(cols, rows, 100, 0xffffff, 0);
    t.feed(input.as_bytes());
    t
}

#[test]
fn golden() {
    for (cols, rows, input, want) in [
        (10, 3, "hello", "hello\n\n@0,5"),
        (10, 3, "ab\r\ncd", "ab\ncd\n@1,2"),
        (10, 3, "0123456789X", "0123456789\nX\n@1,1"),
        (10, 3, "0123456789", "0123456789\n\n@0,9"),
        (10, 3, "\x1b[2;2HX", "\n.X\n@1,2"),
        (10, 3, "junk\x1b[2J\x1b[2;2HX", "\n.X\n@1,2"),
        (10, 3, "abcdef\x1b[1;3H\x1b[K", "ab\n\n@0,2"),
        (10, 4, "\x1b[2;3r\x1b[3;1Ha\nb", "\na\n.b\n@2,2"),
        (10, 3, "A\x1b[?1049hZAP\x1b[?1049l", "A\n\n@0,1"),
        (10, 3, "abcd\r\x1b[2@\x1b[2P", "abcd\n\n@0,0"),
        (10, 4, "a\r\nb\r\nc\x1b[2;1H\x1b[1L", "a\n\nb\nc@1,0"),
        (8, 3, "漢X", "漢X\n\n@0,3"),
        (4, 3, "abc漢", "abc\n漢\n@1,2"),
        (10, 3, "\u{1b}(0qx\u{1b}(B", "─│\n\n@0,2"),
        (10, 3, "a\x1b[3b", "aaaa\n\n@0,4"),
    ] {
        assert_eq!(dump(&run(cols, rows, input)), want, "input {:?}", input);
    }
    let mut t = Term::new(10, 3, 100, 0xffffff, 0);
    t.feed(b"\xc3(z");
    assert_eq!(dump(&t), "\u{fffd}(z\n\n@0,3");
}

#[test]
fn responses() {
    for (input, want) in [
        ("\x1b[c", "\x1b[?6c"),
        ("\x1b[>c", "\x1b[>0;0;0c"),
        ("\x1b[5n", "\x1b[0n"),
        ("\x1b[5;7H\x1b[6n", "\x1b[5;7R"),
        ("\x1b[?2026$p", "\x1b[?2026;2$y"),
        ("\x1b[?2026h\x1b[?2026$p", "\x1b[?2026;1$y"),
        ("\x1b[?999$p", "\x1b[?999;0$y"),
    ] {
        let t = run(80, 24, input);
        assert_eq!(String::from_utf8_lossy(&t.out), want, "input {:?}", input);
    }
}

#[test]
fn colors_scrollback_title() {
    let t = run(10, 2, "\x1b[31mA\x1b[48;2;1;2;3mB\x1b[38;5;255mC\x1b[38:2::10:20:30mD");
    let row = &t.line(0).cells;
    assert_eq!(row[0].fg, 0xcd3131);
    assert_eq!(row[1].bg, 0x010203);
    assert_eq!(row[2].fg, 0xeeeeee);
    assert_eq!(row[3].fg, 0x0a141e);

    let t = run(10, 2, "a\r\nb\r\nc");
    assert_eq!(t.sb.len(), 1);
    assert_eq!(t.sb[0].cells[0].cp, b'a' as u32);

    let t = run(10, 2, "\x1b]2;hi there\x07");
    assert_eq!(t.title.as_deref(), Some("hi there"));
}

#[test]
fn bench_feed() {
    let mut t = Term::new(120, 40, 1000, 0xffffff, 0);
    let line = "the quick brown fox jumps over the lazy dog 0123456789 !@#$%^&*() ~fin\r\n".repeat(1000);
    let n = 200;
    let start = std::time::Instant::now();
    for _ in 0..n {
        t.feed(line.as_bytes())
    }
    let mbs = (line.len() * n) as f64 / start.elapsed().as_secs_f64() / 1e6;
    println!("feed: {:.0} MB/s", mbs);
}

#[test]
fn fuzz_smoke() {
    let mut state = 0x9e3779b97f4a7c15u64;
    let mut rng = move || {
        state ^= state << 13;
        state ^= state >> 7;
        state ^= state << 17;
        state
    };
    for _ in 0..2000 {
        let n = 512 + (rng() % 2048) as usize;
        let buf: Vec<u8> = (0..n).map(|_| (rng() >> 8) as u8).collect();
        let mut t = Term::new((rng() % 120 + 2) as usize, (rng() % 60 + 2) as usize, 50, 0xffffff, 0);
        t.feed(b"\x1b[");
        t.feed(&buf);
        t.resize((rng() % 120 + 2) as usize, (rng() % 60 + 2) as usize);
        t.feed(&buf[..n / 2]);
    }
}

#[test]
fn widths_of_code_points() {
    assert_eq!(width('a' as u32), 1);
    assert_eq!(width(0x301), 0);
    assert_eq!(width(0x4e00), 2);
    assert_eq!(width(0x1f600), 2);
    assert_eq!(width(0x3400), 2);
    assert_eq!(width(0x2e7f), 1);
    assert_eq!(width(0xe01ef), 0);
    assert_eq!(width(0xe01f0), 1);
}

#[test]
fn utf8_encoding_and_replacement() {
    let mut b = Vec::new();
    encode_utf8('é' as u32, &mut b);
    encode_utf8(0x20ac, &mut b);
    encode_utf8(0x1f600, &mut b);
    assert_eq!(b, "é€😀".as_bytes());
    let mut b = Vec::new();
    encode_utf8(0xd800, &mut b);
    encode_utf8(0x110000, &mut b);
    assert_eq!(b, "\u{fffd}\u{fffd}".as_bytes());
}

#[test]
fn scrollback_is_capped_and_counted() {
    let mut t = Term::new(5, 2, 3, 0xffffff, 0);
    t.feed(b"1\r\n2\r\n3\r\n4\r\n5\r\n6");
    assert_eq!(t.sb.len(), 3);
    assert_eq!(t.sb_base, 1);
    assert_eq!(t.sb[0].cells[0].cp, '2' as u32);
    assert_eq!(t.line_id(0), 4);
    assert_eq!(t.line_at(5).unwrap().cells[0].cp, '6' as u32);
    assert_eq!(t.line_at(2).unwrap().cells[0].cp, '3' as u32);
    assert!(t.line_at(0).is_none());
    assert!(t.line_at(6).is_none());
}

#[test]
fn erase_scrollback_keeps_ids() {
    let mut t = Term::new(5, 2, 10, 0xffffff, 0);
    t.feed(b"a\r\nb\r\nc\x1b[3J");
    assert_eq!(t.sb.len(), 0);
    assert_eq!(t.sb_base, 1);
    assert_eq!(t.line_id(0), 1);
}

#[test]
fn title_is_stripped_and_capped() {
    let t = run(10, 2, "\x1b]0;a\x01b\x07");
    assert_eq!(t.title.as_deref(), Some("ab"));
    let long = "é".repeat(200);
    let t = run(10, 2, &format!("\x1b]2;{}\x1b\\", long));
    let title = t.title.unwrap();
    assert_eq!(title.len(), 254);
    assert_eq!(title.chars().count(), 127);
    let t = run(10, 2, "\x1b]1;icon\x07");
    assert_eq!(t.title, None);
    let t = run(10, 2, "\x1b]x;no\x07");
    assert_eq!(t.title, None);
}

#[test]
fn cursor_stays_on_screen() {
    let t = run(10, 3, "\x1b[99;99H");
    assert_eq!((t.y, t.x), (2, 9));
    let t = run(10, 3, "\x1b[5A\x1b[5D");
    assert_eq!((t.y, t.x), (0, 0));
    let t = run(10, 3, "\t\tX");
    assert_eq!(t.line(0).cells[8].cp, 0);
    assert_eq!(t.x, 9);
}

#[test]
fn wide_chars_are_split_when_overwritten() {
    let t = run(10, 2, "漢\rA");
    let row = &t.line(0).cells;
    assert_eq!(row[0].cp, 'A' as u32);
    assert_eq!(row[1].cp, ' ' as u32);
    assert_eq!(row[1].attr & TAIL, 0);
    let t = run(10, 2, "漢");
    assert_ne!(t.line(0).cells[0].attr & WIDE, 0);
    assert_ne!(t.line(0).cells[1].attr & TAIL, 0);
}

#[test]
fn resize_keeps_cursor_inside() {
    let mut t = run(10, 5, "\x1b[5;10Hx");
    t.resize(4, 1);
    assert_eq!((t.cols, t.rows), (4, 2));
    assert_eq!((t.y, t.x), (1, 3));
    assert_eq!(t.line(0).cells.len(), 4);
}

#[test]
fn modes_and_marks() {
    let mut t = run(10, 3, "\x1b[?2004h\x1b[?1002h\x1b[?1006h\x1b[?25l");
    assert!(t.modes.paste);
    assert_eq!(t.modes.mouse, 1002);
    assert!(t.modes.sgr_mouse);
    assert!(!t.modes.tcem);
    t.dirty = vec![false; 3];
    t.mark(1);
    t.mark(7);
    assert_eq!(t.dirty, vec![false, true, false]);
}

#[test]
fn reset_brings_back_defaults() {
    let t = run(10, 3, "\x1b[31mab\x1b[?7l\x1bc");
    assert_eq!((t.y, t.x), (0, 0));
    assert!(t.modes.awm);
    assert_eq!(t.fg, 0xffffff);
    assert_eq!(t.line(0).cells[0].cp, 0);
}

#[test]
fn clipboard_writes() {
    let t = run(10, 2, "\x1b]52;c;aGVsbG8=\x07");
    assert_eq!(t.clip.as_deref(), Some(&b"hello"[..]));
    let t = run(10, 2, "\x1b]52;;aGk=\x1b\\");
    assert_eq!(t.clip.as_deref(), Some(&b"hi"[..]));
    let t = run(10, 2, "\x1b]52;c;YQ==\x07");
    assert_eq!(t.clip.as_deref(), Some(&b"a"[..]));
    let t = run(10, 2, "\x1b]52;c;\x07");
    assert_eq!(t.clip.as_deref(), Some(&b""[..]));
    for bad in ["\x1b]52;c;aGVsbG8\x07", "\x1b]52;c;aGV*bG8=\x07", "\x1b]52;c;a=Vs\x07", "\x1b]52;c;?\x07", "\x1b]52;aGk=\x07", "\x1b]53;c;aGk=\x07"] {
        assert_eq!(run(10, 2, bad).clip, None, "input {:?}", bad);
    }
}

#[test]
fn oversized_osc_is_dropped_whole() {
    let mut t = Term::new(10, 2, 10, 0xffffff, 0);
    let mut big = b"\x1b]2;".to_vec();
    big.extend(std::iter::repeat(b'x').take(1572864));
    big.push(7);
    t.feed(&big);
    assert_eq!(t.title, None);
    t.feed(b"\x1b]2;ok\x07");
    assert_eq!(t.title.as_deref(), Some("ok"));
    let mut t = Term::new(10, 2, 10, 0xffffff, 0);
    let mut fits = b"\x1b]2;".to_vec();
    fits.extend(std::iter::repeat(b'y').take(1572860));
    fits.push(7);
    t.feed(&fits);
    assert_eq!(t.title.as_ref().map(|s| s.len()), Some(255));
}

#[test]
fn save_and_restore_cursor() {
    let mut t = Term::new(10, 4, 10, 0xffffff, 0);
    t.feed(b"\x1b[3;5H\x1b[31m\x1b7\x1b[1;1H\x1b[0mX\x1b8");
    assert_eq!((t.y, t.x), (2, 4));
    assert_eq!(t.fg, 0xcd3131);
    assert_eq!(t.line(0).cells[0].cp, 'X' as u32);
}

#[test]
fn line_ids_lead_back_to_rows() {
    let mut t = Term::new(4, 2, 10, 0xffffff, 0);
    t.feed(b"1\r\n2\r\n3\r\n4");
    t.view = 1;
    let id = t.line_id(0);
    assert_eq!(t.line_at(id).unwrap().cells[0].cp, '2' as u32);
    let id = t.line_id(1);
    assert_eq!(t.line_at(id).unwrap().cells[0].cp, '3' as u32);
}

fn cells_of(t: &Term) -> Vec<(u32, u32, u32, u32)> {
    let mut v = Vec::new();
    for y in 0..t.rows {
        for c in &t.line(y).cells {
            v.push((c.cp, c.fg, c.bg, c.attr));
        }
    }
    v
}

#[test]
fn feed_in_two_pieces_matches_whole() {
    let input: &[u8] = b"ab\x1b[1;31mcd\xe6\xbc\xa2\x1b]2;hi\x07ef\r\n\x1b[6ngh\x1b[2Kij";
    let mut whole = Term::new(10, 3, 10, 0xffffff, 0);
    whole.feed(input);
    let printable = |b: u8| (0x20..0x7f).contains(&b);
    for k in 0..=input.len() {
        if k > 0 && k < input.len() && printable(input[k - 1]) && printable(input[k]) {
            continue;
        }
        let mut t = Term::new(10, 3, 10, 0xffffff, 0);
        t.feed(&input[..k]);
        t.feed(&input[k..]);
        assert_eq!(cells_of(&t), cells_of(&whole), "split at {}", k);
        assert_eq!((t.x, t.y, t.fg, t.attr), (whole.x, whole.y, whole.fg, whole.attr), "split at {}", k);
        assert_eq!(t.title, whole.title, "split at {}", k);
        assert_eq!(t.out, whole.out, "split at {}", k);
    }
}

#[test]
fn ids_outside_reach_nothing() {
    let mut t = Term::new(5, 2, 3, 0xffffff, 0);
    t.feed(b"1\r\n2\r\n3\r\n4\r\n5\r\n6");
    let end = t.sb_base + t.sb.len() as u64 + t.rows as u64;
    assert!(t.line_at(t.sb_base - 1).is_none());
    assert!(t.line_at(end).is_none());
    assert!(t.line_at(u64::MAX).is_none());
    assert_eq!(t.line_at(end - 1).unwrap().cells[0].cp, '6' as u32);
}

#[test]
fn scrollback_push_keeps_ids() {
    let mut t = Term::new(5, 2, 3, 0xffffff, 0);
    t.feed(b"1\r\n2\r\n3\r\n");
    let id = t.sb_base + 1;
    assert_eq!(t.line_at(id).unwrap().cells[0].cp, '2' as u32);
    t.feed(b"4\r\n");
    assert_eq!(t.line_at(id).unwrap().cells[0].cp, '2' as u32);
    assert_eq!(t.sb.back().unwrap().cells.len(), 1);
    assert_eq!(t.sb.back().unwrap().cells[0].cp, '3' as u32);
}

#[test]
fn resize_keeps_cells_and_scrollback() {
    let mut t = Term::new(4, 2, 10, 0xffffff, 0);
    t.feed(b"ab\r\ncd\r\nef");
    assert_eq!(t.sb.len(), 1);
    t.resize(6, 3);
    assert_eq!((t.cols, t.rows, t.x, t.y, t.view), (6, 3, 2, 1, 0));
    assert!(t.all_dirty);
    assert_eq!(t.sb.len(), 1);
    assert_eq!(t.sb[0].cells[0].cp, 'a' as u32);
    assert_eq!(t.line(0).cells[0].cp, 'c' as u32);
    assert_eq!(t.line(1).cells[1].cp, 'f' as u32);
    let added = t.line(2).cells[5];
    assert_eq!((added.cp, added.fg, added.bg, added.attr), (0, 0xffffff, 0, 0));
    let added = t.line(0).cells[4];
    assert_eq!((added.cp, added.fg, added.bg, added.attr), (0, 0xffffff, 0, 0));
    let before = cells_of(&t);
    t.all_dirty = false;
    t.resize(6, 3);
    assert_eq!(cells_of(&t), before);
    assert!(!t.all_dirty);
    let mut s = Term::new(2, 2, 10, 0xffffff, 0);
    s.feed(b"x");
    s.all_dirty = false;
    s.resize(0, 1);
    assert_eq!((s.cols, s.rows, s.x), (2, 2, 1));
    assert!(!s.all_dirty);
}

#[test]
fn text_in_two_pieces_matches_whole() {
    let mut whole = Term::new(10, 2, 10, 0xffffff, 0);
    whole.feed(b"\x1b[1;5Habcdef");
    for k in 1..6 {
        let mut t = Term::new(10, 2, 10, 0xffffff, 0);
        t.feed(b"\x1b[1;5H");
        t.feed(&b"abcdef"[..k]);
        t.feed(&b"abcdef"[k..]);
        assert_eq!(cells_of(&t), cells_of(&whole), "split at {}", k);
        assert_eq!((t.x, t.y), (whole.x, whole.y));
    }
    assert_eq!(dump(&whole), "....abcdef\n@0,9");
    let text = b"abcdefghijklmnopq";
    let mut whole = Term::new(5, 2, 10, 0xffffff, 0);
    whole.feed(text);
    for k in 1..text.len() {
        let mut t = Term::new(5, 2, 10, 0xffffff, 0);
        t.feed(&text[..k]);
        t.feed(&text[k..]);
        assert_eq!(cells_of(&t), cells_of(&whole), "split at {}", k);
        assert_eq!((t.x, t.y, t.sb.len(), t.sb_base), (whole.x, whole.y, whole.sb.len(), whole.sb_base));
    }
    assert_eq!(dump(&whole), "klmno\npq@1,2");
}

#[test]
fn osc_title_is_clean() {
    let mut t = Term::new(10, 2, 10, 0xffffff, 0);
    t.feed(b"\x1b]2;a\x01b\xffc\x7f\x07");
    assert_eq!(t.title.as_deref(), Some("ab\u{fffd}c"));
    let fits = "x".repeat(255);
    let mut t = Term::new(10, 2, 10, 0xffffff, 0);
    t.feed(format!("\x1b]2;{}\x07", fits).as_bytes());
    assert_eq!(t.title.as_deref(), Some(fits.as_str()));
}
