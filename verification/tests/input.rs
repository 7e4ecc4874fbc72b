use lib::input::keys::{key, Act};
use lib::input::sel::Sel;
use lib::input::{clean_paste, drop_paths, mod_code, mouse_report, reports_mouse, shell_quote, wheel, ALT, CMD, CTRL, DOWN, DRAG, SHIFT, UP};
use lib::vt::Term;

#[test]
fn paste_hygiene() {
    assert_eq!(clean_paste(b"ab\x1b[201~cd", false), b"ab[201~cd");
    assert_eq!(clean_paste(b"a\xc2\x9b0;1mb", false), b"a0;1mb");
    assert_eq!(clean_paste(b"a\r\nb\nc\td", false), b"a\rb\rc\td");
    assert_eq!(clean_paste(b"x", true), b"\x1b[200~x\x1b[201~");
    assert_eq!(clean_paste(b"\xc2\xa9", false), b"\xc2\xa9");
}

#[test]
fn quoting() {
    assert_eq!(shell_quote("/usr/bin/cc"), "/usr/bin/cc");
    assert_eq!(shell_quote("/tmp/my file.txt"), "'/tmp/my file.txt'");
    assert_eq!(shell_quote("/a/it's"), "'/a/it'\\''s'");
}

#[test]
fn drop_security() {
    assert_eq!(drop_paths(&["/bin/ls".into()], false), b"/bin/ls ");
    // shell metacharacters are inert (single-quoted)
    assert_eq!(drop_paths(&["/t/$(reboot);x".into()], false), b"'/t/$(reboot);x' ");
    // a newline in a filename must NOT survive as CR/LF (no line submission)
    let evil = drop_paths(&["a\nrm -rf ~".into()], false);
    assert!(!evil.contains(&b'\n') && !evil.contains(&b'\r'));
    assert_eq!(evil, "'arm -rf ~' ".as_bytes());
    // bracketed wrapping when paste mode is on
    assert_eq!(drop_paths(&["/a".into()], true), b"\x1b[200~/a \x1b[201~");
}

#[test]
fn selection_text() {
    let mut t = Term::new(10, 3, 10, 0xffffff, 0);
    t.feed(b"hello \r\nworld");
    let mut s = Sel::default();
    s.begin(&t, t.line_id(0), 0, 1);
    s.drag(&t, t.line_id(1), 4);
    s.finish(t.line_id(1), 4);
    assert_eq!(s.text(&t).unwrap(), b"hello\nworld");
    let mut s = Sel::default();
    s.begin(&t, t.line_id(1), 2, 2);
    assert_eq!(s.text(&t).unwrap(), b"world");
}

#[test]
fn paste_edge_cases() {
    assert_eq!(clean_paste(b"", false), b"");
    assert_eq!(clean_paste(b"\x7f\x00\x08\x1b", false), b"");
    assert_eq!(clean_paste(b"\r", false), b"\r");
    assert_eq!(clean_paste(b"\xc2", false), b"\xc2");
    assert_eq!(clean_paste(b"\xc2\x80\xc2\x9f", false), b"");
    assert_eq!(clean_paste(b"", true), b"\x1b[200~\x1b[201~");
}

#[test]
fn dropped_paths_are_joined() {
    assert_eq!(drop_paths(&["/a b".into(), "/c".into()], false), b"'/a b' /c ");
    assert_eq!(drop_paths(&[], false), b" ");
    assert_eq!(drop_paths(&["".into()], false), b"'' ");
    assert_eq!(drop_paths(&["\u{85}x".into()], false), b"x ");
}

#[test]
fn quote_edge_cases() {
    assert_eq!(shell_quote(""), "''");
    assert_eq!(shell_quote("a=b,c:d@e%f+g"), "a=b,c:d@e%f+g");
    assert_eq!(shell_quote("é"), "'é'");
    assert_eq!(shell_quote("'"), "''\\'''");
}

#[test]
fn mouse_reports() {
    let mut m = Term::new(2, 2, 0, 0, 0).modes;
    assert_eq!(mouse_report(0, DOWN, 0, 0, 0, &m), None);
    m.sgr_mouse = true;
    m.mouse = 1000;
    assert_eq!(mouse_report(0, DOWN, 0, 4, 9, &m), Some(b"\x1b[<0;5;10M".to_vec()));
    assert_eq!(mouse_report(2, UP, SHIFT | CTRL, 0, 0, &m), Some(b"\x1b[<22;1;1m".to_vec()));
    assert_eq!(mouse_report(0, DRAG, 0, 0, 0, &m), None);
    m.mouse = 1002;
    assert_eq!(mouse_report(0, DRAG, ALT, 0, 0, &m), Some(b"\x1b[<40;1;1M".to_vec()));
    assert_eq!(mouse_report(-5, DOWN, 0, 0, 0, &m), Some(b"\x1b[<-5;1;1M".to_vec()));
}

fn bytes(a: Act) -> Vec<u8> {
    match a {
        Act::Write(v) => v,
        _ => panic!("not bytes"),
    }
}

#[test]
fn keys_to_bytes() {
    let mut m = Term::new(2, 2, 0, 0, 0).modes;
    assert_eq!(mod_code(0), 1);
    assert_eq!(mod_code(SHIFT | ALT | CTRL), 8);
    assert_eq!(bytes(key(0xf700, 0, &m, 0x7f)), b"\x1b[A");
    m.ckm = true;
    assert_eq!(bytes(key(0xf703, 0, &m, 0x7f)), b"\x1bOC");
    assert_eq!(bytes(key(0xf701, SHIFT, &m, 0x7f)), b"\x1b[1;2B");
    assert_eq!(bytes(key(0xf704, 0, &m, 0x7f)), b"\x1bOP");
    assert_eq!(bytes(key(0xf70f, CTRL, &m, 0x7f)), b"\x1b[24;5~");
    assert_eq!(bytes(key(0xf728, 0, &m, 0x7f)), b"\x1b[3~");
    assert!(matches!(key(0xf750, 0, &m, 0x7f), Act::Eat));
    assert_eq!(bytes(key(0x0d, ALT, &m, 0x7f)), b"\x1b\r");
    assert_eq!(bytes(key(0x09, SHIFT, &m, 0x7f)), b"\x1b[Z");
    assert_eq!(bytes(key(0x7f, CTRL, &m, 0x7f)), b"\x08");
    assert_eq!(bytes(key(0x7f, 0, &m, 0x08)), b"\x08");
    assert_eq!(bytes(key(0x7f, 0, &m, 0x7f)), b"\x7f");
    assert_eq!(bytes(key(0x7f, ALT, &m, 0x08)), b"\x1b\x08");
    assert_eq!(bytes(key('c' as u16, CTRL, &m, 0x7f)), b"\x03");
    assert_eq!(bytes(key('?' as u16, CTRL | ALT, &m, 0x7f)), b"\x1b\x7f");
    assert!(matches!(key('1' as u16, CTRL, &m, 0x7f), Act::Eat));
    assert_eq!(bytes(key('é' as u16, ALT, &m, 0x7f)), "\x1bé".as_bytes());
    assert!(matches!(key('x' as u16, 0, &m, 0x7f), Act::Pass));
    assert!(matches!(key('q' as u16, CMD, &m, 0x7f), Act::Quit));
    assert!(matches!(key('+' as u16, CMD, &m, 0x7f), Act::Font(1)));
    assert!(matches!(key('-' as u16, CMD, &m, 0x7f), Act::Font(-1)));
    assert!(matches!(key('z' as u16, CMD, &m, 0x7f), Act::Eat));
    assert!(matches!(key(']' as u16, CMD, &m, 0x7f), Act::Gamma(1)));
    assert!(matches!(key('[' as u16, CMD, &m, 0x7f), Act::Gamma(-1)));
    assert!(matches!(key('p' as u16, CMD, &m, 0x7f), Act::Phosphor));
}

#[test]
fn selection_modes() {
    let mut t = Term::new(12, 2, 10, 0xffffff, 0);
    t.feed(b"foo bar.baz");
    let id = t.line_id(0);
    let mut s = Sel::default();
    s.begin(&t, id, 5, 2);
    assert_eq!(s.on, Some(((id, 4), (id, 10))));
    assert_eq!(s.text(&t).unwrap(), b"bar.baz");
    let mut s = Sel::default();
    s.begin(&t, id, 5, 3);
    assert_eq!(s.on, Some(((id, 0), (id, 11))));
    let mut s = Sel::default();
    s.begin(&t, id, 5, 1);
    s.finish(id, 5);
    assert_eq!(s.on, None);
    assert!(!s.dragging);
    assert_eq!(s.text(&t), None);
}

#[test]
fn wheel_turns() {
    let mut t = Term::new(4, 2, 10, 0xffffff, 0);
    t.feed(b"1\r\n2\r\n3\r\n4");
    assert_eq!(wheel(&mut t, 3, 0, 0, 0), None);
    assert_eq!(t.view, 2);
    assert_eq!(wheel(&mut t, -1, 0, 0, 0), None);
    assert_eq!(t.view, 1);
    assert_eq!(wheel(&mut t, 0, 0, 0, 0), None);
    t.feed(b"\x1b[?1049h");
    assert_eq!(wheel(&mut t, 2, 0, 0, 0), Some(b"\x1b[A\x1b[A".to_vec()));
    t.feed(b"\x1b[?1h");
    assert_eq!(wheel(&mut t, -40, 0, 0, 0).map(|v| v.len()), Some(90));
    t.feed(b"\x1b[?1000h\x1b[?1006h");
    t.view = 0;
    assert!(reports_mouse(&t.modes, 0, 0));
    assert!(!reports_mouse(&t.modes, SHIFT, 0));
    assert!(!reports_mouse(&t.modes, 0, 1));
    assert_eq!(wheel(&mut t, -2, 0, 3, 1), Some(b"\x1b[<65;4;2M\x1b[<65;4;2M".to_vec()));
    assert_eq!(wheel(&mut t, -1, SHIFT, 3, 1), Some(b"\x1bOB".to_vec()));
}

#[test]
fn output_drops_a_finished_selection() {
    let mut t = Term::new(12, 2, 10, 0xffffff, 0);
    t.feed(b"hello world");
    let mut s = Sel::default();
    assert!(!s.drop_on_output());
    s.begin(&t, 0, 0, 1);
    s.drag(&t, 0, 4);
    assert!(!s.drop_on_output());
    assert!(s.on.is_some());
    s.finish(0, 4);
    assert!(s.drop_on_output());
    assert!(s.on.is_none());
}

#[test]
fn no_c1_control_forms_from_dropped_bytes() {
    assert_eq!(clean_paste(b"\xc2\x1b\x85", false), b"");
    assert_eq!(clean_paste(b"\xc2\xc2\x85\x85", false), b"");
    assert_eq!(clean_paste(b"x\xc2\r\n\x9by", false), b"x\xc2\r\x9by");
    assert_eq!(clean_paste("\u{a2}\u{e9}".as_bytes(), false), "\u{a2}\u{e9}".as_bytes());
}

#[test]
fn reversed_spans_give_no_text() {
    let mut t = Term::new(10, 3, 10, 0xffffff, 0);
    t.feed(b"hello \r\nworld");
    let (l0, l1) = (t.line_id(0), t.line_id(1));
    let mut s = Sel::default();
    s.on = Some(((l1, 0), (l0, 4)));
    assert_eq!(s.text(&t).unwrap(), b"");
    s.on = Some(((l0, 3), (l0, 2)));
    assert_eq!(s.text(&t).unwrap(), b"");
    s.on = Some(((l0, 20), (l0, 15)));
    assert_eq!(s.text(&t).unwrap(), b"");
}
