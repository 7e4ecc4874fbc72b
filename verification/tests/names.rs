use lib::names::{command_name, icon8, nul_field, procargs_argv0, tilde, title_base};

#[test]
fn icon_truncate() {
    assert_eq!(icon8("trm"), "trm");
    assert_eq!(icon8("12345678"), "12345678");
    assert_eq!(icon8("superpowers"), "superpo~");
    assert_eq!(icon8("customer-match"), "custome~");
    assert_eq!(icon8("~"), "~");
}

#[test]
fn home_is_abbreviated() {
    let h = "/Users/me";
    assert_eq!(tilde(h, Some(h)), "~");
    assert_eq!(tilde("/Users/me/work", Some(h)), "~/work");
    assert_eq!(tilde("/Users/mework", Some(h)), "/Users/mework");
    assert_eq!(tilde("/tmp", Some(h)), "/tmp");
    assert_eq!(tilde("/Users/me/work", None), "/Users/me/work");
    assert_eq!(icon8("éééééééééé"), "ééééééé~");
}

#[test]
fn fixed_fields_end_at_nul() {
    let buf = b"xx/tmp/a\0\0junkyy";
    assert_eq!(nul_field(buf, 2, 16), Some(b"/tmp/a".to_vec()));
    assert_eq!(nul_field(buf, 2, 5), Some(b"/tm".to_vec()));
    assert_eq!(nul_field(buf, 8, 16), None);
    assert_eq!(nul_field(buf, 3, 3), None);
}

#[test]
fn first_argument_of_a_process() {
    let buf = b"\x01\0\0\0/usr/bin/top\0\0\0top\0-l\0";
    assert_eq!(procargs_argv0(buf), Some(b"top".to_vec()));
    assert_eq!(procargs_argv0(b"\x01\0\0\0/bin/sh\0\0\0"), None);
    assert_eq!(procargs_argv0(b"\x01\0\0"), None);
}

#[test]
fn command_names() {
    assert_eq!(command_name("/bin/zsh").as_deref(), Some("zsh"));
    assert_eq!(command_name("-zsh").as_deref(), Some("zsh"));
    assert_eq!(command_name("/usr/local/bin/--x").as_deref(), Some("x"));
    assert_eq!(command_name("vim").as_deref(), Some("vim"));
    assert_eq!(command_name("/usr/bin/"), None);
    assert_eq!(command_name("--"), None);
}

#[test]
fn title_bases() {
    assert_eq!(title_base("~/work/trm"), "trm");
    assert_eq!(title_base("~"), "~");
    assert_eq!(title_base("/"), "/");
    assert_eq!(title_base("/a/b/"), "/");
}
