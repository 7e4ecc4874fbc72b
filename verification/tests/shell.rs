use lib::shell::{child_env, keep_var, login_arg0};

fn vars(list: &[(&str, &str)]) -> Vec<(String, String)> {
    list.iter().map(|(k, v)| (k.to_string(), v.to_string())).collect()
}

#[test]
fn loader_and_terminal_variables_are_not_passed() {
    assert!(keep_var("HOME"));
    assert!(keep_var("TERM_PROGRAM"));
    assert!(keep_var("DYLD"));
    assert!(!keep_var("TERM"));
    assert!(!keep_var("COLORTERM"));
    assert!(!keep_var("TERMCAP"));
    assert!(!keep_var("DYLD_INSERT_LIBRARIES"));
    assert!(!keep_var("TRM_FONT_PT"));
}

#[test]
fn shell_environment() {
    let env = child_env(&vars(&[("HOME", "/Users/me"), ("TERM", "dumb"), ("DYLD_INSERT_LIBRARIES", "/x.dylib"), ("TRM_GAMMA", "0.5"), ("PATH", "/bin")]));
    assert_eq!(env, vec!["HOME=/Users/me", "PATH=/bin", "TERM=xterm-256color", "COLORTERM=truecolor", "LANG=en_US.UTF-8"]);
    let env = child_env(&vars(&[("LANG", "de_DE.UTF-8")]));
    assert_eq!(env, vec!["LANG=de_DE.UTF-8", "TERM=xterm-256color", "COLORTERM=truecolor"]);
    assert_eq!(child_env(&[]).len(), 3);
}

#[test]
fn login_shell_names() {
    assert_eq!(login_arg0("/bin/zsh"), "-zsh");
    assert_eq!(login_arg0("/opt/homebrew/bin/fish"), "-fish");
    assert_eq!(login_arg0("bash"), "-bash");
}
