use kimun_deps::gomod::{go_module_name, is_whitespace_char};

#[test]
fn detect_go_module_returns_module_name() {
    assert_eq!(
        go_module_name("module github.com/user/myproject\n\ngo 1.21\n"),
        Some("github.com/user/myproject".to_string())
    );
}

#[test]
fn detect_go_module_no_module_line() {
    assert!(go_module_name("go 1.21\n").is_none());
}

#[test]
fn go_module_empty_content() {
    assert!(go_module_name("").is_none());
}

#[test]
fn go_module_later_line_and_trimming() {
    assert_eq!(
        go_module_name("// comment\ngo 1.21\nmodule   example.com/x  \r\nmodule other\n"),
        Some("example.com/x".to_string())
    );
}

#[test]
fn go_module_needs_prefix_at_line_start() {
    assert!(go_module_name(" module x\nmodules y\nmodule\n").is_none());
}

#[test]
fn go_module_without_trailing_newline() {
    assert_eq!(go_module_name("go 1.21\nmodule a/b"), Some("a/b".to_string()));
}

#[test]
fn go_module_empty_name() {
    assert_eq!(go_module_name("module \t \n"), Some(String::new()));
}

#[test]
fn go_module_agrees_with_lines_and_trim() {
    let inputs = [
        "module x\n",
        "go 1\r\nmodule \u{a0}y\u{3000}\r\n",
        "\n\nmodule z",
        "modulex\nmodule  w\u{2028}\n",
    ];
    for s in inputs {
        let expected = s
            .lines()
            .find_map(|l| l.strip_prefix("module ").map(|r| r.trim().to_string()));
        assert_eq!(go_module_name(s), expected, "input {:?}", s);
    }
}

#[test]
fn whitespace_matches_std() {
    for u in 0u32..0x3100 {
        if let Some(c) = char::from_u32(u) {
            assert_eq!(is_whitespace_char(c), c.is_whitespace(), "char {:#x}", u);
        }
    }
}
