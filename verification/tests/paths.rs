use ai_monitor::paths::{db_path_from_output, lexical_normalize, preferred_db_path};

#[test]
fn database_path_is_last_non_blank_line() {
    assert_eq!(
        db_path_from_output(b"warming up\n/home/me/.local/share/opencode/opencode.db\n\n"),
        Some("/home/me/.local/share/opencode/opencode.db".to_owned())
    );
    assert_eq!(db_path_from_output(b"  /tmp/a.db \r\n"), Some("/tmp/a.db".to_owned()));
    assert_eq!(db_path_from_output(b"/first.db\r/second.db"), Some("/second.db".to_owned()));
    assert_eq!(db_path_from_output(b""), None);
    assert_eq!(db_path_from_output(b" \n\t\r\n"), None);
}

#[test]
fn database_path_skips_lines_that_are_not_utf8() {
    assert_eq!(db_path_from_output(b"/good.db\n\xff\xfe\n"), Some("/good.db".to_owned()));
    assert_eq!(db_path_from_output(b"\xc3\n"), None);
}

#[test]
fn explicit_path_then_environment_then_standard_file() {
    let s = |v: &str| Some(v.to_owned());
    assert_eq!(preferred_db_path(s("/x.db"), s("/env.db"), s("/std.db")), s("/x.db"));
    assert_eq!(preferred_db_path(None, s("/env.db"), s("/std.db")), s("/env.db"));
    assert_eq!(preferred_db_path(None, s(""), s("/std.db")), s("/std.db"));
    assert_eq!(preferred_db_path(None, None, None), None);
}

#[test]
fn lexical_normalization_resolves_dots() {
    assert_eq!(lexical_normalize("/work/./repo/../other//x/"), "/work/other/x");
    assert_eq!(lexical_normalize("/.."), "/");
    assert_eq!(lexical_normalize("/a/b/../../.."), "/");
    assert_eq!(lexical_normalize("a/../../b"), "b");
    assert_eq!(lexical_normalize("./a/b"), "a/b");
    assert_eq!(lexical_normalize(""), "");
    assert_eq!(lexical_normalize("/"), "/");
}
