use sunayama::term::ini::Ini;

#[test]
fn sections_scope_their_keys() {
    let ini = Ini::parse("[a]\nx = 1\n[b]\nx = 2\n").unwrap();
    assert_eq!(ini.get("a", "x"), Some("1"));
    assert_eq!(ini.get("b", "x"), Some("2"));
}

#[test]
fn quotes_and_comments_come_off() {
    let ini = Ini::parse("; a comment\n# another\n[color]\nname = 'sand'\n").unwrap();
    assert_eq!(ini.get("color", "name"), Some("sand"));
}

#[test]
fn a_line_that_is_neither_fails_with_its_number() {
    let err = Ini::parse("[a]\nx = 1\nnot a key or section\n").unwrap_err();
    assert!(err.starts_with("line 3:"), "{err}");
}

#[test]
fn a_comment_may_follow_a_quoted_value() {
    let ini = Ini::parse("[color]\ngradient_color_1 = '#9a744a'   ; the body\n").unwrap();
    assert_eq!(ini.get("color", "gradient_color_1"), Some("#9a744a"));
}

#[test]
fn a_bare_value_keeps_its_hash() {
    let ini = Ini::parse("[color]\ngradient_color_1 = #9a744a\n").unwrap();
    assert_eq!(ini.get("color", "gradient_color_1"), Some("#9a744a"));
}

#[test]
fn the_last_value_for_a_key_wins() {
    let ini = Ini::parse("[a]\nx = 1\nx = 2\n").unwrap();
    assert_eq!(ini.get("a", "x"), Some("2"));
}

#[test]
fn a_bad_section_header_fails_with_its_number() {
    let err = Ini::parse("[a\nx = 1\n").unwrap_err();
    assert!(err.starts_with("line 1:"), "{err}");
}

#[test]
fn extend_lets_a_later_ini_win() {
    let mut base = Ini::parse("[a]\nx = 1\n").unwrap();
    let over = Ini::parse("[a]\nx = 2\n").unwrap();
    base.extend(over);
    assert_eq!(base.get("a", "x"), Some("2"));
}

#[test]
fn complaints_quote_the_line_as_debug_does() {
    let err = Ini::parse("[a]\n\nstray\r\n").unwrap_err();
    assert_eq!(err, "line 3: \"stray\" is neither a section nor a key");
    let err = Ini::parse("[open\n").unwrap_err();
    assert_eq!(err, "line 1: \"[open\" is not a section header");
}

#[test]
fn keys_before_any_header_live_in_the_empty_section() {
    let ini = Ini::parse("x = 1\n[a]\ny = \"two\"\n").unwrap();
    assert_eq!(ini.get("", "x"), Some("1"));
    assert_eq!(ini.get("a", "x"), None);
    assert_eq!(ini.get("a", "y"), Some("two"));
}

#[test]
fn unclosed_quotes_and_crlf_lines_stay_as_written() {
    let ini = Ini::parse("[s]\r\nk = 'open\r\nj =  \"a\" b \r\n[ t ]\nz=\n").unwrap();
    assert_eq!(ini.get("s", "k"), Some("'open"));
    assert_eq!(ini.get("s", "j"), Some("a"));
    assert_eq!(ini.get("t", "z"), Some(""));
}

#[test]
fn an_empty_text_has_no_entries() {
    let ini = Ini::parse("").unwrap();
    assert_eq!(ini.get("", ""), None);
}
