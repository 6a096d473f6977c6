use sunayama::term::color::{
    colorfgbg_colour, ends_reply, hex_reads_cleanly, is_light, parse_osc11, to_ansi256, ColorMode, Rgb,
};

#[test]
fn gray_goes_to_the_ramp() {
    assert_eq!(to_ansi256(Rgb::new(0, 0, 0)), 232);
    assert_eq!(to_ansi256(Rgb::new(255, 255, 255)), 255);
}

#[test]
fn saturated_goes_to_the_cube() {
    assert_eq!(to_ansi256(Rgb::new(255, 0, 0)), 16 + 36 * 5);
    assert_eq!(to_ansi256(Rgb::new(0, 0, 255)), 16 + 5);
}

#[test]
fn hex_parses_with_and_without_the_hash() {
    assert_eq!(Rgb::from_hex("#a68cd9"), Some(Rgb::new(0xa6, 0x8c, 0xd9)));
    assert_eq!(Rgb::from_hex("a68cd9"), Some(Rgb::new(0xa6, 0x8c, 0xd9)));
    assert_eq!(Rgb::from_hex("#fff"), Some(Rgb::new(0xff, 0xff, 0xff)));
    assert_eq!(Rgb::from_hex("not-a-colour"), None);
}

#[test]
fn an_osc11_reply_parses_at_every_digit_width() {
    assert_eq!(
        parse_osc11(b"\x1b]11;rgb:1e1e/1e1e/2e2e\x07"),
        Some(Rgb::new(30, 30, 46))
    );
    assert_eq!(
        parse_osc11(b"\x1b]11;rgb:1e/1e/2e\x1b\\"),
        Some(Rgb::new(30, 30, 46))
    );
    assert_eq!(parse_osc11(b"not an osc reply"), None);
}

#[test]
fn osc11_channels_scale_by_their_width() {
    assert_eq!(parse_osc11(b"rgb:f/8/0"), Some(Rgb::new(255, 136, 0)));
    assert_eq!(parse_osc11(b"rgb:fff/000/800"), Some(Rgb::new(255, 0, 127)));
    assert_eq!(parse_osc11(b"rgb:12345/0/0"), None);
    assert_eq!(parse_osc11(b"rgb:ff/ff"), None);
    assert_eq!(parse_osc11(b"\xff\xfergb:ff/ff/ff"), None);
}

#[test]
fn hex_accepts_a_plus_sign_as_from_str_radix_does() {
    assert_eq!(Rgb::from_hex("+f+f+f"), Some(Rgb::new(15, 15, 15)));
    assert_eq!(Rgb::from_hex("#ABC"), Some(Rgb::new(0xaa, 0xbb, 0xcc)));
    assert_eq!(Rgb::from_hex("#abcd"), None);
    assert_eq!(Rgb::from_hex("#éa1234"), None);
}

#[test]
fn cube_levels_round_to_the_nearest_step() {
    assert_eq!(to_ansi256(Rgb::new(128, 0, 64)), 16 + 36 * 3 + 1);
    assert_eq!(to_ansi256(Rgb::new(100, 104, 108)), 232 + 10);
}

#[test]
fn replies_end_with_bel_or_st() {
    assert!(ends_reply(b"abc\x07"));
    assert!(ends_reply(b"abc\x1b\\"));
    assert!(!ends_reply(b"abc"));
    assert!(!ends_reply(b""));
}

#[test]
fn colorfgbg_names_an_ansi_background() {
    assert_eq!(colorfgbg_colour("15;0"), Some(Rgb::new(0, 0, 0)));
    assert_eq!(colorfgbg_colour("0;15"), Some(Rgb::new(0xff, 0xff, 0xff)));
    assert_eq!(colorfgbg_colour("7;default;9"), Some(Rgb::new(0xff, 0, 0)));
    assert_eq!(colorfgbg_colour("0;16"), None);
    assert_eq!(colorfgbg_colour("0;x"), None);
}

#[test]
fn colorterm_picks_the_mode() {
    assert_eq!(ColorMode::for_colorterm(Some("truecolor")), ColorMode::True);
    assert_eq!(ColorMode::for_colorterm(Some("24bit")), ColorMode::True);
    assert_eq!(ColorMode::for_colorterm(Some("yes")), ColorMode::Ansi256);
    assert_eq!(ColorMode::for_colorterm(None), ColorMode::Ansi256);
}

#[test]
fn light_and_dark_backgrounds_are_told_apart() {
    assert!(!is_light(Rgb::new(0, 0, 0)));
    assert!(is_light(Rgb::new(255, 255, 255)));
}

#[test]
fn a_background_exactly_half_bright_is_not_light() {
    assert!(!is_light(Rgb::new(127, 127, 127)));
    assert!(is_light(Rgb::new(128, 128, 128)));
    assert!(!is_light(Rgb::new(13, 163, 113)));
    assert!(is_light(Rgb::new(13, 163, 114)));
}

#[test]
fn a_hex_text_that_fails_before_a_cut_reads_as_no_colour() {
    assert!(hex_reads_cleanly("z\u{e9}"));
    assert_eq!(Rgb::from_hex("z\u{e9}"), None);
    assert!(hex_reads_cleanly("zza\u{e9}b"));
    assert_eq!(Rgb::from_hex("zza\u{e9}b"), None);
    assert!(!hex_reads_cleanly("a\u{e9}"));
    assert!(!hex_reads_cleanly("#12a\u{e9}b"));
}
