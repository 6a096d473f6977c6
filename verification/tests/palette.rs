use sunayama::palette::{default_grains, from_ini, Palette};
use sunayama::term::color::Rgb;
use sunayama::term::ini::Ini;

#[test]
fn a_missing_config_gives_the_default_grains() {
    let ini = Ini::parse("").unwrap();
    assert_eq!(from_ini(&ini).unwrap(), default_grains());
}

#[test]
fn three_gradient_colours_leave_the_fourth_white() {
    let ini = Ini::parse(
        "[color]\ngradient_count = 3\ngradient_color_1 = '#111111'\ngradient_color_2 = '#222222'\ngradient_color_3 = '#333333'\n",
    )
    .unwrap();
    let grains = from_ini(&ini).unwrap();
    assert_eq!(grains[0], Rgb::new(0x11, 0x11, 0x11));
    assert_eq!(grains[1], Rgb::new(0x22, 0x22, 0x22));
    assert_eq!(grains[2], Rgb::new(0x33, 0x33, 0x33));
    assert_eq!(grains[3], default_grains()[3]);
}

#[test]
fn a_bad_colour_names_the_key() {
    let ini =
        Ini::parse("[color]\ngradient_count = 1\ngradient_color_1 = 'not-a-colour'\n").unwrap();
    let err = from_ini(&ini).unwrap_err();
    assert!(err.contains("gradient_color_1"), "{err}");
}

#[test]
fn without_a_count_the_highest_named_colour_sets_it() {
    let ini = Ini::parse("[color]\ngradient_color_2 = '#222'\ngradient_color_1 = 'abc'\n").unwrap();
    let grains = from_ini(&ini).unwrap();
    assert_eq!(grains[0], Rgb::new(0xaa, 0xbb, 0xcc));
    assert_eq!(grains[1], Rgb::new(0x22, 0x22, 0x22));
    assert_eq!(grains[2], default_grains()[2]);
}

#[test]
fn a_count_is_held_to_one_through_four() {
    let ini = Ini::parse("[color]\ngradient_count = 0\ngradient_color_1 = '#010203'\n").unwrap();
    assert_eq!(from_ini(&ini).unwrap()[0], Rgb::new(1, 2, 3));
    let ini = Ini::parse("[color]\ngradient_count = 9\n").unwrap();
    assert_eq!(
        from_ini(&ini).unwrap_err(),
        "[color] gradient_color_1 is missing"
    );
    let ini = Ini::parse("[color]\ngradient_count = many\n").unwrap();
    assert_eq!(
        from_ini(&ini).unwrap_err(),
        "[color] gradient_count \"many\" is not a number"
    );
}

#[test]
fn a_bad_colour_complaint_quotes_the_text() {
    let ini = Ini::parse("[color]\ngradient_color_2 = '#12'\ngradient_color_1 = '#123'\n").unwrap();
    assert_eq!(
        from_ini(&ini).unwrap_err(),
        "[color] gradient_color_2 \"#12\" is not a colour"
    );
}

#[test]
fn the_body_is_shaded_by_depth_and_accents_are_not() {
    let shades = vec![Rgb::new(1, 1, 1), Rgb::new(2, 2, 2), Rgb::new(3, 3, 3)];
    let accents = [Rgb::new(7, 0, 0), Rgb::new(0, 7, 0), Rgb::new(0, 0, 7)];
    let palette = Palette::from_shades(shades, accents);
    assert_eq!(palette.grain(1, 0), Rgb::new(1, 1, 1));
    assert_eq!(palette.grain(1, 2), Rgb::new(3, 3, 3));
    assert_eq!(palette.grain(1, 50), Rgb::new(3, 3, 3));
    assert_eq!(palette.grain(2, 0), palette.grain(2, 19));
    assert_eq!(palette.grain(4, 3), Rgb::new(0, 0, 7));
}

/// The palette as the program shades it in floating point: the body fades from a third
/// of its colour at the crest to most of it at the base, the accents sit at nine tenths.
fn shaded(grains: [Rgb; 4], bg: Rgb, rows: usize) -> Palette {
    let blend = |fg: Rgb, alpha: f64| {
        let channel =
            |f: u8, b: u8| (f64::from(f) * alpha + f64::from(b) * (1.0 - alpha)).round() as u8;
        Rgb::new(channel(fg.r, bg.r), channel(fg.g, bg.g), channel(fg.b, bg.b))
    };
    let (lo, hi) = (0.34, 0.84);
    let rows = rows.max(1);
    let depths = (0..rows)
        .map(|y| blend(grains[0], lo + (y as f64 / rows as f64) * (hi - lo)))
        .collect();
    let accents = [blend(grains[1], 0.9), blend(grains[2], 0.9), blend(grains[3], 0.9)];
    Palette::from_shades(depths, accents)
}

#[test]
fn the_crest_is_faint_and_the_base_is_solid() {
    let bg = Rgb::new(0, 0, 0);
    let palette = shaded(default_grains(), bg, 10);
    let crest = palette.grain(1, 0);
    let base = palette.grain(1, 9);
    let dist = |a: Rgb, b: Rgb| {
        (i32::from(a.r) - i32::from(b.r)).abs()
            + (i32::from(a.g) - i32::from(b.g)).abs()
            + (i32::from(a.b) - i32::from(b.b)).abs()
    };
    assert!(dist(crest, bg) < dist(base, bg));
}

#[test]
fn accents_ignore_the_depth() {
    let palette = shaded(default_grains(), Rgb::new(0, 0, 0), 20);
    assert_eq!(palette.grain(2, 0), palette.grain(2, 19));
    assert_eq!(palette.grain(4, 3), palette.grain(4, 17));
}

#[test]
fn a_colour_that_is_not_hex_before_a_wide_character_is_refused_by_name() {
    let ini = Ini::parse("[color]\ngradient_color_1 = 'z\u{e9}'\n").unwrap();
    assert_eq!(
        from_ini(&ini).unwrap_err(),
        "[color] gradient_color_1 \"z\u{e9}\" is not a colour"
    );
}
