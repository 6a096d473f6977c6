use sunayama::term::color::{ColorMode, Rgb};
use sunayama::term::frame::Frame;
use sunayama::term::render::Renderer;

const UPPER: &str = "▀";
const LOWER: &str = "▄";

fn a() -> Rgb {
    Rgb::new(10, 20, 30)
}

fn b() -> Rgb {
    Rgb::new(40, 50, 60)
}

fn draw(frame: &Frame) -> String {
    let mut out = Vec::new();
    Renderer::new(ColorMode::True).render(frame, &mut out);
    String::from_utf8(out).unwrap()
}

#[test]
fn bottom_pixel_alone_uses_the_lower_half_block() {
    let mut f = Frame::new(1, 2);
    f.set(0, 1, a());
    assert!(draw(&f).contains(LOWER));
}

#[test]
fn top_pixel_alone_uses_the_upper_half_block() {
    let mut f = Frame::new(1, 2);
    f.set(0, 0, a());
    let out = draw(&f);
    assert!(out.contains(UPPER));
    assert!(out.contains("\x1b[49m"));
}

#[test]
fn both_pixels_pack_into_one_cell() {
    let mut f = Frame::new(1, 2);
    f.set(0, 0, a());
    f.set(0, 1, b());
    let out = draw(&f);
    assert!(out.contains("\x1b[38;2;10;20;30m"));
    assert!(out.contains("\x1b[48;2;40;50;60m"));
    assert_eq!(out.matches(UPPER).count(), 1);
}

#[test]
fn an_unchanged_frame_writes_nothing() {
    let mut f = Frame::new(4, 4);
    f.set(1, 1, a());
    let mut r = Renderer::new(ColorMode::True);
    let mut first = Vec::new();
    r.render(&f, &mut first);
    let mut second = Vec::new();
    r.render(&f, &mut second);
    assert!(!first.is_empty());
    assert!(second.is_empty());
}

#[test]
fn a_run_of_cells_moves_the_cursor_once() {
    let mut f = Frame::new(3, 2);
    for x in 0..3 {
        f.set(x, 0, a());
    }
    assert_eq!(draw(&f).matches("\x1b[").count(), 5);
}

#[test]
fn a_whole_frame_is_written_exactly() {
    let mut f = Frame::new(2, 2);
    f.set(1, 1, a());
    assert_eq!(
        draw(&f),
        "\x1b[2J\x1b[1;2H\x1b[38;2;10;20;30m\x1b[49m▄\x1b[m"
    );
}

#[test]
fn ansi256_mode_writes_palette_indices() {
    let mut f = Frame::new(1, 2);
    f.set(0, 0, Rgb::new(255, 0, 0));
    f.set(0, 1, Rgb::new(0, 0, 255));
    let mut out = Vec::new();
    Renderer::new(ColorMode::Ansi256).render(&f, &mut out);
    let out = String::from_utf8(out).unwrap();
    assert!(out.contains("\x1b[38;5;196m"));
    assert!(out.contains("\x1b[48;5;21m"));
}

#[test]
fn only_changed_cells_are_redrawn() {
    let mut f = Frame::new(3, 2);
    f.set(0, 0, a());
    let mut r = Renderer::new(ColorMode::True);
    let mut first = Vec::new();
    r.render(&f, &mut first);
    f.set(2, 1, b());
    let mut second = Vec::new();
    r.render(&f, &mut second);
    assert_eq!(
        String::from_utf8(second).unwrap(),
        "\x1b[1;3H\x1b[38;2;40;50;60m\x1b[49m▄\x1b[m"
    );
}

#[test]
fn a_repeat_render_paints_only_the_changed_cells() {
    let mut f = Frame::new(4, 4);
    f.set(0, 0, a());
    f.set(3, 3, b());
    let mut r = Renderer::new(ColorMode::True);
    let mut first = Vec::new();
    r.render(&f, &mut first);

    f.set(2, 1, b());
    let mut second = Vec::new();
    r.render(&f, &mut second);
    let out = String::from_utf8(second).unwrap();
    assert!(!out.contains("\x1b[2J"));
    assert_eq!(out.matches(LOWER).count(), 1);
    assert_eq!(out.matches(UPPER).count(), 0);
    assert!(out.starts_with("\x1b[1;3H"));
    assert!(out.ends_with("\x1b[m"));
}

#[test]
fn a_new_size_clears_the_screen_first() {
    let mut r = Renderer::new(ColorMode::True);
    let mut first = Vec::new();
    r.render(&Frame::new(2, 2), &mut first);
    assert_eq!(first, b"\x1b[2J".to_vec(), "an empty first frame is only a clear");
    let mut same = Vec::new();
    r.render(&Frame::new(2, 2), &mut same);
    assert!(same.is_empty());
    let mut wider = Frame::new(3, 2);
    wider.set(2, 0, a());
    let mut out = Vec::new();
    r.render(&wider, &mut out);
    let out = String::from_utf8(out).unwrap();
    assert!(out.starts_with("\x1b[2J\x1b[1;3H"));
}
