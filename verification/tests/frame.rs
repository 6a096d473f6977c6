use sunayama::term::color::Rgb;
use sunayama::term::frame::Frame;

#[test]
fn starts_empty() {
    let f = Frame::new(4, 4);
    assert_eq!(f.get(0, 0), None);
}

#[test]
fn out_of_bounds_is_clipped_not_wrapped() {
    let mut f = Frame::new(4, 4);
    f.set(4, 0, Rgb::new(1, 2, 3));
    assert_eq!(f.get(0, 1), None);
    assert_eq!(f.get(4, 0), None);
}

#[test]
fn a_set_pixel_reads_back_and_clear_removes_it() {
    let mut f = Frame::new(3, 2);
    f.set(2, 1, Rgb::new(9, 8, 7));
    assert_eq!(f.get(2, 1), Some(Rgb::new(9, 8, 7)));
    assert_eq!(f.get(1, 1), None);
    f.clear();
    assert_eq!(f.get(2, 1), None);
    assert_eq!((f.width(), f.height()), (3, 2));
}
