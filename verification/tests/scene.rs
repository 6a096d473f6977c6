use sunayama::cycle::{Cycle, Endless, Quota, Want};
use sunayama::palette::Palette;
use sunayama::rng::Rng;
use sunayama::sand::Grid;
use sunayama::scene::{paint, quits, resize, step, tick, Key, POUR_CAP};
use sunayama::term::color::Rgb;
use sunayama::term::frame::Frame;

const CREST: Rgb = Rgb { r: 1, g: 1, b: 1 };
const BASE: Rgb = Rgb { r: 2, g: 2, b: 2 };
const FIRST: Rgb = Rgb { r: 9, g: 0, b: 0 };
const SECOND: Rgb = Rgb { r: 0, g: 9, b: 0 };
const THIRD: Rgb = Rgb { r: 0, g: 0, b: 9 };

fn palette() -> Palette {
    Palette::from_shades(vec![CREST, BASE], [FIRST, SECOND, THIRD])
}

#[test]
fn grains_are_painted_in_their_colours_where_they_lie() {
    let grid = Grid::with_cells(3, 2, vec![0, 4, 0, 2, 1, 0]);
    let mut frame = Frame::new(3, 2);
    paint(&grid, &mut frame, 0, &palette());
    assert_eq!(frame.get(0, 0), None);
    assert_eq!(frame.get(1, 0), Some(THIRD));
    assert_eq!(frame.get(2, 0), None);
    assert_eq!(frame.get(0, 1), Some(FIRST));
    assert_eq!(frame.get(1, 1), Some(BASE));
    assert_eq!(frame.get(2, 1), None);
}

#[test]
fn the_sway_shifts_the_pile_and_clips_it_at_the_edges() {
    let grid = Grid::with_cells(3, 2, vec![0, 0, 0, 1, 0, 1]);
    let mut frame = Frame::new(3, 2);
    frame.set(1, 0, FIRST);
    paint(&grid, &mut frame, 1, &palette());
    assert_eq!(frame.get(1, 0), None, "painting starts from a clear frame");
    assert_eq!(frame.get(0, 1), None);
    assert_eq!(frame.get(1, 1), Some(BASE));
    assert_eq!(frame.get(2, 1), None);

    paint(&grid, &mut frame, -1, &palette());
    assert_eq!(frame.get(0, 1), None);
    assert_eq!(frame.get(1, 1), Some(BASE));
    assert_eq!(frame.get(2, 1), None);
}

#[test]
fn a_tick_pours_what_is_owed_up_to_the_cap() {
    let mut grid = Grid::new(9, 6);
    let mut rng = Rng::new(5);
    let done = tick(&mut grid, Want::Sand(2), &mut rng);
    assert_eq!(done.sway, 0);
    assert!(grid.filled() <= 2);
    assert!(grid.filled() >= 1);

    let mut grid = Grid::new(200, 100);
    tick(&mut grid, Want::Sand(10_000), &mut rng);
    assert!(grid.filled() <= POUR_CAP);
}

#[test]
fn a_tick_that_drains_pulls_the_floor_and_sways() {
    let mut grid = Grid::with_cells(3, 3, vec![0, 0, 0, 0, 1, 0, 1, 1, 1]);
    let mut rng = Rng::new(2);
    let done = tick(&mut grid, Want::Drain(-1), &mut rng);
    assert_eq!(done.sway, -1);
    assert_eq!(grid.filled(), 1);
    assert!(!done.resting, "the crest falls into the emptied floor");
}

#[test]
fn a_tick_that_wants_nothing_leaves_a_settled_pile_at_rest() {
    let mut grid = Grid::with_cells(3, 2, vec![0, 0, 0, 1, 1, 1]);
    let mut rng = Rng::new(2);
    let done = tick(&mut grid, Want::Nothing, &mut rng);
    assert_eq!(done.sway, 0);
    assert!(done.resting);
    assert_eq!(grid.filled(), 3);
    assert_eq!(grid.at(0, 1), 1);
}

#[test]
fn a_tick_with_the_goal_met_pours_nothing() {
    let mut grid = Grid::with_cells(3, 2, vec![0, 0, 0, 1, 1, 1]);
    let mut rng = Rng::new(2);
    tick(&mut grid, Want::Sand(2), &mut rng);
    assert_eq!(grid.filled(), 3);
}

fn quota(full: usize, timed: usize) -> Quota {
    Quota {
        full,
        dusting: full / 10,
        spread: full * 8 / 10,
        timed,
    }
}

fn timer() -> Cycle {
    Cycle::Timer {
        period: 60_000,
        start: 0,
    }
}

#[test]
fn a_resized_pile_keeps_no_more_than_the_cycle_asks() {
    let grid = Grid::with_cells(5, 3, vec![0, 0, 0, 0, 0, 0, 0, 1, 0, 0, 0, 2, 3, 4, 0]);
    let next = resize(&grid, &timer(), quota(30, 2), 11, 3);
    assert_eq!(next.filled(), 2);
    assert_eq!(next.at(5, 1), 1, "the crest stays");
    assert_eq!(next.at(4, 2), 2);
    assert_eq!(next.at(5, 2), 0, "the floor under it goes");
    assert_eq!(next.at(6, 2), 0);

    let kept = resize(&grid, &timer(), quota(30, 30), 11, 3);
    assert_eq!(kept.filled(), 4);
}

#[test]
fn a_resize_caps_an_endless_round_at_full() {
    let grid = Grid::with_cells(3, 2, vec![0, 0, 0, 1, 1, 1]);
    let mut rng = Rng::new(8);
    let cycle = Cycle::Endless(Endless::opening(0, 500, 0, &mut rng));
    let next = resize(&grid, &cycle, quota(2, 0), 3, 2);
    assert_eq!(next.filled(), 2);
    assert_eq!(next.at(0, 1), 1);
    assert_eq!(next.at(2, 1), 0);
}

#[test]
fn a_step_pours_what_a_timer_asks_and_leaves_it_be() {
    let mut grid = Grid::new(9, 6);
    let mut cycle = timer();
    let mut rng = Rng::new(3);
    let done = step(&mut grid, &mut cycle, 1_000, quota(20, 3), true, &mut rng);
    assert_eq!(done.sway, 0);
    assert!(grid.filled() >= 1 && grid.filled() <= 3);
    assert!(!cycle.takes_input());
}

#[test]
fn a_step_on_a_full_resting_pile_pulls_its_floor() {
    let mut grid = Grid::with_cells(3, 3, vec![0, 0, 0, 0, 1, 0, 1, 1, 1]);
    let mut rng = Rng::new(3);
    let mut cycle = Cycle::Endless(Endless::opening(0, 4, 0, &mut rng));
    let done = step(&mut grid, &mut cycle, 10, quota(4, 0), true, &mut rng);
    assert_eq!(done.sway, 0);
    assert_eq!(grid.filled(), 1);
    assert!(!done.resting);
}

#[test]
fn q_esc_and_ctrl_c_quit() {
    assert!(quits(Key::Char('q'), false));
    assert!(quits(Key::Char('q'), true));
    assert!(quits(Key::Esc, false));
    assert!(quits(Key::Char('c'), true));
    assert!(!quits(Key::Char('c'), false));
    assert!(!quits(Key::Char(' '), false));
    assert!(!quits(Key::Other, true));
}
