use sunayama::rng::Rng;
use sunayama::sand::{pile_area, sweep_stride, Grid, POUR_ROW};

const FULL_PILE_HEIGHT: f64 = 0.7;

/// As much sand as a grid this shape should ever hold.
fn pile_full(cols: usize, rows: usize) -> usize {
    pile_area(cols, (rows as f64 * FULL_PILE_HEIGHT) as usize)
}

fn apex(grid: &Grid) -> usize {
    for y in 0..grid.rows() {
        for x in 0..grid.cols() {
            if grid.at(x, y) != 0 {
                return y;
            }
        }
    }
    grid.rows()
}

#[test]
fn the_sweep_visits_every_column_when_cols_is_a_multiple_of_the_stride_floor() {
    for cols in [70, 84, 98, 102, 140] {
        let stride = sweep_stride(cols);
        let mut seen = vec![false; cols];
        for k in 0..cols {
            seen[(k * stride) % cols] = true;
        }
        assert!(seen.iter().all(|&hit| hit), "cols {cols} stride {stride}");
    }
}

#[test]
fn a_grain_falls_to_the_floor() {
    let mut grid = Grid::new(3, 8);
    let mut rng = Rng::new(1);
    grid.pour(&mut rng, 1);
    for _ in 0..16 {
        grid.settle(&mut rng);
    }
    assert!(grid.at(1, 7) != 0);
    assert_eq!(grid.filled(), 1);
}

#[test]
fn a_grain_slides_off_a_peak() {
    let mut grid = Grid::with_cells(3, 3, vec![0, 0, 0, 0, 1, 0, 0, 1, 0]);
    let mut rng = Rng::new(1);
    assert_eq!(grid.filled(), 2);
    grid.settle(&mut rng);
    assert_eq!(grid.at(1, 1), 0);
    assert!(grid.at(0, 2) != 0 || grid.at(2, 2) != 0);
}

#[test]
fn a_blocked_mouth_places_nothing() {
    let mut cells = vec![0u8; 9 * 4];
    for x in 0..9 {
        cells[POUR_ROW * 9 + x] = 1;
    }
    let mut grid = Grid::with_cells(9, 4, cells);
    let mut rng = Rng::new(1);
    assert_eq!(grid.filled(), 9);
    grid.pour(&mut rng, 20);
    assert_eq!(grid.filled(), 9);
}

#[test]
fn settling_never_loses_or_duplicates_a_grain() {
    let mut grid = Grid::new(40, 20);
    let mut rng = Rng::new(9);
    for _ in 0..200 {
        grid.pour(&mut rng, 3);
        grid.settle(&mut rng);
        let counted = (0..grid.rows())
            .flat_map(|y| (0..grid.cols()).map(move |x| (x, y)))
            .filter(|&(x, y)| grid.at(x, y) != 0)
            .count();
        assert_eq!(counted, grid.filled());
    }
}

fn full_pile(cols: usize, rows: usize, rng: &mut Rng) -> Grid {
    let mut grid = Grid::new(cols, rows);
    while grid.filled() < pile_full(cols, rows) {
        grid.pour(rng, 40);
        grid.settle(rng);
        grid.settle(rng);
    }
    for _ in 0..2_000 {
        grid.settle(rng);
    }
    grid
}

#[test]
fn draining_the_floor_lets_the_pile_sink_into_it() {
    let mut grid = Grid::with_cells(3, 3, vec![0, 1, 0, 1, 1, 1, 1, 1, 1]);
    assert_eq!(grid.filled(), 7);
    grid.drain_floor();
    assert_eq!(grid.filled(), 4);
    assert_eq!(grid.at(1, 0), 1, "the crest should be left alone");
    assert_eq!(grid.at(1, 2), 0, "the floor should have given way");
}

#[test]
fn a_sinking_pile_keeps_its_shape_until_it_is_gone() {
    for (cols, rows) in [(80, 48), (102, 47), (200, 50), (300, 48)] {
        let mut rng = Rng::new(1);
        let mut grid = full_pile(cols, rows, &mut rng);
        let piled = grid.filled();
        let tall = rows - apex(&grid);
        let mut ticks = 0;
        let mut widest = 0;
        while grid.filled() > 0 && ticks < 2_000 {
            grid.drain_floor();
            grid.settle(&mut rng);
            grid.settle(&mut rng);
            ticks += 1;
            let span = (0..cols)
                .filter(|&x| (0..rows).any(|y| grid.at(x, y) != 0))
                .count();
            widest = widest.max(span);
        }
        println!(
            "{cols:4}x{rows:<4} {piled:5} grains, {tall:2} rows tall: gone in {ticks} ticks ({}ms), spread over {widest} of {cols} columns",
            ticks * 33
        );
        assert_eq!(grid.filled(), 0, "{cols}x{rows}: never emptied");
    }
}

#[test]
fn a_full_pile_still_fits_under_the_geometric_ceiling() {
    for (cols, rows) in [
        (60, 80),
        (80, 80),
        (80, 48),
        (102, 47),
        (120, 40),
        (160, 44),
        (200, 50),
        (240, 60),
        (300, 48),
    ] {
        let full = pile_full(cols, rows);
        let ceiling = pile_area(cols, rows);
        assert!(
            full < ceiling,
            "{cols}x{rows}: a full pile asks {full} of the {ceiling} the grid can hold"
        );
    }
}

#[test]
fn resizing_wider_keeps_every_grain_and_recentres_it() {
    let grid = Grid::with_cells(5, 3, vec![0, 0, 0, 0, 0, 0, 0, 1, 0, 0, 0, 2, 3, 4, 0]);
    assert_eq!(grid.filled(), 4);
    let wider = grid.resized(11, 3);
    assert_eq!(wider.filled(), 4);
    assert_eq!(wider.at(5, 1), 1);
    assert_eq!(wider.at(4, 2), 2);
    assert_eq!(wider.at(6, 2), 4);
}

#[test]
fn resizing_taller_keeps_the_pile_on_the_new_floor() {
    let grid = Grid::with_cells(5, 3, vec![0, 0, 0, 0, 0, 0, 0, 0, 0, 0, 0, 0, 1, 0, 0]);
    assert_eq!(grid.filled(), 1);
    let taller = grid.resized(5, 7);
    assert_eq!(taller.filled(), 1);
    assert_eq!(taller.at(2, 6), 1);
}

#[test]
fn growing_both_ways_keeps_a_full_pile_whole() {
    let mut rng = Rng::new(4);
    let grid = full_pile(21, 13, &mut rng);
    let grains = grid.filled();
    assert!(grains > 0);
    for (cols, rows) in [(21, 13), (22, 13), (21, 20), (40, 31)] {
        let grown = grid.resized(cols, rows);
        assert_eq!(grown.filled(), grains, "{cols}x{rows}");
        let counted = (0..rows)
            .flat_map(|y| (0..cols).map(move |x| (x, y)))
            .filter(|&(x, y)| grown.at(x, y) != 0)
            .count();
        assert_eq!(counted, grains, "{cols}x{rows}");
    }
}

#[test]
fn growing_and_shrinking_back_gives_the_same_pile() {
    let cells = vec![0, 0, 0, 0, 0, 0, 0, 1, 0, 0, 0, 2, 3, 4, 0];
    let grid = Grid::with_cells(5, 3, cells.clone());
    for (cols, rows) in [(5, 3), (6, 3), (11, 7), (12, 4)] {
        let back = grid.resized(cols, rows).resized(5, 3);
        let seen: Vec<u8> = (0..3)
            .flat_map(|y| (0..5).map(move |x| (x, y)))
            .map(|(x, y)| back.at(x, y))
            .collect();
        assert_eq!(seen, cells, "{cols}x{rows}");
    }
}

#[test]
fn pulling_the_floor_round_after_round_empties_the_pile_in_time() {
    let mut rng = Rng::new(6);
    let mut grid = full_pile(21, 13, &mut rng);
    let bound = grid.filled() * grid.rows();
    assert!(bound > 0);
    let mut rounds = 0;
    while grid.filled() > 0 {
        grid.drain_floor();
        grid.settle(&mut rng);
        rounds += 1;
        assert!(rounds <= bound, "still {} grains after {rounds} rounds", grid.filled());
    }
}

#[test]
fn a_resize_checks_that_the_row_shift_fits() {
    assert!(Grid::new(3, 3).can_resize(10));
    assert!(Grid::new(3, 3).can_resize(0));
    let tall = Grid::new(0, (usize::MAX >> 1) + 1);
    assert!(!tall.can_resize(0));
    assert!(tall.can_resize(usize::MAX));
    assert!(Grid::fits(0, usize::MAX));
    assert!(!Grid::fits(usize::MAX - 3, 0));
}

#[test]
fn resizing_narrower_drops_what_no_longer_fits() {
    let mut cells = vec![0u8; 18];
    for x in 0..9 {
        cells[9 + x] = 1;
    }
    let grid = Grid::with_cells(9, 2, cells);
    assert_eq!(grid.filled(), 9);
    assert_eq!(grid.resized(3, 2).filled(), 3);
}

#[test]
fn draining_leaves_the_crest_alone_and_pulls_the_floor_out() {
    let mut grid = Grid::with_cells(3, 3, vec![0, 1, 0, 1, 1, 1, 1, 1, 1]);
    assert_eq!(grid.filled(), 7);
    grid.drain_to(5);
    assert_eq!(grid.filled(), 5);
    assert_eq!(grid.at(1, 0), 1);
    assert_eq!(grid.at(2, 2), 0);
}

fn pile_until_stalled(cols: usize, rows: usize) -> Grid {
    let mut grid = Grid::new(cols, rows);
    let mut rng = Rng::new(1);
    let mut stalled = 0;
    let mut last = 0;
    for _ in 0..20_000 {
        grid.pour(&mut rng, 40);
        grid.settle(&mut rng);
        grid.settle(&mut rng);
        stalled = if grid.filled() == last {
            stalled + 1
        } else {
            0
        };
        last = grid.filled();
        if stalled > 400 {
            break;
        }
    }
    grid
}

#[test]
fn a_full_cycle_leaves_the_pile_at_the_intended_height() {
    for (cols, rows) in [
        (60, 80),
        (80, 80),
        (80, 48),
        (102, 47),
        (120, 40),
        (160, 44),
        (200, 50),
        (240, 60),
        (300, 48),
    ] {
        let mut grid = Grid::new(cols, rows);
        let mut rng = Rng::new(1);
        let target = pile_full(cols, rows);
        let mut ticks = 0;
        while grid.filled() < target && ticks < 20_000 {
            grid.pour(&mut rng, 40);
            grid.settle(&mut rng);
            grid.settle(&mut rng);
            ticks += 1;
        }
        assert!(
            grid.filled() >= target,
            "{cols}x{rows}: stopped at {} of {target}",
            grid.filled()
        );
        for _ in 0..4_000 {
            grid.settle(&mut rng);
        }
        let height = rows - apex(&grid);
        let share = height as f64 / rows as f64;
        println!("{cols:4}x{rows:<4} target {target:6} height {height:3} of {rows} = {share:.2}");
        assert!(
            (share - FULL_PILE_HEIGHT).abs() < 0.1,
            "{cols}x{rows}: the pile stands {share:.2} of the way up, wanted {FULL_PILE_HEIGHT}"
        );
    }
}

#[test]
fn the_pile_reaches_the_predicted_ceiling_at_every_aspect_ratio() {
    for (cols, rows) in [
        (60, 80),
        (80, 80),
        (80, 48),
        (102, 47),
        (120, 40),
        (160, 44),
        (200, 50),
        (240, 60),
        (300, 48),
    ] {
        let grid = pile_until_stalled(cols, rows);
        let ceiling = pile_area(cols, rows);
        println!(
            "{cols:4}x{rows:<4} piled {:6} ceiling {ceiling:6} apex {:3}",
            grid.filled(),
            apex(&grid)
        );
        assert!(
            grid.filled() >= ceiling,
            "{cols}x{rows}: piled {} but the ceiling promises {ceiling}",
            grid.filled()
        );
    }
}

#[test]
fn pile_area_is_a_square_until_the_slopes_meet_the_walls() {
    assert_eq!(pile_area(10, 5), 25);
    assert_eq!(pile_area(10, 6), 35);
    assert_eq!(pile_area(11, 6), 36);
    assert_eq!(pile_area(0, 0), 0);
}

#[test]
fn the_stride_is_the_first_coprime_from_seven() {
    assert_eq!(sweep_stride(0), 1);
    assert_eq!(sweep_stride(1), 1);
    assert_eq!(sweep_stride(2), 7);
    assert_eq!(sweep_stride(70), 9);
    assert_eq!(sweep_stride(84), 11);
}

#[test]
fn a_grain_on_the_floor_stays_put_and_settle_reports_rest() {
    let mut grid = Grid::with_cells(3, 2, vec![0, 0, 0, 0, 2, 0]);
    let mut rng = Rng::new(4);
    assert!(!grid.settle(&mut rng));
    assert_eq!(grid.at(1, 1), 2);
}

#[test]
fn a_drain_to_more_than_is_there_takes_nothing() {
    let mut grid = Grid::with_cells(2, 2, vec![1, 0, 3, 4]);
    grid.drain_to(10);
    assert_eq!(grid.filled(), 3);
    assert_eq!(grid.at(1, 1), 4);
    grid.drain_to(0);
    assert_eq!(grid.filled(), 0);
}

#[test]
fn poured_grains_land_in_the_mouth_row_with_a_kind() {
    let mut grid = Grid::new(20, 5);
    let mut rng = Rng::new(2);
    grid.pour(&mut rng, 3);
    assert!(grid.filled() >= 1 && grid.filled() <= 3);
    for y in 0..5 {
        for x in 0..20 {
            let kind = grid.at(x, y);
            if kind != 0 {
                assert_eq!(y, POUR_ROW);
                assert!((8..=12).contains(&x), "poured at column {x}");
                assert!((1..=4).contains(&kind));
            }
        }
    }
}
