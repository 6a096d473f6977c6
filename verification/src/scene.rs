//! One tick of the pile and how it is drawn: what the cycle wants is done to the grid,
//! the fall rules run, and the grains are painted into a frame.
use vstd::prelude::*;

use crate::cycle::{asked_of, cycle_step, cycle_step_fits, Cycle, Pile, Quota, Want};
use crate::palette::{Palette, PaletteView, grain_colour};
use crate::rng::Rng;
use crate::sand::{Grid, GridView, drained_to, floor_drained, poured, resized_view, row_shift_fits, settled, shape_fits, MAX_KIND};
use crate::term::frame::Frame;

verus! {

/// The most grains poured in one tick.
pub const POUR_CAP: usize = 40;

/// What a tick leaves for drawing: the column offset of the pile, and whether every grain
/// came to rest.
#[derive(Clone, Copy, PartialEq, Eq, Debug, Structural)]
pub struct Tick {
    pub sway: isize,
    pub resting: bool,
}

/// One tick: pour what is owed (at most `POUR_CAP`) or pull the floor out, then run the
/// fall rules twice. Yields the grid, the generator's state and what to draw.
pub open spec fn tick_of(g: GridView, want: Want, rng: u64) -> (GridView, u64, Tick) {
    let (g1, r1, sway) = match want {
        Want::Sand(goal) => {
            let owed: nat = if goal > g.grains() { (goal - g.grains()) as nat } else { 0 };
            let (g1, r1) = poured(g, rng, if owed < POUR_CAP { owed } else { POUR_CAP as nat });
            (g1, r1, 0isize)
        },
        Want::Drain(offset) => (floor_drained(g), rng, offset),
        Want::Nothing => (g, rng, 0isize),
    };
    let (g2, r2, m1) = settled(g1, r1);
    let (g3, r3, m2) = settled(g2, r2);
    (g3, r3, Tick { sway, resting: !(m1 || m2) })
}

/// Does what the cycle wants to the pile for one tick.
pub fn tick(grid: &mut Grid, want: Want, rng: &mut Rng) -> (t: Tick)
    requires
        old(grid).wf(),
    ensures
        final(grid).wf(),
        (final(grid)@, final(rng)@, t) == tick_of(old(grid)@, want, old(rng)@),
{
    let mut sway: isize = 0;
    match want {
        Want::Sand(goal) => {
            let owed = goal.saturating_sub(grid.filled());
            grid.pour(rng, if owed < POUR_CAP {
                owed
            } else {
                POUR_CAP
            });
        },
        Want::Drain(offset) => {
            grid.drain_floor();
            sway = offset;
        },
        Want::Nothing => {},
    }
    let first = grid.settle(rng);
    let second = grid.settle(rng);
    Tick { sway, resting: !(first || second) }
}

/// A key press, as far as the program tells keys apart.
#[derive(Clone, Copy, PartialEq, Eq, Debug, Structural)]
pub enum Key {
    Char(char),
    Esc,
    Other,
}

/// Whether a key press ends the program: `q`, `Esc`, or `c` with Control held.
pub fn quits(key: Key, ctrl: bool) -> (q: bool)
    ensures
        q == (key == Key::Char('q') || key == Key::Esc || (key == Key::Char('c') && ctrl)),
{
    match key {
        Key::Char(c) => c == 'q' || (c == 'c' && ctrl),
        Key::Esc => true,
        Key::Other => false,
    }
}

/// One step of the program at `now`: the cycle is told how full the pile is and whether it
/// rested, and what it wants is done for one tick.
pub fn step(grid: &mut Grid, cycle: &mut Cycle, now: u64, q: Quota, resting: bool, rng: &mut Rng) -> (t: Tick)
    requires
        old(grid).wf(),
        cycle_step_fits(old(cycle)@, now),
        q.dusting + q.spread <= usize::MAX,
    ensures
        final(grid).wf(),
        ({
            let pile = Pile { filled: old(grid)@.grains() as usize, resting };
            let (c1, r1, want) = cycle_step(old(cycle)@, now, q, pile, old(rng)@);
            let (g1, r2, t1) = tick_of(old(grid)@, want, r1);
            final(cycle)@ == c1 && final(grid)@ == g1 && final(rng)@ == r2 && t == t1
        }),
{
    let pile = Pile { filled: grid.filled(), resting };
    let want = cycle.want(now, q, pile, rng);
    tick(grid, want, rng)
}

/// The pile carried over to a `cols` x `rows` screen and, from under it, cut down to what
/// the cycle asks for now.
pub fn resize(grid: &Grid, cycle: &Cycle, q: Quota, cols: usize, rows: usize) -> (next: Grid)
    requires
        grid.wf(),
        shape_fits(cols as nat, rows as nat),
        row_shift_fits(grid@.rows, rows as nat),
    ensures
        next.wf(),
        next@.cols == cols,
        next@.rows == rows,
        next@.cells.len() == cols * rows,
        forall|i: int|
            0 <= i < cols * rows ==> #[trigger] next@.cells[i] == drained_to(
                resized_view(grid@, cols as nat, rows as nat).cells,
                asked_of(cycle@, q) as nat,
                i,
            ),
        next@.grains() == if resized_view(grid@, cols as nat, rows as nat).grains() <= asked_of(cycle@, q) {
            resized_view(grid@, cols as nat, rows as nat).grains()
        } else {
            asked_of(cycle@, q) as nat
        },
{
    let mut next = grid.resized(cols, rows);
    next.drain_to(cycle.asked(q));
    next
}

/// What the frame shows at (`fx`, `fy`) once `g` is painted `sway` columns off centre:
/// the colour of the grain drawn there, or nothing.
pub open spec fn painted_pixel(g: GridView, p: PaletteView, sway: int, fx: int, fy: int) -> Option<crate::term::color::Rgb> {
    let x = fx - sway;
    if 0 <= fy < g.rows && 0 <= x < g.cols && g.at(x, fy) != 0 {
        Some(grain_colour(p, g.at(x, fy), fy as nat))
    } else {
        None
    }
}

/// Draws the grains of `grid` into `frame`, `sway` columns off centre.
pub fn paint(grid: &Grid, frame: &mut Frame, sway: isize, palette: &Palette)
    requires
        grid.wf(),
        old(frame).wf(),
        palette.wf(),
        grid@.cols == 0 || grid@.cols - 1 + sway <= isize::MAX,
    ensures
        final(frame).wf(),
        final(frame)@.width == old(frame)@.width,
        final(frame)@.height == old(frame)@.height,
        forall|fx: int, fy: int|
            0 <= fx < old(frame)@.width && 0 <= fy < old(frame)@.height ==> #[trigger] final(frame)@.get(fx, fy)
                == painted_pixel(grid@, palette@, sway as int, fx, fy),
{
    frame.clear();
    let cols = grid.cols();
    let rows = grid.rows();
    proof {
        grid.lemma_shape();
    }
    let n = rows * cols;
    proof {
        if n > 0 {
            assert(cols <= isize::MAX) by (nonlinear_arith)
                requires n == rows * cols, n > 0, rows * cols <= isize::MAX;
        }
    }
    let mut i: usize = 0;
    while i < n
        invariant
            i <= n,
            n == rows * cols,
            cols == grid@.cols,
            rows == grid@.rows,
            grid.wf(),
            palette.wf(),
            frame.wf(),
            cols == 0 || cols - 1 + sway <= isize::MAX,
            n > 0 ==> cols <= isize::MAX,
            frame@.width == old(frame)@.width,
            frame@.height == old(frame)@.height,
            forall|fx: int, fy: int|
                0 <= fx < frame@.width && 0 <= fy < frame@.height ==> #[trigger] frame@.get(fx, fy)
                    == if 0 <= fx - sway < cols && fy * cols + (fx - sway) < i {
                    painted_pixel(grid@, palette@, sway as int, fx, fy)
                } else {
                    None
                },
        decreases n - i,
    {
        proof {
            assert(cols > 0) by (nonlinear_arith)
                requires i < rows * cols, i >= 0;
        }
        let x = i % cols;
        let y = i / cols;
        proof {
            assert(y < rows) by (nonlinear_arith)
                requires i < rows * cols, y == i / cols, cols > 0;
            vstd::arithmetic::div_mod::lemma_fundamental_div_mod(i as int, cols as int);
            grid.lemma_cell(x as int, y as int);
        }
        let kind = grid.at(x, y);
        let ghost before = frame@;
        proof {
            assert(y * cols == cols * y) by (nonlinear_arith);
            assert(i == y * cols + x);
        }
        if kind != 0 {
            let shifted = x as isize + sway;
            if shifted >= 0 {
                let c = palette.grain(kind, y);
                frame.set(shifted as usize, y, c);
            }
        }
        proof {
            assert forall|fx: int, fy: int|
                0 <= fx < frame@.width && 0 <= fy < frame@.height implies #[trigger] frame@.get(fx, fy)
                == if 0 <= fx - sway < cols && fy * cols + (fx - sway) < i + 1 {
                painted_pixel(grid@, palette@, sway as int, fx, fy)
            } else {
                None
            } by {
                let here = 0 <= fx - sway < cols && fy * cols + (fx - sway) == i;
                if here {
                    lemma_same_cell(cols as int, fx - sway, fy, x as int, y as int);
                    assert(fx - sway == x && fy == y);
                    assert(fy < rows);
                } else {
                    assert(!(fx - sway == x && fy == y)) by {
                        if fx - sway == x && fy == y {
                            assert(fy * cols + (fx - sway) == i);
                        }
                    }
                    assert(frame@.get(fx, fy) == before.get(fx, fy));
                }
            }
        }
        i = i + 1;
    }
    proof {
        assert forall|fx: int, fy: int|
            0 <= fx < old(frame)@.width && 0 <= fy < old(frame)@.height implies #[trigger] frame@.get(
            fx,
            fy,
        ) == painted_pixel(grid@, palette@, sway as int, fx, fy) by {
            if 0 <= fx - sway < cols && 0 <= fy < rows {
                grid.lemma_cell(fx - sway, fy);
            }
            if 0 <= fx - sway < cols && fy >= rows {
                assert(fy * cols + (fx - sway) >= n) by (nonlinear_arith)
                    requires fy >= rows, fx - sway >= 0, n == rows * cols;
            }
        }
    }
}

/// Two columns in one row with the same index are the same cell.
proof fn lemma_same_cell(cols: int, x1: int, y1: int, x2: int, y2: int)
    requires
        0 <= x1 < cols,
        0 <= x2 < cols,
        0 <= y1,
        0 <= y2,
        y1 * cols + x1 == y2 * cols + x2,
    ensures
        x1 == x2,
        y1 == y2,
{
    vstd::arithmetic::div_mod::lemma_fundamental_div_mod_converse(y1 * cols + x1, cols, y1, x1);
    vstd::arithmetic::div_mod::lemma_fundamental_div_mod_converse(y2 * cols + x2, cols, y2, x2);
}

} // verus!
