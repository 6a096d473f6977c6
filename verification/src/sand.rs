//! The sand pile: a grid of cells that hold grains, poured at a mouth near the
//! top, settled by the fall rules, drained from the floor, carried over on resize.
use vstd::prelude::*;
use vstd::arithmetic::div_mod::{lemma_fundamental_div_mod_converse, lemma_mod_bound, lemma_add_mod_noop};
use vstd::seq_lib::{to_multiset_update, to_multiset_build};

use crate::rng::{Rng, advance, below_from, lemma_scale_below};

verus! {

/// The row the mouth pours into.
pub const POUR_ROW: usize = 1;

/// How far either side of the centre the mouth reaches.
pub const MOUTH_HALF_WIDTH: usize = 2;

/// The smallest sweep stride tried.
pub const STRIDE_FLOOR: usize = 7;

/// What a grid holds: its shape and its cells, row by row from the top; 0 is empty.
pub struct GridView {
    pub cols: nat,
    pub rows: nat,
    pub cells: Seq<u8>,
}

impl GridView {
    /// The kind of grain at column `x`, row `y` (0 where the cell is empty).
    pub open spec fn at(self, x: int, y: int) -> u8 {
        self.cells[y * self.cols + x]
    }

    /// How many cells hold a grain.
    pub open spec fn grains(self) -> nat {
        grain_count(self.cells)
    }
}

/// The most valuable kind of grain.
pub const MAX_KIND: u8 = 4;

/// Every cell is empty or holds a grain of a kind from 1 to `MAX_KIND`.
pub open spec fn kinds_ok(cells: Seq<u8>) -> bool {
    forall|i: int| 0 <= i < cells.len() ==> #[trigger] cells[i] <= MAX_KIND
}

/// The number of non-empty cells in `cells`.
pub open spec fn grain_count(cells: Seq<u8>) -> nat {
    (cells.len() - cells.to_multiset().count(0u8)) as nat
}

/// Euclid's greatest common divisor.
pub open spec fn gcd(a: nat, b: nat) -> nat
    decreases b,
{
    if b == 0 {
        a
    } else {
        gcd(b, a % b)
    }
}

/// The first stride from `s` up to `STRIDE_FLOOR + cols` that is coprime with `cols`, or 1.
pub open spec fn first_coprime(cols: nat, s: nat) -> nat
    decreases STRIDE_FLOOR + cols - s,
{
    if s >= STRIDE_FLOOR + cols {
        1
    } else if gcd(s, cols) == 1 {
        s
    } else {
        first_coprime(cols, s + 1)
    }
}

/// The stride by which a row's sweep steps through the columns.
pub open spec fn stride_for(cols: nat) -> nat {
    if cols < 2 {
        1
    } else {
        first_coprime(cols, STRIDE_FLOOR as nat)
    }
}

/// How much sand a 45° pile `height` rows tall covers, once its slopes meet the walls.
pub open spec fn pile_area_spec(cols: nat, height: nat) -> nat {
    if 2 * height <= cols {
        height * height
    } else {
        (height * cols - (cols * cols) / 4) as nat
    }
}


/// What a grid resized to `cols` x `rows` holds at (`x`, `y`): the old pile anchored
/// to the floor and to the centre, empty where nothing of it lands.
pub open spec fn carried(from: GridView, cols: nat, rows: nat, x: int, y: int) -> u8 {
    let ox = x - (cols / 2 - from.cols / 2);
    let oy = y - (rows - from.rows);
    if 0 <= ox < from.cols && 0 <= oy < from.rows {
        from.at(ox, oy)
    } else {
        0
    }
}

/// The grid `from` resized to `cols` x `rows`: each cell holds what `carried` puts there.
pub open spec fn resized_view(from: GridView, cols: nat, rows: nat) -> GridView {
    GridView {
        cols,
        rows,
        cells: Seq::new(cols * rows, |i: int| carried(from, cols, rows, i % (cols as int), i / (cols as int))),
    }
}

/// The indices of the cells that hold a grain.
pub open spec fn occupied(cells: Seq<u8>) -> Set<int> {
    Set::new(|i: int| 0 <= i < cells.len() && cells[i] != 0)
}

/// What `drain_to(target)` leaves in cell `i`: the grains nearest the end of the cells,
/// as many as it takes to come down to `target`, are gone.
pub open spec fn drained_to(cells: Seq<u8>, target: nat, i: int) -> u8 {
    if cells[i] != 0 && grain_count(cells.subrange(i, cells.len() as int)) + target <= grain_count(cells) {
        0
    } else {
        cells[i]
    }
}


/// Moves the grain in cell `from` into cell `to`, leaving `from` empty.
pub open spec fn slid(cells: Seq<u8>, from: int, to: int) -> Seq<u8> {
    cells.update(to, cells[from]).update(from, 0)
}

/// The column a blocked grain at column `x` tries next, by the coin a generator in state
/// `rng` tosses: left on 0, right otherwise, none past a wall.
pub open spec fn neighbour_of(cols: nat, x: int, rng: u64) -> Option<int> {
    if below_from(rng, 2) == 0 {
        if x >= 1 {
            Some(x - 1)
        } else {
            None
        }
    } else if x + 1 < cols {
        Some(x + 1)
    } else {
        None
    }
}

/// The fall rules applied to the cell at (`x`, `y`): a grain drops into an empty cell
/// below it, or else slides diagonally to a side the coin picks when both the side and
/// the cell below the side are empty. Yields the cells, the generator's state, and
/// whether the grain moved.
pub open spec fn visit(cols: nat, cells: Seq<u8>, rng: u64, x: int, y: int) -> (Seq<u8>, u64, bool) {
    let here = y * cols + x;
    if cells[here] == 0 {
        (cells, rng, false)
    } else if cells[here + cols] == 0 {
        (slid(cells, here, here + cols), rng, true)
    } else {
        match neighbour_of(cols, x, rng) {
            Some(nx) => if cells[(y + 1) * cols + nx] == 0 && cells[y * cols + nx] == 0 {
                (slid(cells, here, (y + 1) * cols + nx), advance(rng), true)
            } else {
                (cells, advance(rng), false)
            },
            None => (cells, advance(rng), false),
        }
    }
}

/// The row of the `i`-th visit of a sweep: from the row above the floor up to the top.
pub open spec fn sweep_row(cols: nat, rows: nat, i: int) -> int {
    rows - 2 - i / (cols as int)
}

/// The column of the `i`-th visit of a sweep: each row starts at a different column and
/// steps through them by the stride.
pub open spec fn sweep_col(cols: nat, rows: nat, i: int) -> int {
    row_col(cols, sweep_row(cols, rows, i), i % (cols as int))
}

/// The column step `k` of the sweep of row `y` visits.
pub open spec fn row_col(cols: nat, y: int, k: int) -> int {
    (k * stride_for(cols) + y) % (cols as int)
}

/// Whether some step of the sweep of row `y` visits column `x`.
pub open spec fn row_reaches(cols: nat, y: int, x: int) -> bool {
    exists|k: int| 0 <= k < cols && row_col(cols, y, k) == x
}

/// The first `n` visits of a sweep over a grid of `cols` x `rows` holding `cells`,
/// with the generator in state `rng`: the cells, the generator's state, and whether
/// any grain moved.
pub open spec fn sweep(cols: nat, rows: nat, cells: Seq<u8>, rng: u64, n: nat) -> (Seq<u8>, u64, bool)
    decreases n,
{
    if n == 0 {
        (cells, rng, false)
    } else {
        let prev = sweep(cols, rows, cells, rng, (n - 1) as nat);
        let i = n - 1;
        let next = visit(cols, prev.0, prev.1, sweep_col(cols, rows, i), sweep_row(cols, rows, i));
        (next.0, next.1, prev.2 || next.2)
    }
}

/// The number of visits in one pass of the fall rules: every cell above the floor.
pub open spec fn sweep_len(cols: nat, rows: nat) -> nat {
    if rows >= 1 {
        ((rows - 1) * cols) as nat
    } else {
        0
    }
}

/// The sum of the indices of the cells that hold a grain; a grain that moves down
/// (or down and aside) raises it.
pub open spec fn index_sum(cells: Seq<u8>) -> nat
    decreases cells.len(),
{
    if cells.len() == 0 {
        0
    } else {
        index_sum(cells.drop_last()) + if cells.last() != 0 {
            (cells.len() - 1) as nat
        } else {
            0nat
        }
    }
}

/// The kind of grain a roll of 0..100 gives: rarer kinds for the lowest rolls.
pub open spec fn kind_of_roll(roll: usize) -> u8 {
    if roll < 4 {
        4
    } else if roll < 11 {
        3
    } else if roll < 24 {
        2
    } else {
        1
    }
}

/// The leftmost column of the mouth.
pub open spec fn mouth_left(cols: nat) -> nat {
    if cols / 2 >= MOUTH_HALF_WIDTH {
        (cols / 2 - MOUTH_HALF_WIDTH) as nat
    } else {
        0
    }
}

/// How many columns the mouth spans.
pub open spec fn mouth_width(cols: nat) -> nat {
    let right = if cols / 2 + MOUTH_HALF_WIDTH <= cols - 1 {
        cols / 2 + MOUTH_HALF_WIDTH
    } else {
        (cols - 1) as int
    };
    (right - mouth_left(cols) + 1) as nat
}

/// The first `n` drops of a pour: each picks a column of the mouth at random and, if the
/// cell at the pour row there is empty, places a grain of a random kind.
pub open spec fn pouring(cols: nat, cells: Seq<u8>, rng: u64, n: nat) -> (Seq<u8>, u64)
    decreases n,
{
    if n == 0 {
        (cells, rng)
    } else {
        let prev = pouring(cols, cells, rng, (n - 1) as nat);
        let x = mouth_left(cols) + below_from(prev.1, mouth_width(cols) as usize);
        let spun = advance(prev.1);
        let at = POUR_ROW * cols + x;
        if prev.0[at] == 0 {
            (prev.0.update(at, kind_of_roll(below_from(spun, 100))), advance(spun))
        } else {
            (prev.0, spun)
        }
    }
}

/// The grid after `n` drops at the mouth, and the generator's state; a grid with no
/// row below the mouth, or no columns, takes none.
pub open spec fn poured(g: GridView, rng: u64, n: nat) -> (GridView, u64) {
    if g.cols == 0 || g.rows <= POUR_ROW {
        (g, rng)
    } else {
        let (cells, r) = pouring(g.cols, g.cells, rng, n);
        (GridView { cells, ..g }, r)
    }
}

/// The grid after one pass of the fall rules, the generator's state, and whether any
/// grain moved.
pub open spec fn settled(g: GridView, rng: u64) -> (GridView, u64, bool) {
    let (cells, r, moved) = sweep(g.cols, g.rows, g.cells, rng, sweep_len(g.cols, g.rows));
    (GridView { cells, ..g }, r, moved)
}

/// The grid with its floor row emptied.
pub open spec fn floor_drained(g: GridView) -> GridView {
    GridView {
        cells: Seq::new(
            g.cells.len(),
            |i: int| if i >= (g.rows - 1) * g.cols { 0u8 } else { g.cells[i] },
        ),
        ..g
    }
}

pub struct Grid {
    cols: usize,
    rows: usize,
    cells: Vec<u8>,
    filled: usize,
    stride: usize,
}

impl View for Grid {
    type V = GridView;

    closed spec fn view(&self) -> GridView {
        GridView { cols: self.cols as nat, rows: self.rows as nat, cells: self.cells@ }
    }
}

/// A shape a grid can take: its cell count fits an `isize`, and its width leaves room for
/// the strides the sweep tries.
pub open spec fn shape_fits(cols: nat, rows: nat) -> bool {
    &&& cols * rows <= isize::MAX
    &&& cols + STRIDE_FLOOR <= usize::MAX
}

/// `v` read as an `isize`: values past `isize::MAX` wrap round to negatives.
pub open spec fn as_signed(v: nat) -> int {
    if v <= isize::MAX {
        v as int
    } else {
        v - 0x1_0000_0000_0000_0000
    }
}

/// Whether resizing from `old_rows` rows to `rows` can take the row shift, `rows - old_rows`
/// between `isize`s, without overflow.
pub open spec fn row_shift_fits(old_rows: nat, rows: nat) -> bool {
    isize::MIN <= as_signed(rows) - as_signed(old_rows) <= isize::MAX
}

impl Grid {
    /// The grid's invariant: the cells fill its shape, and `filled` counts the grains.
    pub closed spec fn wf(&self) -> bool {
        &&& shape_fits(self.cols as nat, self.rows as nat)
        &&& self.cells@.len() == self.cols * self.rows
        &&& self.filled == grain_count(self.cells@)
        &&& self.stride == stride_for(self.cols as nat)
        &&& kinds_ok(self.cells@)
    }

    /// Whether a grid of `cols` x `rows` can be made.
    pub fn fits(cols: usize, rows: usize) -> (r: bool)
        ensures
            r == shape_fits(cols as nat, rows as nat),
    {
        if cols > usize::MAX - STRIDE_FLOOR {
            return false;
        }
        match cols.checked_mul(rows) {
            Some(n) => n <= isize::MAX as usize,
            None => false,
        }
    }

    pub fn new(cols: usize, rows: usize) -> (g: Self)
        requires
            shape_fits(cols as nat, rows as nat),
        ensures
            g.wf(),
            g@.cols == cols,
            g@.rows == rows,
            g@.cells == Seq::new((cols * rows) as nat, |i: int| 0u8),
    {
        proof {
            assert(cols * rows <= usize::MAX) by (nonlinear_arith)
                requires cols * rows <= isize::MAX;
        }
        let n = cols * rows;
        let mut cells: Vec<u8> = Vec::new();
        let mut i: usize = 0;
        while i < n
            invariant
                i <= n,
                cells@ == Seq::new(i as nat, |j: int| 0u8),
            decreases n - i,
        {
            cells.push(0);
            i = i + 1;
        }
        proof {
            lemma_no_grains(cells@);
        }
        Grid { cols, rows, cells, filled: 0, stride: sweep_stride(cols) }
    }

    /// A grid of the given shape holding `cells`, row by row from the top.
    pub fn with_cells(cols: usize, rows: usize, cells: Vec<u8>) -> (g: Self)
        requires
            shape_fits(cols as nat, rows as nat),
            cells@.len() == cols * rows,
            kinds_ok(cells@),
        ensures
            g.wf(),
            g@ == (GridView { cols: cols as nat, rows: rows as nat, cells: cells@ }),
    {
        let filled = count_grains(&cells);
        Grid { cols, rows, cells, filled, stride: sweep_stride(cols) }
    }

    pub fn cols(&self) -> (r: usize)
        ensures
            r == self@.cols,
    {
        self.cols
    }

    pub fn rows(&self) -> (r: usize)
        ensures
            r == self@.rows,
    {
        self.rows
    }

    /// A grid's cells fill its shape, which fits an `isize`.
    pub proof fn lemma_shape(&self)
        requires
            self.wf(),
        ensures
            self@.cells.len() == self@.cols * self@.rows,
            self@.rows * self@.cols <= isize::MAX,
            shape_fits(self@.cols, self@.rows),
    {
        assert(self@.rows * self@.cols == self@.cols * self@.rows) by (nonlinear_arith);
    }

    /// Cell (`x`, `y`) of a grid lies inside its cells and holds a kind up to `MAX_KIND`.
    pub proof fn lemma_cell(&self, x: int, y: int)
        requires
            self.wf(),
            0 <= x < self@.cols,
            0 <= y < self@.rows,
        ensures
            0 <= y * self@.cols + x < self@.cells.len(),
            self@.at(x, y) <= MAX_KIND,
    {
        lemma_cell_index(self.cols as int, self.rows as int, x, y);
    }

    /// The number of grains in the grid.
    pub fn filled(&self) -> (r: usize)
        requires
            self.wf(),
        ensures
            r == self@.grains(),
    {
        self.filled
    }

    /// The kind of grain at (`x`, `y`); 0 is empty.
    pub fn at(&self, x: usize, y: usize) -> (r: u8)
        requires
            self.wf(),
            y * self@.cols + x < self@.cells.len(),
        ensures
            r == self@.at(x as int, y as int),
            r <= MAX_KIND,
    {
        self.cells[y * self.cols + x]
    }


    #[verifier::rlimit(100)]
    pub fn pour(&mut self, rng: &mut Rng, grains: usize)
        requires
            old(self).wf(),
        ensures
            final(self).wf(),
            final(self)@.cols == old(self)@.cols,
            final(self)@.rows == old(self)@.rows,
            old(self)@.cols == 0 || old(self)@.rows <= POUR_ROW ==> final(self)@.cells == old(
                self,
            )@.cells && final(rng)@ == old(rng)@,
            old(self)@.cols > 0 && old(self)@.rows > POUR_ROW ==> (final(self)@.cells, final(rng)@)
                == pouring(old(self)@.cols, old(self)@.cells, old(rng)@, grains as nat),
            (final(self)@, final(rng)@) == poured(old(self)@, old(rng)@, grains as nat),
            final(self)@.grains() <= old(self)@.grains() + grains,
            forall|i: int|
                0 <= i < old(self)@.cells.len() && #[trigger] final(self)@.cells[i] != old(
                    self,
                )@.cells[i] ==> {
                    &&& old(self)@.cells[i] == 0
                    &&& 1 <= final(self)@.cells[i] <= 4
                    &&& POUR_ROW * old(self)@.cols + mouth_left(old(self)@.cols) <= i
                    &&& i < POUR_ROW * old(self)@.cols + mouth_left(old(self)@.cols)
                        + mouth_width(old(self)@.cols)
                },
    {
        if self.cols == 0 || self.rows <= POUR_ROW {
            return;
        }
        let mouth = self.cols / 2;
        let left = if mouth >= MOUTH_HALF_WIDTH {
            mouth - MOUTH_HALF_WIDTH
        } else {
            0
        };
        let right = if mouth + MOUTH_HALF_WIDTH <= self.cols - 1 {
            mouth + MOUTH_HALF_WIDTH
        } else {
            self.cols - 1
        };
        let width = right - left + 1;
        proof {
            lemma_cell_index(self.cols as int, self.rows as int, 0, POUR_ROW as int);
        }
        let ghost start = self.cells@;
        let mut n: usize = 0;
        while n < grains
            invariant
                n <= grains,
                self.cols == old(self).cols,
                self.rows == old(self).rows,
                self.stride == old(self).stride,
                self.cols > 0,
                self.rows > POUR_ROW,
                start == old(self).cells@,
                left == mouth_left(self.cols as nat),
                width == mouth_width(self.cols as nat),
                left + width <= self.cols,
                width >= 1,
                POUR_ROW * self.cols + self.cols <= self.cells@.len(),
                self.cells@.len() == start.len(),
                self.filled == grain_count(self.cells@),
                self.filled <= grain_count(start) + n,
                shape_fits(self.cols as nat, self.rows as nat),
                self.cells@.len() == self.cols * self.rows,
                self.stride == stride_for(self.cols as nat),
                kinds_ok(self.cells@),
                (self.cells@, rng@) == pouring(self.cols as nat, start, old(rng)@, n as nat),
                forall|i: int|
                    0 <= i < start.len() && #[trigger] self.cells@[i] != start[i] ==> {
                        &&& start[i] == 0
                        &&& 1 <= self.cells@[i] <= 4
                        &&& POUR_ROW * self.cols + left <= i < POUR_ROW * self.cols + left + width
                    },
            decreases grains - n,
        {
            let ghost before = self.cells@;
            let x = left + rng.below(width);
            proof {
                lemma_cell_index(self.cols as int, self.rows as int, x as int, POUR_ROW as int);
            }
            if self.is_empty(x, POUR_ROW) {
                let kind = grain_kind(rng);
                proof {
                    lemma_grains_update(self.cells@, POUR_ROW * self.cols + x, kind);
                    lemma_grains_bound(self.cells@.update(POUR_ROW * self.cols + x, kind));
                }
                self.cells.set(POUR_ROW * self.cols + x, kind);
                self.filled = self.filled + 1;
                proof {
                    assert forall|i: int|
                        0 <= i < start.len() && #[trigger] self.cells@[i] != start[i] implies {
                            &&& start[i] == 0
                            &&& 1 <= self.cells@[i] <= 4
                            &&& POUR_ROW * self.cols + left <= i < POUR_ROW * self.cols + left + width
                        } by {
                        if i != POUR_ROW * self.cols + x {
                            assert(self.cells@[i] == before[i]);
                        }
                    }
                }
            }
            n = n + 1;
        }
    }

    /// Runs one pass of the fall rules, reporting whether any grain is still moving.
    pub fn settle(&mut self, rng: &mut Rng) -> (moved: bool)
        requires
            old(self).wf(),
        ensures
            final(self).wf(),
            final(self)@.cols == old(self)@.cols,
            final(self)@.rows == old(self)@.rows,
            (final(self)@.cells, final(rng)@, moved) == sweep(
                old(self)@.cols,
                old(self)@.rows,
                old(self)@.cells,
                old(rng)@,
                sweep_len(old(self)@.cols, old(self)@.rows),
            ),
            (final(self)@, final(rng)@, moved) == settled(old(self)@, old(rng)@),
            final(self)@.cells.to_multiset() == old(self)@.cells.to_multiset(),
            !moved ==> final(self)@.cells == old(self)@.cells,
            moved ==> index_sum(final(self)@.cells) > index_sum(old(self)@.cells),
    {
        let cols = self.cols;
        let rows = self.rows;
        let stride = self.stride;
        proof {
            lemma_stride_bounds(cols as nat);
        }
        let ghost start = self.cells@;
        let mut moved = false;
        let mut y = if rows >= 1 {
            rows - 1
        } else {
            0
        };
        proof {
            if rows >= 1 {
                assert(rows - 1 - y == 0);
                assert((rows - 1 - y) * cols == 0) by (nonlinear_arith)
                    requires rows - 1 - y == 0;
            }
        }
        while y > 0
            invariant
                y < rows || y == 0,
                cols == self.cols,
                rows == self.rows,
                stride == self.stride,
                self.cols == old(self).cols,
                self.rows == old(self).rows,
                self.stride == old(self).stride,
                start == old(self).cells@,
                1 <= stride <= cols + STRIDE_FLOOR,
                self.filled == grain_count(self.cells@),
                shape_fits(self.cols as nat, self.rows as nat),
                self.cells@.len() == self.cols * self.rows,
                self.stride == stride_for(self.cols as nat),
                kinds_ok(self.cells@),
                rows >= 1 ==> (self.cells@, rng@, moved) == sweep(
                    cols as nat,
                    rows as nat,
                    start,
                    old(rng)@,
                    ((rows - 1 - y) * cols) as nat,
                ),
                rows == 0 ==> self.cells@ == start && rng@ == old(rng)@ && !moved,
                self.cells@.to_multiset() == start.to_multiset(),
                !moved ==> self.cells@ == start,
                moved ==> index_sum(self.cells@) > index_sum(start),
            decreases y,
        {
            y = y - 1;
            let mut k: usize = 0;
            let mut base: usize = 0;
            proof {
                assert(k * stride == 0);
                if cols > 0 {
                    vstd::arithmetic::div_mod::lemma_small_mod(0, cols as nat);
                }
                assert((rows - 1 - (y + 1)) * cols == (rows - 2 - y) * cols);
                assert(cols * 2 <= isize::MAX) by (nonlinear_arith)
                    requires cols * rows <= isize::MAX, rows >= 2;
                if cols > 0 {
                    assert(rows <= isize::MAX) by (nonlinear_arith)
                        requires cols * rows <= isize::MAX, cols > 0;
                }
            }
            while k < cols
                invariant
                    k <= cols,
                    cols > 0 ==> rows <= isize::MAX,
                    y + 1 < rows,
                    cols == self.cols,
                    rows == self.rows,
                    stride == self.stride,
                    self.cols == old(self).cols,
                    self.rows == old(self).rows,
                    self.stride == old(self).stride,
                    start == old(self).cells@,
                    1 <= stride <= cols + STRIDE_FLOOR,
                    cols > 0 ==> base == (k * stride) % (cols as int),
                    base <= cols,
                    cols * 2 <= isize::MAX,
                    self.filled == grain_count(self.cells@),
                    shape_fits(self.cols as nat, self.rows as nat),
                    self.cells@.len() == self.cols * self.rows,
                    self.stride == stride_for(self.cols as nat),
                    kinds_ok(self.cells@),
                kinds_ok(self.cells@),
                    (self.cells@, rng@, moved) == sweep(
                        cols as nat,
                        rows as nat,
                        start,
                        old(rng)@,
                        ((rows - 2 - y) * cols + k) as nat,
                    ),
                    self.cells@.to_multiset() == start.to_multiset(),
                    !moved ==> self.cells@ == start,
                    moved ==> index_sum(self.cells@) > index_sum(start),
                decreases cols - k,
            {
                let x = (base + y) % cols;
                let ghost i = (rows - 2 - y) * cols + k;
                proof {
                    assert(0 <= (rows - 2 - y) * cols) by (nonlinear_arith)
                        requires y + 1 < rows, cols > 0;
                    lemma_fundamental_div_mod_converse(i, cols as int, (rows - 2 - y) as int, k as int);
                    lemma_add_mod_noop((k * stride) as int, y as int, cols as int);
                    vstd::arithmetic::div_mod::lemma_add_mod_noop_right(base as int, y as int, cols as int);
                    vstd::arithmetic::div_mod::lemma_small_mod(base as nat, cols as nat);
                    assert(x == sweep_col(cols as nat, rows as nat, i));
                    assert(y == sweep_row(cols as nat, rows as nat, i));
                }
                let m = self.visit(rng, x, y);
                moved = moved || m;
                proof {
                    lemma_mod_bound(base + stride, cols as int);
                    lemma_add_mod_noop((k * stride) as int, stride as int, cols as int);
                    vstd::arithmetic::div_mod::lemma_add_mod_noop_right(base as int, stride as int, cols as int);
                    vstd::arithmetic::div_mod::lemma_small_mod(base as nat, cols as nat);
                    assert((k + 1) * stride == k * stride + stride) by (nonlinear_arith);
                    assert(i + 1 == (rows - 2 - y) * cols + (k + 1));
                }
                base = (base + stride) % cols;
                k = k + 1;
            }
            proof {
                assert((rows - 2 - y) * cols + cols == (rows - 1 - y) * cols) by (nonlinear_arith);
            }
        }
        proof {
            if rows >= 1 {
                assert(y == 0);
            }
        }
        moved
    }

    /// The fall rules at (`x`, `y`), for a cell above the floor.
    fn visit(&mut self, rng: &mut Rng, x: usize, y: usize) -> (moved: bool)
        requires
            old(self).wf(),
            x < old(self)@.cols,
            y + 1 < old(self)@.rows,
        ensures
            final(self).wf(),
            final(self).cols == old(self).cols,
            final(self).rows == old(self).rows,
            final(self).stride == old(self).stride,
            (final(self)@.cells, final(rng)@, moved) == visit(
                old(self)@.cols,
                old(self)@.cells,
                old(rng)@,
                x as int,
                y as int,
            ),
            final(self)@.cells.to_multiset() == old(self)@.cells.to_multiset(),
            !moved ==> final(self)@.cells == old(self)@.cells,
            moved ==> index_sum(final(self)@.cells) > index_sum(old(self)@.cells),
    {
        proof {
            lemma_cell_index(self.cols as int, self.rows as int, x as int, y as int);
            lemma_cell_index(self.cols as int, self.rows as int, x as int, y + 1);
        }
        if self.is_empty(x, y) {
            return false;
        }
        if self.is_empty(x, y + 1) {
            self.slide(x, y, x, y + 1);
            return true;
        }
        let nx = self.neighbour(x, rng);
        match nx {
            Some(nx) => {
                proof {
                    lemma_cell_index(self.cols as int, self.rows as int, nx as int, y as int);
                    lemma_cell_index(self.cols as int, self.rows as int, nx as int, y + 1);
                }
                if self.is_empty(nx, y + 1) && self.is_empty(nx, y) {
                    self.slide(x, y, nx, y + 1);
                    true
                } else {
                    false
                }
            },
            None => false,
        }
    }

    fn neighbour(&self, x: usize, rng: &mut Rng) -> (r: Option<usize>)
        requires
            x < self.cols,
            self.cols <= isize::MAX,
        ensures
            final(rng)@ == advance(old(rng)@),
            r matches Some(nx) ==> neighbour_of(self@.cols, x as int, old(rng)@) == Some(nx as int),
            r is None ==> neighbour_of(self@.cols, x as int, old(rng)@) is None,
    {
        if rng.below(2) == 0 {
            if x >= 1 {
                Some(x - 1)
            } else {
                None
            }
        } else if x + 1 < self.cols {
            Some(x + 1)
        } else {
            None
        }
    }

    fn is_empty(&self, x: usize, y: usize) -> (r: bool)
        requires
            self.wf(),
            y * self@.cols + x < self@.cells.len(),
        ensures
            r == (self@.at(x as int, y as int) == 0),
    {
        self.at(x, y) == 0
    }

    /// Moves the grain at (`x`, `y`) into the empty cell (`nx`, `ny`), further along the cells.
    fn slide(&mut self, x: usize, y: usize, nx: usize, ny: usize)
        requires
            old(self).wf(),
            y * old(self)@.cols + x < ny * old(self)@.cols + nx < old(self)@.cells.len(),
            old(self)@.at(x as int, y as int) != 0,
            old(self)@.at(nx as int, ny as int) == 0,
        ensures
            final(self).wf(),
            final(self).cols == old(self).cols,
            final(self).rows == old(self).rows,
            final(self).stride == old(self).stride,
            final(self)@.cells == slid(
                old(self)@.cells,
                y * old(self)@.cols + x,
                ny * old(self)@.cols + nx,
            ),
            final(self)@.cells.to_multiset() == old(self)@.cells.to_multiset(),
            index_sum(final(self)@.cells) > index_sum(old(self)@.cells),
    {
        let from = y * self.cols + x;
        let to = ny * self.cols + nx;
        let ghost s0 = self.cells@;
        let kind = self.cells[from];
        proof {
            lemma_grains_update(s0, to as int, kind);
            lemma_grains_update(s0.update(to as int, kind), from as int, 0);
            lemma_slide_keeps_grains(s0, from as int, to as int);
        }
        self.cells.set(to, kind);
        self.cells.set(from, 0);
    }

    /// Whether the grid can be resized to `rows` rows: the row shift fits an `isize`.
    pub fn can_resize(&self, rows: usize) -> (r: bool)
        ensures
            r == row_shift_fits(self@.rows, rows as nat),
    {
        let a: i128 = if rows <= isize::MAX as usize {
            rows as i128
        } else {
            rows as i128 - 0x1_0000_0000_0000_0000i128
        };
        let b: i128 = if self.rows <= isize::MAX as usize {
            self.rows as i128
        } else {
            self.rows as i128 - 0x1_0000_0000_0000_0000i128
        };
        isize::MIN as i128 <= a - b && a - b <= isize::MAX as i128
    }

    /// Carries the pile over to a new size, anchored to the floor and the centre.
    pub fn resized(&self, cols: usize, rows: usize) -> (next: Self)
        requires
            self.wf(),
            shape_fits(cols as nat, rows as nat),
            row_shift_fits(self@.rows, rows as nat),
        ensures
            next.wf(),
            next@ == resized_view(self@, cols as nat, rows as nat),
            next@.cols == cols,
            next@.rows == rows,
            forall|x: int, y: int|
                0 <= x < cols && 0 <= y < rows ==> #[trigger] next@.at(x, y) == carried(
                    self@,
                    cols as nat,
                    rows as nat,
                    x,
                    y,
                ),
    {
        proof {
            assert(cols * rows <= usize::MAX) by (nonlinear_arith)
                requires cols * rows <= isize::MAX;
        }
        let n = cols * rows;
        let half_old = self.cols / 2;
        let half_new = cols / 2;
        let mut cells: Vec<u8> = Vec::new();
        let mut filled: usize = 0;
        let mut j: usize = 0;
        proof {
            lemma_no_grains(cells@);
        }
        while j < n
            invariant
                self.wf(),
                n == cols * rows,
                shape_fits(cols as nat, rows as nat),
                half_old == self.cols / 2,
                half_new == cols / 2,
                j <= n,
                cells@.len() == j,
                filled == grain_count(cells@),
                filled <= j,
                kinds_ok(cells@),
                forall|i: int|
                    0 <= i < j ==> #[trigger] cells@[i] == carried(
                        self@,
                        cols as nat,
                        rows as nat,
                        i % cols as int,
                        i / cols as int,
                    ),
            decreases n - j,
        {
            proof {
                assert(cols > 0) by (nonlinear_arith)
                    requires j < cols * rows;
            }
            let nx = j % cols;
            let ny = j / cols;
            proof {
                assert(ny < rows) by (nonlinear_arith)
                    requires j < cols * rows, ny == j / cols, cols > 0;
            }
            proof {
                assert(cols <= isize::MAX) by (nonlinear_arith)
                    requires j < cols * rows, cols * rows <= isize::MAX;
                if self.cols > 0 {
                    assert(self.rows <= isize::MAX) by (nonlinear_arith)
                        requires self.cols * self.rows <= isize::MAX, self.cols > 0;
                }
            }
            let mut kind: u8 = 0;
            if self.cols > 0 && nx + half_old >= half_new && ny + self.rows >= rows {
                let ox = nx + half_old - half_new;
                let oy = ny + self.rows - rows;
                if ox < self.cols && oy < self.rows {
                    proof {
                        lemma_cell_index(self.cols as int, self.rows as int, ox as int, oy as int);
                    }
                    kind = self.cells[oy * self.cols + ox];
                }
            }
            proof {
                lemma_grains_push(cells@, kind);
            }
            cells.push(kind);
            if kind != 0 {
                filled = filled + 1;
            }
            j = j + 1;
        }
        let next = Grid { cols, rows, cells, filled, stride: sweep_stride(cols) };
        proof {
            assert(next@.cells =~= resized_view(self@, cols as nat, rows as nat).cells);
            assert forall|x: int, y: int| 0 <= x < cols && 0 <= y < rows implies #[trigger] next@.at(
                x,
                y,
            ) == carried(self@, cols as nat, rows as nat, x, y) by {
                lemma_cell_index(cols as int, rows as int, x, y);
                lemma_fundamental_div_mod_converse(y * cols + x, cols as int, y, x);
            }
        }
        next
    }

    /// Empties the floor so the existing fall rules sink the pile instead of vanishing it.
    pub fn drain_floor(&mut self)
        requires
            old(self).wf(),
        ensures
            final(self).wf(),
            final(self)@.cols == old(self)@.cols,
            final(self)@.rows == old(self)@.rows,
            final(self)@.cells.len() == old(self)@.cells.len(),
            forall|i: int|
                0 <= i < old(self)@.cells.len() ==> #[trigger] final(self)@.cells[i] == if i >= (
                old(self)@.rows - 1) * old(self)@.cols {
                    0
                } else {
                    old(self)@.cells[i]
                },
            final(self)@ == floor_drained(old(self)@),
    {
        if self.rows == 0 {
            assert(self@.cells =~= floor_drained(old(self)@).cells);
            return;
        }
        proof {
            assert((self.rows - 1) * self.cols + self.cols == self.cols * self.rows) by (nonlinear_arith);
        }
        let floor = (self.rows - 1) * self.cols;
        let end = floor + self.cols;
        let mut i = floor;
        while i < end
            invariant
                floor <= i <= end,
                end == self.cells@.len(),
                floor == (old(self)@.rows - 1) * old(self)@.cols,
                self.cols == old(self).cols,
                self.rows == old(self).rows,
                self.stride == old(self).stride,
                self.cells@.len() == old(self).cells@.len(),
                self.filled == grain_count(self.cells@),
                shape_fits(self.cols as nat, self.rows as nat),
                self.cells@.len() == self.cols * self.rows,
                self.stride == stride_for(self.cols as nat),
                kinds_ok(self.cells@),
                forall|j: int|
                    0 <= j < self.cells@.len() ==> #[trigger] self.cells@[j] == if floor <= j < i {
                        0
                    } else {
                        old(self).cells@[j]
                    },
            decreases end - i,
        {
            if self.cells[i] != 0 {
                proof {
                    lemma_grains_update(self.cells@, i as int, 0);
                }
                self.cells.set(i, 0);
                self.filled = self.filled - 1;
            }
            i = i + 1;
        }
        assert(self@.cells =~= floor_drained(old(self)@).cells);
    }

    /// Takes grains from under the pile, so the shape sinks instead of eroding.
    pub fn drain_to(&mut self, target: usize)
        requires
            old(self).wf(),
        ensures
            final(self).wf(),
            final(self)@.cols == old(self)@.cols,
            final(self)@.rows == old(self)@.rows,
            final(self)@.cells.len() == old(self)@.cells.len(),
            final(self)@.grains() == if old(self)@.grains() <= target {
                old(self)@.grains()
            } else {
                target as nat
            },
            forall|i: int|
                0 <= i < old(self)@.cells.len() ==> #[trigger] final(self)@.cells[i] == drained_to(
                    old(self)@.cells,
                    target as nat,
                    i,
                ),
    {
        let ghost start = self.cells@;
        let ghost total = self.filled as nat;
        let ghost len = start.len() as int;
        let mut i = self.cells.len();
        proof {
            assert(start.subrange(len, len) =~= Seq::<u8>::empty());
            lemma_no_grains(start.subrange(len, len));
        }
        while i > 0
            invariant
                i <= len,
                len == start.len(),
                start == old(self).cells@,
                total == grain_count(start),
                self.cols == old(self).cols,
                self.rows == old(self).rows,
                self.stride == old(self).stride,
                self.cells@.len() == len,
                self.filled == grain_count(self.cells@),
                shape_fits(self.cols as nat, self.rows as nat),
                self.cells@.len() == self.cols * self.rows,
                self.stride == stride_for(self.cols as nat),
                kinds_ok(self.cells@),
                self.filled + grain_count(start.subrange(i as int, len)) == total,
                i < len ==> self.filled >= target,
                i < len ==> total > target,
                i == len ==> self.filled == total,
                forall|j: int| 0 <= j < i ==> #[trigger] self.cells@[j] == start[j],
                forall|j: int|
                    i <= j < len ==> #[trigger] self.cells@[j] == drained_to(start, target as nat, j),
            decreases i,
        {
            if self.filled <= target {
                proof {
                    assert forall|j: int| 0 <= j < i implies #[trigger] self.cells@[j]
                        == drained_to(start, target as nat, j) by {
                        lemma_suffix_grains_grow(start, j + 1, i as int);
                        lemma_suffix_grains_step(start, j);
                    }
                }
                return;
            }
            i = i - 1;
            assert(i < len && total > target);
            proof {
                lemma_suffix_grains_step(start, i as int);
            }
            if self.cells[i] != 0 {
                proof {
                    lemma_grains_update(self.cells@, i as int, 0);
                }
                self.cells.set(i, 0);
                self.filled = self.filled - 1;
            }
        }
        proof {
            assert(start.subrange(0, len) =~= start);
        }
    }
}

/// Counts the non-empty cells of `cells`.
fn count_grains(cells: &Vec<u8>) -> (n: usize)
    ensures
        n == grain_count(cells@),
{
    let mut n: usize = 0;
    let mut i: usize = 0;
    proof {
        lemma_no_grains(cells@.take(0));
    }
    while i < cells.len()
        invariant
            i <= cells@.len(),
            n == grain_count(cells@.take(i as int)),
            n <= i,
        decreases cells@.len() - i,
    {
        proof {
            lemma_grains_push(cells@.take(i as int), cells@[i as int]);
            assert(cells@.take(i as int).push(cells@[i as int]) =~= cells@.take(i + 1));
        }
        if cells[i] != 0 {
            n = n + 1;
        }
        i = i + 1;
    }
    proof {
        assert(cells@.take(i as int) =~= cells@);
    }
    n
}


/// Cell (`x`, `y`) of a `cols` x `rows` grid lies inside its cells, a row above the end
/// unless it is on the floor.
proof fn lemma_cell_index(cols: int, rows: int, x: int, y: int)
    requires
        0 <= x < cols,
        0 <= y < rows,
    ensures
        0 <= y * cols + x < cols * rows,
        (y + 1) * cols + x == y * cols + x + cols,
        y + 1 < rows ==> (y + 1) * cols + x < cols * rows,
{
    assert(0 <= y * cols) by (nonlinear_arith)
        requires 0 <= y, 0 <= x < cols;
    assert(y * cols + x < cols * rows) by (nonlinear_arith)
        requires 0 <= x < cols, 0 <= y < rows;
    assert((y + 1) * cols == y * cols + cols) by (nonlinear_arith);
    if y + 1 < rows {
        assert((y + 1) * cols + x < cols * rows) by (nonlinear_arith)
            requires 0 <= x < cols, 0 <= y + 1 < rows;
    }
}


/// A pile grows with its height: a taller 45° pile in the same width covers strictly more.
pub proof fn lemma_pile_area_grows(cols: nat, low: nat, high: nat)
    requires
        cols > 0,
        low < high,
    ensures
        pile_area_spec(cols, low) < pile_area_spec(cols, high),
    decreases high - low,
{
    lemma_pile_area_step(cols, low);
    if low + 1 < high {
        lemma_pile_area_grows(cols, low + 1, high);
    }
}

proof fn lemma_pile_area_step(cols: nat, h: nat)
    requires
        cols > 0,
    ensures
        pile_area_spec(cols, h) < pile_area_spec(cols, h + 1),
{
    let c = cols as int;
    let hh = h as int;
    if 2 * (hh + 1) <= c {
        assert(hh * hh < (hh + 1) * (hh + 1)) by (nonlinear_arith)
            requires hh >= 0;
    } else if 2 * hh <= c {
        if c == 2 * hh {
            assert(c * c / 4 == hh * hh) by (nonlinear_arith)
                requires c == 2 * hh;
            assert((hh + 1) * c - hh * hh > hh * hh) by (nonlinear_arith)
                requires c == 2 * hh, c > 0;
        } else {
            assert(c == 2 * hh + 1);
            assert(c * c / 4 == hh * hh + hh) by (nonlinear_arith)
                requires c == 2 * hh + 1;
            assert((hh + 1) * c - (hh * hh + hh) > hh * hh) by (nonlinear_arith)
                requires c == 2 * hh + 1, hh >= 0;
        }
    } else {
        assert(c * c / 4 <= hh * c) by (nonlinear_arith)
            requires 2 * hh > c, c > 0;
        assert((hh + 1) * c == hh * c + c) by (nonlinear_arith);
    }
}

/// Bezout's identity: some combination of `a` and `b` makes their gcd.
pub proof fn lemma_bezout(a: nat, b: nat) -> (xy: (int, int))
    ensures
        a * xy.0 + b * xy.1 == gcd(a, b),
    decreases b,
{
    if b == 0 {
        (1, 0)
    } else {
        let (x, y) = lemma_bezout(b, a % b);
        let q = (a / b) as int;
        assert(a as int == b * q + (a % b)) by {
            vstd::arithmetic::div_mod::lemma_fundamental_div_mod(a as int, b as int);
        }
        assert(a * y + b * (x - q * y) == b * x + (a % b) * y) by (nonlinear_arith)
            requires a as int == b * q + (a % b);
        (y, x - q * y)
    }
}

/// The sweep stride is coprime with the width, and lies from `STRIDE_FLOOR` below
/// `STRIDE_FLOOR + cols`.
pub proof fn lemma_stride_coprime(cols: nat)
    requires
        cols >= 2,
    ensures
        gcd(stride_for(cols), cols) == 1,
        STRIDE_FLOOR <= stride_for(cols) < STRIDE_FLOOR + cols,
{
    let w: nat = if cols == 2 || cols == 3 {
        7
    } else if cols == 4 {
        9
    } else if cols == 5 {
        11
    } else {
        cols + 1
    };
    assert(w % cols == 1) by {
        if cols >= 6 {
            vstd::arithmetic::div_mod::lemma_fundamental_div_mod_converse(w as int, cols as int, 1, 1);
        }
    }
    assert(gcd(w, cols) == 1) by {
        reveal_with_fuel(gcd, 3);
        assert(gcd(cols, 1) == gcd(1, cols % 1));
        assert(cols % 1 == 0);
    }
    lemma_first_coprime_reaches(cols, STRIDE_FLOOR as nat, w);
}

proof fn lemma_first_coprime_reaches(cols: nat, s: nat, w: nat)
    requires
        s <= w < STRIDE_FLOOR + cols,
        gcd(w, cols) == 1,
    ensures
        gcd(first_coprime(cols, s), cols) == 1,
        s <= first_coprime(cols, s) <= w,
    decreases w - s,
{
    if gcd(s, cols) != 1 {
        lemma_first_coprime_reaches(cols, s + 1, w);
    }
}

/// One row of a sweep visits every column exactly once: each column is reached by some
/// step of the row, and two different steps reach different columns.
pub proof fn lemma_sweep_covers_row(cols: nat, y: int)
    requires
        cols >= 2,
    ensures
        forall|x: int| 0 <= x < cols ==> #[trigger] row_reaches(cols, y, x),
        forall|k1: int, k2: int|
            0 <= k1 < k2 < cols ==> #[trigger] row_col(cols, y, k1) != #[trigger] row_col(cols, y, k2),
{
    let s = stride_for(cols);
    let c = cols as int;
    lemma_stride_coprime(cols);
    let (inv, other) = lemma_bezout(s, cols);
    assert(s * inv == 1 - c * other);
    assert forall|x: int| 0 <= x < cols implies #[trigger] row_reaches(cols, y, x) by {
        let t = (x - y) * inv;
        let k = t % c;
        vstd::arithmetic::div_mod::lemma_mod_bound(t, c);
        vstd::arithmetic::div_mod::lemma_mul_mod_noop_left(t, s as int, c);
        vstd::arithmetic::div_mod::lemma_add_mod_noop(k * s, y, c);
        vstd::arithmetic::div_mod::lemma_add_mod_noop(t * s, y, c);
        assert(t * s + y == x + c * (-(other * (x - y)))) by (nonlinear_arith)
            requires t == (x - y) * inv, s * inv == 1 - c * other;
        vstd::arithmetic::div_mod::lemma_mod_multiples_vanish(-(other * (x - y)), x, c);
        vstd::arithmetic::div_mod::lemma_small_mod(x as nat, cols);
        assert((k * s + y) % c == x);
        assert(row_col(cols, y, k) == x);
    }
    assert forall|k1: int, k2: int| 0 <= k1 < k2 < cols implies #[trigger] row_col(cols, y, k1)
        != #[trigger] row_col(cols, y, k2) by {
        if (k1 * s + y) % c == (k2 * s + y) % c {
            let d = k2 - k1;
            vstd::arithmetic::div_mod::lemma_sub_mod_noop(k2 * s + y, k1 * s + y, c);
            assert((k2 * s + y) - (k1 * s + y) == d * s) by (nonlinear_arith)
                requires d == k2 - k1;
            let a = k2 * s + y;
            let b = k1 * s + y;
            assert(a % c - b % c == 0);
            assert(0int % c == 0);
            assert((a - b) % c == 0);
            assert(a - b == d * s);
            assert((d * s) % c == 0);
            vstd::arithmetic::div_mod::lemma_mul_mod_noop_left(d * s, inv, c);
            assert(d * s * inv == d + c * (-(other * d))) by (nonlinear_arith)
                requires s * inv == 1 - c * other;
            vstd::arithmetic::div_mod::lemma_mod_multiples_vanish(-(other * d), d, c);
            vstd::arithmetic::div_mod::lemma_small_mod(d as nat, cols);
            assert((0 * inv) % c == 0);
            assert(false);
        }
    }
}

/// Cell `i` of a `cols` x `rows` grid is column `i % cols` of row `i / cols`.
proof fn lemma_index_cell(cols: int, rows: int, i: int)
    requires
        0 <= cols,
        0 <= rows,
        0 <= i < cols * rows,
    ensures
        cols > 0,
        0 <= i % cols < cols,
        0 <= i / cols < rows,
        i == (i / cols) * cols + i % cols,
{
    assert(cols > 0) by (nonlinear_arith)
        requires 0 <= cols, 0 <= rows, 0 <= i < cols * rows;
    vstd::arithmetic::div_mod::lemma_fundamental_div_mod(i, cols);
    vstd::arithmetic::div_mod::lemma_mod_bound(i, cols);
    vstd::arithmetic::div_mod::lemma_div_pos_is_pos(i, cols);
    let q = i / cols;
    assert(q < rows) by (nonlinear_arith)
        requires i == cols * q + i % cols, 0 <= i % cols, i < cols * rows, cols > 0;
    assert(cols * q == q * cols) by (nonlinear_arith);
}

/// The occupied cells are as many as the grains.
proof fn lemma_occupied_count(cells: Seq<u8>)
    ensures
        occupied(cells).finite(),
        occupied(cells).len() == grain_count(cells),
    decreases cells.len(),
{
    if cells.len() == 0 {
        lemma_no_grains(cells);
        assert(occupied(cells) =~= Set::<int>::empty());
    } else {
        let rest = cells.drop_last();
        let c = cells.last();
        lemma_occupied_count(rest);
        assert(rest.push(c) =~= cells);
        lemma_grains_push(rest, c);
        if c != 0 {
            assert(occupied(cells) =~= occupied(rest).insert(rest.len() as int));
        } else {
            assert(occupied(cells) =~= occupied(rest));
        }
    }
}

/// Where the grain in cell `i` of `from` lands when the grid grows to `cols` x `rows`.
spec fn landing(from: GridView, cols: nat, rows: nat, i: int) -> int {
    (i / (from.cols as int) + (rows - from.rows)) * cols + (i % (from.cols as int) + (cols / 2 - from.cols / 2))
}

/// A grain of `from` lands inside the grown grid, in the cell that carries it.
proof fn lemma_landing(from: GridView, cols: nat, rows: nat, i: int)
    requires
        from.cells.len() == from.cols * from.rows,
        from.cols <= cols,
        from.rows <= rows,
        0 <= i < from.cells.len(),
    ensures
        0 <= landing(from, cols, rows, i) < cols * rows,
        landing(from, cols, rows, i) % (cols as int) == i % (from.cols as int) + (cols / 2 - from.cols / 2),
        landing(from, cols, rows, i) / (cols as int) == i / (from.cols as int) + (rows - from.rows),
        resized_view(from, cols, rows).cells[landing(from, cols, rows, i)] == from.cells[i],
{
    let fc = from.cols as int;
    lemma_index_cell(fc, from.rows as int, i);
    let ox = i % fc;
    let oy = i / fc;
    let nx = ox + (cols / 2 - from.cols / 2);
    let ny = oy + (rows - from.rows);
    assert(0 <= nx < cols);
    lemma_cell_index(cols as int, rows as int, nx, ny);
    lemma_fundamental_div_mod_converse(ny * cols + nx, cols as int, ny, nx);
}

/// Resizing a pile to a grid no narrower and no shorter keeps every grain: each lands in
/// a cell of its own in the new grid, and nothing else is there.
pub proof fn lemma_growing_keeps_every_grain(from: GridView, cols: nat, rows: nat)
    requires
        from.cells.len() == from.cols * from.rows,
        from.cols <= cols,
        from.rows <= rows,
    ensures
        resized_view(from, cols, rows).grains() == from.grains(),
{
    let to = resized_view(from, cols, rows);
    let fc = from.cols as int;
    let c = cols as int;
    let f = |i: int| landing(from, cols, rows, i);
    let a = occupied(from.cells);
    let b = occupied(to.cells);
    lemma_occupied_count(from.cells);
    lemma_occupied_count(to.cells);
    assert forall|j: int| #[trigger] b.contains(j) implies a.map(f).contains(j) by {
        lemma_index_cell(c, rows as int, j);
        let ox = j % c - (cols / 2 - from.cols / 2);
        let oy = j / c - (rows - from.rows);
        assert(to.cells[j] == carried(from, cols, rows, j % c, j / c));
        assert(0 <= ox < fc && 0 <= oy < from.rows);
        lemma_cell_index(fc, from.rows as int, ox, oy);
        let i = oy * fc + ox;
        lemma_fundamental_div_mod_converse(i, fc, oy, ox);
        lemma_landing(from, cols, rows, i);
        assert(a.contains(i));
        assert(f(i) == j);
    }
    assert forall|j: int| #[trigger] a.map(f).contains(j) implies b.contains(j) by {
        let i = choose|i: int| a.contains(i) && j == f(i);
        lemma_landing(from, cols, rows, i);
    }
    assert(a.map(f) =~= b);
    assert forall|i1: int, i2: int| a.contains(i1) && a.contains(i2) && #[trigger] f(i1) == #[trigger] f(i2)
        implies i1 == i2 by {
        lemma_landing(from, cols, rows, i1);
        lemma_landing(from, cols, rows, i2);
        lemma_index_cell(fc, from.rows as int, i1);
        lemma_index_cell(fc, from.rows as int, i2);
    }
    vstd::set_lib::lemma_map_size(a, b, f);
}

/// Growing a grid and then resizing it back to its old shape gives back the same pile.
pub proof fn lemma_grow_and_back_restores(from: GridView, cols: nat, rows: nat)
    requires
        from.cells.len() == from.cols * from.rows,
        from.cols <= cols,
        from.rows <= rows,
    ensures
        resized_view(resized_view(from, cols, rows), from.cols, from.rows) == from,
{
    let grown = resized_view(from, cols, rows);
    let back = resized_view(grown, from.cols, from.rows);
    let fc = from.cols as int;
    assert forall|i: int| 0 <= i < from.cells.len() implies #[trigger] back.cells[i] == from.cells[i] by {
        lemma_index_cell(fc, from.rows as int, i);
        lemma_landing(from, cols, rows, i);
        let x = i % fc;
        let y = i / fc;
        let gx = x + (cols / 2 - from.cols / 2);
        let gy = y + (rows - from.rows);
        assert(back.cells[i] == carried(grown, from.cols, from.rows, x, y));
        assert(grown.at(gx, gy) == grown.cells[landing(from, cols, rows, i)]);
    }
    assert(back.cells =~= from.cells);
}

/// The grid after `k` rounds of pulling the floor out and running the fall rules once,
/// and the generator's state.
pub open spec fn sunk(g: GridView, rng: u64, k: nat) -> (GridView, u64)
    decreases k,
{
    if k == 0 {
        (g, rng)
    } else {
        let (g1, r1) = sunk(g, rng, (k - 1) as nat);
        let (g2, r2, _) = settled(floor_drained(g1), r1);
        (g2, r2)
    }
}

/// The sum of the rows of the grains of `cells`, in a grid `cols` wide.
pub open spec fn row_sum(cells: Seq<u8>, cols: nat) -> nat
    decreases cells.len(),
{
    if cells.len() == 0 {
        0
    } else {
        row_sum(cells.drop_last(), cols) + if cells.last() != 0 {
            ((cells.len() - 1) / (cols as int)) as nat
        } else {
            0nat
        }
    }
}

/// How many rows the grains of `cells` still have to sink to leave a grid of `cols` x
/// `rows`: each grain counts the rows from it down through the floor.
pub open spec fn rows_left(cells: Seq<u8>, cols: nat, rows: nat) -> nat
    decreases cells.len(),
{
    if cells.len() == 0 {
        0
    } else {
        rows_left(cells.drop_last(), cols, rows) + if cells.last() != 0 {
            (rows - (cells.len() - 1) / (cols as int)) as nat
        } else {
            0nat
        }
    }
}

/// Whether the visit of step `k` of a sweep found its cell empty or its grain held up
/// by the cell below.
pub open spec fn held_at(cols: nat, rows: nat, cells: Seq<u8>, k: int) -> bool {
    let here = sweep_row(cols, rows, k) * cols + sweep_col(cols, rows, k);
    cells[here] == 0 || cells[here + cols] != 0
}

/// The rows left of the grains and the sum of their rows add up to `rows` for each grain.
proof fn lemma_rows_left(cells: Seq<u8>, cols: nat, rows: nat)
    requires
        cols > 0,
        cells.len() <= cols * rows,
    ensures
        rows_left(cells, cols, rows) + row_sum(cells, cols) == grain_count(cells) * rows,
        grain_count(cells) <= rows_left(cells, cols, rows),
        rows_left(cells, cols, rows) <= grain_count(cells) * rows,
    decreases cells.len(),
{
    if cells.len() == 0 {
        lemma_no_grains(cells);
    } else {
        let rest = cells.drop_last();
        assert(rest.len() <= cols * rows);
        lemma_rows_left(rest, cols, rows);
        assert(rest.push(cells.last()) =~= cells);
        lemma_grains_push(rest, cells.last());
        lemma_index_cell(cols as int, rows as int, cells.len() - 1);
        let g = grain_count(rest);
        assert((g + 1) * rows == g * rows + rows) by (nonlinear_arith);
    }
}

/// Emptying some cells never adds rows left or grains, and emptying a grain takes rows
/// away.
proof fn lemma_emptying(c1: Seq<u8>, c2: Seq<u8>, cols: nat, rows: nat)
    requires
        cols > 0,
        c1.len() == c2.len(),
        c1.len() <= cols * rows,
        forall|i: int| 0 <= i < c1.len() ==> c2[i] == c1[i] || c2[i] == 0,
    ensures
        rows_left(c2, cols, rows) <= rows_left(c1, cols, rows),
        grain_count(c2) <= grain_count(c1),
        forall|i: int|
            0 <= i < c1.len() && c1[i] != 0 && c2[i] == 0 ==> rows_left(c2, cols, rows) < rows_left(c1, cols, rows),
    decreases c1.len(),
{
    if c1.len() == 0 {
        lemma_no_grains(c1);
        lemma_no_grains(c2);
    } else {
        let (r1, r2) = (c1.drop_last(), c2.drop_last());
        lemma_emptying(r1, r2, cols, rows);
        lemma_index_cell(cols as int, rows as int, c1.len() - 1);
        assert(r1.push(c1.last()) =~= c1);
        assert(r2.push(c2.last()) =~= c2);
        lemma_grains_push(r1, c1.last());
        lemma_grains_push(r2, c2.last());
    }
}

/// A visit above the floor keeps the grains and their count, moves a grain only further
/// along, and when it moves nothing, its cell was empty or held up.
proof fn lemma_visit_keeps(cols: nat, rows: nat, cells: Seq<u8>, rng: u64, x: int, y: int)
    requires
        cells.len() == cols * rows,
        0 <= x < cols,
        0 <= y,
        y + 1 < rows,
    ensures
        visit(cols, cells, rng, x, y).0.len() == cells.len(),
        visit(cols, cells, rng, x, y).0.to_multiset() == cells.to_multiset(),
        visit(cols, cells, rng, x, y).2 ==> index_sum(visit(cols, cells, rng, x, y).0) > index_sum(cells),
        visit(cols, cells, rng, x, y).2 ==> row_sum(visit(cols, cells, rng, x, y).0, cols) == row_sum(cells, cols) + 1,
        !visit(cols, cells, rng, x, y).2 ==> visit(cols, cells, rng, x, y).0 == cells && (cells[y * cols + x]
            == 0 || cells[y * cols + x + cols] != 0),
{
    lemma_cell_index(cols as int, rows as int, x, y);
    let here = y * cols + x;
    lemma_fundamental_div_mod_converse(here, cols as int, y, x);
    if cells[here] != 0 {
        if cells[here + cols] == 0 {
            lemma_slide_keeps_grains(cells, here, here + cols);
            lemma_fundamental_div_mod_converse(here + cols, cols as int, y + 1, x);
            lemma_slide_rows(cells, cols, here, here + cols);
        } else {
            match neighbour_of(cols, x, rng) {
                Some(nx) => {
                    if cells[(y + 1) * cols + nx] == 0 && cells[y * cols + nx] == 0 {
                        lemma_cell_index(cols as int, rows as int, nx, y + 1);
                        lemma_slide_keeps_grains(cells, here, (y + 1) * cols + nx);
                        lemma_fundamental_div_mod_converse((y + 1) * cols + nx, cols as int, y + 1, nx);
                        lemma_slide_rows(cells, cols, here, (y + 1) * cols + nx);
                    }
                },
                None => {},
            }
        }
    }
}

/// Step `k` of a sweep visits a cell above the floor.
proof fn lemma_visit_place(cols: nat, rows: nat, k: int)
    requires
        0 <= k < sweep_len(cols, rows),
    ensures
        0 <= sweep_col(cols, rows, k) < cols,
        0 <= sweep_row(cols, rows, k),
        sweep_row(cols, rows, k) + 1 < rows,
{
    assert(rows >= 1);
    lemma_index_cell(cols as int, (rows - 1) as int, k);
    lemma_mod_bound(k % (cols as int) * stride_for(cols) + sweep_row(cols, rows, k), cols as int);
}

/// A sweep keeps the grains, moves them only further along, and when it moves nothing
/// every cell it visited was empty or held up.
proof fn lemma_sweep_keeps(cols: nat, rows: nat, cells: Seq<u8>, rng: u64, n: nat)
    requires
        cells.len() == cols * rows,
        n <= sweep_len(cols, rows),
    ensures
        sweep(cols, rows, cells, rng, n).0.len() == cells.len(),
        sweep(cols, rows, cells, rng, n).0.to_multiset() == cells.to_multiset(),
        sweep(cols, rows, cells, rng, n).2 ==> index_sum(sweep(cols, rows, cells, rng, n).0) > index_sum(cells),
        sweep(cols, rows, cells, rng, n).2 ==> row_sum(sweep(cols, rows, cells, rng, n).0, cols) > row_sum(cells, cols),
        !sweep(cols, rows, cells, rng, n).2 ==> sweep(cols, rows, cells, rng, n).0 == cells,
        !sweep(cols, rows, cells, rng, n).2 ==> forall|k: int| 0 <= k < n ==> #[trigger] held_at(cols, rows, cells, k),
    decreases n,
{
    if n > 0 {
        lemma_sweep_keeps(cols, rows, cells, rng, (n - 1) as nat);
        let prev = sweep(cols, rows, cells, rng, (n - 1) as nat);
        let k = n - 1;
        lemma_visit_place(cols, rows, k);
        lemma_visit_keeps(cols, rows, prev.0, prev.1, sweep_col(cols, rows, k), sweep_row(cols, rows, k));
    }
}

/// The last cell of `cells` that holds a grain, or -1.
spec fn last_grain(cells: Seq<u8>) -> int
    decreases cells.len(),
{
    if cells.len() == 0 {
        -1
    } else if cells.last() != 0 {
        cells.len() - 1
    } else {
        last_grain(cells.drop_last())
    }
}

proof fn lemma_last_grain(cells: Seq<u8>)
    ensures
        -1 <= last_grain(cells) < cells.len(),
        last_grain(cells) >= 0 ==> cells[last_grain(cells)] != 0,
        forall|i: int| last_grain(cells) < i < cells.len() ==> cells[i] == 0,
    decreases cells.len(),
{
    if cells.len() > 0 && cells.last() == 0 {
        let rest = cells.drop_last();
        lemma_last_grain(rest);
        assert forall|i: int| last_grain(cells) < i < cells.len() implies cells[i] == 0 by {
            if i < rest.len() {
                assert(rest[i] == cells[i]);
            }
        }
    }
}

/// Over an empty floor, a pass of the fall rules moves some grain if there is one: the
/// last grain has nothing under it.
proof fn lemma_unheld_grain_falls(cols: nat, rows: nat, cells: Seq<u8>, rng: u64)
    requires
        cells.len() == cols * rows,
        grain_count(cells) > 0,
        forall|i: int| 0 <= i && (rows - 1) * cols <= i < cells.len() ==> cells[i] == 0,
    ensures
        sweep(cols, rows, cells, rng, sweep_len(cols, rows)).2,
{
    lemma_last_grain(cells);
    let j = last_grain(cells);
    if j < 0 {
        lemma_no_grains(cells);
    }
    assert(j >= 0);
    lemma_index_cell(cols as int, rows as int, j);
    let c = cols as int;
    let x = j % c;
    let y = j / c;
    assert(y < rows - 1) by (nonlinear_arith)
        requires j == y * c + x, 0 <= x, j < (rows - 1) * c, c > 0;
    let s: int = if cols >= 2 {
        lemma_sweep_covers_row(cols, y);
        assert(row_reaches(cols, y, x));
        choose|s: int| 0 <= s < cols && row_col(cols, y, s) == x
    } else {
        0
    };
    assert(row_col(cols, y, s) == x);
    let k = (rows - 2 - y) * c + s;
    assert(0 <= (rows - 2 - y) * c) by (nonlinear_arith)
        requires rows - 2 - y >= 0, c > 0;
    assert(k < (rows - 1) * c) by (nonlinear_arith)
        requires k == (rows - 2 - y) * c + s, s < c, y >= 0, rows - 2 - y >= 0, c > 0;
    lemma_fundamental_div_mod_converse(k, c, rows - 2 - y, s);
    assert(sweep_row(cols, rows, k) == y);
    assert(sweep_col(cols, rows, k) == x);
    lemma_sweep_keeps(cols, rows, cells, rng, sweep_len(cols, rows));
    if !sweep(cols, rows, cells, rng, sweep_len(cols, rows)).2 {
        assert(held_at(cols, rows, cells, k));
        assert(y * c + x + c < cells.len()) by (nonlinear_arith)
            requires y < rows - 1, 0 <= x < c, 0 <= y, cells.len() == c * rows;
    }
}

/// One round of pulling the floor out and settling takes depth away from a pile that
/// holds a grain, and leaves an empty one empty.
proof fn lemma_round_sinks(g: GridView, rng: u64)
    requires
        g.cells.len() == g.cols * g.rows,
    ensures
        ({
            let (g2, _, _) = settled(floor_drained(g), rng);
            &&& g2.cols == g.cols
            &&& g2.rows == g.rows
            &&& g2.cells.len() == g.cells.len()
            &&& g.grains() > 0 ==> rows_left(g2.cells, g.cols, g.rows) < rows_left(g.cells, g.cols, g.rows)
            &&& g.grains() == 0 ==> g2.grains() == 0
        }),
{
    broadcast use vstd::seq_lib::to_multiset_len;
    let n = g.cells.len();
    let d = floor_drained(g);
    let floor = (g.rows - 1) * g.cols;
    lemma_sweep_keeps(g.cols, g.rows, d.cells, rng, sweep_len(g.cols, g.rows));
    let (g2, _, moved) = settled(d, rng);
    assert(g2.cells.to_multiset().count(0u8) == d.cells.to_multiset().count(0u8));
    assert(grain_count(g2.cells) == grain_count(d.cells));
    if g.cols == 0 {
        assert(n == 0) by (nonlinear_arith)
            requires n == g.cols * g.rows, g.cols == 0;
        lemma_no_grains(g.cells);
        lemma_no_grains(g2.cells);
    }
    if g.grains() > 0 || g.cols > 0 {
        lemma_emptying(g.cells, d.cells, g.cols, g.rows);
        lemma_rows_left(d.cells, g.cols, g.rows);
        lemma_rows_left(g2.cells, g.cols, g.rows);
    }
    if g.grains() > 0 {
        if exists|i: int| 0 <= i && floor <= i < n && g.cells[i] != 0 {
            let i = choose|i: int| 0 <= i && floor <= i < n && g.cells[i] != 0;
            assert(d.cells[i] == 0);
        } else {
            assert(d.cells =~= g.cells);
            lemma_unheld_grain_falls(g.cols, g.rows, d.cells, rng);
        }
    }
}

/// Pulling the floor out and running the fall rules, round after round, sinks the whole
/// pile: every round that leaves grains takes at least one row off their sinking still to
/// do, so after as many rounds as its grains times its rows nothing is left.
pub proof fn lemma_sinking_empties(g: GridView, rng: u64, k: nat)
    requires
        g.cells.len() == g.cols * g.rows,
        k >= g.grains() * g.rows,
    ensures
        sunk(g, rng, k).0.grains() == 0,
{
    lemma_sink_measure(g, rng, k);
    let after = sunk(g, rng, k).0;
    if after.grains() > 0 {
        lemma_nonempty_has_cols(g);
        lemma_rows_left(g.cells, g.cols, g.rows);
        lemma_rows_left(after.cells, g.cols, g.rows);
    }
}

/// A grid that holds a grain has columns.
proof fn lemma_nonempty_has_cols(g: GridView)
    requires
        g.cells.len() == g.cols * g.rows,
    ensures
        g.cols == 0 ==> g.grains() == 0,
{
    if g.cols == 0 {
        assert(g.cells.len() == 0) by (nonlinear_arith)
            requires g.cells.len() == g.cols * g.rows, g.cols == 0;
        lemma_no_grains(g.cells);
    }
}

/// After `k` rounds the pile is empty, or has lost at least `k` of its depth.
proof fn lemma_sink_measure(g: GridView, rng: u64, k: nat)
    requires
        g.cells.len() == g.cols * g.rows,
    ensures
        sunk(g, rng, k).0.cols == g.cols,
        sunk(g, rng, k).0.rows == g.rows,
        sunk(g, rng, k).0.cells.len() == g.cells.len(),
        sunk(g, rng, k).0.grains() == 0 || rows_left(sunk(g, rng, k).0.cells, g.cols, g.rows) + k <= rows_left(
            g.cells,
            g.cols,
            g.rows,
        ),
    decreases k,
{
    if k > 0 {
        lemma_sink_measure(g, rng, (k - 1) as nat);
        let (g1, r1) = sunk(g, rng, (k - 1) as nat);
        lemma_round_sinks(g1, r1);
    }
}

/// How a poured grain's kind follows its roll of 0..100: body sand (kind 1) for the 76
/// rolls from 24 on; the accents for the lowest rolls, rarer the higher the kind: kind 2
/// for the 13 rolls 11..24, kind 3 for the 7 rolls 4..11, kind 4 for the 4 rolls below 4.
/// A higher roll never gives a rarer kind.
pub proof fn lemma_grain_kinds(roll: usize, other: usize)
    requires
        roll < 100,
        other < 100,
    ensures
        1 <= kind_of_roll(roll) <= MAX_KIND,
        kind_of_roll(roll) == 1 <==> 24 <= roll,
        kind_of_roll(roll) == 2 <==> 11 <= roll < 24,
        kind_of_roll(roll) == 3 <==> 4 <= roll < 11,
        kind_of_roll(roll) == 4 <==> roll < 4,
        roll <= other ==> kind_of_roll(other) <= kind_of_roll(roll),
{
}

/// The mouth is centred: its columns are exactly those of the grid within
/// `MOUTH_HALF_WIDTH` of the middle column.
pub proof fn lemma_mouth_is_centred(cols: nat, x: int)
    requires
        cols > 0,
        0 <= x < cols,
    ensures
        mouth_left(cols) + mouth_width(cols) <= cols,
        mouth_width(cols) >= 1,
        (mouth_left(cols) <= x < mouth_left(cols) + mouth_width(cols)) <==> (cols / 2 - MOUTH_HALF_WIDTH <= x
            <= cols / 2 + MOUTH_HALF_WIDTH),
{
}

/// Whether a grain in row `y` can slide to column `nx`: it is in the grid, and both the
/// cell beside the grain and the cell below that are empty.
pub open spec fn side_open(cols: nat, cells: Seq<u8>, y: int, nx: int) -> bool {
    0 <= nx < cols && cells[y * cols + nx] == 0 && cells[(y + 1) * cols + nx] == 0
}

/// The fall rules for one cell above the floor. An empty cell stays as it is and tosses
/// no coin. A grain with an empty cell below falls straight into it, tossing no coin.
/// Otherwise a coin is tossed, and the grain either stays where it is or slides one row
/// down and one column aside into a cell that was empty, next to a cell that was empty;
/// when neither side is open it stays. Nothing else changes.
pub proof fn lemma_fall_rule(cols: nat, rows: nat, cells: Seq<u8>, rng: u64, x: int, y: int)
    requires
        cells.len() == cols * rows,
        0 <= x < cols,
        0 <= y,
        y + 1 < rows,
    ensures
        ({
            let (after, r, moved) = visit(cols, cells, rng, x, y);
            let here = y * cols + x;
            &&& cells[here] == 0 ==> !moved && after == cells && r == rng
            &&& cells[here] != 0 && cells[here + cols] == 0 ==> moved && after == slid(cells, here, here + cols)
                && r == rng
            &&& cells[here] != 0 && cells[here + cols] != 0 ==> r == advance(rng)
            &&& cells[here] != 0 && cells[here + cols] != 0 && moved ==> exists|nx: int|
                (nx == x - 1 || nx == x + 1) && #[trigger] side_open(cols, cells, y, nx) && after == slid(
                    cells,
                    here,
                    (y + 1) * cols + nx,
                )
            &&& cells[here] != 0 && cells[here + cols] != 0 && !side_open(cols, cells, y, x - 1) && !side_open(
                cols,
                cells,
                y,
                x + 1,
            ) ==> !moved
            &&& !moved ==> after == cells
        }),
{
    lemma_cell_index(cols as int, rows as int, x, y);
    let here = y * cols + x;
    if cells[here] != 0 && cells[here + cols] != 0 {
        match neighbour_of(cols, x, rng) {
            Some(nx) => {
                if cells[(y + 1) * cols + nx] == 0 && cells[y * cols + nx] == 0 {
                    assert(nx == x - 1 || nx == x + 1);
                    assert(side_open(cols, cells, y, nx));
                }
            },
            None => {},
        }
    }
}

/// Sliding a grain into an empty cell further along keeps every grain and raises the
/// index sum by how far it went.
proof fn lemma_slide_keeps_grains(cells: Seq<u8>, from: int, to: int)
    requires
        0 <= from < to < cells.len(),
        cells[from] != 0,
        cells[to] == 0,
    ensures
        slid(cells, from, to).to_multiset() == cells.to_multiset(),
        index_sum(slid(cells, from, to)) == index_sum(cells) + (to - from),
{
    broadcast use vstd::multiset::group_multiset_axioms;
    let v = cells[from];
    let mid = cells.update(to, v);
    to_multiset_update(cells, to, v);
    to_multiset_update(mid, from, 0);
    assert(mid[from] == v);
    vstd::seq_lib::to_multiset_contains(cells, 0u8);
    assert(cells.contains(0u8)) by {
        assert(cells[to] == 0u8);
    }
    assert(cells.to_multiset().count(0u8) > 0);
    assert(cells.to_multiset().insert(v).remove(0u8).insert(0u8).remove(v) =~= cells.to_multiset());
    lemma_index_sum_update(cells, to, v);
    lemma_index_sum_update(mid, from, 0);
}

/// Overwriting one cell changes the row sum by the row of what left and what came in.
proof fn lemma_row_sum_update(cells: Seq<u8>, cols: nat, i: int, c: u8)
    requires
        cols > 0,
        0 <= i < cells.len(),
    ensures
        row_sum(cells.update(i, c), cols) + (if cells[i] != 0 { i / (cols as int) } else { 0 }) == row_sum(
            cells,
            cols,
        ) + (if c != 0 { i / (cols as int) } else { 0 }),
    decreases cells.len(),
{
    let n = cells.len() - 1;
    vstd::arithmetic::div_mod::lemma_div_pos_is_pos(n, cols as int);
    vstd::arithmetic::div_mod::lemma_div_pos_is_pos(i, cols as int);
    if i == n {
        assert(cells.update(i, c).drop_last() =~= cells.drop_last());
    } else {
        assert(cells.update(i, c).drop_last() =~= cells.drop_last().update(i, c));
        lemma_row_sum_update(cells.drop_last(), cols, i, c);
    }
}

/// Sliding a grain into an empty cell changes the row sum by the rows it went down.
proof fn lemma_slide_rows(cells: Seq<u8>, cols: nat, from: int, to: int)
    requires
        cols > 0,
        0 <= from < cells.len(),
        0 <= to < cells.len(),
        from != to,
        cells[from] != 0,
        cells[to] == 0,
    ensures
        row_sum(slid(cells, from, to), cols) + from / (cols as int) == row_sum(cells, cols) + to / (cols as int),
{
    let v = cells[from];
    let mid = cells.update(to, v);
    lemma_row_sum_update(cells, cols, to, v);
    lemma_row_sum_update(mid, cols, from, 0);
}

/// Overwriting one cell changes the index sum by the index of what left and what came in.
proof fn lemma_index_sum_update(cells: Seq<u8>, i: int, c: u8)
    requires
        0 <= i < cells.len(),
    ensures
        index_sum(cells.update(i, c)) + (if cells[i] != 0 { i } else { 0 }) == index_sum(cells)
            + (if c != 0 { i } else { 0 }),
    decreases cells.len(),
{
    let n = cells.len() - 1;
    if i == n {
        assert(cells.update(i, c).drop_last() =~= cells.drop_last());
    } else {
        assert(cells.update(i, c).drop_last() =~= cells.drop_last().update(i, c));
        lemma_index_sum_update(cells.drop_last(), i, c);
    }
}

/// The sweep stride lies between 1 and `STRIDE_FLOOR + cols`.
proof fn lemma_stride_bounds(cols: nat)
    ensures
        1 <= stride_for(cols) <= cols + STRIDE_FLOOR,
{
    if cols >= 2 {
        lemma_first_coprime_bounds(cols, STRIDE_FLOOR as nat);
    }
}

proof fn lemma_first_coprime_bounds(cols: nat, s: nat)
    requires
        1 <= s,
    ensures
        1 <= first_coprime(cols, s) <= cols + STRIDE_FLOOR,
    decreases STRIDE_FLOOR + cols - s,
{
    if s < STRIDE_FLOOR + cols && gcd(s, cols) != 1 {
        lemma_first_coprime_bounds(cols, s + 1);
    }
}

/// The grains from `j` to the end are those of cell `j` and those after it.
proof fn lemma_suffix_grains_step(cells: Seq<u8>, j: int)
    requires
        0 <= j < cells.len(),
    ensures
        grain_count(cells.subrange(j, cells.len() as int)) == grain_count(
            cells.subrange(j + 1, cells.len() as int),
        ) + if cells[j] != 0 {
            1nat
        } else {
            0nat
        },
{
    broadcast use vstd::multiset::group_multiset_axioms;
    broadcast use vstd::seq_lib::to_multiset_len;
    let rest = cells.subrange(j + 1, cells.len() as int);
    assert(rest.insert(0, cells[j]) =~= cells.subrange(j, cells.len() as int));
    vstd::seq_lib::to_multiset_insert(rest, 0, cells[j]);
    assert(rest.to_multiset().count(0u8) <= rest.to_multiset().len());
}

/// A longer suffix holds at least as many grains.
proof fn lemma_suffix_grains_grow(cells: Seq<u8>, j: int, i: int)
    requires
        0 <= j <= i <= cells.len(),
    ensures
        grain_count(cells.subrange(j, cells.len() as int)) >= grain_count(
            cells.subrange(i, cells.len() as int),
        ),
    decreases i - j,
{
    if j < i {
        lemma_suffix_grains_step(cells, j);
        lemma_suffix_grains_grow(cells, j + 1, i);
    }
}

/// A sequence of empty cells holds no grains.
proof fn lemma_no_grains(cells: Seq<u8>)
    requires
        forall|i: int| 0 <= i < cells.len() ==> cells[i] == 0,
    ensures
        grain_count(cells) == 0,
    decreases cells.len(),
{
    broadcast use vstd::multiset::group_multiset_axioms;
    if cells.len() == 0 {
        broadcast use vstd::seq_lib::to_multiset_len;
        assert(cells.to_multiset().len() == 0);
    } else {
        let rest = cells.drop_last();
        lemma_no_grains(rest);
        assert(rest.push(cells.last()) =~= cells);
        to_multiset_build(rest, cells.last());
    }
}

/// No more grains than cells.
proof fn lemma_grains_bound(cells: Seq<u8>)
    ensures
        grain_count(cells) <= cells.len(),
        cells.to_multiset().count(0u8) <= cells.len(),
{
    broadcast use vstd::multiset::group_multiset_axioms;
    broadcast use vstd::seq_lib::to_multiset_len;
    assert(cells.to_multiset().count(0u8) <= cells.to_multiset().len());
}

/// Appending a cell adds one grain exactly when the cell is not empty.
proof fn lemma_grains_push(cells: Seq<u8>, c: u8)
    ensures
        grain_count(cells.push(c)) == grain_count(cells) + if c != 0 { 1nat } else { 0nat },
        grain_count(cells) <= cells.len(),
{
    broadcast use vstd::multiset::group_multiset_axioms;
    broadcast use vstd::seq_lib::to_multiset_len;
    to_multiset_build(cells, c);
    assert(cells.to_multiset().count(0u8) <= cells.to_multiset().len());
}

/// Overwriting one cell changes the grain count by what left and what came in.
proof fn lemma_grains_update(cells: Seq<u8>, i: int, c: u8)
    requires
        0 <= i < cells.len(),
    ensures
        grain_count(cells.update(i, c)) + (if cells[i] != 0 { 1nat } else { 0nat })
            == grain_count(cells) + (if c != 0 { 1nat } else { 0nat }),
{
    broadcast use vstd::multiset::group_multiset_axioms;
    broadcast use vstd::seq_lib::to_multiset_len;
    broadcast use vstd::seq_lib::to_multiset_contains;
    to_multiset_update(cells, i, c);
    assert(cells.to_multiset().count(cells[i]) > 0);
    assert(cells.to_multiset().count(0u8) <= cells.to_multiset().len());
    assert(cells.update(i, c).to_multiset().count(0u8) <= cells.update(i, c).to_multiset().len());
}

/// Draws the kind of a new grain.
fn grain_kind(rng: &mut Rng) -> (kind: u8)
    ensures
        final(rng)@ == advance(old(rng)@),
        kind == kind_of_roll(below_from(old(rng)@, 100)),
        1 <= kind <= 4,
{
    let roll = rng.below(100);
    if roll < 4 {
        4
    } else if roll < 11 {
        3
    } else if roll < 24 {
        2
    } else {
        1
    }
}

/// Euclid's algorithm.
fn gcd_exec(a: usize, b: usize) -> (r: usize)
    ensures
        r == gcd(a as nat, b as nat),
    decreases b,
{
    if b == 0 {
        a
    } else {
        gcd_exec(b, a % b)
    }
}

/// The first stride from `STRIDE_FLOOR` on that is coprime with `cols`.
pub fn sweep_stride(cols: usize) -> (s: usize)
    requires
        cols + STRIDE_FLOOR <= usize::MAX,
    ensures
        s == stride_for(cols as nat),
{
    if cols < 2 {
        return 1;
    }
    let mut s = STRIDE_FLOOR;
    while s < STRIDE_FLOOR + cols
        invariant
            STRIDE_FLOOR <= s <= STRIDE_FLOOR + cols,
            2 <= cols,
            cols + STRIDE_FLOOR <= usize::MAX,
            first_coprime(cols as nat, s as nat) == stride_for(cols as nat),
        decreases STRIDE_FLOOR + cols - s,
    {
        if gcd_exec(s, cols) == 1 {
            return s;
        }
        s = s + 1;
    }
    1
}

/// How much sand a 45° pile `height` rows tall covers, once the slopes hit the walls.
pub fn pile_area(cols: usize, height: usize) -> (area: usize)
    requires
        2 * height <= usize::MAX,
        2 * height <= cols ==> height * height <= usize::MAX,
        2 * height > cols ==> height * cols <= usize::MAX && cols * cols <= usize::MAX,
    ensures
        area == pile_area_spec(cols as nat, height as nat),
{
    if 2 * height <= cols {
        height * height
    } else {
        proof {
            assert(cols * cols / 4 <= height * cols) by (nonlinear_arith)
                requires 2 * height > cols;
        }
        height * cols - cols * cols / 4
    }
}

} // verus!
