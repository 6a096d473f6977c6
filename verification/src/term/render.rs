//! Turns frames into terminal output: two pixels to a cell as half blocks, only the
//! cells that changed since the last frame, colours set only when they change.
use vstd::prelude::*;

use crate::term::color::{ColorMode, Rgb, ansi256_of, to_ansi256};
use crate::term::frame::{Frame, FrameView};
use crate::text::{decimal, decimal_digits};

verus! {

/// What a terminal cell shows: its top pixel, its bottom pixel, both, or neither.
#[derive(Clone, Copy, PartialEq, Eq, Debug, Structural)]
pub enum Cell {
    Empty,
    Upper(Rgb),
    Lower(Rgb),
    Both(Rgb, Rgb),
}

/// The cell for a top and a bottom pixel.
pub open spec fn cell_of(top: Option<Rgb>, bottom: Option<Rgb>) -> Cell {
    match (top, bottom) {
        (None, None) => Cell::Empty,
        (Some(t), None) => Cell::Upper(t),
        (None, Some(b)) => Cell::Lower(b),
        (Some(t), Some(b)) => Cell::Both(t, b),
    }
}

impl Cell {
    fn of(top: Option<Rgb>, bottom: Option<Rgb>) -> (c: Self)
        ensures
            c == cell_of(top, bottom),
    {
        match (top, bottom) {
            (None, None) => Cell::Empty,
            (Some(t), None) => Cell::Upper(t),
            (None, Some(b)) => Cell::Lower(b),
            (Some(t), Some(b)) => Cell::Both(t, b),
        }
    }
}

/// The terminal's background colour as the pen last set it.
#[derive(Clone, Copy, PartialEq, Eq, Debug, Structural)]
pub enum Bg {
    Unknown,
    Default,
    Color(Rgb),
}

/// Where the cursor is and which colours are set, as far as the output so far tells.
pub struct Pen {
    pub cols: usize,
    pub mode: ColorMode,
    pub at: Option<(usize, usize)>,
    pub fg: Option<Rgb>,
    pub bg: Bg,
    pub painted: bool,
}

/// ESC `[`.
pub open spec fn csi() -> Seq<u8> {
    seq![0x1bu8, 0x5bu8]
}

/// Moves the cursor to column `x`, row `y` (both counted from 0).
pub open spec fn cursor_bytes(x: nat, y: nat) -> Seq<u8> {
    csi() + decimal(y + 1) + seq![0x3bu8] + decimal(x + 1) + seq![0x48u8]
}

/// Sets the foreground (`layer` 38) or background (`layer` 48) colour.
pub open spec fn colour_bytes(mode: ColorMode, layer: nat, c: Rgb) -> Seq<u8> {
    match mode {
        ColorMode::True => csi() + decimal(layer) + seq![0x3bu8, 0x32u8, 0x3bu8] + decimal(c.r as nat)
            + seq![0x3bu8] + decimal(c.g as nat) + seq![0x3bu8] + decimal(c.b as nat) + seq![0x6du8],
        ColorMode::Ansi256 => csi() + decimal(layer) + seq![0x3bu8, 0x35u8, 0x3bu8] + decimal(
            ansi256_of(c) as nat,
        ) + seq![0x6du8],
    }
}

/// Sets the default background.
pub open spec fn default_bg_bytes() -> Seq<u8> {
    csi() + seq![0x34u8, 0x39u8, 0x6du8]
}

/// Clears the screen.
pub open spec fn clear_bytes() -> Seq<u8> {
    csi() + seq![0x32u8, 0x4au8]
}

/// Resets all attributes.
pub open spec fn reset_bytes() -> Seq<u8> {
    csi() + seq![0x6du8]
}

/// `▀`, the upper half block.
pub open spec fn upper_bytes() -> Seq<u8> {
    seq![0xe2u8, 0x96u8, 0x80u8]
}

/// `▄`, the lower half block.
pub open spec fn lower_bytes() -> Seq<u8> {
    seq![0xe2u8, 0x96u8, 0x84u8]
}

/// A pen for a screen `cols` wide that knows nothing of the terminal yet.
pub open spec fn fresh_pen(cols: usize, mode: ColorMode) -> Pen {
    Pen { cols, mode, at: None, fg: None, bg: Bg::Unknown, painted: false }
}

/// Moving the pen to (`x`, `y`): nothing to write if it is there already.
pub open spec fn pen_move(p: Pen, x: usize, y: usize) -> (Pen, Seq<u8>) {
    if p.at == Some((x, y)) {
        (p, Seq::empty())
    } else {
        (Pen { at: Some((x, y)), ..p }, cursor_bytes(x as nat, y as nat))
    }
}

/// Setting the foreground colour: nothing to write if it is set already.
pub open spec fn pen_fg(p: Pen, c: Rgb) -> (Pen, Seq<u8>) {
    if p.fg == Some(c) {
        (p, Seq::empty())
    } else {
        (Pen { fg: Some(c), ..p }, colour_bytes(p.mode, 38, c))
    }
}

/// Setting the background: nothing to write if it is set already, or unknown.
pub open spec fn pen_bg(p: Pen, bg: Bg) -> (Pen, Seq<u8>) {
    if p.bg == bg {
        (p, Seq::empty())
    } else {
        match bg {
            Bg::Unknown => (p, Seq::empty()),
            Bg::Default => (Pen { bg, ..p }, default_bg_bytes()),
            Bg::Color(c) => (Pen { bg, ..p }, colour_bytes(p.mode, 48, c)),
        }
    }
}

/// Where the cursor is after writing one cell at `at`: one to the right, or unknown
/// after the last column, where terminals differ.
pub open spec fn advanced(at: Option<(usize, usize)>, cols: usize) -> Option<(usize, usize)> {
    match at {
        Some((x, y)) => if x + 1 < cols {
            Some(((x + 1) as usize, y))
        } else {
            None
        },
        None => None,
    }
}

/// The pen after writing a glyph.
pub open spec fn after_glyph(p: Pen) -> Pen {
    Pen { painted: true, at: advanced(p.at, p.cols), ..p }
}

/// Painting one cell where the pen is.
pub open spec fn pen_paint(p: Pen, cell: Cell) -> (Pen, Seq<u8>) {
    match cell {
        Cell::Empty => {
            let (p1, b1) = pen_bg(p, Bg::Default);
            (after_glyph(p1), b1 + seq![0x20u8])
        },
        Cell::Upper(t) => {
            let (p1, b1) = pen_fg(p, t);
            let (p2, b2) = pen_bg(p1, Bg::Default);
            (after_glyph(p2), b1 + b2 + upper_bytes())
        },
        Cell::Lower(b) => {
            let (p1, b1) = pen_fg(p, b);
            let (p2, b2) = pen_bg(p1, Bg::Default);
            (after_glyph(p2), b1 + b2 + lower_bytes())
        },
        Cell::Both(t, b) => {
            let (p1, b1) = pen_fg(p, t);
            let (p2, b2) = pen_bg(p1, Bg::Color(b));
            (after_glyph(p2), b1 + b2 + upper_bytes())
        },
    }
}

/// The first `n` cells of a screen `cols` wide: each that differs from what the screen
/// shows is moved to and painted.
pub open spec fn pen_pass(p: Pen, cur: Seq<Cell>, prev: Seq<Cell>, cols: nat, n: nat) -> (Pen, Seq<u8>)
    decreases n,
{
    if n == 0 {
        (p, Seq::empty())
    } else {
        let (q, out) = pen_pass(p, cur, prev, cols, (n - 1) as nat);
        let i = n - 1;
        if cur[i] == prev[i] {
            (q, out)
        } else {
            let (q1, b1) = pen_move(q, (i % (cols as int)) as usize, (i / (cols as int)) as usize);
            let (q2, b2) = pen_paint(q1, cur[i]);
            (q2, out + b1 + b2)
        }
    }
}

/// What closes a frame's output: a reset once anything was painted.
pub open spec fn finish_bytes(p: Pen) -> Seq<u8> {
    if p.painted {
        reset_bytes()
    } else {
        Seq::empty()
    }
}

/// The cells of a frame: each column's pixels paired from the top, two rows to a cell.
pub open spec fn frame_cells(f: FrameView) -> Seq<Cell> {
    let cols = f.width;
    let rows = f.height / 2;
    Seq::new(
        cols * rows,
        |i: int| cell_of(f.get(i % (cols as int), 2 * (i / (cols as int))), f.get(i % (cols as int), 2 * (i / (cols as int)) + 1)),
    )
}

/// What a renderer knows of the screen: its mode, its size in cells, and what it shows.
pub struct RendererView {
    pub mode: ColorMode,
    pub cols: nat,
    pub rows: nat,
    pub shown: Seq<Cell>,
}

/// What rendering `f` writes after `r`: a clear when the size changed, the cells that
/// changed, and a reset if anything was painted.
pub open spec fn render_output(r: RendererView, f: FrameView) -> Seq<u8> {
    let cols = f.width;
    let rows = f.height / 2;
    let fresh = cols != r.cols || rows != r.rows;
    let before = if fresh {
        Seq::new(cols * rows, |i: int| Cell::Empty)
    } else {
        r.shown
    };
    let (pen, painted) = pen_pass(fresh_pen(cols as usize, r.mode), frame_cells(f), before, cols, cols * rows);
    (if fresh {
        clear_bytes()
    } else {
        Seq::empty()
    }) + painted + finish_bytes(pen)
}

fn push_all(out: &mut Vec<u8>, bytes: Vec<u8>)
    ensures
        final(out)@ == old(out)@ + bytes@,
{
    let mut more = bytes;
    out.append(&mut more);
}

fn csi_exec() -> (v: Vec<u8>)
    ensures
        v@ == csi(),
{
    let mut v = Vec::new();
    v.push(0x1b);
    v.push(0x5b);
    assert(v@ =~= csi());
    v
}

/// Appends `decimal(n)`.
fn push_decimal(out: &mut Vec<u8>, n: u64)
    ensures
        final(out)@ == old(out)@ + decimal(n as nat),
{
    push_all(out, decimal_digits(n));
}

fn push_colour(out: &mut Vec<u8>, mode: ColorMode, layer: u64, c: Rgb)
    ensures
        final(out)@ == old(out)@ + colour_bytes(mode, layer as nat, c),
{
    let ghost start = out@;
    push_all(out, csi_exec());
    push_decimal(out, layer);
    match mode {
        ColorMode::True => {
            out.push(0x3b);
            out.push(0x32);
            out.push(0x3b);
            push_decimal(out, c.r as u64);
            out.push(0x3b);
            push_decimal(out, c.g as u64);
            out.push(0x3b);
            push_decimal(out, c.b as u64);
            out.push(0x6d);
        },
        ColorMode::Ansi256 => {
            out.push(0x3b);
            out.push(0x35);
            out.push(0x3b);
            push_decimal(out, to_ansi256(c) as u64);
            out.push(0x6d);
        },
    }
    assert(out@ =~= start + colour_bytes(mode, layer as nat, c));
}

impl Pen {
    fn new(cols: usize, mode: ColorMode) -> (p: Self)
        ensures
            p == fresh_pen(cols, mode),
    {
        Pen { cols, mode, at: None, fg: None, bg: Bg::Unknown, painted: false }
    }

    fn move_to(&mut self, out: &mut Vec<u8>, x: usize, y: usize)
        requires
            x < usize::MAX,
            y < usize::MAX,
        ensures
            (*final(self), final(out)@) == ({
                let (p, b) = pen_move(*old(self), x, y);
                (p, old(out)@ + b)
            }),
    {
        if self.at != Some((x, y)) {
            let ghost start = out@;
            push_all(out, csi_exec());
            push_decimal(out, (y + 1) as u64);
            out.push(0x3b);
            push_decimal(out, (x + 1) as u64);
            out.push(0x48);
            self.at = Some((x, y));
            assert(out@ =~= start + cursor_bytes(x as nat, y as nat));
        } else {
            assert(out@ =~= old(out)@ + Seq::<u8>::empty());
        }
    }

    fn set_fg(&mut self, out: &mut Vec<u8>, c: Rgb)
        ensures
            (*final(self), final(out)@) == ({
                let (p, b) = pen_fg(*old(self), c);
                (p, old(out)@ + b)
            }),
    {
        if self.fg == Some(c) {
            assert(out@ =~= old(out)@ + Seq::<u8>::empty());
            return;
        }
        push_colour(out, self.mode, 38, c);
        self.fg = Some(c);
    }

    fn set_bg(&mut self, out: &mut Vec<u8>, bg: Bg)
        ensures
            (*final(self), final(out)@) == ({
                let (p, b) = pen_bg(*old(self), bg);
                (p, old(out)@ + b)
            }),
    {
        if self.bg == bg {
            assert(out@ =~= old(out)@ + Seq::<u8>::empty());
            return;
        }
        match bg {
            Bg::Unknown => {
                assert(out@ =~= old(out)@ + Seq::<u8>::empty());
                return;
            },
            Bg::Default => {
                push_all(out, csi_exec());
                out.push(0x34);
                out.push(0x39);
                out.push(0x6d);
                assert(out@ =~= old(out)@ + default_bg_bytes());
            },
            Bg::Color(c) => {
                push_colour(out, self.mode, 48, c);
            },
        }
        self.bg = bg;
    }

    fn advance(&mut self)
        ensures
            *final(self) == (Pen { at: advanced(old(self).at, old(self).cols), ..*old(self) }),
    {
        self.at = match self.at {
            Some((x, y)) => if self.cols > 0 && x < self.cols - 1 {
                Some((x + 1, y))
            } else {
                None
            },
            None => None,
        };
    }

    fn glyph(&mut self, out: &mut Vec<u8>, lower: bool, space: bool)
        ensures
            *final(self) == after_glyph(*old(self)),
            final(out)@ == old(out)@ + (if space {
                seq![0x20u8]
            } else if lower {
                lower_bytes()
            } else {
                upper_bytes()
            }),
    {
        if space {
            out.push(0x20);
        } else {
            out.push(0xe2);
            out.push(0x96);
            out.push(if lower {
                0x84
            } else {
                0x80
            });
        }
        proof {
            if space {
                assert(out@ =~= old(out)@ + seq![0x20u8]);
            } else if lower {
                assert(out@ =~= old(out)@ + lower_bytes());
            } else {
                assert(out@ =~= old(out)@ + upper_bytes());
            }
        }
        self.painted = true;
        self.advance();
    }

    fn paint(&mut self, out: &mut Vec<u8>, cell: Cell)
        ensures
            (*final(self), final(out)@) == ({
                let (p, b) = pen_paint(*old(self), cell);
                (p, old(out)@ + b)
            }),
    {
        let ghost start = out@;
        match cell {
            Cell::Empty => {
                self.set_bg(out, Bg::Default);
                self.glyph(out, false, true);
            },
            Cell::Upper(t) => {
                self.set_fg(out, t);
                self.set_bg(out, Bg::Default);
                self.glyph(out, false, false);
            },
            Cell::Lower(b) => {
                self.set_fg(out, b);
                self.set_bg(out, Bg::Default);
                self.glyph(out, true, false);
            },
            Cell::Both(t, b) => {
                self.set_fg(out, t);
                self.set_bg(out, Bg::Color(b));
                self.glyph(out, false, false);
            },
        }
        proof {
            let (p, b) = pen_paint(*old(self), cell);
            assert(out@ =~= start + b);
        }
    }

    fn finish(&mut self, out: &mut Vec<u8>)
        ensures
            final(out)@ == old(out)@ + finish_bytes(*old(self)),
            *final(self) == *old(self),
    {
        if self.painted {
            push_all(out, csi_exec());
            out.push(0x6d);
            assert(out@ =~= old(out)@ + reset_bytes());
        } else {
            assert(out@ =~= old(out)@ + Seq::<u8>::empty());
        }
    }
}

pub struct Renderer {
    mode: ColorMode,
    prev: Vec<Cell>,
    cur: Vec<Cell>,
    cols: usize,
    rows: usize,
}

impl View for Renderer {
    type V = RendererView;

    closed spec fn view(&self) -> RendererView {
        RendererView { mode: self.mode, cols: self.cols as nat, rows: self.rows as nat, shown: self.prev@ }
    }
}

fn empty_cells(n: usize) -> (v: Vec<Cell>)
    ensures
        v@ == Seq::new(n as nat, |i: int| Cell::Empty),
{
    let mut v: Vec<Cell> = Vec::new();
    let mut i: usize = 0;
    while i < n
        invariant
            i <= n,
            v@ == Seq::new(i as nat, |j: int| Cell::Empty),
        decreases n - i,
    {
        v.push(Cell::Empty);
        i = i + 1;
    }
    v
}

impl Renderer {
    /// The renderer's invariant: its two buffers cover its size.
    pub closed spec fn wf(&self) -> bool {
        &&& self.prev@.len() == self.cols * self.rows
        &&& self.cur@.len() == self.cols * self.rows
    }

    pub fn new(mode: ColorMode) -> (r: Self)
        ensures
            r.wf(),
            r@ == (RendererView { mode, cols: 0, rows: 0, shown: Seq::empty() }),
    {
        Renderer { mode, prev: Vec::new(), cur: Vec::new(), cols: 0, rows: 0 }
    }

    /// Writes to `out` what brings the screen from the last frame to `frame`.
    #[verifier::rlimit(40)]
    #[verifier::spinoff_prover]
    pub fn render(&mut self, frame: &Frame, out: &mut Vec<u8>)
        requires
            old(self).wf(),
            frame.wf(),
        ensures
            final(self).wf(),
            final(self)@.mode == old(self)@.mode,
            final(self)@.cols == frame@.width,
            final(self)@.rows == frame@.height / 2,
            final(self)@.shown == frame_cells(frame@),
            final(out)@ == old(out)@ + render_output(old(self)@, frame@),
    {
        let ghost start = out@;
        let ghost before_view = self@;
        let cols = frame.width();
        let rows = frame.height() / 2;
        proof {
            assert(cols * rows <= cols * frame@.height) by (nonlinear_arith)
                requires rows == frame@.height / 2;
            frame.lemma_size_fits();
        }
        let n = cols * rows;
        let fresh = cols != self.cols || rows != self.rows;
        if fresh {
            self.cols = cols;
            self.rows = rows;
            self.prev = empty_cells(n);
            self.cur = empty_cells(n);
            push_all(out, csi_exec());
            out.push(0x32);
            out.push(0x4a);
            assert(out@ =~= start + clear_bytes());
        } else {
            assert(out@ =~= start + Seq::<u8>::empty());
        }
        let ghost before = self.prev@;
        let ghost cells = frame_cells(frame@);
        let mut i: usize = 0;
        while i < n
            invariant
                i <= n,
                n == cols * rows,
                cols == frame@.width,
                rows == frame@.height / 2,
                frame@.height <= usize::MAX,
                frame.wf(),
                self.cols == cols,
                self.rows == rows,
                self.mode == old(self).mode,
                self.prev@ == before,
                self.prev@.len() == n,
                self.cur@.len() == n,
                cells == frame_cells(frame@),
                forall|j: int| 0 <= j < i ==> self.cur@[j] == cells[j],
            decreases n - i,
        {
            let x = i % cols;
            let y = i / cols;
            proof {
                assert(y < rows) by (nonlinear_arith)
                    requires i < cols * rows, y == i / cols, cols > 0;
                assert(y * 2 + 1 < frame@.height);
            }
            let c = Cell::of(frame.get(x, y * 2), frame.get(x, y * 2 + 1));
            self.cur.set(i, c);
            i = i + 1;
        }
        proof {
            assert(self.cur@ =~= cells);
        }
        let mut pen = Pen::new(cols, self.mode);
        let ghost painted_start = out@;
        i = 0;
        while i < n
            invariant
                i <= n,
                n == cols * rows,
                cols == frame@.width,
                self.prev@ == before,
                self.cur@ == cells,
                before.len() == n,
                cells.len() == n,
                (pen, out@) == ({
                    let (p, b) = pen_pass(fresh_pen(cols, self.mode), cells, before, cols as nat, i as nat);
                    (p, painted_start + b)
                }),
            decreases n - i,
        {
            if self.cur[i] != self.prev[i] {
                proof {
                    assert(i / cols <= i) by (nonlinear_arith)
                        requires cols > 0;
                    assert(i % cols < cols) by (nonlinear_arith)
                        requires cols > 0;
                }
                pen.move_to(out, i % cols, i / cols);
                pen.paint(out, self.cur[i]);
            }
            proof {
                let (p, b) = pen_pass(fresh_pen(cols, self.mode), cells, before, cols as nat, i as nat);
                let (p2, b2) = pen_pass(fresh_pen(cols, self.mode), cells, before, cols as nat, (i + 1) as nat);
                assert(out@ =~= painted_start + b2);
            }
            i = i + 1;
        }
        pen.finish(out);
        std::mem::swap(&mut self.prev, &mut self.cur);
        proof {
            assert(out@ =~= old(out)@ + render_output(before_view, frame@));
        }
    }
}

/// Rendering the frame the screen already shows writes nothing.
pub proof fn lemma_unchanged_frame_is_silent(r: RendererView, f: FrameView)
    requires
        r.cols == f.width,
        r.rows == f.height / 2,
        r.shown == frame_cells(f),
    ensures
        render_output(r, f) == Seq::<u8>::empty(),
{
    let n = f.width * (f.height / 2);
    lemma_pass_over_same_cells(fresh_pen(f.width as usize, r.mode), r.shown, f.width, n);
    assert(render_output(r, f) =~= Seq::<u8>::empty());
}

/// A pass over cells that all match what is shown moves nothing and writes nothing.
pub proof fn lemma_pass_over_same_cells(p: Pen, cells: Seq<Cell>, cols: nat, n: nat)
    ensures
        pen_pass(p, cells, cells, cols, n) == (p, Seq::<u8>::empty()),
    decreases n,
{
    if n > 0 {
        lemma_pass_over_same_cells(p, cells, cols, (n - 1) as nat);
    }
}

/// The indices among the first `n` cells where `cur` differs from `prev`, in order.
pub open spec fn changed_indices(cur: Seq<Cell>, prev: Seq<Cell>, n: nat) -> Seq<int>
    decreases n,
{
    if n == 0 {
        Seq::empty()
    } else {
        let rest = changed_indices(cur, prev, (n - 1) as nat);
        if cur[n - 1] == prev[n - 1] {
            rest
        } else {
            rest.push(n - 1)
        }
    }
}

/// For each index in `idx` in turn, the pen moves to that cell of a screen `cols` wide
/// and paints it.
pub open spec fn strokes(p: Pen, cur: Seq<Cell>, cols: nat, idx: Seq<int>) -> (Pen, Seq<u8>)
    decreases idx.len(),
{
    if idx.len() == 0 {
        (p, Seq::empty())
    } else {
        let (q, out) = strokes(p, cur, cols, idx.drop_last());
        let i = idx.last();
        let (q1, b1) = pen_move(q, (i % (cols as int)) as usize, (i / (cols as int)) as usize);
        let (q2, b2) = pen_paint(q1, cur[i]);
        (q2, out + b1 + b2)
    }
}

/// A pass over the first `n` cells is the strokes of the cells that changed.
proof fn lemma_pass_is_strokes(p: Pen, cur: Seq<Cell>, prev: Seq<Cell>, cols: nat, n: nat)
    ensures
        pen_pass(p, cur, prev, cols, n) == strokes(p, cur, cols, changed_indices(cur, prev, n)),
        forall|k: int|
            0 <= k < changed_indices(cur, prev, n).len() ==> 0 <= #[trigger] changed_indices(cur, prev, n)[k] < n
                && cur[changed_indices(cur, prev, n)[k]] != prev[changed_indices(cur, prev, n)[k]],
        forall|i: int| 0 <= i < n && cur[i] != prev[i] ==> #[trigger] changed_indices(cur, prev, n).contains(i),
        forall|k1: int, k2: int|
            0 <= k1 < k2 < changed_indices(cur, prev, n).len() ==> #[trigger] changed_indices(cur, prev, n)[k1]
                < #[trigger] changed_indices(cur, prev, n)[k2],
    decreases n,
{
    if n > 0 {
        let rest = changed_indices(cur, prev, (n - 1) as nat);
        lemma_pass_is_strokes(p, cur, prev, cols, (n - 1) as nat);
        if cur[n - 1] != prev[n - 1] {
            assert(rest.push(n - 1).drop_last() =~= rest);
            assert forall|i: int| 0 <= i < n && cur[i] != prev[i] implies #[trigger] changed_indices(
                cur,
                prev,
                n,
            ).contains(i) by {
                if i < n - 1 {
                    assert(rest.contains(i));
                    let k = choose|k: int| 0 <= k < rest.len() && rest[k] == i;
                    assert(changed_indices(cur, prev, n)[k] == i);
                } else {
                    assert(changed_indices(cur, prev, n)[rest.len() as int] == i);
                }
            }
        }
    }
}

/// Strokes over at least one cell write something: every paint writes its glyph.
proof fn lemma_strokes_write(p: Pen, cur: Seq<Cell>, cols: nat, idx: Seq<int>)
    ensures
        idx.len() > 0 <==> strokes(p, cur, cols, idx).1.len() > 0,
        idx.len() == 0 ==> strokes(p, cur, cols, idx).0 == p,
    decreases idx.len(),
{
    if idx.len() > 0 {
        lemma_strokes_write(p, cur, cols, idx.drop_last());
    }
}

/// A repeat render of a frame the same size as the last writes no clear: it writes, in
/// order and once each, a cursor move (where the cursor is not already there) and the
/// paint of every cell that changed and of no other, then a reset if it painted anything.
/// When no cell changed it writes nothing at all.
pub proof fn lemma_repeat_render_paints_changes(r: RendererView, f: FrameView)
    requires
        r.cols == f.width,
        r.rows == f.height / 2,
    ensures
        ({
            let n = f.width * (f.height / 2);
            let idx = changed_indices(frame_cells(f), r.shown, n);
            let (pen, bytes) = strokes(fresh_pen(f.width as usize, r.mode), frame_cells(f), f.width, idx);
            &&& render_output(r, f) == bytes + finish_bytes(pen)
            &&& (render_output(r, f).len() == 0 <==> idx.len() == 0)
            &&& forall|k: int| 0 <= k < idx.len() ==> 0 <= #[trigger] idx[k] < n && frame_cells(f)[idx[k]]
                != r.shown[idx[k]]
            &&& forall|i: int| 0 <= i < n && frame_cells(f)[i] != r.shown[i] ==> #[trigger] idx.contains(i)
            &&& forall|k1: int, k2: int| 0 <= k1 < k2 < idx.len() ==> #[trigger] idx[k1] < #[trigger] idx[k2]
        }),
{
    let n = f.width * (f.height / 2);
    let cur = frame_cells(f);
    let p = fresh_pen(f.width as usize, r.mode);
    let idx = changed_indices(cur, r.shown, n);
    lemma_pass_is_strokes(p, cur, r.shown, f.width, n);
    lemma_strokes_write(p, cur, f.width, idx);
    let (pen, bytes) = strokes(p, cur, f.width, idx);
    assert(render_output(r, f) =~= bytes + finish_bytes(pen));
}

/// What the screen shows after each cell in `idx`, in turn, is painted as `cur` has it,
/// over a screen that showed `shown`.
pub open spec fn repainted(shown: Seq<Cell>, cur: Seq<Cell>, idx: Seq<int>) -> Seq<Cell>
    decreases idx.len(),
{
    if idx.len() == 0 {
        shown
    } else {
        repainted(shown, cur, idx.drop_last()).update(idx.last(), cur[idx.last()])
    }
}

/// The bytes of the glyph a cell is drawn with: a space, or the upper or lower half block.
pub open spec fn glyph_bytes(cell: Cell) -> Seq<u8> {
    match cell {
        Cell::Empty => seq![0x20u8],
        Cell::Lower(_) => lower_bytes(),
        _ => upper_bytes(),
    }
}

/// The background a cell is drawn on: its bottom pixel's colour when both halves are
/// set, the terminal's own otherwise.
pub open spec fn cell_bg(cell: Cell) -> Bg {
    match cell {
        Cell::Both(_, b) => Bg::Color(b),
        _ => Bg::Default,
    }
}

/// The colour a cell's glyph is drawn in, if it has one.
pub open spec fn cell_fg(cell: Cell) -> Option<Rgb> {
    match cell {
        Cell::Empty => None,
        Cell::Upper(t) => Some(t),
        Cell::Lower(b) => Some(b),
        Cell::Both(t, _) => Some(t),
    }
}

/// Painting a cell sets the glyph's colour (unless the pen already has it), then the
/// background (unless the pen already has it), then writes the glyph; afterwards the
/// pen holds the cell's colours.
pub proof fn lemma_paint_draws(p: Pen, cell: Cell)
    ensures
        ({
            let (q, bytes) = pen_paint(p, cell);
            let fg = match cell_fg(cell) {
                Some(c) => if p.fg == Some(c) { Seq::<u8>::empty() } else { colour_bytes(p.mode, 38, c) },
                None => Seq::<u8>::empty(),
            };
            let bg = if p.bg == cell_bg(cell) {
                Seq::<u8>::empty()
            } else {
                match cell_bg(cell) {
                    Bg::Color(c) => colour_bytes(p.mode, 48, c),
                    _ => default_bg_bytes(),
                }
            };
            &&& bytes == fg + bg + glyph_bytes(cell)
            &&& q.bg == cell_bg(cell)
            &&& (cell_fg(cell) matches Some(c) ==> q.fg == Some(c))
            &&& q.painted
            &&& q.mode == p.mode
            &&& q.cols == p.cols
        }),
{
    match cell {
        Cell::Empty => {
            assert(pen_paint(p, cell).1 =~= Seq::<u8>::empty() + pen_bg(p, Bg::Default).1 + seq![0x20u8]);
        },
        _ => {},
    }
}

/// Painting the cells that changed, in order, over what the screen showed, makes it show
/// the new cells.
proof fn lemma_repaint_changes(shown: Seq<Cell>, cur: Seq<Cell>, n: nat, m: nat)
    requires
        shown.len() == n,
        cur.len() == n,
        m <= n,
    ensures
        repainted(shown, cur, changed_indices(cur, shown, m)).len() == n,
        forall|i: int| 0 <= i < m ==> #[trigger] repainted(shown, cur, changed_indices(cur, shown, m))[i] == cur[i],
        forall|i: int| m <= i < n ==> #[trigger] repainted(shown, cur, changed_indices(cur, shown, m))[i] == shown[i],
    decreases m,
{
    if m > 0 {
        lemma_repaint_changes(shown, cur, n, (m - 1) as nat);
        let rest = changed_indices(cur, shown, (m - 1) as nat);
        if cur[m - 1] != shown[m - 1] {
            assert(rest.push(m - 1).drop_last() =~= rest);
        }
    }
}

/// A render brings the screen to the frame. Before it, the terminal shows what the
/// renderer last drew, or, when the size changed (as on the first frame), a cleared
/// screen after the clear it writes first. Its bytes are then the strokes of the cells
/// that differ from that, each drawn as `lemma_paint_draws` says, and painting those cells
/// over it gives exactly the frame's cells, which is also what the renderer keeps as
/// shown. So after any run of renders the terminal shows the last frame.
pub proof fn lemma_render_shows_frame(r: RendererView, f: FrameView)
    requires
        r.shown.len() == r.cols * r.rows,
    ensures
        ({
            let cols = f.width;
            let n = cols * (f.height / 2);
            let fresh = cols != r.cols || f.height / 2 != r.rows;
            let before = if fresh { Seq::new(n, |i: int| Cell::Empty) } else { r.shown };
            let cur = frame_cells(f);
            let idx = changed_indices(cur, before, n);
            let (pen, bytes) = strokes(fresh_pen(cols as usize, r.mode), cur, cols, idx);
            &&& render_output(r, f) == (if fresh { clear_bytes() } else { Seq::<u8>::empty() }) + bytes
                + finish_bytes(pen)
            &&& repainted(before, cur, idx) == cur
        }),
{
    let cols = f.width;
    let n = cols * (f.height / 2);
    let fresh = cols != r.cols || f.height / 2 != r.rows;
    let before = if fresh { Seq::new(n, |i: int| Cell::Empty) } else { r.shown };
    let cur = frame_cells(f);
    let p = fresh_pen(cols as usize, r.mode);
    lemma_pass_is_strokes(p, cur, before, cols, n);
    lemma_repaint_changes(before, cur, n, n);
    assert(repainted(before, cur, changed_indices(cur, before, n)) =~= cur);
}

} // verus!
