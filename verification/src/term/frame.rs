//! A frame: the colours to show, one per pixel, two pixels to a terminal cell.
use vstd::prelude::*;

use crate::term::color::Rgb;

verus! {

/// What a frame holds: its size and its pixels row by row, `None` where nothing is drawn.
pub struct FrameView {
    pub width: nat,
    pub height: nat,
    pub px: Seq<Option<Rgb>>,
}

impl FrameView {
    /// The pixel at (`x`, `y`); nothing outside the frame.
    pub open spec fn get(self, x: int, y: int) -> Option<Rgb> {
        if 0 <= x < self.width && 0 <= y < self.height {
            self.px[y * self.width + x]
        } else {
            None
        }
    }
}

pub struct Frame {
    width: usize,
    height: usize,
    px: Vec<Option<Rgb>>,
}

impl View for Frame {
    type V = FrameView;

    closed spec fn view(&self) -> FrameView {
        FrameView { width: self.width as nat, height: self.height as nat, px: self.px@ }
    }
}

proof fn lemma_pixel_index(width: int, height: int, x: int, y: int)
    requires
        0 <= x < width,
        0 <= y < height,
    ensures
        0 <= y * width + x < width * height,
{
    assert(0 <= y * width) by (nonlinear_arith)
        requires 0 <= y, 0 <= x < width;
    assert(y * width + x < width * height) by (nonlinear_arith)
        requires 0 <= x < width, 0 <= y < height;
}

proof fn lemma_pixel_index_distinct(width: int, x1: int, y1: int, x2: int, y2: int)
    requires
        0 <= x1 < width,
        0 <= x2 < width,
        0 <= y1,
        0 <= y2,
        !(x1 == x2 && y1 == y2),
    ensures
        y1 * width + x1 != y2 * width + x2,
{
    if y1 == y2 {
    } else if y1 < y2 {
        assert(y1 * width + width <= y2 * width) by (nonlinear_arith)
            requires y1 < y2, width > 0;
    } else {
        assert(y2 * width + width <= y1 * width) by (nonlinear_arith)
            requires y2 < y1, width > 0;
    }
}

impl Frame {
    /// The frame's invariant: its pixels fill its size.
    pub closed spec fn wf(&self) -> bool {
        &&& self.px@.len() == self.width * self.height
        &&& self.px@.len() <= usize::MAX
    }

    /// A frame's size is the length of its pixels.
    pub proof fn lemma_size_fits(&self)
        requires
            self.wf(),
        ensures
            self@.width * self@.height == self@.px.len(),
            self@.width * self@.height <= usize::MAX,
    {
    }

    pub fn new(width: usize, height: usize) -> (f: Self)
        requires
            width * height <= usize::MAX,
        ensures
            f.wf(),
            f@.width == width,
            f@.height == height,
            f@.px == Seq::new((width * height) as nat, |i: int| None::<Rgb>),
    {
        let n = width * height;
        let mut px: Vec<Option<Rgb>> = Vec::new();
        let mut i: usize = 0;
        while i < n
            invariant
                i <= n,
                px@ == Seq::new(i as nat, |j: int| None::<Rgb>),
            decreases n - i,
        {
            px.push(None);
            i = i + 1;
        }
        Frame { width, height, px }
    }

    pub fn width(&self) -> (w: usize)
        ensures
            w == self@.width,
    {
        self.width
    }

    pub fn height(&self) -> (h: usize)
        ensures
            h == self@.height,
    {
        self.height
    }

    /// Draws nothing anywhere.
    pub fn clear(&mut self)
        requires
            old(self).wf(),
        ensures
            final(self).wf(),
            final(self)@.width == old(self)@.width,
            final(self)@.height == old(self)@.height,
            final(self)@.px == Seq::new(old(self)@.px.len(), |i: int| None::<Rgb>),
            forall|fx: int, fy: int| #[trigger] final(self)@.get(fx, fy) is None,
    {
        let mut i: usize = 0;
        while i < self.px.len()
            invariant
                i <= self.px@.len(),
                self.px@.len() == old(self).px@.len(),
                self.width == old(self).width,
                self.height == old(self).height,
                forall|j: int| 0 <= j < i ==> self.px@[j] is None,
            decreases self.px@.len() - i,
        {
            self.px.set(i, None);
            i = i + 1;
        }
        assert(self.px@ =~= Seq::new(old(self)@.px.len(), |i: int| None::<Rgb>));
        assert forall|fx: int, fy: int| #[trigger] self@.get(fx, fy) is None by {
            if 0 <= fx < self.width && 0 <= fy < self.height {
                lemma_pixel_index(self.width as int, self.height as int, fx, fy);
            }
        }
    }

    /// Draws `c` at (`x`, `y`); outside the frame, nothing.
    pub fn set(&mut self, x: usize, y: usize, c: Rgb)
        requires
            old(self).wf(),
        ensures
            final(self).wf(),
            final(self)@.width == old(self)@.width,
            final(self)@.height == old(self)@.height,
            final(self)@.px == if x < old(self)@.width && y < old(self)@.height {
                old(self)@.px.update(y * old(self)@.width + x, Some(c))
            } else {
                old(self)@.px
            },
            forall|fx: int, fy: int|
                #[trigger] final(self)@.get(fx, fy) == if fx == x && fy == y && x < old(self)@.width
                    && y < old(self)@.height {
                    Some(c)
                } else {
                    old(self)@.get(fx, fy)
                },
    {
        let n = self.px.len();
        if x < self.width && y < self.height {
            proof {
                lemma_pixel_index(self.width as int, self.height as int, x as int, y as int);
            }
            self.px.set(y * self.width + x, Some(c));
            proof {
                assert forall|fx: int, fy: int| #[trigger] self@.get(fx, fy) == if fx == x && fy
                    == y {
                    Some(c)
                } else {
                    old(self)@.get(fx, fy)
                } by {
                    if 0 <= fx < self.width && 0 <= fy < self.height && !(fx == x && fy == y) {
                        lemma_pixel_index(self.width as int, self.height as int, fx, fy);
                        lemma_pixel_index_distinct(self.width as int, fx, fy, x as int, y as int);
                    }
                }
            }
        }
    }

    /// What is drawn at (`x`, `y`).
    pub fn get(&self, x: usize, y: usize) -> (c: Option<Rgb>)
        requires
            self.wf(),
        ensures
            c == self@.get(x as int, y as int),
    {
        let n = self.px.len();
        if x < self.width && y < self.height {
            proof {
                lemma_pixel_index(self.width as int, self.height as int, x as int, y as int);
            }
            self.px[y * self.width + x]
        } else {
            None
        }
    }
}

} // verus!
