//! A rectangular RGB pixel buffer, stored row-major.
//!
//! Every render and every composite canvas is a `Pixmap`: a `width` x
//! `height` grid of [`Color`] values, with the pixel at `(x, y)` stored at
//! index `y * width + x`.

use crate::color::Color;
use vstd::prelude::*;

verus! {

/// A `width` x `height` pixel buffer with row-major storage.
#[derive(PartialEq, Eq, Debug)]
pub struct Pixmap {
    pub width: u32,
    pub height: u32,
    pub data: Vec<Color>,
}

/// The pixel at `(x, y)` lies at row-major index `y * w + x`, which stays
/// below `w * h` for in-range coordinates.
pub proof fn lemma_row_major_bound(x: int, y: int, w: int, h: int)
    requires
        0 <= x < w,
        0 <= y < h,
    ensures
        0 <= y * w + x < w * h,
{
    assert(0 <= y * w + x < w * h) by (nonlinear_arith)
        requires
            0 <= x < w,
            0 <= y < h,
    {}
}

/// Distinct in-range coordinates have distinct row-major indices.
pub proof fn lemma_row_major_injective(x1: int, y1: int, x2: int, y2: int, w: int)
    requires
        0 <= x1 < w,
        0 <= x2 < w,
        0 <= y1,
        0 <= y2,
        y1 * w + x1 == y2 * w + x2,
    ensures
        x1 == x2,
        y1 == y2,
{
    assert(x1 == x2 && y1 == y2) by (nonlinear_arith)
        requires
            0 <= x1 < w,
            0 <= x2 < w,
            0 <= y1,
            0 <= y2,
            y1 * w + x1 == y2 * w + x2,
    {}
}

impl Pixmap {
    /// Well-formedness: the storage holds exactly one color per grid cell.
    pub open spec fn wf(self) -> bool {
        &&& self.data@.len() == self.width as int * self.height as int
        &&& self.width as int * self.height as int <= usize::MAX as int
    }

    /// The color of the pixel at `(x, y)`.
    pub open spec fn pix(self, x: int, y: int) -> Color
        recommends
            self.wf(),
            0 <= x < self.width,
            0 <= y < self.height,
    {
        self.data@[y * self.width as int + x]
    }

    /// Two pixmaps show the same image: equal dimensions and equal pixels.
    pub open spec fn same_image(self, other: Pixmap) -> bool {
        &&& self.width == other.width
        &&& self.height == other.height
        &&& forall|x: int, y: int|
            0 <= x < self.width && 0 <= y < self.height ==> self.pix(x, y) == other.pix(x, y)
    }

    /// Allocate a `width` x `height` buffer with every pixel set to `fill`.
    pub fn new(width: u32, height: u32, fill: Color) -> (r: Pixmap)
        requires
            width as int * height as int <= usize::MAX as int,
        ensures
            r.wf(),
            r.width == width,
            r.height == height,
            forall|x: int, y: int| 0 <= x < width && 0 <= y < height ==> r.pix(x, y) == fill,
    {
        let n: usize = (width as usize) * (height as usize);
        let mut data: Vec<Color> = Vec::new();
        let mut i: usize = 0;
        while i < n
            invariant
                i <= n,
                data@.len() == i,
                forall|k: int| 0 <= k < i ==> data@[k] == fill,
            decreases n - i,
        {
            data.push(fill);
            i = i + 1;
        }
        let r = Pixmap { width, height, data };
        proof {
            assert forall|x: int, y: int|
                0 <= x < width && 0 <= y < height implies r.pix(x, y) == fill by {
                lemma_row_major_bound(x, y, width as int, height as int);
            }
        }
        r
    }

    /// Read the pixel at `(x, y)`.
    pub fn get(&self, x: u32, y: u32) -> (r: Color)
        requires
            self.wf(),
            x < self.width,
            y < self.height,
        ensures
            r == self.pix(x as int, y as int),
    {
        proof {
            lemma_row_major_bound(x as int, y as int, self.width as int, self.height as int);
        }
        let i: usize = (y as usize) * (self.width as usize) + (x as usize);
        self.data[i]
    }

    /// Overwrite the pixel at `(x, y)` with `c`; every other pixel keeps its
    /// color.
    pub fn set(&mut self, x: u32, y: u32, c: Color)
        requires
            old(self).wf(),
            x < old(self).width,
            y < old(self).height,
        ensures
            final (self).wf(),
            final (self).width == old(self).width,
            final (self).height == old(self).height,
            final (self).pix(x as int, y as int) == c,
            forall|x2: int, y2: int|
                0 <= x2 < old(self).width && 0 <= y2 < old(self).height && !(x2 == x as int && y2
                    == y as int) ==> final (self).pix(x2, y2) == old(self).pix(x2, y2),
    {
        proof {
            lemma_row_major_bound(x as int, y as int, self.width as int, self.height as int);
        }
        let i: usize = (y as usize) * (self.width as usize) + (x as usize);
        self.data.set(i, c);
        proof {
            assert forall|x2: int, y2: int|
                0 <= x2 < self.width && 0 <= y2 < self.height && !(x2 == x as int && y2
                    == y as int) implies self.pix(x2, y2) == old(self).pix(x2, y2) by {
                lemma_row_major_bound(x2, y2, self.width as int, self.height as int);
                if y2 * self.width as int + x2 == y as int * self.width as int + x as int {
                    lemma_row_major_injective(
                        x2,
                        y2,
                        x as int,
                        y as int,
                        self.width as int,
                    );
                }
            }
        }
    }

    /// Copy the whole of `tile` into this buffer with its top-left corner at
    /// `(x0, y0)`; pixels outside the copied rectangle keep their color.
    pub fn copy_from(&mut self, tile: &Pixmap, x0: u32, y0: u32)
        requires
            old(self).wf(),
            tile.wf(),
            x0 + tile.width <= old(self).width,
            y0 + tile.height <= old(self).height,
        ensures
            final (self).wf(),
            final (self).width == old(self).width,
            final (self).height == old(self).height,
            forall|dx: int, dy: int|
                0 <= dx < tile.width && 0 <= dy < tile.height ==> final (self).pix(
                    x0 + dx,
                    y0 + dy,
                ) == tile.pix(dx, dy),
            forall|x: int, y: int|
                0 <= x < old(self).width && 0 <= y < old(self).height && !(x0 <= x < x0
                    + tile.width && y0 <= y < y0 + tile.height) ==> final (self).pix(x, y) == old(
                    self,
                ).pix(x, y),
    {
        let mut dy: u32 = 0;
        while dy < tile.height
            invariant
                self.wf(),
                self.width == old(self).width,
                self.height == old(self).height,
                tile.wf(),
                x0 + tile.width <= self.width,
                y0 + tile.height <= self.height,
                dy <= tile.height,
                forall|ax: int, ay: int|
                    0 <= ax < tile.width && 0 <= ay < dy ==> self.pix(x0 + ax, y0 + ay)
                        == tile.pix(ax, ay),
                forall|x: int, y: int|
                    0 <= x < self.width && 0 <= y < self.height && !(x0 <= x < x0 + tile.width
                        && y0 <= y < y0 + dy) ==> self.pix(x, y) == old(self).pix(x, y),
            decreases tile.height - dy,
        {
            let mut dx: u32 = 0;
            while dx < tile.width
                invariant
                    self.wf(),
                    self.width == old(self).width,
                    self.height == old(self).height,
                    tile.wf(),
                    x0 + tile.width <= self.width,
                    y0 + tile.height <= self.height,
                    dy < tile.height,
                    dx <= tile.width,
                    forall|ax: int, ay: int|
                        0 <= ax < tile.width && 0 <= ay < dy ==> self.pix(x0 + ax, y0 + ay)
                            == tile.pix(ax, ay),
                    forall|ax: int| 0 <= ax < dx ==> self.pix(x0 + ax, y0 + dy) == tile.pix(ax, dy as int),
                    forall|x: int, y: int|
                        0 <= x < self.width && 0 <= y < self.height && !(x0 <= x < x0 + tile.width
                            && y0 <= y < y0 + dy) && !(x0 <= x < x0 + dx && y == y0 + dy)
                            ==> self.pix(x, y) == old(self).pix(x, y),
                decreases tile.width - dx,
            {
                let c = tile.get(dx, dy);
                self.set(x0 + dx, y0 + dy, c);
                dx = dx + 1;
            }
            dy = dy + 1;
        }
    }
}

} // verus!
