//! Rasterizing glyphs into fixed-size, two-color cells.
//!
//! A font library supplies, per glyph, a tight pixel bounding box and a
//! finite list of coverage samples: coordinates inside that box together with
//! how much of each pixel the outline covers. Rendering centers the bounding
//! box in a fixed cell, fills the cell with the background color, and blends
//! the foreground over the background at every sampled pixel. A batch applies
//! this to a whole character set, appending one render per glyph in input
//! order, and to several color pairs in turn.

use crate::color::{blend, blend_spec, Color, Coverage};
use crate::pixmap::Pixmap;
use vstd::prelude::*;

verus! {

/// The fixed cell every glyph is rendered into: `width` x `height` pixels.
#[derive(Clone, Copy, PartialEq, Eq, Structural, Debug)]
pub struct CellSpec {
    pub width: u32,
    pub height: u32,
}

impl CellSpec {
    /// The cell's area fits in a pixel buffer.
    pub open spec fn valid(self) -> bool {
        self.width as int * self.height as int <= usize::MAX as int
    }

    /// Build a cell from its height and an aspect ratio given as the exact
    /// fraction `ratio_num / ratio_den` (height over width): the width is
    /// `height / ratio`, rounded down.
    pub fn from_ratio(height: u32, ratio_num: u32, ratio_den: u32) -> (r: CellSpec)
        requires
            0 < ratio_num,
            0 < ratio_den,
            height as int * ratio_den as int <= u32::MAX as int,
        ensures
            r.height == height,
            r.width as int == (height as int * ratio_den as int) / ratio_num as int,
    {
        let scaled = height as u64 * ratio_den as u64;
        let width = scaled / ratio_num as u64;
        proof {
            vstd::arithmetic::div_mod::lemma_div_is_ordered(
                scaled as int,
                u32::MAX as int,
                ratio_num as int,
            );
            assert(u32::MAX as int / ratio_num as int <= u32::MAX as int);
        }
        CellSpec { width: width as u32, height }
    }
}

/// The tight pixel bounding box of a scaled, positioned glyph outline.
#[derive(Clone, Copy, PartialEq, Eq, Structural, Debug)]
pub struct BoundingBox {
    pub width: u32,
    pub height: u32,
}

/// One rasterizer report: the pixel at `(x, y)`, relative to the bounding
/// box's top-left corner, is covered by the fraction `cov`.
#[derive(Clone, Copy, PartialEq, Eq, Structural, Debug)]
pub struct CoverageSample {
    pub x: u32,
    pub y: u32,
    pub cov: Coverage,
}

/// A rasterized glyph: its character, its bounding box, and the finite list
/// of coverage samples the rasterizer produced for it.
#[derive(Debug)]
pub struct GlyphRaster {
    pub c: char,
    pub bbox: BoundingBox,
    pub samples: Vec<CoverageSample>,
}

impl GlyphRaster {
    /// Every sample lies inside the bounding box and carries a coverage
    /// fraction in `[0, 1]`.
    pub open spec fn wf(self) -> bool {
        forall|k: int|
            0 <= k < self.samples@.len() ==> (#[trigger] self.samples@[k]).x < self.bbox.width
                && self.samples@[k].y < self.bbox.height && self.samples@[k].cov.valid()
    }
}

/// The bounding box fits inside the cell in both dimensions.
pub open spec fn fits(bbox: BoundingBox, cell: CellSpec) -> bool {
    bbox.width <= cell.width && bbox.height <= cell.height
}

/// The horizontal centering offset: half the spare width, rounded down.
pub open spec fn x_offset_spec(cell: CellSpec, bbox: BoundingBox) -> int
    recommends
        bbox.width <= cell.width,
{
    (cell.width - bbox.width) / 2
}

/// The vertical centering offset: half the spare height, rounded down.
pub open spec fn y_offset_spec(cell: CellSpec, bbox: BoundingBox) -> int
    recommends
        bbox.height <= cell.height,
{
    (cell.height - bbox.height) / 2
}

/// The color of the cell pixel `(x, y)` after the samples are applied in
/// order over a background fill: the blend of the latest sample written
/// there, or the background if no sample reaches it. Offsets `xo`, `yo`
/// translate sample coordinates into cell coordinates.
pub open spec fn rendered_pix(
    samples: Seq<CoverageSample>,
    fg: Color,
    bg: Color,
    xo: int,
    yo: int,
    x: int,
    y: int,
) -> Color
    decreases samples.len(),
{
    if samples.len() == 0 {
        bg
    } else {
        let s = samples.last();
        if s.x as int + xo == x && s.y as int + yo == y {
            blend_spec(fg, bg, s.cov.num as int, s.cov.den as int)
        } else {
            rendered_pix(samples.drop_last(), fg, bg, xo, yo, x, y)
        }
    }
}

/// Centering: a pixel outside the window
/// `[xo, xo + bbox.width) x [yo, yo + bbox.height)` keeps the background
/// color, so every covered pixel lies inside that window.
pub proof fn lemma_rendered_outside_window(
    samples: Seq<CoverageSample>,
    bbox: BoundingBox,
    fg: Color,
    bg: Color,
    xo: int,
    yo: int,
    x: int,
    y: int,
)
    requires
        forall|k: int|
            0 <= k < samples.len() ==> (#[trigger] samples[k]).x < bbox.width && samples[k].y
                < bbox.height,
        !(xo <= x < xo + bbox.width && yo <= y < yo + bbox.height),
    ensures
        rendered_pix(samples, fg, bg, xo, yo, x, y) == bg,
    decreases samples.len(),
{
    if samples.len() > 0 {
        let s = samples.last();
        assert(samples[samples.len() - 1] == s);
        lemma_rendered_outside_window(samples.drop_last(), bbox, fg, bg, xo, yo, x, y);
    }
}

/// Determinism: two buffers of the cell's dimensions whose pixels both equal
/// the rendered value for the same samples, colors and offsets show the same
/// image.
pub proof fn lemma_render_deterministic(
    b1: Pixmap,
    b2: Pixmap,
    samples: Seq<CoverageSample>,
    fg: Color,
    bg: Color,
    xo: int,
    yo: int,
)
    requires
        b1.width == b2.width,
        b1.height == b2.height,
        forall|x: int, y: int|
            0 <= x < b1.width && 0 <= y < b1.height ==> b1.pix(x, y) == rendered_pix(
                samples,
                fg,
                bg,
                xo,
                yo,
                x,
                y,
            ),
        forall|x: int, y: int|
            0 <= x < b2.width && 0 <= y < b2.height ==> b2.pix(x, y) == rendered_pix(
                samples,
                fg,
                bg,
                xo,
                yo,
                x,
                y,
            ),
    ensures
        b1.same_image(b2),
{
}

/// The buffer is exactly the render of `raster` in `cell`: cell-sized, and
/// every pixel carries the rendered color for the centered bounding box.
pub open spec fn renders_raster(
    buf: Pixmap,
    raster: GlyphRaster,
    background: Color,
    foreground: Color,
    cell: CellSpec,
) -> bool {
    &&& buf.wf()
    &&& buf.width == cell.width
    &&& buf.height == cell.height
    &&& forall|x: int, y: int|
        0 <= x < cell.width && 0 <= y < cell.height ==> buf.pix(x, y) == rendered_pix(
            raster.samples@,
            foreground,
            background,
            x_offset_spec(cell, raster.bbox),
            y_offset_spec(cell, raster.bbox),
            x,
            y,
        )
}

/// Render one glyph into a cell: fill the cell with the background, center
/// the bounding box, and blend the foreground over the background at every
/// sampled pixel. A bounding box larger than the cell in either dimension is
/// rejected rather than cropped or wrapped.
pub fn render_glyph(
    raster: &GlyphRaster,
    background: Color,
    foreground: Color,
    cell: CellSpec,
) -> (r: Option<Pixmap>)
    requires
        raster.wf(),
        cell.valid(),
    ensures
        r is Some <==> fits(raster.bbox, cell),
        r is Some ==> renders_raster(r->0, *raster, background, foreground, cell),
{
    if raster.bbox.width > cell.width || raster.bbox.height > cell.height {
        return None;
    }
    let xo: u32 = (cell.width - raster.bbox.width) / 2;
    let yo: u32 = (cell.height - raster.bbox.height) / 2;
    let mut buf = Pixmap::new(cell.width, cell.height, background);
    let ghost all = raster.samples@;
    let mut i: usize = 0;
    while i < raster.samples.len()
        invariant
            raster.wf(),
            fits(raster.bbox, cell),
            cell.valid(),
            all == raster.samples@,
            xo as int == x_offset_spec(cell, raster.bbox),
            yo as int == y_offset_spec(cell, raster.bbox),
            i <= all.len(),
            buf.wf(),
            buf.width == cell.width,
            buf.height == cell.height,
            forall|x: int, y: int|
                0 <= x < cell.width && 0 <= y < cell.height ==> buf.pix(x, y) == rendered_pix(
                    all.take(i as int),
                    foreground,
                    background,
                    xo as int,
                    yo as int,
                    x,
                    y,
                ),
        decreases all.len() - i,
    {
        let s = raster.samples[i];
        assert(s == all[i as int]);
        let c = blend(foreground, background, s.cov);
        assert(xo <= cell.width - raster.bbox.width);
        assert(yo <= cell.height - raster.bbox.height);
        buf.set(s.x + xo, s.y + yo, c);
        proof {
            let taken = all.take(i + 1);
            assert(taken.drop_last() =~= all.take(i as int));
            assert(taken.last() == s);
            assert forall|x: int, y: int|
                0 <= x < cell.width && 0 <= y < cell.height implies buf.pix(x, y) == rendered_pix(
                taken,
                foreground,
                background,
                xo as int,
                yo as int,
                x,
                y,
            ) by {
                if x == s.x as int + xo as int && y == s.y as int + yo as int {
                    assert(buf.pix(x, y) == c);
                } else {
                    assert(buf.pix(x, y) == rendered_pix(
                        all.take(i as int),
                        foreground,
                        background,
                        xo as int,
                        yo as int,
                        x,
                        y,
                    ));
                }
            }
        }
        i = i + 1;
    }
    proof {
        assert(all.take(all.len() as int) =~= all);
    }
    Some(buf)
}

/// One finished glyph render: the character, its cell-sized pixel buffer,
/// and the color pair it was rendered with.
#[derive(Debug)]
pub struct GlyphRender {
    pub c: char,
    pub buffer: Pixmap,
    pub background: Color,
    pub foreground: Color,
}

/// The render carries the raster's character, the given colors, and a buffer
/// that is exactly the raster's render in `cell`.
pub open spec fn is_render_of(
    gr: GlyphRender,
    raster: GlyphRaster,
    background: Color,
    foreground: Color,
    cell: CellSpec,
) -> bool {
    &&& gr.c == raster.c
    &&& gr.background == background
    &&& gr.foreground == foreground
    &&& renders_raster(gr.buffer, raster, background, foreground, cell)
}

/// The rasters whose bounding boxes fit the cell, in input order: the ones a
/// batch renders. An oversized bounding box is a recoverable geometry
/// failure, so the batch skips it and continues.
pub open spec fn fitting(rasters: Seq<GlyphRaster>, cell: CellSpec) -> Seq<GlyphRaster>
    decreases rasters.len(),
{
    if rasters.len() == 0 {
        Seq::empty()
    } else {
        let pre = fitting(rasters.drop_last(), cell);
        if fits(rasters.last().bbox, cell) {
            pre.push(rasters.last())
        } else {
            pre
        }
    }
}

/// Render every glyph under one color pair, appending to `renders` in input
/// order: one entry per raster that fits the cell, each the exact render of
/// its raster. Earlier entries are untouched.
pub fn render_glyphs(
    rasters: &Vec<GlyphRaster>,
    renders: &mut Vec<GlyphRender>,
    background: Color,
    foreground: Color,
    cell: CellSpec,
)
    requires
        forall|k: int| 0 <= k < rasters@.len() ==> (#[trigger] rasters@[k]).wf(),
        cell.valid(),
    ensures
        final (renders)@.len() == old(renders)@.len() + fitting(rasters@, cell).len(),
        forall|k: int|
            0 <= k < old(renders)@.len() ==> final (renders)@[k] == #[trigger] old(renders)@[k],
        forall|j: int|
            0 <= j < fitting(rasters@, cell).len() ==> is_render_of(
                #[trigger] final (renders)@[old(renders)@.len() + j],
                fitting(rasters@, cell)[j],
                background,
                foreground,
                cell,
            ),
{
    let ghost all = rasters@;
    let ghost oldlen = old(renders)@.len() as int;
    let mut i: usize = 0;
    while i < rasters.len()
        invariant
            forall|k: int| 0 <= k < all.len() ==> (#[trigger] all[k]).wf(),
            cell.valid(),
            all == rasters@,
            i <= all.len(),
            oldlen == old(renders)@.len(),
            renders@.len() == oldlen + fitting(all.take(i as int), cell).len(),
            forall|k: int| 0 <= k < oldlen ==> renders@[k] == #[trigger] old(renders)@[k],
            forall|j: int|
                0 <= j < fitting(all.take(i as int), cell).len() ==> is_render_of(
                    #[trigger] renders@[oldlen + j],
                    fitting(all.take(i as int), cell)[j],
                    background,
                    foreground,
                    cell,
                ),
        decreases all.len() - i,
    {
        let raster = &rasters[i];
        proof {
            assert(all.take(i + 1).drop_last() =~= all.take(i as int));
            assert(all.take(i + 1).last() == all[i as int]);
        }
        match render_glyph(raster, background, foreground, cell) {
            Some(buf) => {
                renders.push(
                    GlyphRender { c: raster.c, buffer: buf, background, foreground },
                );
            },
            None => {},
        }
        i = i + 1;
    }
    proof {
        assert(all.take(all.len() as int) =~= all);
    }
}

/// Render the whole batch: every glyph under every color pair, color pairs
/// in the outer loop and glyphs in the inner loop, so the renders for pair
/// `p` occupy the block of indices starting at `p` times the per-pair count.
/// Each pair is `(background, foreground)`.
pub fn render_all(
    rasters: &Vec<GlyphRaster>,
    color_pairs: &Vec<(Color, Color)>,
    cell: CellSpec,
) -> (renders: Vec<GlyphRender>)
    requires
        forall|k: int| 0 <= k < rasters@.len() ==> (#[trigger] rasters@[k]).wf(),
        cell.valid(),
    ensures
        renders@.len() == color_pairs@.len() * fitting(rasters@, cell).len(),
        forall|p: int, j: int|
            0 <= p < color_pairs@.len() && 0 <= j < fitting(rasters@, cell).len()
                ==> is_render_of(
                #[trigger] renders@[p * fitting(rasters@, cell).len() + j],
                fitting(rasters@, cell)[j],
                color_pairs@[p].0,
                color_pairs@[p].1,
                cell,
            ),
{
    let ghost fl = fitting(rasters@, cell).len() as int;
    let mut renders: Vec<GlyphRender> = Vec::new();
    let mut p: usize = 0;
    while p < color_pairs.len()
        invariant
            forall|k: int| 0 <= k < rasters@.len() ==> (#[trigger] rasters@[k]).wf(),
            cell.valid(),
            fl == fitting(rasters@, cell).len(),
            p <= color_pairs@.len(),
            renders@.len() == p * fl,
            forall|q: int, j: int|
                0 <= q < p && 0 <= j < fl ==> is_render_of(
                    #[trigger] renders@[q * fl + j],
                    fitting(rasters@, cell)[j],
                    color_pairs@[q].0,
                    color_pairs@[q].1,
                    cell,
                ),
        decreases color_pairs@.len() - p,
    {
        let pair = color_pairs[p];
        let ghost before = renders@;
        render_glyphs(rasters, &mut renders, pair.0, pair.1, cell);
        proof {
            assert(p * fl + fl == (p + 1) * fl) by (nonlinear_arith) {}
            assert forall|q: int, j: int| 0 <= q < p + 1 && 0 <= j < fl implies is_render_of(
                #[trigger] renders@[q * fl + j],
                fitting(rasters@, cell)[j],
                color_pairs@[q].0,
                color_pairs@[q].1,
                cell,
            ) by {
                assert(0 <= q * fl + j < (q + 1) * fl <= (p + 1) * fl) by (nonlinear_arith)
                    requires
                        0 <= q < p + 1,
                        0 <= j < fl,
                {}
                if q < p {
                    assert(q * fl + j < p * fl) by (nonlinear_arith)
                        requires
                            0 <= q < p,
                            0 <= j < fl,
                    {}
                    assert(renders@[q * fl + j] == before[q * fl + j]);
                } else {
                    assert(renders@[p * fl + j] == renders@[before.len() + j]);
                }
            }
        }
        p = p + 1;
    }
    renders
}

} // verus!
