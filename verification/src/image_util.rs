//! Compositing a randomly permuted selection of tiles into a grid canvas.
//!
//! The scrambler takes a list of equally-sized tiles, keeps the first
//! `width_count * height_count` of them as its working set, shuffles that set
//! with a uniform Fisher-Yates permutation, and copies the shuffled tiles
//! into a `width_count` x `height_count` grid of cells, row-major. The first
//! tile of the original, pre-shuffle list (the offering) fixes the expected
//! tile dimensions; a working-set tile of any other size means no composite.
//! If the working set is smaller than the grid, the trailing cells keep the
//! canvas background.

use crate::color::Color;
use crate::pixmap::{lemma_row_major_injective, Pixmap};
use vstd::arithmetic::div_mod::{
    lemma_fundamental_div_mod, lemma_fundamental_div_mod_converse,
    lemma_mod_division_less_than_divisor, lemma_multiply_divide_lt,
};
use vstd::prelude::*;

verus! {

/// How many tiles the scrambler works with: all of them, capped at the
/// number of grid cells.
pub open spec fn working_count(tiles_len: int, width_count: int, height_count: int) -> int {
    if tiles_len <= width_count * height_count {
        tiles_len
    } else {
        width_count * height_count
    }
}

/// `p` lists each index in `[0, n)` exactly once.
pub open spec fn is_index_permutation(p: Seq<usize>, n: int) -> bool {
    &&& p.len() == n
    &&& forall|i: int| 0 <= i < p.len() ==> (#[trigger] p[i]) < n
    &&& forall|i: int, j: int| 0 <= i < j < p.len() ==> p[i] != p[j]
}

/// The first `n` tiles all have the dimensions of the offering, `tiles[0]`.
pub open spec fn uniform_dims(tiles: Seq<Pixmap>, n: int) -> bool
    recommends
        0 < n ==> 0 < tiles.len(),
{
    forall|k: int|
        0 <= k < n ==> (#[trigger] tiles[k]).width == tiles[0].width && tiles[k].height
            == tiles[0].height
}

/// The canvas region with top-left corner `(x0, y0)` is a byte-exact copy of
/// `tile`.
pub open spec fn region_matches_tile(canvas: Pixmap, tile: Pixmap, x0: int, y0: int) -> bool {
    forall|x: int, y: int|
        x0 <= x < x0 + tile.width && y0 <= y < y0 + tile.height ==> #[trigger] canvas.pix(x, y)
            == tile.pix(x - x0, y - y0)
}

/// The `w` x `h` canvas region with top-left corner `(x0, y0)` is flat
/// background.
pub open spec fn region_is_flat(canvas: Pixmap, x0: int, y0: int, w: int, h: int, bg: Color) -> bool {
    forall|x: int, y: int|
        x0 <= x < x0 + w && y0 <= y < y0 + h ==> #[trigger] canvas.pix(x, y) == bg
}

/// Grid cell `(col, row)` holds what the scramble assigns it: the tile the
/// permutation sends to that cell, or flat background once the working set is
/// exhausted. Cells are numbered row-major, so the cell's index is
/// `row * width_count + col`, and each cell is one offering-sized rectangle.
pub open spec fn cell_ok(
    canvas: Pixmap,
    tiles: Seq<Pixmap>,
    order: Seq<usize>,
    bg: Color,
    width_count: int,
    col: int,
    row: int,
) -> bool
    recommends
        0 < tiles.len(),
{
    let k = row * width_count + col;
    let tw = tiles[0].width as int;
    let th = tiles[0].height as int;
    if k < order.len() {
        region_matches_tile(canvas, tiles[order[k] as int], col * tw, row * th)
    } else {
        region_is_flat(canvas, col * tw, row * th, tw, th, bg)
    }
}

/// Every grid cell holds what the scramble assigns it.
pub open spec fn scrambled_grid(
    canvas: Pixmap,
    tiles: Seq<Pixmap>,
    order: Seq<usize>,
    bg: Color,
    width_count: int,
    height_count: int,
) -> bool
    recommends
        0 < tiles.len(),
{
    forall|col: int, row: int|
        0 <= col < width_count && 0 <= row < height_count ==> #[trigger] cell_ok(
            canvas,
            tiles,
            order,
            bg,
            width_count,
            col,
            row,
        )
}

/// A pixel with `x` in `[col * tw, (col + 1) * tw)` lies in grid column
/// `col`: the column is recovered by dividing by the tile width.
proof fn lemma_coord_to_cell(x: int, tw: int, col: int)
    requires
        0 <= col,
        col * tw <= x < (col + 1) * tw,
    ensures
        0 < tw,
        x / tw == col,
{
    assert(col * tw + tw == (col + 1) * tw) by (nonlinear_arith) {}
    lemma_fundamental_div_mod_converse(x, tw, col, x - col * tw);
}

/// Relies on rand::random_range on a usize range: returns a value drawn
/// uniformly from `[lo, hi)`. It panics on an empty range, which the
/// precondition excludes.
#[verifier::external_body]
fn random_in_range(lo: usize, hi: usize) -> (r: usize)
    requires
        lo < hi,
    ensures
        lo <= r < hi,
{
    rand::random_range(lo..hi)
}

/// Draw a uniformly random permutation of the indices `[0, n)` by a
/// Fisher-Yates shuffle over the full index range: each position `i` in turn
/// is swapped with a position drawn uniformly from `[i, n)`, so every
/// position, the last included, can keep or receive any remaining index.
pub fn random_order(n: usize) -> (order: Vec<usize>)
    ensures
        is_index_permutation(order@, n as int),
{
    let mut order: Vec<usize> = Vec::new();
    let mut i: usize = 0;
    while i < n
        invariant
            i <= n,
            order@.len() == i,
            forall|m: int| 0 <= m < i ==> (#[trigger] order@[m]) == m,
        decreases n - i,
    {
        order.push(i);
        i = i + 1;
    }
    let mut i: usize = 0;
    while i < n
        invariant
            i <= n,
            is_index_permutation(order@, n as int),
        decreases n - i,
    {
        let j = random_in_range(i, n);
        let a = order[i];
        let b = order[j];
        order.set(i, b);
        order.set(j, a);
        i = i + 1;
    }
    order
}

/// Lay the tiles of the working set into the grid in the given order: the
/// tile picked for cell `k` is `tiles[order[k]]`, cells are filled row-major,
/// and cells beyond the working set keep the background. The offering,
/// `tiles[0]`, fixes the cell dimensions; an empty tile list or a working-set
/// tile of other dimensions gives no composite.
pub fn compose_grid(
    tiles: &Vec<Pixmap>,
    order: &Vec<usize>,
    background: Color,
    width_count: usize,
    height_count: usize,
) -> (r: Option<Pixmap>)
    requires
        forall|k: int| 0 <= k < tiles@.len() ==> (#[trigger] tiles@[k]).wf(),
        is_index_permutation(
            order@,
            working_count(tiles@.len() as int, width_count as int, height_count as int),
        ),
        width_count as int * height_count as int <= usize::MAX as int,
        tiles@.len() > 0 ==> width_count as int * tiles@[0].width as int <= u32::MAX as int
            && height_count as int * tiles@[0].height as int <= u32::MAX as int && (
        width_count as int * tiles@[0].width as int) * (height_count as int
            * tiles@[0].height as int) <= usize::MAX as int,
    ensures
        r is None <==> (tiles@.len() == 0 || !uniform_dims(tiles@, order@.len() as int)),
        r is Some ==> (r->0).wf() && (r->0).width as int == width_count as int
            * tiles@[0].width as int && (r->0).height as int == height_count as int
            * tiles@[0].height as int && scrambled_grid(
            r->0,
            tiles@,
            order@,
            background,
            width_count as int,
            height_count as int,
        ),
{
    if tiles.len() == 0 {
        return None;
    }
    let offering_w = tiles[0].width;
    let offering_h = tiles[0].height;
    let n = order.len();
    let mut k: usize = 0;
    while k < n
        invariant
            k <= n,
            n == order@.len(),
            n <= tiles@.len(),
            0 < tiles@.len(),
            offering_w == tiles@[0].width,
            offering_h == tiles@[0].height,
            forall|m: int|
                0 <= m < k ==> (#[trigger] tiles@[m]).width == offering_w && tiles@[m].height
                    == offering_h,
        decreases n - k,
    {
        if tiles[k].width != offering_w || tiles[k].height != offering_h {
            assert(!uniform_dims(tiles@, n as int));
            return None;
        }
        k = k + 1;
    }
    assert(uniform_dims(tiles@, n as int));
    let cw_us: usize = width_count * (offering_w as usize);
    let ch_us: usize = height_count * (offering_h as usize);
    let cw: u32 = cw_us as u32;
    let ch: u32 = ch_us as u32;
    let mut canvas = Pixmap::new(cw, ch, background);
    let ghost tw = offering_w as int;
    let ghost th = offering_h as int;
    let ghost wcx = width_count as int;
    let ghost hcx = height_count as int;
    let mut k: usize = 0;
    while k < n
        invariant
            k <= n,
            n == order@.len(),
            n <= tiles@.len(),
            0 < tiles@.len(),
            forall|m: int| 0 <= m < tiles@.len() ==> (#[trigger] tiles@[m]).wf(),
            is_index_permutation(order@, n as int),
            n as int <= wcx * hcx,
            uniform_dims(tiles@, n as int),
            tw == tiles@[0].width as int,
            th == tiles@[0].height as int,
            tw == offering_w as int,
            th == offering_h as int,
            wcx == width_count as int,
            hcx == height_count as int,
            canvas.wf(),
            canvas.width as int == wcx * tw,
            canvas.height as int == hcx * th,
            forall|col: int, row: int|
                0 <= col < wcx && 0 <= row < hcx && row * wcx + col < k ==> #[trigger] cell_ok(
                    canvas,
                    tiles@,
                    order@,
                    background,
                    wcx,
                    col,
                    row,
                ),
            forall|x: int, y: int|
                0 <= x < canvas.width && 0 <= y < canvas.height && (y / th) * wcx + (x / tw) >= k
                    ==> #[trigger] canvas.pix(x, y) == background,
        decreases n - k,
    {
        proof {
            assert(wcx * hcx > 0);
            assert(wcx > 0 && hcx > 0) by (nonlinear_arith)
                requires
                    wcx * hcx > 0,
                    wcx >= 0,
                    hcx >= 0,
            {}
        }
        let idx = order[k];
        let col: usize = k % width_count;
        let row: usize = k / width_count;
        proof {
            lemma_mod_division_less_than_divisor(k as int, wcx);
            lemma_multiply_divide_lt(k as int, wcx, hcx);
            lemma_fundamental_div_mod(k as int, wcx);
            assert(wcx * (k as int / wcx) == (k as int / wcx) * wcx) by (nonlinear_arith) {}
            assert(k as int == (k as int / wcx) * wcx + k as int % wcx);
            assert(col as int * tw <= wcx * tw && (col as int + 1) * tw <= wcx * tw)
                by (nonlinear_arith)
                requires
                    0 <= col as int <= wcx - 1,
                    tw >= 0,
            {}
            assert(row as int * th <= hcx * th && (row as int + 1) * th <= hcx * th)
                by (nonlinear_arith)
                requires
                    0 <= row as int <= hcx - 1,
                    th >= 0,
            {}
        }
        let x0: u32 = ((col * (offering_w as usize)) as u32);
        let y0: u32 = ((row * (offering_h as usize)) as u32);
        let ghost pre = canvas;
        let tile = &tiles[idx];
        proof {
            assert((col as int + 1) * tw == col as int * tw + tw) by (nonlinear_arith) {}
            assert((row as int + 1) * th == row as int * th + th) by (nonlinear_arith) {}
        }
        canvas.copy_from(tile, x0, y0);
        proof {
            let kx = k as int;
            let colx = col as int;
            let rowx = row as int;
            // The copied rectangle is exactly grid cell (colx, rowx); a pixel
            // of any other cell lies outside it and keeps its old color.
            assert forall|col2: int, row2: int|
                0 <= col2 < wcx && 0 <= row2 < hcx && row2 * wcx + col2 < kx
                    + 1 implies #[trigger] cell_ok(
                canvas,
                tiles@,
                order@,
                background,
                wcx,
                col2,
                row2,
            ) by {
                let m = row2 * wcx + col2;
                assert(row2 * wcx + col2 >= 0) by (nonlinear_arith)
                    requires
                        col2 >= 0,
                        row2 >= 0,
                        wcx > 0,
                {}
                let t2 = tiles@[order@[m] as int];
                assert(t2.width == tw && t2.height == th);
                assert(col2 * tw + tw == (col2 + 1) * tw) by (nonlinear_arith) {}
                assert(row2 * th + th == (row2 + 1) * th) by (nonlinear_arith) {}
                if m == kx {
                    lemma_row_major_injective(col2, row2, colx, rowx, wcx);
                    assert(region_matches_tile(canvas, t2, col2 * tw, row2 * th));
                } else {
                    assert(cell_ok(pre, tiles@, order@, background, wcx, col2, row2));
                    assert forall|x: int, y: int|
                        col2 * tw <= x < col2 * tw + t2.width && row2 * th <= y < row2 * th
                            + t2.height implies #[trigger] canvas.pix(x, y) == t2.pix(
                        x - col2 * tw,
                        y - row2 * th,
                    ) by {
                        lemma_coord_to_cell(x, tw, col2);
                        lemma_coord_to_cell(y, th, row2);
                        if colx * tw <= x < colx * tw + tw && rowx * th <= y < rowx * th + th {
                            lemma_coord_to_cell(x, tw, colx);
                            lemma_coord_to_cell(y, th, rowx);
                            assert(false);
                        }
                        assert(0 <= x < canvas.width && 0 <= y < canvas.height)
                            by (nonlinear_arith)
                            requires
                                col2 * tw <= x < (col2 + 1) * tw,
                                row2 * th <= y < (row2 + 1) * th,
                                0 <= col2 < wcx,
                                0 <= row2 < hcx,
                                canvas.width as int == wcx * tw,
                                canvas.height as int == hcx * th,
                        {}
                        assert(canvas.pix(x, y) == pre.pix(x, y));
                    }
                    assert(region_matches_tile(canvas, t2, col2 * tw, row2 * th));
                }
            }
            assert forall|x: int, y: int|
                0 <= x < canvas.width && 0 <= y < canvas.height && (y / th) * wcx + (x / tw) >= kx
                    + 1 implies #[trigger] canvas.pix(x, y) == background by {
                assert(tw > 0) by (nonlinear_arith)
                    requires
                        0 <= x < wcx * tw,
                        wcx >= 0,
                {}
                assert(th > 0) by (nonlinear_arith)
                    requires
                        0 <= y < hcx * th,
                        hcx >= 0,
                {}
                if colx * tw <= x < colx * tw + tw && rowx * th <= y < rowx * th + th {
                    lemma_coord_to_cell(x, tw, colx);
                    lemma_coord_to_cell(y, th, rowx);
                    assert((y / th) * wcx + (x / tw) == kx);
                    assert(false);
                }
                assert(canvas.pix(x, y) == pre.pix(x, y));
            }
        }
        k = k + 1;
    }
    proof {
        assert forall|col: int, row: int| 0 <= col < wcx && 0 <= row < hcx implies #[trigger] cell_ok(
            canvas,
            tiles@,
            order@,
            background,
            wcx,
            col,
            row,
        ) by {
            let m = row * wcx + col;
            assert(row * wcx + col >= 0) by (nonlinear_arith)
                requires
                    col >= 0,
                    row >= 0,
                    wcx >= 0,
            {}
            if m < n {
                assert(cell_ok(canvas, tiles@, order@, background, wcx, col, row));
            } else {
                assert(col * tw + tw == (col + 1) * tw) by (nonlinear_arith) {}
                assert(row * th + th == (row + 1) * th) by (nonlinear_arith) {}
                assert forall|x: int, y: int|
                    col * tw <= x < col * tw + tw && row * th <= y < row * th
                        + th implies #[trigger] canvas.pix(x, y) == background by {
                    lemma_coord_to_cell(x, tw, col);
                    lemma_coord_to_cell(y, th, row);
                    assert(0 <= x < canvas.width && 0 <= y < canvas.height) by (nonlinear_arith)
                        requires
                            col * tw <= x < (col + 1) * tw,
                            row * th <= y < (row + 1) * th,
                            0 <= col < wcx,
                            0 <= row < hcx,
                            canvas.width as int == wcx * tw,
                            canvas.height as int == hcx * th,
                    {}
                    assert((y / th) * wcx + (x / tw) == m);
                    assert(canvas.pix(x, y) == background);
                }
                assert(region_is_flat(canvas, col * tw, row * th, tw, th, background));
            }
        }
    }
    Some(canvas)
}

/// Scramble the tiles into a grid: keep the first `width_count *
/// height_count` tiles, shuffle them uniformly, and composite them row-major
/// onto a background-filled canvas sized by the offering, `tiles[0]`. An
/// empty tile list, or a working-set tile whose dimensions differ from the
/// offering's, gives no composite; a working set smaller than the grid
/// leaves the trailing cells as flat background.
pub fn pane_scramble(
    tiles: &Vec<Pixmap>,
    background: Color,
    width_count: usize,
    height_count: usize,
) -> (r: Option<Pixmap>)
    requires
        forall|k: int| 0 <= k < tiles@.len() ==> (#[trigger] tiles@[k]).wf(),
        width_count as int * height_count as int <= usize::MAX as int,
        tiles@.len() > 0 ==> width_count as int * tiles@[0].width as int <= u32::MAX as int
            && height_count as int * tiles@[0].height as int <= u32::MAX as int && (
        width_count as int * tiles@[0].width as int) * (height_count as int
            * tiles@[0].height as int) <= usize::MAX as int,
    ensures
        r is None <==> (tiles@.len() == 0 || !uniform_dims(
            tiles@,
            working_count(tiles@.len() as int, width_count as int, height_count as int),
        )),
        r is Some ==> (r->0).wf() && (r->0).width as int == width_count as int
            * tiles@[0].width as int && (r->0).height as int == height_count as int
            * tiles@[0].height as int && exists|p: Seq<usize>|
            is_index_permutation(
                p,
                working_count(tiles@.len() as int, width_count as int, height_count as int),
            ) && scrambled_grid(
                r->0,
                tiles@,
                p,
                background,
                width_count as int,
                height_count as int,
            ),
{
    if tiles.len() == 0 {
        return None;
    }
    let cap: usize = width_count * height_count;
    let n: usize = if tiles.len() < cap {
        tiles.len()
    } else {
        cap
    };
    let order = random_order(n);
    let r = compose_grid(tiles, &order, background, width_count, height_count);
    proof {
        if r is Some {
            let nx = working_count(tiles@.len() as int, width_count as int, height_count as int);
            assert(n as int == nx);
            assert(is_index_permutation(order@, nx) && scrambled_grid(
                r->0,
                tiles@,
                order@,
                background,
                width_count as int,
                height_count as int,
            ));
        }
    }
    r
}

/// A single tile composited into a single-cell grid shows exactly that
/// tile's image: the only permutation of one element is the identity, so the
/// one cell is a byte-exact copy of the offering.
pub proof fn lemma_single_tile_scramble(
    canvas: Pixmap,
    tiles: Seq<Pixmap>,
    p: Seq<usize>,
    bg: Color,
)
    requires
        tiles.len() >= 1,
        canvas.width == tiles[0].width,
        canvas.height == tiles[0].height,
        is_index_permutation(p, 1),
        scrambled_grid(canvas, tiles, p, bg, 1, 1),
    ensures
        canvas.same_image(tiles[0]),
{
    assert(p[0] == 0);
    assert(cell_ok(canvas, tiles, p, bg, 1, 0, 0));
    assert forall|x: int, y: int|
        0 <= x < canvas.width && 0 <= y < canvas.height implies canvas.pix(x, y) == tiles[0].pix(
        x,
        y,
    ) by {
        assert(canvas.pix(x, y) == tiles[0].pix(x - 0, y - 0));
    }
}

} // verus!
