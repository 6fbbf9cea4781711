//! Screen tiles: the tile grid over an image, the tiles that a pixel rectangle
//! overlaps, and the jagged array that bins triangles per tile.

use vstd::prelude::*;

verus! {

/// `a / b` rounded up.
pub open spec fn div_ceil(a: int, b: int) -> int {
    if a % b == 0 {
        a / b
    } else {
        a / b + 1
    }
}

/// Number of tile columns over an image `width` pixels wide.
pub open spec fn num_tiles_x(img_shape: (usize, usize), tile_size: usize) -> int {
    div_ceil(img_shape.0 as int, tile_size as int)
}

/// Number of tile rows over an image `height` pixels high.
pub open spec fn num_tiles_y(img_shape: (usize, usize), tile_size: usize) -> int {
    div_ceil(img_shape.1 as int, tile_size as int)
}

/// Number of tiles over the image.
pub open spec fn num_tiles(img_shape: (usize, usize), tile_size: usize) -> int {
    num_tiles_x(img_shape, tile_size) * num_tiles_y(img_shape, tile_size)
}

/// `a / b` rounded up, for `b > 0`.
pub fn usize_div_ceil(a: usize, b: usize) -> (r: usize)
    requires
        b > 0,
    ensures
        r == div_ceil(a as int, b as int),
{
    if a % b == 0 {
        a / b
    } else {
        assert(b >= 2);
        assert(a / b <= a) by (nonlinear_arith)
            requires
                b >= 2,
        ;
        assert(a / b < a || a == 0) by (nonlinear_arith)
            requires
                b >= 2,
        ;
        a / b + 1
    }
}

/// `v` brought into `[lo, hi]`, for `lo <= hi`.
pub open spec fn clamp(v: int, lo: int, hi: int) -> int {
    if v < lo {
        lo
    } else if v > hi {
        hi
    } else {
        v
    }
}

fn isize_clamp(v: isize, lo: isize, hi: isize) -> (r: isize)
    requires
        lo <= hi,
    ensures
        r == clamp(v as int, lo as int, hi as int),
{
    if v < lo {
        lo
    } else if v > hi {
        hi
    } else {
        v
    }
}

/// The pixel rectangle `[x0, x1] x [y0, y1]` of the image that the rectangle
/// `[min_x, max_x] x [min_y, max_y]` is clamped to, coordinate by coordinate.
pub open spec fn clamped_rect(
    min_x: isize,
    max_x: isize,
    min_y: isize,
    max_y: isize,
    img_shape: (usize, usize),
) -> (int, int, int, int) {
    (
        clamp(min_x as int, 0, img_shape.0 - 1),
        clamp(max_x as int, 0, img_shape.0 - 1),
        clamp(min_y as int, 0, img_shape.1 - 1),
        clamp(max_y as int, 0, img_shape.1 - 1),
    )
}

/// Whether the pixel rectangle `[min_x, max_x] x [min_y, max_y]` reaches into the
/// image on both axes.
pub open spec fn rect_meets_image(
    min_x: isize,
    max_x: isize,
    min_y: isize,
    max_y: isize,
    img_shape: (usize, usize),
) -> bool {
    &&& 0 <= max_x && min_x < img_shape.0
    &&& 0 <= max_y && min_y < img_shape.1
}

/// The tiles, row by row and left to right, that meet the pixel rectangle: tile
/// `(tx, ty)` is numbered `ty * num_tiles_x + tx` and covers the pixels
/// `[tx * tile_size, (tx + 1) * tile_size) x [ty * tile_size, (ty + 1) * tile_size)`.
/// A rectangle that reaches into the image is clamped onto it first. Empty when the
/// tile size is 0, when the rectangle misses the image, or when it is empty.
pub open spec fn overlapping_tiles(
    min_x: isize,
    max_x: isize,
    min_y: isize,
    max_y: isize,
    img_shape: (usize, usize),
    tile_size: usize,
) -> Seq<usize> {
    let (x0, x1, y0, y1) = clamped_rect(min_x, max_x, min_y, max_y, img_shape);
    let ts = tile_size as int;
    if tile_size == 0 || !rect_meets_image(min_x, max_x, min_y, max_y, img_shape) || x0 > x1 || y0
        > y1 {
        Seq::empty()
    } else {
        let (tx0, tx1, ty0, ty1) = (x0 / ts, x1 / ts, y0 / ts, y1 / ts);
        let ncols = tx1 - tx0 + 1;
        let nrows = ty1 - ty0 + 1;
        Seq::new(
            (ncols * nrows) as nat,
            |k: int| ((ty0 + k / ncols) * num_tiles_x(img_shape, tile_size) + tx0 + k % ncols) as usize,
        )
    }
}

/// The inputs that the tile listing handles without overflow: a positive image
/// size that fits in an `isize`, and a tile grid whose size fits in a `usize`.
pub open spec fn tile_grid_fits(img_shape: (usize, usize), tile_size: usize) -> bool {
    tile_size > 0 ==> {
        &&& 0 < img_shape.0 <= isize::MAX
        &&& 0 < img_shape.1 <= isize::MAX
        &&& num_tiles(img_shape, tile_size) <= usize::MAX
    }
}

/// Every pixel column `x < w` lies in one of the `div_ceil(w, ts)` tile columns.
pub proof fn lemma_pixel_tile_in_grid(x: int, w: int, ts: int)
    requires
        0 <= x < w,
        ts > 0,
    ensures
        0 <= x / ts < div_ceil(w, ts),
{
    vstd::arithmetic::div_mod::lemma_div_is_ordered(x, w - 1, ts);
    vstd::arithmetic::div_mod::lemma_fundamental_div_mod(w, ts);
    vstd::arithmetic::div_mod::lemma_fundamental_div_mod(w - 1, ts);
    assert(0 <= x / ts) by (nonlinear_arith)
        requires
            x >= 0,
            ts > 0,
    ;
    if w % ts == 0 {
        let q = w / ts;
        assert(w - 1 == (q - 1) * ts + (ts - 1)) by (nonlinear_arith)
            requires
                w == ts * q,
        ;
        vstd::arithmetic::div_mod::lemma_fundamental_div_mod_converse(w - 1, ts, q - 1, ts - 1);
    } else {
        vstd::arithmetic::div_mod::lemma_div_is_ordered(w - 1, w, ts);
    }
}

/// Row `r`, column `c` of a grid `ncols` wide is entry `r * ncols + c` of its
/// row-major listing.
proof fn lemma_row_major(r: int, c: int, ncols: int)
    requires
        0 <= r,
        0 <= c < ncols,
    ensures
        (r * ncols + c) / ncols == r,
        (r * ncols + c) % ncols == c,
{
    vstd::arithmetic::div_mod::lemma_fundamental_div_mod_converse(r * ncols + c, ncols, r, c);
}

/// Lists, row by row and left to right, the tiles of size `tile_size` that the pixel
/// rectangle `[min_x, max_x] x [min_y, max_y]` meets: none when it misses the image.
pub fn list_of_tiles_overlapping_pixel_rect(
    min_x: isize,
    max_x: isize,
    min_y: isize,
    max_y: isize,
    img_shape: (usize, usize),
    tile_size: usize,
) -> (tiles: Vec<usize>)
    requires
        tile_grid_fits(img_shape, tile_size),
    ensures
        tiles@ == overlapping_tiles(min_x, max_x, min_y, max_y, img_shape, tile_size),
{
    if tile_size == 0 {
        return Vec::new();
    }
    let w_i = img_shape.0 as isize;
    let h_i = img_shape.1 as isize;
    if max_x < 0 || min_x >= w_i || max_y < 0 || min_y >= h_i {
        return Vec::new();
    }
    let x0 = isize_clamp(min_x, 0, w_i - 1);
    let x1 = isize_clamp(max_x, 0, w_i - 1);
    let y0 = isize_clamp(min_y, 0, h_i - 1);
    let y1 = isize_clamp(max_y, 0, h_i - 1);
    if x0 > x1 || y0 > y1 {
        return Vec::new();
    }
    let ghost ts = tile_size as int;
    let n_tiles_x = usize_div_ceil(img_shape.0, tile_size);
    let ghost n_tiles_y = num_tiles_y(img_shape, tile_size);
    let tx0 = (x0 as usize) / tile_size;
    let tx1 = (x1 as usize) / tile_size;
    let ty0 = (y0 as usize) / tile_size;
    let ty1 = (y1 as usize) / tile_size;
    proof {
        lemma_pixel_tile_in_grid(x1 as int, img_shape.0 as int, ts);
        lemma_pixel_tile_in_grid(y1 as int, img_shape.1 as int, ts);
        vstd::arithmetic::div_mod::lemma_div_is_ordered(x0 as int, x1 as int, ts);
        vstd::arithmetic::div_mod::lemma_div_is_ordered(y0 as int, y1 as int, ts);
        assert((tx1 - tx0 + 1) * (ty1 - ty0 + 1) <= n_tiles_x * n_tiles_y) by (nonlinear_arith)
            requires
                tx0 <= tx1 < n_tiles_x,
                ty0 <= ty1 < n_tiles_y,
        ;
        assert(ty1 * n_tiles_x + tx1 < n_tiles_x * n_tiles_y) by (nonlinear_arith)
            requires
                tx1 < n_tiles_x,
                ty1 < n_tiles_y,
        ;
        assert(n_tiles_y <= n_tiles_x * n_tiles_y) by (nonlinear_arith)
            requires
                1 <= n_tiles_x,
                0 <= n_tiles_y,
        ;
    }
    let ncols = tx1 - tx0 + 1;
    let nrows = ty1 - ty0 + 1;
    let ghost expected = overlapping_tiles(min_x, max_x, min_y, max_y, img_shape, tile_size);
    assert(expected.len() == ncols * nrows);
    let mut tiles: Vec<usize> = Vec::with_capacity(ncols * nrows);
    let mut ty = ty0;
    while ty <= ty1
        invariant
            ty0 <= ty <= ty1 + 1,
            ty1 < n_tiles_y,
            n_tiles_y <= usize::MAX,
            tx0 <= tx1 < n_tiles_x,
            ncols == tx1 - tx0 + 1,
            n_tiles_x == num_tiles_x(img_shape, tile_size),
            ty1 * n_tiles_x + tx1 < n_tiles_x * n_tiles_y,
            n_tiles_x * n_tiles_y <= usize::MAX,
            expected.len() == ncols * nrows,
            nrows == ty1 - ty0 + 1,
            forall|k: int| 0 <= k < expected.len() ==> #[trigger] expected[k] == ((ty0 + k / (ncols as int))
                * n_tiles_x + tx0 + k % (ncols as int)) as usize,
            tiles@ == expected.take((ty - ty0) * ncols),
        decreases ty1 + 1 - ty,
    {
        let mut tx = tx0;
        while tx <= tx1
            invariant
                ty0 <= ty <= ty1,
                tx0 <= tx <= tx1 + 1,
                ty1 < n_tiles_y,
                tx1 < n_tiles_x,
                ncols == tx1 - tx0 + 1,
                ty1 * n_tiles_x + tx1 < n_tiles_x * n_tiles_y,
                n_tiles_x * n_tiles_y <= usize::MAX,
                expected.len() == ncols * nrows,
                nrows == ty1 - ty0 + 1,
                forall|k: int| 0 <= k < expected.len() ==> #[trigger] expected[k] == ((ty0 + k / (ncols as int))
                    * n_tiles_x + tx0 + k % (ncols as int)) as usize,
                tiles@ == expected.take((ty - ty0) * ncols + (tx - tx0)),
            decreases tx1 + 1 - tx,
        {
            proof {
                assert(ty * n_tiles_x + tx <= ty1 * n_tiles_x + tx1) by (nonlinear_arith)
                    requires
                        ty <= ty1,
                        tx <= tx1,
                ;
                let k = (ty - ty0) * ncols + (tx - tx0);
                lemma_row_major((ty - ty0) as int, (tx - tx0) as int, ncols as int);
                assert(k < expected.len()) by (nonlinear_arith)
                    requires
                        k == (ty - ty0) * ncols + (tx - tx0),
                        tx - tx0 < ncols,
                        ty - ty0 < nrows,
                        expected.len() == ncols * nrows,
                ;
                assert(expected[k] == (ty * n_tiles_x + tx) as usize);
                assert(expected.take(k + 1) =~= expected.take(k).push(expected[k]));
            }
            tiles.push(ty * n_tiles_x + tx);
            tx = tx + 1;
        }
        proof {
            assert((ty - ty0) * ncols + (tx1 + 1 - tx0) == (ty + 1 - ty0) * ncols) by (nonlinear_arith)
                requires
                    ncols == tx1 - tx0 + 1,
            ;
        }
        ty = ty + 1;
    }
    proof {
        assert((ty1 + 1 - ty0) * ncols == ncols * nrows) by (nonlinear_arith)
            requires
                nrows == ty1 - ty0 + 1,
        ;
        assert(expected.take(expected.len() as int) =~= expected);
    }
    tiles
}

/// The listed tiles are distinct, in increasing order, and all on the tile grid.
pub proof fn lemma_overlapping_tiles_sorted_in_grid(
    min_x: isize,
    max_x: isize,
    min_y: isize,
    max_y: isize,
    img_shape: (usize, usize),
    tile_size: usize,
    i: int,
    j: int,
)
    requires
        tile_grid_fits(img_shape, tile_size),
        0 <= i < j < overlapping_tiles(min_x, max_x, min_y, max_y, img_shape, tile_size).len(),
    ensures
        overlapping_tiles(min_x, max_x, min_y, max_y, img_shape, tile_size)[i]
            < overlapping_tiles(min_x, max_x, min_y, max_y, img_shape, tile_size)[j],
        overlapping_tiles(min_x, max_x, min_y, max_y, img_shape, tile_size)[j] < num_tiles(
            img_shape,
            tile_size,
        ),
{
    let (x0, x1, y0, y1) = clamped_rect(min_x, max_x, min_y, max_y, img_shape);
    let ts = tile_size as int;
    let (tx0, tx1, ty0, ty1) = (x0 / ts, x1 / ts, y0 / ts, y1 / ts);
    let ncols = tx1 - tx0 + 1;
    let nrows = ty1 - ty0 + 1;
    let ntx = num_tiles_x(img_shape, tile_size);
    let nty = num_tiles_y(img_shape, tile_size);
    lemma_pixel_tile_in_grid(x1, img_shape.0 as int, ts);
    lemma_pixel_tile_in_grid(y1, img_shape.1 as int, ts);
    lemma_pixel_tile_in_grid(x0, img_shape.0 as int, ts);
    lemma_pixel_tile_in_grid(y0, img_shape.1 as int, ts);
    vstd::arithmetic::div_mod::lemma_div_is_ordered(x0, x1, ts);
    vstd::arithmetic::div_mod::lemma_div_is_ordered(y0, y1, ts);
    vstd::arithmetic::div_mod::lemma_fundamental_div_mod(i, ncols);
    vstd::arithmetic::div_mod::lemma_fundamental_div_mod(j, ncols);
    let (ri, ci, rj, cj) = (i / ncols, i % ncols, j / ncols, j % ncols);
    assert(0 <= ri && 0 <= rj) by (nonlinear_arith)
        requires
            i >= 0,
            j >= 0,
            ncols > 0,
            ri == i / ncols,
            rj == j / ncols,
    ;
    assert(rj < nrows) by (nonlinear_arith)
        requires
            j < ncols * nrows,
            j == ncols * rj + cj,
            0 <= cj < ncols,
    ;
    let vi = (ty0 + ri) * ntx + tx0 + ci;
    let vj = (ty0 + rj) * ntx + tx0 + cj;
    if ri > rj {
        assert(ncols * ri >= ncols * rj + ncols) by (nonlinear_arith)
            requires
                ri >= rj + 1,
                ncols > 0,
        ;
        assert(false);
    }
    if ri == rj {
        assert(ci < cj);
    } else {
        assert((ty0 + ri + 1) * ntx <= (ty0 + rj) * ntx) by (nonlinear_arith)
            requires
                ri + 1 <= rj,
                ntx >= 0,
        ;
        assert((ty0 + ri + 1) * ntx == (ty0 + ri) * ntx + ntx) by (nonlinear_arith);
    }
    assert(vi < vj);
    assert(vj < ntx * nty) by (nonlinear_arith)
        requires
            vj == (ty0 + rj) * ntx + tx0 + cj,
            ty0 + rj < nty,
            tx0 + cj < ntx,
            0 <= tx0,
            0 <= ty0,
            0 <= cj,
            0 <= rj,
    ;
    assert(0 <= vi) by (nonlinear_arith)
        requires
            vi == (ty0 + ri) * ntx + tx0 + ci,
            0 <= ty0,
            0 <= ri,
            0 <= ntx,
            0 <= tx0,
            0 <= ci,
    ;
}

/// Every pixel of the image that lies in the rectangle lies in one of the listed
/// tiles: the tile numbered `(y / tile_size) * num_tiles_x + x / tile_size`.
pub proof fn lemma_overlapping_tiles_cover_rect(
    min_x: isize,
    max_x: isize,
    min_y: isize,
    max_y: isize,
    img_shape: (usize, usize),
    tile_size: usize,
    x: int,
    y: int,
) -> (k: int)
    requires
        tile_grid_fits(img_shape, tile_size),
        tile_size > 0,
        0 <= x < img_shape.0,
        0 <= y < img_shape.1,
        min_x <= x <= max_x,
        min_y <= y <= max_y,
    ensures
        0 <= k < overlapping_tiles(min_x, max_x, min_y, max_y, img_shape, tile_size).len(),
        overlapping_tiles(min_x, max_x, min_y, max_y, img_shape, tile_size)[k] == (y / (
        tile_size as int)) * num_tiles_x(img_shape, tile_size) + x / (tile_size as int),
{
    let (x0, x1, y0, y1) = clamped_rect(min_x, max_x, min_y, max_y, img_shape);
    assert(x0 <= x <= x1 && y0 <= y <= y1);
    let ts = tile_size as int;
    let (tx0, tx1, ty0, ty1) = (x0 / ts, x1 / ts, y0 / ts, y1 / ts);
    let ncols = tx1 - tx0 + 1;
    let nrows = ty1 - ty0 + 1;
    let ntx = num_tiles_x(img_shape, tile_size);
    let nty = num_tiles_y(img_shape, tile_size);
    vstd::arithmetic::div_mod::lemma_div_is_ordered(x0, x, ts);
    vstd::arithmetic::div_mod::lemma_div_is_ordered(x, x1, ts);
    vstd::arithmetic::div_mod::lemma_div_is_ordered(y0, y, ts);
    vstd::arithmetic::div_mod::lemma_div_is_ordered(y, y1, ts);
    vstd::arithmetic::div_mod::lemma_div_is_ordered(x0, x1, ts);
    vstd::arithmetic::div_mod::lemma_div_is_ordered(y0, y1, ts);
    lemma_pixel_tile_in_grid(x1, img_shape.0 as int, ts);
    lemma_pixel_tile_in_grid(y1, img_shape.1 as int, ts);
    lemma_pixel_tile_in_grid(x0, img_shape.0 as int, ts);
    lemma_pixel_tile_in_grid(y0, img_shape.1 as int, ts);
    let r = y / ts - ty0;
    let c = x / ts - tx0;
    let k = r * ncols + c;
    lemma_row_major(r, c, ncols);
    assert(k < ncols * nrows) by (nonlinear_arith)
        requires
            k == r * ncols + c,
            0 <= c < ncols,
            0 <= r < nrows,
    ;
    assert(0 <= k) by (nonlinear_arith)
        requires
            k == r * ncols + c,
            0 <= c,
            0 <= r,
            0 < ncols,
    ;
    assert((y / ts) * ntx + x / ts < ntx * nty) by (nonlinear_arith)
        requires
            y / ts < nty,
            x / ts < ntx,
            0 <= x / ts,
    ;
    assert(0 <= (y / ts) * ntx) by (nonlinear_arith)
        requires
            0 <= y / ts,
            0 <= ntx,
    ;
    k
}

/// A rectangle that misses the image meets none of its tiles.
pub proof fn lemma_off_image_rect_has_no_tiles(
    min_x: isize,
    max_x: isize,
    min_y: isize,
    max_y: isize,
    img_shape: (usize, usize),
    tile_size: usize,
)
    requires
        max_x < 0 || min_x >= img_shape.0 || max_y < 0 || min_y >= img_shape.1,
    ensures
        overlapping_tiles(min_x, max_x, min_y, max_y, img_shape, tile_size).len() == 0,
{
}

/// Where the render loop finds the pixel `i_pix` of a row-major image: its column,
/// its row, and the index `(row / tile_size) * (width / tile_size) + column / tile_size`
/// of its tile.
pub fn pixel_tile(i_pix: usize, img_shape: (usize, usize), tile_size: usize) -> (res: (
    usize,
    usize,
    usize,
))
    requires
        img_shape.0 > 0,
        tile_size > 0,
        i_pix < img_shape.0 * img_shape.1,
    ensures
        res.0 == i_pix % img_shape.0,
        res.1 == i_pix / img_shape.0,
        res.2 == (res.1 / tile_size) * (img_shape.0 / tile_size) + res.0 / tile_size,
{
    let iw = i_pix % img_shape.0;
    let ih = i_pix / img_shape.0;
    let iw_tile = iw / tile_size;
    let ih_tile = ih / tile_size;
    proof {
        let w = img_shape.0 as int;
        let ts = tile_size as int;
        vstd::arithmetic::div_mod::lemma_fundamental_div_mod(i_pix as int, w);
        assert(ih_tile <= ih && iw_tile <= iw && w / ts <= w) by (nonlinear_arith)
            requires
                ih_tile == ih as int / ts,
                iw_tile == iw as int / ts,
                ts >= 1,
                ih >= 0,
                iw >= 0,
                w >= 0,
        ;
        assert(ih_tile * (w / ts) <= w * ih) by (nonlinear_arith)
            requires
                0 <= ih_tile <= ih,
                0 <= w / ts <= w,
        ;
        assert(w * ih + iw == i_pix);
    }
    let i_tile = ih_tile * (img_shape.0 / tile_size) + iw_tile;
    (iw, ih, i_tile)
}

/// The tile found for a pixel of the image is always one of the tiles that the
/// tile bins cover; when the tile size divides the width it is also the tile that
/// the binning numbers for that pixel.
pub proof fn lemma_pixel_tile_in_bins(iw: int, ih: int, img_shape: (usize, usize), tile_size: usize)
    requires
        tile_size > 0,
        0 <= iw < img_shape.0,
        0 <= ih < img_shape.1,
    ensures
        0 <= (ih / (tile_size as int)) * ((img_shape.0 as int) / (tile_size as int)) + iw / (tile_size as int)
            < num_tiles(img_shape, tile_size),
        img_shape.0 % tile_size == 0 ==> (ih / (tile_size as int)) * ((img_shape.0 as int) / (
        tile_size as int)) + iw / (tile_size as int) == (ih / (tile_size as int)) * num_tiles_x(
            img_shape,
            tile_size,
        ) + iw / (tile_size as int),
{
    let ts = tile_size as int;
    let w = img_shape.0 as int;
    lemma_pixel_tile_in_grid(iw, w, ts);
    lemma_pixel_tile_in_grid(ih, img_shape.1 as int, ts);
    let ntx = num_tiles_x(img_shape, tile_size);
    let nty = num_tiles_y(img_shape, tile_size);
    let (a, b) = (ih / ts, iw / ts);
    assert(w / ts <= ntx);
    assert(a * (w / ts) + b < ntx * nty) by (nonlinear_arith)
        requires
            0 <= a < nty,
            0 <= b < ntx,
            0 <= w / ts <= ntx,
    ;
    assert(0 <= a * (w / ts)) by (nonlinear_arith)
        requires
            0 <= a,
            0 <= w / ts,
    ;
}

/// A jagged array: item lists stored back to back, list `t` being
/// `items[offsets[t] .. offsets[t + 1]]`.
pub open spec fn jagged_well_formed(offsets: Seq<usize>, items: Seq<usize>) -> bool {
    &&& offsets.len() >= 1
    &&& offsets[0] == 0
    &&& offsets[offsets.len() - 1] == items.len()
    &&& forall|i: int, j: int| 0 <= i <= j < offsets.len() ==> offsets[i] <= offsets[j]
}

/// The triangles among the first `k` whose tile list holds tile `t`, in increasing
/// order.
pub open spec fn tile_bin(tri2tiles: Seq<Vec<usize>>, t: usize, k: nat) -> Seq<usize>
    decreases k,
{
    if k == 0 {
        Seq::empty()
    } else {
        let prev = tile_bin(tri2tiles, t, (k - 1) as nat);
        if tri2tiles[k - 1]@.contains(t) {
            prev.push((k - 1) as usize)
        } else {
            prev
        }
    }
}

/// A bin lists exactly the triangles whose tile list holds the tile, each once and
/// in increasing order.
pub proof fn lemma_tile_bin_members(tri2tiles: Seq<Vec<usize>>, t: usize, k: nat)
    requires
        k <= tri2tiles.len(),
        k <= usize::MAX + 1,
    ensures
        forall|i: int| 0 <= i < k ==> (tile_bin(tri2tiles, t, k).contains(i as usize) <==> tri2tiles[i]@.contains(t)),
        forall|a: int, b: int|
            0 <= a < b < tile_bin(tri2tiles, t, k).len() ==> tile_bin(tri2tiles, t, k)[a] < tile_bin(tri2tiles, t, k)[b],
        forall|a: int| 0 <= a < tile_bin(tri2tiles, t, k).len() ==> tile_bin(tri2tiles, t, k)[a] < k,
    decreases k,
{
    if k > 0 {
        let km = (k - 1) as nat;
        lemma_tile_bin_members(tri2tiles, t, km);
        let prev = tile_bin(tri2tiles, t, km);
        let cur = tile_bin(tri2tiles, t, k);
        assert forall|i: int| 0 <= i < k implies (cur.contains(i as usize) <==> tri2tiles[i]@.contains(t)) by {
            if tri2tiles[km as int]@.contains(t) {
                assert(cur == prev.push(km as usize));
                if i < km {
                    if cur.contains(i as usize) {
                        let j = choose|j: int| 0 <= j < cur.len() && cur[j] == i as usize;
                        if j < prev.len() {
                            assert(prev[j] == i as usize);
                        }
                    }
                    if prev.contains(i as usize) {
                        let j = choose|j: int| 0 <= j < prev.len() && prev[j] == i as usize;
                        assert(cur[j] == i as usize);
                    }
                } else {
                    assert(cur[cur.len() - 1] == i as usize);
                }
            } else {
                if i == km {
                    if prev.contains(i as usize) {
                        let j = choose|j: int| 0 <= j < prev.len() && prev[j] == i as usize;
                        assert(prev[j] < km);
                    }
                }
            }
        }
    }
}

/// Whether `v` holds `x`.
fn vec_contains(v: &Vec<usize>, x: usize) -> (b: bool)
    ensures
        b == v@.contains(x),
{
    let mut i: usize = 0;
    while i < v.len()
        invariant
            i <= v@.len(),
            forall|k: int| 0 <= k < i ==> v@[k] != x,
        decreases v@.len() - i,
    {
        if v[i] == x {
            assert(v@[i as int] == x);
            return true;
        }
        i = i + 1;
    }
    false
}

/// Bins the triangles into the tiles of size `tile_size` over an image of
/// `img_shape` pixels, as a jagged array `(tile2idx_offset, idx2tri)`: `tri2tiles[i]`
/// is the list of tiles that triangle `i` overlaps, and the bin of tile `t` is the
/// increasing list of the triangles whose list holds `t`.
pub fn build_tile2idx_idx2tri(tri2tiles: &[Vec<usize>], img_shape: (usize, usize), tile_size: usize) -> (res: (
    Vec<usize>,
    Vec<usize>,
))
    requires
        tile_size > 0,
        num_tiles(img_shape, tile_size) <= usize::MAX,
    ensures
        res.0@.len() == num_tiles(img_shape, tile_size) + 1,
        jagged_well_formed(res.0@, res.1@),
        forall|t: int|
            0 <= t < num_tiles(img_shape, tile_size) ==> #[trigger] res.1@.subrange(
                res.0@[t] as int,
                res.0@[t + 1] as int,
            ) == tile_bin(tri2tiles@, t as usize, tri2tiles@.len()),
{
    let n_tiles_x = usize_div_ceil(img_shape.0, tile_size);
    let n_tiles_y = usize_div_ceil(img_shape.1, tile_size);
    assert(n_tiles_x * n_tiles_y == num_tiles(img_shape, tile_size));
    let n_tiles = n_tiles_x * n_tiles_y;
    let n_tri = tri2tiles.len();
    let mut offsets: Vec<usize> = Vec::new();
    offsets.push(0);
    let mut items: Vec<usize> = Vec::new();
    let mut t: usize = 0;
    while t < n_tiles
        invariant
            t <= n_tiles,
            n_tri == tri2tiles@.len(),
            offsets@.len() == t + 1,
            offsets@[0] == 0,
            offsets@[t as int] == items@.len(),
            forall|i: int, j: int| 0 <= i <= j <= t ==> offsets@[i] <= offsets@[j],
            forall|tt: int|
                0 <= tt < t ==> #[trigger] items@.subrange(offsets@[tt] as int, offsets@[tt + 1] as int)
                    == tile_bin(tri2tiles@, tt as usize, n_tri as nat),
        decreases n_tiles - t,
    {
        let start = items.len();
        let ghost before = items@;
        let mut i: usize = 0;
        while i < n_tri
            invariant
                i <= n_tri,
                n_tri == tri2tiles@.len(),
                start == before.len(),
                items@.len() >= start,
                items@.take(start as int) == before,
                items@.skip(start as int) == tile_bin(tri2tiles@, t, i as nat),
            decreases n_tri - i,
        {
            if vec_contains(&tri2tiles[i], t) {
                items.push(i);
                assert(items@.skip(start as int) =~= tile_bin(tri2tiles@, t, i as nat).push(i));
            }
            assert(items@.take(start as int) =~= before);
            i = i + 1;
        }
        let ghost old_offsets = offsets@;
        offsets.push(items.len());
        proof {
            assert forall|tt: int|
                0 <= tt < t + 1 implies #[trigger] items@.subrange(offsets@[tt] as int, offsets@[tt + 1] as int)
                == tile_bin(tri2tiles@, tt as usize, n_tri as nat) by {
                if tt < t {
                    assert(offsets@[tt] == old_offsets[tt] && offsets@[tt + 1] == old_offsets[tt + 1]);
                    assert(old_offsets[tt + 1] <= old_offsets[t as int]);
                    assert(items@.subrange(offsets@[tt] as int, offsets@[tt + 1] as int) =~= before.subrange(
                        old_offsets[tt] as int,
                        old_offsets[tt + 1] as int,
                    ));
                } else {
                    assert(items@.subrange(offsets@[tt] as int, offsets@[tt + 1] as int) =~= items@.skip(
                        start as int,
                    ));
                }
            }
            assert forall|a: int, b: int| 0 <= a <= b <= t + 1 implies offsets@[a] <= offsets@[b] by {
                if b == t + 1 && a <= t {
                    assert(old_offsets[a] <= old_offsets[t as int]);
                }
            }
        }
        t = t + 1;
    }
    (offsets, items)
}

} // verus!
