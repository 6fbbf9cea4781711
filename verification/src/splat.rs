//! The square of pixels that a projected Gaussian splat is blended into, and the
//! depth order in which splats are blended.

use vstd::prelude::*;
use vstd::relations::{sorted_by, total_ordering};

verus! {

pub open spec fn max_int(a: int, b: int) -> int {
    if a >= b {
        a
    } else {
        b
    }
}

pub open spec fn min_int(a: int, b: int) -> int {
    if a <= b {
        a
    } else {
        b
    }
}

/// First and one-past-last coordinate of the window `[c - size, c + size)` that
/// lie in `[0, extent)`.
pub open spec fn window_span(c: i32, size: i32, extent: i32) -> (int, int) {
    (max_int(c - size, 0), min_int(c + size, extent as int))
}

/// Number of coordinates in a span.
pub open spec fn span_len(span: (int, int)) -> int {
    if span.0 < span.1 {
        span.1 - span.0
    } else {
        0
    }
}

/// The pixels of the window of half-size `splat_size` around pixel `(ix, iy)` that
/// lie inside the image, row by row and left to right, each as
/// `(column, row, row * width + column)`. The image's width and height are read as
/// `i32` (truncating), as the renderer does when it tests a coordinate.
pub open spec fn splat_footprint(ix: i32, iy: i32, splat_size: i32, image_shape: (usize, usize)) -> Seq<
    (i32, i32, usize),
> {
    let rows = window_span(iy, splat_size, image_shape.1 as i32);
    let cols = window_span(ix, splat_size, image_shape.0 as i32);
    let nc = span_len(cols);
    if span_len(rows) == 0 {
        Seq::empty()
    } else {
        Seq::new(
            (span_len(rows) * nc) as nat,
            |k: int|
                {
                    let jy = rows.0 + k / nc;
                    let jx = cols.0 + k % nc;
                    (jx as i32, jy as i32, (jy * image_shape.0 + jx) as usize)
                },
        )
    }
}

/// The inputs the window enumeration handles without overflow: the row range
/// `[iy - splat_size, iy + splat_size)` fits in `i32`, and so does the column range
/// whenever some row of the window is inside the image; the image's pixel count
/// fits in a `usize`.
pub open spec fn footprint_fits(ix: i32, iy: i32, splat_size: i32, image_shape: (usize, usize)) -> bool {
    &&& i32::MIN <= iy - splat_size <= i32::MAX
    &&& i32::MIN <= iy + splat_size <= i32::MAX
    &&& span_len(window_span(iy, splat_size, image_shape.1 as i32)) > 0 ==> {
        &&& i32::MIN <= ix - splat_size <= i32::MAX
        &&& i32::MIN <= ix + splat_size <= i32::MAX
    }
    &&& image_shape.0 * image_shape.1 <= usize::MAX
}

/// A positive truncation of an image extent to `i32` does not exceed the extent.
proof fn lemma_truncated_extent(e: usize)
    ensures
        (e as i32) > 0 ==> (e as i32) as int <= e as int,
{
    assert((e as i32) > 0 ==> ((e as i32) as usize) <= e) by (bit_vector);
}

/// Number of coordinates of the span below `c`.
pub open spec fn span_done(span: (int, int), c: int) -> int {
    span_len((span.0, min_int(c, span.1)))
}

/// Enumerates the pixels of the window of half-size `splat_size` around pixel
/// `(ix, iy)` that lie inside the image, as the splat renderer visits them: rows
/// `iy - splat_size .. iy + splat_size`, and in each row the columns
/// `ix - splat_size .. ix + splat_size`, skipping those outside the image.
pub fn splat_window_pixels(ix: i32, iy: i32, splat_size: i32, image_shape: (usize, usize)) -> (pixels:
    Vec<(i32, i32, usize)>)
    requires
        footprint_fits(ix, iy, splat_size, image_shape),
    ensures
        pixels@ == splat_footprint(ix, iy, splat_size, image_shape),
{
    let h = #[verifier::truncate] (image_shape.1 as i32);
    let w = #[verifier::truncate] (image_shape.0 as i32);
    let ghost rows = window_span(iy, splat_size, h);
    let ghost cols = window_span(ix, splat_size, w);
    let ghost nc = span_len(cols);
    let ghost fp = splat_footprint(ix, iy, splat_size, image_shape);
    proof {
        lemma_truncated_extent(image_shape.0);
        lemma_truncated_extent(image_shape.1);
        if span_len(rows) > 0 {
            assert(fp.len() == span_len(rows) * nc);
        }
    }
    let mut pixels: Vec<(i32, i32, usize)> = Vec::new();
    let mut jy = iy - splat_size;
    let end_y = iy + splat_size;
    while jy < end_y
        invariant
            footprint_fits(ix, iy, splat_size, image_shape),
            h == image_shape.1 as i32,
            w == image_shape.0 as i32,
            h > 0 ==> h as int <= image_shape.1,
            w > 0 ==> w as int <= image_shape.0,
            rows == window_span(iy, splat_size, h),
            cols == window_span(ix, splat_size, w),
            nc == span_len(cols),
            fp == splat_footprint(ix, iy, splat_size, image_shape),
            span_len(rows) > 0 ==> fp.len() == span_len(rows) * nc,
            end_y == iy + splat_size,
            iy - splat_size <= jy <= end_y || end_y < iy - splat_size,
            jy >= iy - splat_size,
            pixels@ == fp.take(span_done(rows, jy as int) * nc),
        decreases end_y - jy,
    {
        if 0 <= jy && jy < h {
            let mut jx = ix - splat_size;
            let end_x = ix + splat_size;
            proof {
                assert(span_len(rows) > 0);
            }
            while jx < end_x
                invariant
                    footprint_fits(ix, iy, splat_size, image_shape),
                    0 <= jy < h,
                    h > 0 ==> h as int <= image_shape.1,
                    w > 0 ==> w as int <= image_shape.0,
                    w == image_shape.0 as i32,
                    rows == window_span(iy, splat_size, h),
                    cols == window_span(ix, splat_size, w),
                    nc == span_len(cols),
                    rows.0 <= jy < rows.1,
                    fp == splat_footprint(ix, iy, splat_size, image_shape),
                    fp.len() == span_len(rows) * nc,
                    end_x == ix + splat_size,
                    jx >= ix - splat_size,
                    jx <= end_x,
                    pixels@ == fp.take((jy - rows.0) * nc + span_done(cols, jx as int)),
                decreases end_x - jx,
            {
                if 0 <= jx && jx < w {
                    proof {
                        let r = jy - rows.0;
                        let c = jx - cols.0;
                        let k = r * nc + c;
                        assert(0 <= c < nc);
                        vstd::arithmetic::div_mod::lemma_fundamental_div_mod_converse(k, nc, r, c);
                        assert(k < fp.len()) by (nonlinear_arith)
                            requires
                                k == r * nc + c,
                                0 <= c < nc,
                                0 <= r < span_len(rows),
                                fp.len() == span_len(rows) * nc,
                        ;
                        assert(0 <= k) by (nonlinear_arith)
                            requires
                                k == r * nc + c,
                                0 <= c,
                                0 <= r,
                                0 <= nc,
                        ;
                        assert(jy * image_shape.0 + jx < image_shape.0 * image_shape.1) by (nonlinear_arith)
                            requires
                                0 <= jy < image_shape.1,
                                0 <= jx < image_shape.0,
                        ;
                        assert(fp.take(k + 1) =~= fp.take(k).push(fp[k]));
                    }
                    let i_pix = (jy as usize) * image_shape.0 + (jx as usize);
                    pixels.push((jx, jy, i_pix));
                }
                jx = jx + 1;
            }
            proof {
                assert((jy - rows.0) * nc + nc == (jy + 1 - rows.0) * nc) by (nonlinear_arith);
            }
        }
        jy = jy + 1;
    }
    proof {
        if span_len(rows) > 0 {
            assert(fp.take(span_len(rows) * nc) =~= fp);
        } else {
            assert(fp =~= Seq::<(i32, i32, usize)>::empty());
            assert(pixels@ =~= fp);
        }
    }
    pixels
}

/// Every pixel that a splat is blended into lies in the image and in the splat's
/// window, and its index addresses the row-major pixel buffer of the image.
pub proof fn lemma_splat_footprint_in_image(
    ix: i32,
    iy: i32,
    splat_size: i32,
    image_shape: (usize, usize),
    k: int,
)
    requires
        footprint_fits(ix, iy, splat_size, image_shape),
        0 <= k < splat_footprint(ix, iy, splat_size, image_shape).len(),
    ensures
        ({
            let (jx, jy, i_pix) = splat_footprint(ix, iy, splat_size, image_shape)[k];
            &&& 0 <= jx < image_shape.0
            &&& 0 <= jy < image_shape.1
            &&& ix - splat_size <= jx < ix + splat_size
            &&& iy - splat_size <= jy < iy + splat_size
            &&& i_pix == jy * image_shape.0 + jx
            &&& i_pix < image_shape.0 * image_shape.1
        }),
{
    let rows = window_span(iy, splat_size, image_shape.1 as i32);
    let cols = window_span(ix, splat_size, image_shape.0 as i32);
    let nc = span_len(cols);
    lemma_truncated_extent(image_shape.0);
    lemma_truncated_extent(image_shape.1);
    assert(nc > 0) by (nonlinear_arith)
        requires
            0 <= k < span_len(rows) * nc,
            nc >= 0,
    ;
    vstd::arithmetic::div_mod::lemma_fundamental_div_mod(k, nc);
    let r = k / nc;
    let c = k % nc;
    assert(0 <= r < span_len(rows)) by (nonlinear_arith)
        requires
            0 <= k < span_len(rows) * nc,
            k == nc * r + c,
            0 <= c < nc,
    ;
    let jy = rows.0 + r;
    let jx = cols.0 + c;
    assert(jy * image_shape.0 + jx < image_shape.0 * image_shape.1) by (nonlinear_arith)
        requires
            0 <= jy < image_shape.1,
            0 <= jx < image_shape.0,
    ;
    assert(0 <= jy * image_shape.0) by (nonlinear_arith)
        requires
            0 <= jy,
    ;
}

/// Every pixel of the image that lies in the splat's window is blended: for any
/// `(jx, jy)` inside the image with `ix - splat_size <= jx < ix + splat_size` and
/// `iy - splat_size <= jy < iy + splat_size`, wherever the centre `(ix, iy)` itself
/// lies, the footprint lists `(jx, jy, jy * width + jx)`. (The image's extents are
/// taken to fit in `i32`, which the renderer converts them to.)
pub proof fn lemma_splat_footprint_complete(
    ix: i32,
    iy: i32,
    splat_size: i32,
    image_shape: (usize, usize),
    jx: int,
    jy: int,
) -> (k: int)
    requires
        footprint_fits(ix, iy, splat_size, image_shape),
        image_shape.0 <= i32::MAX,
        image_shape.1 <= i32::MAX,
        0 <= jx < image_shape.0,
        0 <= jy < image_shape.1,
        ix - splat_size <= jx < ix + splat_size,
        iy - splat_size <= jy < iy + splat_size,
    ensures
        0 <= k < splat_footprint(ix, iy, splat_size, image_shape).len(),
        splat_footprint(ix, iy, splat_size, image_shape)[k] == (jx as i32, jy as i32, (jy * image_shape.0
            + jx) as usize),
{
    let rows = window_span(iy, splat_size, image_shape.1 as i32);
    let cols = window_span(ix, splat_size, image_shape.0 as i32);
    assert(image_shape.0 as i32 == image_shape.0 && image_shape.1 as i32 == image_shape.1);
    let nc = span_len(cols);
    let nr = span_len(rows);
    assert(rows.0 <= jy < rows.1 && cols.0 <= jx < cols.1);
    let r = jy - rows.0;
    let c = jx - cols.0;
    let k = r * nc + c;
    assert(0 <= c < nc && 0 <= r < nr);
    vstd::arithmetic::div_mod::lemma_fundamental_div_mod_converse(k, nc, r, c);
    assert(k < nr * nc) by (nonlinear_arith)
        requires
            k == r * nc + c,
            0 <= c < nc,
            0 <= r < nr,
    ;
    assert(0 <= k) by (nonlinear_arith)
        requires
            k == r * nc + c,
            0 <= c,
            0 <= r,
            0 <= nc,
    ;
    k
}

/// The footprint lists each pixel once, in increasing pixel index.
pub proof fn lemma_splat_footprint_increasing(
    ix: i32,
    iy: i32,
    splat_size: i32,
    image_shape: (usize, usize),
    k1: int,
    k2: int,
)
    requires
        footprint_fits(ix, iy, splat_size, image_shape),
        0 <= k1 < k2 < splat_footprint(ix, iy, splat_size, image_shape).len(),
    ensures
        splat_footprint(ix, iy, splat_size, image_shape)[k1].2 < splat_footprint(
            ix,
            iy,
            splat_size,
            image_shape,
        )[k2].2,
{
    let fp = splat_footprint(ix, iy, splat_size, image_shape);
    let rows = window_span(iy, splat_size, image_shape.1 as i32);
    let cols = window_span(ix, splat_size, image_shape.0 as i32);
    let nc = span_len(cols);
    let w = image_shape.0 as int;
    lemma_splat_footprint_in_image(ix, iy, splat_size, image_shape, k1);
    lemma_splat_footprint_in_image(ix, iy, splat_size, image_shape, k2);
    assert(nc > 0) by (nonlinear_arith)
        requires
            0 <= k2 < span_len(rows) * nc,
            nc >= 0,
    ;
    vstd::arithmetic::div_mod::lemma_fundamental_div_mod(k1, nc);
    vstd::arithmetic::div_mod::lemma_fundamental_div_mod(k2, nc);
    let (r1, c1, r2, c2) = (k1 / nc, k1 % nc, k2 / nc, k2 % nc);
    let y1 = rows.0 + r1;
    let y2 = rows.0 + r2;
    let x1 = cols.0 + c1;
    let x2 = cols.0 + c2;
    assert(0 <= r1 && 0 <= r2) by (nonlinear_arith)
        requires
            0 <= k1,
            0 <= k2,
            nc > 0,
            r1 == k1 / nc,
            r2 == k2 / nc,
    ;
    assert(r1 < span_len(rows) && r2 < span_len(rows)) by (nonlinear_arith)
        requires
            k1 < span_len(rows) * nc,
            k2 < span_len(rows) * nc,
            k1 == nc * r1 + c1,
            k2 == nc * r2 + c2,
            0 <= c1 < nc,
            0 <= c2 < nc,
    ;
    assert(0 <= x1 < cols.1 <= i32::MAX && 0 <= x2 < cols.1);
    assert(0 <= y1 < rows.1 <= i32::MAX && 0 <= y2 < rows.1);
    assert(fp[k1].0 == x1 && fp[k1].1 == y1 && fp[k2].0 == x2 && fp[k2].1 == y2);
    if r1 > r2 {
        assert(nc * r1 >= nc * r2 + nc) by (nonlinear_arith)
            requires
                r1 >= r2 + 1,
                nc > 0,
        ;
    }
    assert(r1 <= r2);
    if r1 == r2 {
        assert(c1 < c2);
    } else {
        assert(y1 * w + w <= y2 * w) by (nonlinear_arith)
            requires
                y1 + 1 <= y2,
                w >= 0,
        ;
    }
}

/// The integer key by which `f32::total_cmp` orders a float with bit pattern
/// `bits`: the pattern itself for a clear sign bit, minus one minus the magnitude
/// bits for a set sign bit.
pub open spec fn total_order_key_of(bits: u32) -> int {
    if bits < 0x8000_0000 {
        bits as int
    } else {
        -1 - (bits - 0x8000_0000)
    }
}

/// Computes the total-order key of a float's bit pattern as `f32::total_cmp` does:
/// the pattern read as `i32`, with the low 31 bits flipped when the sign bit is set.
pub fn total_order_key(bits: u32) -> (key: i32)
    ensures
        key as int == total_order_key_of(bits),
{
    let left = #[verifier::truncate] (bits as i32);
    let key = left ^ (#[verifier::truncate] ((((left >> 31u32) as u32) >> 1u32) as i32));
    assert(bits < 0x8000_0000 ==> key == bits) by (bit_vector)
        requires
            left == bits as i32,
            key == left ^ ((((left >> 31u32) as u32) >> 1u32) as i32),
    ;
    assert(bits >= 0x8000_0000 ==> key == -1 - (bits - 0x8000_0000)) by (bit_vector)
        requires
            left == bits as i32,
            key == left ^ ((((left >> 31u32) as u32) >> 1u32) as i32),
    ;
    key
}

/// Splat `i` is drawn no later than splat `j`: it is deeper (smaller key), or as
/// deep and not after it in the input.
pub open spec fn depth_le(keys: Seq<i32>, i: usize, j: usize) -> bool {
    keys[i as int] < keys[j as int] || (keys[i as int] == keys[j as int] && i <= j)
}

/// `depth_le` as a relation.
pub open spec fn depth_order(keys: Seq<i32>) -> spec_fn(usize, usize) -> bool {
    |i: usize, j: usize| depth_le(keys, i, j)
}

/// The indices `0, 1, ..., n - 1`.
pub open spec fn index_range(n: nat) -> Seq<usize> {
    Seq::new(n, |i: int| i as usize)
}

/// Ordering by depth, ties broken by index, is a total order on indices.
pub proof fn lemma_depth_order_total(keys: Seq<i32>)
    ensures
        total_ordering(depth_order(keys)),
{
}

/// All indices of `v` are below `n`.
pub open spec fn indices_below(v: Seq<usize>, n: nat) -> bool {
    forall|k: int| 0 <= k < v.len() ==> #[trigger] v[k] < n
}

fn merge_by_depth(keys: &[i32], a: Vec<usize>, b: Vec<usize>) -> (r: Vec<usize>)
    requires
        sorted_by(a@, depth_order(keys@)),
        sorted_by(b@, depth_order(keys@)),
        indices_below(a@, keys@.len()),
        indices_below(b@, keys@.len()),
    ensures
        sorted_by(r@, depth_order(keys@)),
        indices_below(r@, keys@.len()),
        r@.to_multiset() == a@.to_multiset().add(b@.to_multiset()),
{
    broadcast use vstd::seq_lib::group_to_multiset_ensures, vstd::multiset::group_multiset_axioms;
    let ghost le = depth_order(keys@);
    let mut r: Vec<usize> = Vec::new();
    let mut i: usize = 0;
    let mut j: usize = 0;
    let na = a.len();
    let nb = b.len();
    assert(a@.take(0) =~= Seq::<usize>::empty());
    assert(b@.take(0) =~= Seq::<usize>::empty());
    while i < na || j < nb
        invariant
            le == depth_order(keys@),
            na == a@.len(),
            nb == b@.len(),
            i <= na,
            j <= nb,
            sorted_by(a@, le),
            sorted_by(b@, le),
            sorted_by(r@, le),
            indices_below(a@, keys@.len()),
            indices_below(b@, keys@.len()),
            indices_below(r@, keys@.len()),
            r@.len() == i + j,
            r@.to_multiset() == a@.take(i as int).to_multiset().add(b@.take(j as int).to_multiset()),
            forall|k: int, m: int| 0 <= k < r@.len() && i <= m < na ==> le(#[trigger] r@[k], #[trigger] a@[m]),
            forall|k: int, m: int| 0 <= k < r@.len() && j <= m < nb ==> le(#[trigger] r@[k], #[trigger] b@[m]),
        decreases na + nb - i - j,
    {
        let take_a = if i < na && j < nb {
            let x = a[i];
            let y = b[j];
            keys_le(keys, x, y)
        } else {
            i < na
        };
        if take_a {
            let x = a[i];
            proof {
                assert(a@.take(i + 1) =~= a@.take(i as int).push(x));
                assert forall|m: int| j <= m < nb implies le(x, #[trigger] b@[m]) by {
                    assert(le(b@[j as int], b@[m]) || m == j);
                }
            }
            let ghost before = r@;
            r.push(x);
            assert(r@ == before.push(x));
            proof {
                vstd::seq_lib::to_multiset_build(before, x);
                vstd::seq_lib::to_multiset_build(a@.take(i as int), x);
            }
            assert(r@.to_multiset() =~= a@.take(i + 1).to_multiset().add(b@.take(j as int).to_multiset()));
            i = i + 1;
        } else {
            let y = b[j];
            proof {
                assert(b@.take(j + 1) =~= b@.take(j as int).push(y));
                assert forall|m: int| i <= m < na implies le(y, #[trigger] a@[m]) by {
                    assert(le(a@[i as int], a@[m]) || m == i);
                    assert(le(y, a@[i as int]));
                }
            }
            let ghost before = r@;
            r.push(y);
            assert(r@ == before.push(y));
            proof {
                vstd::seq_lib::to_multiset_build(before, y);
                vstd::seq_lib::to_multiset_build(b@.take(j as int), y);
            }
            assert(r@.to_multiset() =~= a@.take(i as int).to_multiset().add(b@.take(j + 1).to_multiset()));
            j = j + 1;
        }
    }
    assert(a@.take(na as int) =~= a@);
    assert(b@.take(nb as int) =~= b@);
    r
}

/// Whether splat `x` is drawn no later than splat `y`.
fn keys_le(keys: &[i32], x: usize, y: usize) -> (b: bool)
    requires
        x < keys@.len(),
        y < keys@.len(),
    ensures
        b == depth_le(keys@, x, y),
{
    keys[x] < keys[y] || (keys[x] == keys[y] && x <= y)
}

fn sort_by_depth(keys: &[i32], v: &[usize]) -> (r: Vec<usize>)
    requires
        indices_below(v@, keys@.len()),
    ensures
        sorted_by(r@, depth_order(keys@)),
        indices_below(r@, keys@.len()),
        r@.to_multiset() == v@.to_multiset(),
    decreases v@.len(),
{
    let n = v.len();
    if n <= 1 {
        let mut r: Vec<usize> = Vec::new();
        if n == 1 {
            r.push(v[0]);
        }
        assert(r@ =~= v@);
        return r;
    }
    let mid = n / 2;
    let left = vstd::slice::slice_subrange(v, 0, mid);
    let right = vstd::slice::slice_subrange(v, mid, n);
    proof {
        assert(v@ =~= left@ + right@);
        vstd::seq_lib::lemma_multiset_commutative(left@, right@);
    }
    let left_sorted = sort_by_depth(keys, left);
    let right_sorted = sort_by_depth(keys, right);
    merge_by_depth(keys, left_sorted, right_sorted)
}

/// The order in which splats are blended back to front: the splat indices
/// `0..keys.len()` sorted by depth key, ties kept in index order, as a stable sort
/// by key does. It is the unique such ordering: `index_range(n)` sorted by
/// `depth_order(keys)`.
pub fn depth_sorted_indices(keys: &[i32]) -> (order: Vec<usize>)
    ensures
        order@.len() == keys@.len(),
        sorted_by(order@, depth_order(keys@)),
        order@.to_multiset() == index_range(keys@.len()).to_multiset(),
        order@ == index_range(keys@.len()).sort_by(depth_order(keys@)),
{
    let n = keys.len();
    let mut idx: Vec<usize> = Vec::new();
    let mut i: usize = 0;
    while i < n
        invariant
            i <= n,
            n == keys@.len(),
            idx@ =~= index_range(i as nat),
        decreases n - i,
    {
        idx.push(i);
        i = i + 1;
    }
    let order = sort_by_depth(keys, idx.as_slice());
    proof {
        broadcast use vstd::seq_lib::group_to_multiset_ensures;
        let le = depth_order(keys@);
        assert(order@.len() == order@.to_multiset().len());
        assert(idx@.len() == idx@.to_multiset().len());
        lemma_depth_order_total(keys@);
        index_range(n as nat).lemma_sort_by_ensures(le);
        vstd::seq_lib::lemma_sorted_unique(order@, index_range(n as nat).sort_by(le), le);
    }
    order
}

/// In the depth order every splat is blended exactly once, and deeper splats come
/// first.
pub proof fn lemma_depth_order_blends_each_once(keys: Seq<i32>, k: usize, i: int, j: int)
    requires
        keys.len() <= usize::MAX,
        k < keys.len(),
    ensures
        index_range(keys.len()).sort_by(depth_order(keys)).to_multiset().count(k) == 1,
        0 <= i < j < keys.len() ==> keys[index_range(keys.len()).sort_by(depth_order(keys))[i] as int]
            <= keys[index_range(keys.len()).sort_by(depth_order(keys))[j] as int],
{
    broadcast use vstd::seq_lib::group_to_multiset_ensures;
    let r = index_range(keys.len());
    let le = depth_order(keys);
    lemma_depth_order_total(keys);
    r.lemma_sort_by_ensures(le);
    assert forall|a: int, b: int| 0 <= a < r.len() && 0 <= b < r.len() && a != b implies r[a]
        != r[b] by {
        assert(r[a] == a && r[b] == b);
    }
    assert(r.no_duplicates());
    r.lemma_multiset_has_no_duplicates();
    assert(r[k as int] == k);
    assert(r.contains(k));
    if 0 <= i < j < keys.len() {
        let sorted = r.sort_by(le);
        assert(sorted.len() == sorted.to_multiset().len());
        assert(r.len() == r.to_multiset().len());
        assert(le(sorted[i], sorted[j]));
    }
}

} // verus!
