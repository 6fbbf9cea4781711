//! Triangle connectivity of the square grid mesh whose quads are visited in
//! Morton order.

use vstd::prelude::*;
use crate::morton::{int_coord_from_morton, morton_decode, morton_encode};

verus! {

/// Number of grid cells along one edge of the mesh built at level `n`: `2^n`.
pub open spec fn lev_div(n: nat) -> nat
    decreases n,
{
    if n == 0 {
        1
    } else {
        2 * lev_div((n - 1) as nat)
    }
}

/// Number of vertices along one edge of the grid.
pub open spec fn lev_size(n: nat) -> nat {
    lev_div(n) + 1
}

/// Number of quads (grid cells).
pub open spec fn lev_num_quads(n: nat) -> nat {
    lev_div(n) * lev_div(n)
}

/// Number of triangles: two per quad.
pub open spec fn lev_num_tris(n: nat) -> nat {
    2 * lev_num_quads(n)
}

/// Number of vertices of the grid.
pub open spec fn lev_num_vtx(n: nat) -> nat {
    lev_size(n) * lev_size(n)
}

/// Column of the cell visited as quad `q`: the even bits of the low 16 bits of `q`.
pub open spec fn quad_x(q: usize) -> nat {
    morton_decode(q as u16) as nat
}

/// Row of the cell visited as quad `q`: the odd bits of the low 17 bits of `q`.
pub open spec fn quad_y(q: usize) -> nat {
    morton_decode((q >> 1usize) as u16) as nat
}

/// Index of the first of the two triangles that cell `(x, y)` is stored at.
pub open spec fn cell_slot(n: nat, x: nat, y: nat) -> nat {
    2 * (y * lev_div(n) + x)
}

/// First triangle of cell `(x, y)`: its lower-left, lower-right and upper-right corners.
pub open spec fn lower_tri(n: nat, x: nat, y: nat) -> [usize; 3] {
    let s = lev_size(n);
    [(y * s + x) as usize, (y * s + (x + 1)) as usize, ((y + 1) * s + (x + 1)) as usize]
}

/// Second triangle of cell `(x, y)`: its lower-left, upper-right and upper-left corners.
pub open spec fn upper_tri(n: nat, x: nat, y: nat) -> [usize; 3] {
    let s = lev_size(n);
    [(y * s + x) as usize, ((y + 1) * s + (x + 1)) as usize, ((y + 1) * s + x) as usize]
}

/// The triangle table after the first `k` quads have been written, starting from a
/// table of `lev_num_tris(n)` triangles `[0, 0, 0]`.
pub open spec fn tri_table(n: nat, k: nat) -> Seq<[usize; 3]>
    decreases k,
{
    if k == 0 {
        Seq::new(lev_num_tris(n), |i: int| [0usize, 0usize, 0usize])
    } else {
        let q = (k - 1) as usize;
        let x = quad_x(q);
        let y = quad_y(q);
        let j = cell_slot(n, x, y) as int;
        tri_table(n, (k - 1) as nat).update(j, lower_tri(n, x, y)).update(j + 1, upper_tri(n, x, y))
    }
}

/// `lev_div` grows with the level.
pub proof fn lemma_lev_div_monotone(i: nat, j: nat)
    requires
        i <= j,
    ensures
        1 <= lev_div(i) <= lev_div(j),
    decreases j,
{
    if j > 0 {
        if i == j {
            lemma_lev_div_monotone((j - 1) as nat, (j - 1) as nat);
        } else {
            lemma_lev_div_monotone(i, (j - 1) as nat);
        }
    }
}

/// Concrete values of `lev_div` at the levels that bound the grids built here.
pub proof fn lemma_lev_div_landmarks()
    ensures
        lev_div(8) == 256,
        lev_div(15) == 32768,
{
    reveal_with_fuel(lev_div, 16);
}

/// For levels up to 8, `lev_div` is the 16-bit shift `1 << n` and the number of
/// quads is the 32-bit shift `1 << 2n`.
pub proof fn lemma_lev_div_shift(n: u16)
    requires
        n <= 8,
    ensures
        lev_div(n as nat) == (1u16 << n) as nat,
        lev_num_quads(n as nat) == (1u32 << (2 * n)) as nat,
    decreases n,
{
    if n == 0 {
        assert((1u16 << 0u16) == 1 && (1u32 << (2 * 0u16)) == 1) by (bit_vector);
    } else {
        lemma_lev_div_shift((n - 1) as u16);
        let m = (n - 1) as u16;
        assert(1 <= n <= 8 && m == n - 1 ==> (1u16 << n) == 2 * (1u16 << m)) by (bit_vector);
        assert(n <= 8 ==> (1u32 << (2 * n)) == ((1u16 << n) as u32) * ((1u16 << n) as u32))
            by (bit_vector);
    }
}

/// Every quad index below the number of quads names a cell of the grid, at every
/// level up to 15.
pub proof fn lemma_quad_in_grid(n: nat, q: usize)
    requires
        n <= 15,
        q < lev_num_quads(n),
    ensures
        quad_x(q) < lev_div(n),
        quad_y(q) < lev_div(n),
{
    lemma_lev_div_landmarks();
    crate::morton::lemma_morton_decode_lt_256(q as u16);
    crate::morton::lemma_morton_decode_lt_256((q >> 1usize) as u16);
    if n >= 8 {
        lemma_lev_div_monotone(8, n);
    } else {
        lemma_lev_div_monotone(n, 8);
        lemma_lev_div_shift(n as u16);
        let d = lev_div(n);
        assert(d * d <= 256 * 256) by (nonlinear_arith)
            requires
                d <= 256,
        ;
        lemma_small_quad_cast(q);
        crate::morton::lemma_morton_bounds(q as u16, 0, 0, n as u16);
    }
}

/// Below 65536 the 16-bit truncations of `q` and of `q >> 1` are exact.
proof fn lemma_small_quad_cast(q: usize)
    requires
        q < 65536,
    ensures
        (q as u16) as nat == q as nat,
        (q >> 1usize) as u16 == (q as u16) >> 1u16,
{
    assert(q < 65536 ==> (q >> 1usize) as u16 == (q as u16) >> 1u16) by (bit_vector);
}

/// Up to level 8 no two quads below the number of quads visit the same cell.
pub proof fn lemma_quad_injective(n: nat, q1: usize, q2: usize)
    requires
        n <= 8,
        q1 < lev_num_quads(n),
        q2 < lev_num_quads(n),
        quad_x(q1) == quad_x(q2),
        quad_y(q1) == quad_y(q2),
    ensures
        q1 == q2,
{
    lemma_lev_div_monotone(n, 8);
    lemma_lev_div_landmarks();
    assert(lev_div(n) * lev_div(n) <= 256 * 256) by (nonlinear_arith)
        requires
            lev_div(n) <= 256,
    ;
    lemma_small_quad_cast(q1);
    lemma_small_quad_cast(q2);
    crate::morton::lemma_morton_encode_decode(q1 as u16);
    crate::morton::lemma_morton_encode_decode(q2 as u16);
}

/// Up to level 8 every cell of the grid is visited by some quad below the number
/// of quads.
pub proof fn lemma_quad_surjective(n: nat, x: nat, y: nat) -> (q: usize)
    requires
        n <= 8,
        x < lev_div(n),
        y < lev_div(n),
    ensures
        q < lev_num_quads(n),
        quad_x(q) == x,
        quad_y(q) == y,
{
    lemma_lev_div_monotone(n, 8);
    lemma_lev_div_landmarks();
    lemma_lev_div_shift(n as u16);
    let c = morton_encode(x as u16, y as u16);
    crate::morton::lemma_morton_decode_encode(x as u16, y as u16);
    crate::morton::lemma_morton_bounds(0, x as u16, y as u16, n as u16);
    let q = c as usize;
    lemma_small_quad_cast(q);
    q
}

/// Distinct cells of the grid own distinct pairs of triangle slots, all below the
/// number of triangles.
pub proof fn lemma_cell_slot(n: nat, x1: nat, y1: nat, x2: nat, y2: nat)
    requires
        x1 < lev_div(n),
        y1 < lev_div(n),
        x2 < lev_div(n),
        y2 < lev_div(n),
    ensures
        cell_slot(n, x1, y1) + 1 < lev_num_tris(n),
        cell_slot(n, x1, y1) == cell_slot(n, x2, y2) ==> x1 == x2 && y1 == y2,
{
    let d = lev_div(n);
    assert(y1 * d + x1 < d * d) by (nonlinear_arith)
        requires
            x1 < d,
            y1 < d,
    ;
    if y1 * d + x1 == y2 * d + x2 {
        assert(y1 == y2 && x1 == x2) by (nonlinear_arith)
            requires
                y1 * d + x1 == y2 * d + x2,
                x1 < d,
                x2 < d,
        ;
    }
}

/// The corners of both triangles of a grid cell are vertices of the grid.
pub proof fn lemma_cell_corners(n: nat, x: nat, y: nat)
    requires
        x < lev_div(n),
        y < lev_div(n),
    ensures
        (y + 1) * lev_size(n) + (x + 1) < lev_num_vtx(n),
        y * lev_size(n) + x < (y + 1) * lev_size(n) + x,
        (y + 1) * lev_size(n) + x < (y + 1) * lev_size(n) + (x + 1),
        y * lev_size(n) + x < y * lev_size(n) + (x + 1),
        y * lev_size(n) + (x + 1) < (y + 1) * lev_size(n) + (x + 1),
{
    let s = lev_size(n);
    assert((y + 1) * s + (x + 1) < s * s) by (nonlinear_arith)
        requires
            x + 1 < s,
            y + 1 < s,
    ;
    assert((y + 1) * s == y * s + s) by (nonlinear_arith);
}

/// Builds the triangle connectivity of the grid mesh of level `num_lev`: a square of
/// `2^num_lev x 2^num_lev` cells over `(2^num_lev + 1)^2` vertices numbered row by row.
/// The quads are visited in Morton order, the column and row of quad `q` being decoded
/// from the low 16 bits of `q` and of `q >> 1`; each visit writes the cell's two
/// triangles into the slots `2 (row * 2^num_lev + column)` and the one after it, over
/// a table that starts out as `lev_num_tris(num_lev)` triangles `[0, 0, 0]`.
pub fn make_triangle_mesh_tri2vtx(num_lev: usize) -> (tri2vtx: Vec<[usize; 3]>)
    requires
        num_lev <= 15,
    ensures
        tri2vtx@ == tri_table(num_lev as nat, lev_num_quads(num_lev as nat)),
{
    let ghost n = num_lev as nat;
    let mut num_div: usize = 1;
    let mut i: usize = 0;
    while i < num_lev
        invariant
            i <= num_lev <= 15,
            num_div == lev_div(i as nat),
        decreases num_lev - i,
    {
        proof {
            lemma_lev_div_monotone((i + 1) as nat, 15);
            lemma_lev_div_landmarks();
        }
        num_div = num_div * 2;
        i = i + 1;
    }
    proof {
        lemma_lev_div_monotone(n, 15);
        lemma_lev_div_landmarks();
    }
    let size = num_div + 1;
    assert(num_div * num_div <= 32768 * 32768) by (nonlinear_arith)
        requires
            num_div <= 32768,
    ;
    let num_quad = num_div * num_div;
    let num_tri = num_quad * 2;
    assert(size * size <= 32769 * 32769) by (nonlinear_arith)
        requires
            size <= 32769,
    ;
    let mut tri2vtx: Vec<[usize; 3]> = Vec::new();
    let mut k: usize = 0;
    while k < num_tri
        invariant
            k <= num_tri,
            tri2vtx@ =~= Seq::new(k as nat, |j: int| [0usize, 0usize, 0usize]),
        decreases num_tri - k,
    {
        tri2vtx.push([0usize, 0usize, 0usize]);
        k = k + 1;
    }
    assert(tri2vtx@ =~= tri_table(n, 0));
    let mut i_quad: usize = 0;
    while i_quad < num_quad
        invariant
            n == num_lev,
            n <= 15,
            i_quad <= num_quad,
            num_div == lev_div(n),
            size == lev_size(n),
            num_quad == lev_num_quads(n),
            num_quad == num_div * num_div,
            num_tri == 2 * num_quad,
            size * size == lev_num_vtx(n),
            size * size <= 32769 * 32769,
            tri2vtx@ == tri_table(n, i_quad as nat),
            tri2vtx@.len() == lev_num_tris(n),
        decreases num_quad - i_quad,
    {
        let i_w = int_coord_from_morton(#[verifier::truncate] (i_quad as u16));
        let i_h = int_coord_from_morton(#[verifier::truncate] ((i_quad >> 1usize) as u16));
        proof {
            lemma_quad_in_grid(n, i_quad);
            lemma_cell_slot(n, i_w as nat, i_h as nat, i_w as nat, i_h as nat);
            lemma_cell_corners(n, i_w as nat, i_h as nat);
            assert(i_h * num_div + i_w < num_div * num_div) by (nonlinear_arith)
                requires
                    i_h < num_div,
                    i_w < num_div,
            ;
            assert((i_h + 1) * size + (i_w + 1) < size * size) by (nonlinear_arith)
                requires
                    i_h + 1 < size,
                    i_w + 1 < size,
            ;
            assert((i_h + 1) * size == i_h * size + size) by (nonlinear_arith);
        }
        let i0_tri = (i_h * num_div + i_w) * 2;
        tri2vtx.set(i0_tri, [i_h * size + i_w, i_h * size + (i_w + 1), (i_h + 1) * size + (i_w + 1)]);
        let i1_tri = i0_tri + 1;
        tri2vtx.set(i1_tri, [i_h * size + i_w, (i_h + 1) * size + (i_w + 1), (i_h + 1) * size + i_w]);
        i_quad = i_quad + 1;
    }
    tri2vtx
}

/// Writing quads never changes the number of triangles of the table.
pub proof fn lemma_tri_table_len(n: nat, k: nat)
    requires
        n <= 15,
        k <= lev_num_quads(n),
    ensures
        tri_table(n, k).len() == lev_num_tris(n),
    decreases k,
{
    if k > 0 {
        lemma_tri_table_len(n, (k - 1) as nat);
        let p = (k - 1) as usize;
        lemma_quad_in_grid(n, p);
        lemma_cell_slot(n, quad_x(p), quad_y(p), quad_x(p), quad_y(p));
    }
}

/// Up to level 8, once quad `q` has been visited its two triangles stay in place.
proof fn lemma_tri_table_keeps(n: nat, k: nat, q: usize)
    requires
        n <= 8,
        q < k <= lev_num_quads(n),
    ensures
        tri_table(n, k)[cell_slot(n, quad_x(q), quad_y(q)) as int] == lower_tri(n, quad_x(q), quad_y(q)),
        tri_table(n, k)[cell_slot(n, quad_x(q), quad_y(q)) + 1int] == upper_tri(n, quad_x(q), quad_y(q)),
    decreases k,
{
    lemma_lev_div_monotone(n, 8);
    lemma_tri_table_len(n, (k - 1) as nat);
    let p = (k - 1) as usize;
    lemma_quad_in_grid(n, p);
    lemma_quad_in_grid(n, q);
    lemma_cell_slot(n, quad_x(p), quad_y(p), quad_x(q), quad_y(q));
    lemma_cell_slot(n, quad_x(q), quad_y(q), quad_x(p), quad_y(p));
    if q < k - 1 {
        lemma_tri_table_keeps(n, (k - 1) as nat, q);
        if quad_x(p) == quad_x(q) && quad_y(p) == quad_y(q) {
            lemma_quad_injective(n, p, q);
        }
    }
}

/// Up to level 8 the mesh covers the whole grid: cell `(x, y)` holds its two
/// triangles at slots `2 (y 2^n + x)` and `2 (y 2^n + x) + 1`, and each of them has
/// three distinct corners.
pub proof fn lemma_grid_mesh_covers_every_cell(n: nat, x: nat, y: nat)
    requires
        n <= 8,
        x < lev_div(n),
        y < lev_div(n),
    ensures
        tri_table(n, lev_num_quads(n))[cell_slot(n, x, y) as int] == lower_tri(n, x, y),
        tri_table(n, lev_num_quads(n))[cell_slot(n, x, y) + 1int] == upper_tri(n, x, y),
        lower_tri(n, x, y)[0] != lower_tri(n, x, y)[1] && lower_tri(n, x, y)[1] != lower_tri(n, x, y)[2]
            && lower_tri(n, x, y)[0] != lower_tri(n, x, y)[2],
        upper_tri(n, x, y)[0] != upper_tri(n, x, y)[1] && upper_tri(n, x, y)[1] != upper_tri(n, x, y)[2]
            && upper_tri(n, x, y)[0] != upper_tri(n, x, y)[2],
{
    let q = lemma_quad_surjective(n, x, y);
    lemma_tri_table_keeps(n, lev_num_quads(n), q);
    lemma_cell_corners(n, x, y);
    lemma_lev_div_monotone(n, 15);
    lemma_lev_div_landmarks();
    let s = lev_size(n);
    assert(s * s <= 32769 * 32769) by (nonlinear_arith)
        requires
            s <= 32769,
    ;
}

/// At every level up to 15, every corner of every triangle of the mesh is a vertex
/// of the grid.
pub proof fn lemma_grid_mesh_vertex_indices(n: nat, j: int)
    requires
        n <= 15,
        0 <= j < lev_num_tris(n),
    ensures
        tri_table(n, lev_num_quads(n))[j][0] < lev_num_vtx(n),
        tri_table(n, lev_num_quads(n))[j][1] < lev_num_vtx(n),
        tri_table(n, lev_num_quads(n))[j][2] < lev_num_vtx(n),
{
    lemma_tri_table_corners(n, lev_num_quads(n), j);
}

proof fn lemma_tri_table_corners(n: nat, k: nat, j: int)
    requires
        n <= 15,
        k <= lev_num_quads(n),
        0 <= j < lev_num_tris(n),
    ensures
        tri_table(n, k)[j][0] < lev_num_vtx(n),
        tri_table(n, k)[j][1] < lev_num_vtx(n),
        tri_table(n, k)[j][2] < lev_num_vtx(n),
    decreases k,
{
    lemma_lev_div_monotone(n, 15);
    lemma_lev_div_landmarks();
    let s = lev_size(n);
    assert(s * s <= 32769 * 32769) by (nonlinear_arith)
        requires
            s <= 32769,
    ;
    assert(1 <= s * s) by (nonlinear_arith)
        requires
            1 <= s,
    ;
    if k > 0 {
        let p = (k - 1) as usize;
        lemma_quad_in_grid(n, p);
        lemma_cell_corners(n, quad_x(p), quad_y(p));
        lemma_tri_table_len(n, (k - 1) as nat);
        lemma_cell_slot(n, quad_x(p), quad_y(p), quad_x(p), quad_y(p));
        let slot = cell_slot(n, quad_x(p), quad_y(p)) as int;
        if j != slot && j != slot + 1 {
            lemma_tri_table_corners(n, (k - 1) as nat, j);
        }
    }
}

} // verus!
