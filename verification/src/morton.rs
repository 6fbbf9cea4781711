//! Morton (Z-order) decoding of quad indices.

use vstd::prelude::*;

verus! {

/// Bit `k` of `v`.
pub open spec fn bit(v: u16, k: u16) -> u16 {
    (v >> k) & 1
}

/// The Morton code of the grid cell `(x, y)`: the bits of `x` go to the even
/// positions, the bits of `y` to the odd positions.
pub open spec fn morton_encode(x: u16, y: u16) -> u16 {
    ((x & 0x01) | ((x & 0x02) << 1) | ((x & 0x04) << 2) | ((x & 0x08) << 3)
        | ((x & 0x10) << 4) | ((x & 0x20) << 5) | ((x & 0x40) << 6) | ((x & 0x80) << 7))
    | (((y & 0x01) | ((y & 0x02) << 1) | ((y & 0x04) << 2) | ((y & 0x08) << 3)
        | ((y & 0x10) << 4) | ((y & 0x20) << 5) | ((y & 0x40) << 6) | ((y & 0x80) << 7)) << 1)
}

/// The coordinate held in the even bits of a Morton code.
pub open spec fn morton_decode(q: u16) -> u16 {
    (q & 0x0001) | ((q & 0x0004) >> 1) | ((q & 0x0010) >> 2) | ((q & 0x0040) >> 3)
        | ((q & 0x0100) >> 4) | ((q & 0x0400) >> 5) | ((q & 0x1000) >> 6) | ((q & 0x4000) >> 7)
}

/// Decodes the coordinate stored in the even bits of the Morton code `i_quad`:
/// bit `k` of the result is bit `2 k` of `i_quad`, and the result is below 256.
pub fn int_coord_from_morton(i_quad: u16) -> (r: usize)
    ensures
        r == morton_decode(i_quad),
        r < 256,
        forall|k: u16| k < 8 ==> #[trigger] bit(r as u16, k) == bit(i_quad, (2 * k) as u16),
{
    assert((i_quad & 0x0001) <= 0x01 && ((i_quad & 0x0004) >> 1) <= 0x02 && ((i_quad & 0x0010)
        >> 2) <= 0x04 && ((i_quad & 0x0040) >> 3) <= 0x08 && ((i_quad & 0x0100) >> 4) <= 0x10 && ((
    i_quad & 0x0400) >> 5) <= 0x20 && ((i_quad & 0x1000) >> 6) <= 0x40 && ((i_quad & 0x4000) >> 7)
        <= 0x80) by (bit_vector);
    let r: u16 = (i_quad & 0x0001) + ((i_quad & 0x0004) >> 1) + ((i_quad & 0x0010) >> 2) + ((
    i_quad & 0x0040) >> 3) + ((i_quad & 0x0100) >> 4) + ((i_quad & 0x0400) >> 5) + ((i_quad
        & 0x1000) >> 6) + ((i_quad & 0x4000) >> 7);
    assert(r == morton_decode(i_quad) && r < 256) by (bit_vector)
        requires
            r == (i_quad & 0x0001) + ((i_quad & 0x0004) >> 1) + ((i_quad & 0x0010) >> 2) + ((
            i_quad & 0x0040) >> 3) + ((i_quad & 0x0100) >> 4) + ((i_quad & 0x0400) >> 5) + ((
            i_quad & 0x1000) >> 6) + ((i_quad & 0x4000) >> 7),
    ;
    proof {
        lemma_decode_bits(i_quad);
    }
    r as usize
}

/// Bit `k` of the decoded coordinate is bit `2 k` of the code.
pub proof fn lemma_decode_bits(q: u16)
    ensures
        forall|k: u16| k < 8 ==> #[trigger] bit(morton_decode(q), k) == bit(q, (2 * k) as u16),
{
    assert forall|k: u16| k < 8 implies #[trigger] bit(morton_decode(q), k) == bit(q, (2 * k) as u16) by {
        let d = morton_decode(q);
        assert(d == morton_decode(q));
        if k == 0 {
            assert(bit(d, 0) == bit(q, 0)) by (bit_vector) requires d == morton_decode(q);
        } else if k == 1 {
            assert(bit(d, 1) == bit(q, 2)) by (bit_vector) requires d == morton_decode(q);
        } else if k == 2 {
            assert(bit(d, 2) == bit(q, 4)) by (bit_vector) requires d == morton_decode(q);
        } else if k == 3 {
            assert(bit(d, 3) == bit(q, 6)) by (bit_vector) requires d == morton_decode(q);
        } else if k == 4 {
            assert(bit(d, 4) == bit(q, 8)) by (bit_vector) requires d == morton_decode(q);
        } else if k == 5 {
            assert(bit(d, 5) == bit(q, 10)) by (bit_vector) requires d == morton_decode(q);
        } else if k == 6 {
            assert(bit(d, 6) == bit(q, 12)) by (bit_vector) requires d == morton_decode(q);
        } else {
            assert(bit(d, 7) == bit(q, 14)) by (bit_vector) requires d == morton_decode(q);
        }
    }
}

/// Decoding inverts encoding: the cell `(x, y)` of a 256 x 256 grid is read back
/// from its Morton code, `x` from the even bits and `y` from the odd bits.
pub proof fn lemma_morton_decode_encode(x: u16, y: u16)
    requires
        x < 256,
        y < 256,
    ensures
        morton_decode(morton_encode(x, y)) == x,
        morton_decode(morton_encode(x, y) >> 1u16) == y,
{
    assert(x < 256 && y < 256 ==> morton_decode(morton_encode(x, y)) == x) by (bit_vector);
    assert(x < 256 && y < 256 ==> morton_decode(morton_encode(x, y) >> 1u16) == y) by (bit_vector);
}

/// Encoding inverts decoding: every 16-bit code is the code of the cell made of its
/// even bits and its odd bits.
pub proof fn lemma_morton_encode_decode(q: u16)
    ensures
        morton_encode(morton_decode(q), morton_decode(q >> 1u16)) == q,
{
    assert(morton_encode(morton_decode(q), morton_decode(q >> 1u16)) == q) by (bit_vector);
}

/// Codes below `4^k` are exactly the codes of the cells of the `2^k x 2^k` grid.
pub proof fn lemma_morton_bounds(q: u16, x: u16, y: u16, k: u16)
    requires
        k <= 8,
    ensures
        (q as u32) < (1u32 << (2 * k)) ==> morton_decode(q) < (1u16 << k) && morton_decode(q >> 1u16)
            < (1u16 << k),
        x < (1u16 << k) && y < (1u16 << k) ==> (morton_encode(x, y) as u32) < (1u32 << (2 * k)),
{
    assert(k <= 8 ==> ((q as u32) < (1u32 << (2 * k)) ==> morton_decode(q) < (1u16 << k)
        && morton_decode(q >> 1u16) < (1u16 << k))) by (bit_vector);
    assert(k <= 8 ==> (x < (1u16 << k) && y < (1u16 << k) ==> (morton_encode(x, y) as u32) < (1u32
        << (2 * k)))) by (bit_vector);
}

/// Every decoded coordinate is below 256.
pub proof fn lemma_morton_decode_lt_256(q: u16)
    ensures
        morton_decode(q) < 256,
{
    assert(morton_decode(q) < 256) by (bit_vector);
}

} // verus!
