use render_core::grid_mesh::make_triangle_mesh_tri2vtx;
use render_core::morton::int_coord_from_morton;

#[test]
fn morton_decodes_even_bits() {
    assert_eq!(int_coord_from_morton(0), 0);
    assert_eq!(int_coord_from_morton(1), 1);
    assert_eq!(int_coord_from_morton(2), 0);
    assert_eq!(int_coord_from_morton(3), 1);
    assert_eq!(int_coord_from_morton(4), 2);
    assert_eq!(int_coord_from_morton(5), 3);
    assert_eq!(int_coord_from_morton(0x5555), 255);
    assert_eq!(int_coord_from_morton(0xAAAA), 0);
    assert_eq!(int_coord_from_morton(0xFFFF), 255);
}

#[test]
fn morton_visits_every_cell_of_a_16_by_16_grid_once() {
    let mut seen = vec![false; 256];
    for q in 0u16..256 {
        let x = int_coord_from_morton(q);
        let y = int_coord_from_morton(q >> 1);
        assert!(x < 16 && y < 16);
        assert!(!seen[y * 16 + x]);
        seen[y * 16 + x] = true;
    }
    assert!(seen.iter().all(|&s| s));
}

#[test]
fn level_zero_mesh_is_one_cell() {
    let tri2vtx = make_triangle_mesh_tri2vtx(0);
    assert_eq!(tri2vtx, vec![[0, 1, 3], [0, 3, 2]]);
}

#[test]
fn level_one_mesh_cells() {
    let tri2vtx = make_triangle_mesh_tri2vtx(1);
    assert_eq!(tri2vtx.len(), 8);
    // cell (x, y) is stored at slots 2 (2 y + x) and 2 (2 y + x) + 1; rows of 3 vertices
    assert_eq!(tri2vtx[0], [0, 1, 4]);
    assert_eq!(tri2vtx[1], [0, 4, 3]);
    assert_eq!(tri2vtx[2], [1, 2, 5]);
    assert_eq!(tri2vtx[3], [1, 5, 4]);
    assert_eq!(tri2vtx[4], [3, 4, 7]);
    assert_eq!(tri2vtx[5], [3, 7, 6]);
    assert_eq!(tri2vtx[6], [4, 5, 8]);
    assert_eq!(tri2vtx[7], [4, 8, 7]);
}

#[test]
fn level_seven_mesh_covers_every_cell_with_valid_corners() {
    let n = 7usize;
    let div = 1usize << n;
    let size = div + 1;
    let tri2vtx = make_triangle_mesh_tri2vtx(n);
    assert_eq!(tri2vtx.len(), 2 * div * div);
    for y in 0..div {
        for x in 0..div {
            let j = 2 * (y * div + x);
            assert_eq!(tri2vtx[j], [y * size + x, y * size + x + 1, (y + 1) * size + x + 1]);
            assert_eq!(tri2vtx[j + 1], [y * size + x, (y + 1) * size + x + 1, (y + 1) * size + x]);
        }
    }
    for tri in &tri2vtx {
        assert!(tri.iter().all(|&v| v < size * size));
    }
}

#[test]
fn level_nine_mesh_only_reaches_the_first_256_columns() {
    // quad indices are truncated to 16 bits, so columns and rows past 255 are never written
    let tri2vtx = make_triangle_mesh_tri2vtx(9);
    let div = 512usize;
    let size = div + 1;
    assert_eq!(tri2vtx.len(), 2 * div * div);
    assert_eq!(tri2vtx[2 * (3 * div + 7)], [3 * size + 7, 3 * size + 8, 4 * size + 8]);
    assert_eq!(tri2vtx[2 * 300], [0, 0, 0]);
    assert_eq!(tri2vtx[2 * (400 * div + 5) + 1], [0, 0, 0]);
}
