use render_core::tiles::{build_tile2idx_idx2tri, list_of_tiles_overlapping_pixel_rect, pixel_tile};

#[test]
fn tiles_of_a_rectangle() {
    // 100 x 50 image, 16-pixel tiles: 7 columns, 4 rows
    let tiles = list_of_tiles_overlapping_pixel_rect(10, 40, 5, 20, (100, 50), 16);
    assert_eq!(tiles, vec![0, 1, 2, 7, 8, 9]);
}

#[test]
fn rectangles_are_clamped_to_the_image() {
    let tiles = list_of_tiles_overlapping_pixel_rect(-30, 500, -7, 3, (100, 50), 16);
    assert_eq!(tiles, vec![0, 1, 2, 3, 4, 5, 6]);
    let reaching_in = list_of_tiles_overlapping_pixel_rect(99, 300, 0, 10, (100, 50), 16);
    assert_eq!(reaching_in, vec![6]);
    let inverted = list_of_tiles_overlapping_pixel_rect(40, 10, 0, 10, (100, 50), 16);
    assert!(inverted.is_empty());
    let zero = list_of_tiles_overlapping_pixel_rect(0, 10, 0, 10, (100, 50), 0);
    assert!(zero.is_empty());
}

#[test]
fn rectangles_off_the_image_meet_no_tile() {
    // 8 x 8 image, 4-pixel tiles: a box wholly right of the image
    assert!(list_of_tiles_overlapping_pixel_rect(12, 16, 2, 4, (8, 8), 4).is_empty());
    assert!(list_of_tiles_overlapping_pixel_rect(-5, -1, 2, 4, (8, 8), 4).is_empty());
    assert!(list_of_tiles_overlapping_pixel_rect(2, 4, 8, 9, (8, 8), 4).is_empty());
    assert!(list_of_tiles_overlapping_pixel_rect(2, 4, -9, -1, (8, 8), 4).is_empty());
    assert_eq!(list_of_tiles_overlapping_pixel_rect(7, 16, 2, 4, (8, 8), 4), vec![1, 3]);
}

#[test]
fn single_pixel_tiles() {
    let tiles = list_of_tiles_overlapping_pixel_rect(1, 2, 1, 2, (4, 4), 1);
    assert_eq!(tiles, vec![5, 6, 9, 10]);
}

#[test]
fn bins_list_the_triangles_of_each_tile() {
    // 100 x 50 image, 16-pixel tiles: 7 x 4 = 28 tiles
    let tri2tiles = vec![vec![0, 1, 7, 8], vec![8], vec![], vec![27, 8, 0]];
    let (offsets, idx2tri) = build_tile2idx_idx2tri(&tri2tiles, (100, 50), 16);
    assert_eq!(offsets.len(), 29);
    assert_eq!(offsets[0], 0);
    assert_eq!(*offsets.last().unwrap(), idx2tri.len());
    assert_eq!(&idx2tri[offsets[0]..offsets[1]], &[0, 3]);
    assert_eq!(&idx2tri[offsets[1]..offsets[2]], &[0]);
    assert_eq!(&idx2tri[offsets[7]..offsets[8]], &[0]);
    assert_eq!(&idx2tri[offsets[8]..offsets[9]], &[0, 1, 3]);
    assert_eq!(&idx2tri[offsets[27]..offsets[28]], &[3]);
    assert_eq!(&idx2tri[offsets[2]..offsets[3]], &[] as &[usize]);
    assert_eq!(idx2tri, vec![0, 3, 0, 0, 0, 1, 3, 3]);
    let (offsets, idx2tri) = build_tile2idx_idx2tri(&[], (100, 50), 16);
    assert_eq!(offsets, vec![0; 29]);
    assert!(idx2tri.is_empty());
}

#[test]
fn pixel_tiles_of_the_render_loop() {
    assert_eq!(pixel_tile(0, (512, 512), 16), (0, 0, 0));
    assert_eq!(pixel_tile(512 * 17 + 33, (512, 512), 16), (33, 17, 32 + 2));
    assert_eq!(pixel_tile(512 * 512 - 1, (512, 512), 16), (511, 511, 32 * 32 - 1));
    // width not a multiple of the tile size: rows use the truncated tile count
    assert_eq!(pixel_tile(100 * 20 + 99, (100, 50), 16), (99, 20, 6 + 6));
}
