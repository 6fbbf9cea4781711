use rand::SeedableRng;
use render_core::bvh::{build_bvh_nodes, bvh_visit, draw_key_weights, weighted_key, BvhNode};
use render_core::floor::checker_cell_is_even;
use render_core::splat::{depth_sorted_indices, splat_window_pixels, total_order_key};

#[test]
fn bvh_over_three_triangles() {
    let nodes = build_bvh_nodes(&[[0, 1, 2], [1, 2, 3], [2, 3, 4]]);
    let leaf = |t: usize| BvhNode { i_node_left: t, i_node_right: usize::MAX };
    assert_eq!(
        nodes,
        vec![
            BvhNode { i_node_left: 1, i_node_right: 2 },
            leaf(0),
            BvhNode { i_node_left: 3, i_node_right: 4 },
            leaf(1),
            leaf(2),
        ]
    );
    assert_eq!(BvhNode::default(), leaf(0));
    assert!(!nodes[0].is_leaf());
    assert!(nodes[1].is_leaf());
}

#[test]
fn bvh_leaves_hold_every_triangle_once() {
    for n in 1..40usize {
        let tris = vec![[0usize, 0, 0]; n];
        let nodes = build_bvh_nodes(&tris);
        assert_eq!(nodes.len(), 2 * n - 1);
        let mut stack = vec![0];
        let mut seen = Vec::new();
        while let Some(i) = stack.pop() {
            if let Some(t) = bvh_visit(&nodes, i, true, &mut stack) {
                seen.push(t);
            }
        }
        seen.sort();
        assert_eq!(seen, (0..n).collect::<Vec<_>>());
    }
}

#[test]
fn key_sums_weighted_left_indices() {
    let nodes = vec![
        BvhNode { i_node_left: 1, i_node_right: 2 },
        BvhNode { i_node_left: 5, i_node_right: usize::MAX },
        BvhNode { i_node_left: 7, i_node_right: usize::MAX },
    ];
    assert_eq!(weighted_key(&nodes, &[3, 0, 2]), Some(3 + 14));
    let big = vec![BvhNode { i_node_left: usize::MAX / 2, i_node_right: 0 }; 2];
    assert_eq!(weighted_key(&big, &[1, 1]), Some(usize::MAX - 1));
    assert_eq!(weighted_key(&big, &[3, 0]), None);
    assert_eq!(weighted_key(&big, &[2, 1]), None);
}

#[test]
fn traversal_descends_only_into_hit_boxes() {
    // root 0 with children 1 (leaf of triangle 4) and 2 (inner: 3, 4), leaves 3 and 4.
    let nodes = vec![
        BvhNode { i_node_left: 1, i_node_right: 2 },
        BvhNode { i_node_left: 4, i_node_right: usize::MAX },
        BvhNode { i_node_left: 3, i_node_right: 4 },
        BvhNode { i_node_left: 0, i_node_right: usize::MAX },
        BvhNode { i_node_left: 2, i_node_right: usize::MAX },
    ];
    let mut stack = vec![9];
    assert_eq!(bvh_visit(&nodes, 0, true, &mut stack), None);
    assert_eq!(stack, vec![9, 1, 2]);
    assert_eq!(bvh_visit(&nodes, 2, false, &mut stack), None);
    assert_eq!(stack, vec![9, 1, 2]);
    assert_eq!(bvh_visit(&nodes, 1, true, &mut stack), Some(4));
    assert_eq!(stack, vec![9, 1, 2]);
    assert_eq!(bvh_visit(&nodes, 1, false, &mut stack), None);

    // a whole traversal where every box is hit reaches every leaf once, right subtree first.
    let mut stack = vec![0];
    let mut tris = Vec::new();
    while let Some(i) = stack.pop() {
        if let Some(t) = bvh_visit(&nodes, i, true, &mut stack) {
            tris.push(t);
        }
    }
    assert_eq!(tris, vec![2, 0, 4]);
}

#[test]
fn drawn_weights_stay_in_range() {
    let mut rng = rand::rngs::StdRng::seed_from_u64(0);
    let weights = draw_key_weights(&mut rng, 1000);
    assert_eq!(weights.len(), 1000);
    assert!(weights.iter().all(|&w| w <= 3));
    assert!(weights.iter().any(|&w| w == 3) && weights.iter().any(|&w| w == 0));
}

#[test]
fn window_near_the_corner() {
    let pixels = splat_window_pixels(0, 1, 2, (3, 4));
    // rows -1..3 clipped to 0..3, columns -2..2 clipped to 0..2
    assert_eq!(
        pixels,
        vec![(0, 0, 0), (1, 0, 1), (0, 1, 3), (1, 1, 4), (0, 2, 6), (1, 2, 7)]
    );
    assert!(splat_window_pixels(100, 100, 24, (3, 4)).is_empty());
    assert!(splat_window_pixels(1, 1, 0, (3, 4)).is_empty());
}

#[test]
fn window_in_the_middle_has_full_size() {
    let pixels = splat_window_pixels(150, 150, 24, (300, 300));
    assert_eq!(pixels.len(), 48 * 48);
    assert_eq!(pixels[0], (126, 126, 126 * 300 + 126));
    assert_eq!(*pixels.last().unwrap(), (173, 173, 173 * 300 + 173));
}

#[test]
fn keys_order_floats_like_total_cmp() {
    let values = [
        f32::NEG_INFINITY, -1.0e30, -2.5, -1.0, -f32::MIN_POSITIVE, -0.0, 0.0, 1.0e-40,
        f32::MIN_POSITIVE, 0.5, 1.0, 3.0e38, f32::INFINITY, f32::NAN, -f32::NAN,
    ];
    for a in values.iter() {
        for b in values.iter() {
            let ka = total_order_key(a.to_bits());
            let kb = total_order_key(b.to_bits());
            assert_eq!(ka.cmp(&kb), a.total_cmp(b));
        }
    }
    assert_eq!(total_order_key(0), 0);
    assert_eq!(total_order_key(0x8000_0000), -1);
}

#[test]
fn depth_order_is_a_stable_sort() {
    let depths = [0.5f32, -1.0, 0.5, 2.0, -1.0, 0.0];
    let keys: Vec<i32> = depths.iter().map(|d| total_order_key(d.to_bits())).collect();
    assert_eq!(depth_sorted_indices(&keys), vec![1, 4, 5, 0, 2, 3]);
    let mut expected: Vec<usize> = (0..depths.len()).collect();
    expected.sort_by(|&i, &j| depths[i].total_cmp(&depths[j]));
    assert_eq!(depth_sorted_indices(&keys), expected);
    assert_eq!(depth_sorted_indices(&[]), Vec::<usize>::new());
    let many: Vec<i32> = (0..1000).map(|i| ((i * 7919) % 101) as i32 - 50).collect();
    let order = depth_sorted_indices(&many);
    let mut reference: Vec<usize> = (0..many.len()).collect();
    reference.sort_by_key(|&i| many[i]);
    assert_eq!(order, reference);
}

#[test]
fn checkerboard_cells() {
    assert!(checker_cell_is_even(0, 0));
    assert!(!checker_cell_is_even(1, 0));
    assert!(!checker_cell_is_even(-1, 0));
    assert!(checker_cell_is_even(-1, -1));
    assert!(checker_cell_is_even(-3, 5));
    assert!(!checker_cell_is_even(i32::MAX, 0));
}
