use compression_image::merge::aux_is_leaf;
use compression_image::{Color, Grid, QuadTree};

fn color(r: u8, g: u8, b: u8, a: u8) -> Color {
    Color { r, g, b, a }
}

/// Builds a `width x height` grid from row-major colors.
fn grid_of(width: u32, height: u32, colors: &[Color]) -> Grid {
    assert_eq!(colors.len(), (width * height) as usize);
    let mut g = Grid::new(width, height);
    for y in 0..height {
        for x in 0..width {
            g.put_pixel(x, y, colors[(y * width + x) as usize]);
        }
    }
    g
}

fn assert_grid_matches(out: &Grid, width: u32, height: u32, colors: &[Color]) {
    for y in 0..height {
        for x in 0..width {
            assert_eq!(out.get_pixel(x, y), colors[(y * width + x) as usize]);
        }
    }
}

#[test]
fn round_trip_2x2() {
    let colors = vec![
        color(1, 2, 3, 4),
        color(5, 6, 7, 8),
        color(9, 10, 11, 12),
        color(13, 14, 15, 16),
    ];
    let g = grid_of(2, 2, &colors);
    let q = QuadTree::initialize(&g);
    let out = q.render(2);
    assert_grid_matches(&out, 2, 2, &colors);
}

#[test]
fn round_trip_3x5_non_power_of_two() {
    let mut colors = Vec::new();
    for i in 0..15u8 {
        colors.push(color(i, 100 + i, 200 + i, 255));
    }
    let g = grid_of(3, 5, &colors);
    let q = QuadTree::initialize(&g);
    // one leaf per pixel right after construction
    assert_eq!(q.byte_size(), 15 * 20);
    assert!(q.height() >= 1);
    let out = q.render(5);
    assert_grid_matches(&out, 3, 5, &colors);
    // pixels beyond the tree's rectangle stay blank
    assert_eq!(out.get_pixel(4, 4), color(0, 0, 0, 0));
}

#[test]
fn round_trip_1x1() {
    let colors = vec![color(42, 43, 44, 45)];
    let g = grid_of(1, 1, &colors);
    let q = QuadTree::initialize(&g);
    assert_eq!(q.height(), 0);
    assert_eq!(q.byte_size(), 20);
    let out = q.render(1);
    assert_grid_matches(&out, 1, 1, &colors);
}

#[test]
fn build_terminates_on_one_pixel_wide_strip() {
    let c = color(9, 9, 9, 9);
    let colors = vec![c; 4];
    let g = grid_of(1, 4, &colors);
    let mut q = QuadTree::initialize(&g);
    let out = q.render(4);
    assert_grid_matches(&out, 1, 4, &colors);
    q.lossless_compression();
    assert_eq!(q.height(), 0);
}

#[test]
fn exact_merge_is_lossless() {
    // the NW 2x2 quadrant is uniform and merges; the rest stays put
    let u = color(50, 60, 70, 80);
    let colors = vec![
        u,
        u,
        color(1, 0, 0, 255),
        color(2, 0, 0, 255),
        u,
        u,
        color(3, 0, 0, 255),
        color(4, 0, 0, 255),
        color(5, 0, 0, 255),
        color(6, 0, 0, 255),
        color(7, 0, 0, 255),
        color(8, 0, 0, 255),
        color(9, 0, 0, 255),
        color(10, 0, 0, 255),
        color(11, 0, 0, 255),
        color(12, 0, 0, 255),
    ];
    let g = grid_of(4, 4, &colors);
    let mut q = QuadTree::initialize(&g);
    assert_eq!(q.byte_size(), 16 * 20);
    q.lossless_compression();
    // exactly the four leaves of the uniform quadrant collapsed into one
    assert_eq!(q.byte_size(), 13 * 20);
    let out = q.render(4);
    assert_grid_matches(&out, 4, 4, &colors);
}

#[test]
fn exact_merge_collapses_uniform_grid() {
    // the merge check compares resolved colors only; a check over whole leaf
    // records (color and rectangle) would never collapse this tree
    let c = color(120, 130, 140, 150);
    let colors = vec![c; 16];
    let g = grid_of(4, 4, &colors);
    let mut q = QuadTree::initialize(&g);
    assert_eq!(q.height(), 2);
    q.lossless_compression();
    assert_eq!(q.height(), 0);
    let out = q.render(4);
    assert_grid_matches(&out, 4, 4, &colors);
}

#[test]
fn exact_merge_height_monotone() {
    let mut colors = Vec::new();
    for i in 0..9u8 {
        colors.push(color(i, 0, 0, 255));
    }
    let g = grid_of(3, 3, &colors);
    let mut q = QuadTree::initialize(&g);
    let h0 = q.height();
    q.lossless_compression();
    let h1 = q.height();
    assert!(h1 <= h0);
}

#[test]
fn average_merge_2x2_truncating_mean() {
    let colors = vec![
        color(10, 0, 0, 255),
        color(20, 0, 0, 255),
        color(30, 0, 0, 255),
        color(40, 0, 0, 255),
    ];
    let g = grid_of(2, 2, &colors);
    let mut q = QuadTree::initialize(&g);
    q.average_compression();
    assert_eq!(q.height(), 0);
    let out = q.render(2);
    let expected = color(25, 0, 0, 255);
    for y in 0..2 {
        for x in 0..2 {
            assert_eq!(out.get_pixel(x, y), expected);
        }
    }
}

#[test]
fn average_merge_truncates_division() {
    // channel sums 10+20+30+41 = 101, truncating mean 25
    let colors = vec![
        color(10, 1, 0, 255),
        color(20, 1, 0, 255),
        color(30, 0, 0, 255),
        color(41, 0, 0, 255),
    ];
    let g = grid_of(2, 2, &colors);
    let mut q = QuadTree::initialize(&g);
    q.average_compression();
    let out = q.render(2);
    assert_eq!(out.get_pixel(0, 0), color(25, 0, 0, 255));
}

#[test]
fn average_merge_height_monotone_and_collapses() {
    let mut colors = Vec::new();
    for i in 0..15u8 {
        colors.push(color(i, 2 * i, 3 * i, 255));
    }
    let g = grid_of(3, 5, &colors);
    let mut q = QuadTree::initialize(&g);
    let h0 = q.height();
    q.average_compression();
    let h1 = q.height();
    assert!(h1 <= h0);
    assert_eq!(h1, 0);
}

#[test]
fn average_merge_idempotent_once_collapsed() {
    let colors = vec![
        color(10, 20, 30, 40),
        color(50, 60, 70, 80),
        color(90, 100, 110, 120),
        color(130, 140, 150, 160),
    ];
    let g = grid_of(2, 2, &colors);
    let mut q = QuadTree::initialize(&g);
    q.average_compression();
    assert_eq!(q.height(), 0);
    let text_before = q.to_text();
    let size_before = q.byte_size();
    q.average_compression();
    assert_eq!(q.height(), 0);
    assert_eq!(q.to_text(), text_before);
    assert_eq!(q.byte_size(), size_before);
    let out1 = q.render(2);
    q.average_compression();
    let out2 = q.render(2);
    assert_eq!(out1, out2);
}

#[test]
fn average_merge_keeps_uniform_color() {
    let c = color(77, 88, 99, 255);
    let colors = vec![c; 9];
    let g = grid_of(3, 3, &colors);
    let mut q = QuadTree::initialize(&g);
    q.average_compression();
    assert_eq!(q.height(), 0);
    let out = q.render(3);
    assert_grid_matches(&out, 3, 3, &colors);
}

#[test]
fn empty_tree_is_a_no_op_everywhere() {
    let mut q = QuadTree::new();
    assert_eq!(q.height(), -1);
    assert_eq!(q.byte_size(), 0);
    q.lossless_compression();
    q.average_compression();
    assert_eq!(q.height(), -1);
    let out = q.render(3);
    for y in 0..3 {
        for x in 0..3 {
            assert_eq!(out.get_pixel(x, y), color(0, 0, 0, 0));
        }
    }
}

#[test]
fn byte_size_counts_leaves() {
    let colors = vec![
        color(1, 0, 0, 255),
        color(2, 0, 0, 255),
        color(3, 0, 0, 255),
        color(4, 0, 0, 255),
    ];
    let g = grid_of(2, 2, &colors);
    let mut q = QuadTree::initialize(&g);
    assert_eq!(q.byte_size(), 4 * 20);
    q.average_compression();
    assert_eq!(q.byte_size(), 20);
}

#[test]
fn generate_image_uses_recorded_side() {
    // a 4x2 image renders into a 4x4 output; the bottom rows stay blank
    let mut colors = Vec::new();
    for i in 0..8u8 {
        colors.push(color(i + 1, 0, 0, 255));
    }
    let g = grid_of(4, 2, &colors);
    let q = QuadTree::initialize(&g);
    let out = q.generate_image();
    assert_eq!(out.width, 4);
    assert_eq!(out.height, 4);
    for y in 0..2 {
        for x in 0..4 {
            assert_eq!(out.get_pixel(x, y), colors[(y * 4 + x) as usize]);
        }
    }
    for y in 2..4 {
        for x in 0..4 {
            assert_eq!(out.get_pixel(x, y), color(0, 0, 0, 0));
        }
    }
}

#[test]
fn root_is_a_leaf_only_after_collapse() {
    let q = QuadTree::new();
    assert!(!aux_is_leaf(&q.root));
    let colors = vec![
        color(1, 0, 0, 255),
        color(2, 0, 0, 255),
        color(3, 0, 0, 255),
        color(4, 0, 0, 255),
    ];
    let g = grid_of(2, 2, &colors);
    let mut q = QuadTree::initialize(&g);
    assert!(!aux_is_leaf(&q.root));
    q.lossless_compression();
    assert!(!aux_is_leaf(&q.root));
    q.average_compression();
    assert!(aux_is_leaf(&q.root));
}
