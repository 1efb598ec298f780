use compression_image::text::rgba_to_hex;
use compression_image::{Color, Grid, QuadTree};

fn color(r: u8, g: u8, b: u8, a: u8) -> Color {
    Color { r, g, b, a }
}

#[test]
fn hex_of_zero_color() {
    assert_eq!(rgba_to_hex(&color(0, 0, 0, 0)), "00000000");
}

#[test]
fn hex_packs_channels_high_to_low() {
    assert_eq!(rgba_to_hex(&color(255, 0, 16, 1)), "ff001001");
    assert_eq!(rgba_to_hex(&color(0x12, 0x34, 0x56, 0x78)), "12345678");
    assert_eq!(rgba_to_hex(&color(0xab, 0xcd, 0xef, 0x09)), "abcdef09");
}

#[test]
fn to_text_of_single_leaf() {
    let mut g = Grid::new(1, 1);
    g.put_pixel(0, 0, color(1, 2, 3, 4));
    let q = QuadTree::initialize(&g);
    assert_eq!(q.to_text(), "01020304");
}

#[test]
fn to_text_of_2x2_tree() {
    let mut g = Grid::new(2, 2);
    g.put_pixel(0, 0, color(1, 2, 3, 4));
    g.put_pixel(1, 0, color(5, 6, 7, 8));
    g.put_pixel(0, 1, color(9, 10, 11, 12));
    g.put_pixel(1, 1, color(13, 14, 15, 16));
    let q = QuadTree::initialize(&g);
    // NW, NE, SE, SW order: (1,1) is the SE child, (0,1) the SW child
    assert_eq!(q.to_text(), "(01020304 05060708 0d0e0f10 090a0b0c)");
}

#[test]
fn to_text_of_strip_leaves_absent_children_empty() {
    let mut g = Grid::new(1, 2);
    g.put_pixel(0, 0, color(1, 2, 3, 4));
    g.put_pixel(0, 1, color(5, 6, 7, 8));
    let q = QuadTree::initialize(&g);
    // NE and SE are absent in a one-pixel-wide split
    assert_eq!(q.to_text(), "(01020304   05060708)");
}

#[test]
fn grid_put_then_get() {
    let mut g = Grid::new(3, 2);
    assert_eq!(g.get_pixel(2, 1), color(0, 0, 0, 0));
    g.put_pixel(2, 1, color(7, 7, 7, 7));
    g.put_pixel(0, 0, color(1, 1, 1, 1));
    assert_eq!(g.get_pixel(2, 1), color(7, 7, 7, 7));
    assert_eq!(g.get_pixel(0, 0), color(1, 1, 1, 1));
    assert_eq!(g.get_pixel(1, 0), color(0, 0, 0, 0));
}
