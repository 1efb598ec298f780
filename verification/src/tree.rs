//! The quadtree node type, its well-formedness invariant, and the spec-level
//! model of a tree: the color it assigns to each pixel of its region, its
//! height, and its leaf count.
//!
//! A node covers an axis-aligned rectangle `[x0, y0]..[x1, y1]` with inclusive
//! integer pixel coordinates. A leaf resolves its whole rectangle to a single
//! color; an internal node splits its rectangle at the midpoints into the four
//! quadrants NW, NE, SE, SW. A quadrant that would be empty (when the parent is
//! a single pixel wide or tall) is absent; the present quadrants exactly tile
//! the parent's rectangle.

use vstd::prelude::*;

use crate::color::{mean_color, Color};

verus! {

/// An axis-aligned rectangle of pixels, `[x0, y0]..[x1, y1]` inclusive.
#[derive(Clone, Copy, Debug, PartialEq, Eq, Structural)]
pub struct Rect {
    pub x0: u32,
    pub y0: u32,
    pub x1: u32,
    pub y1: u32,
}

/// A quadtree vertex: either a leaf with a resolved color, or an internal
/// node with its (up to four) quadrant children and no resolved color.
#[derive(Debug, PartialEq, Eq)]
pub enum Node {
    Leaf { rect: Rect, color: Color },
    Internal {
        rect: Rect,
        nw: Option<Box<Node>>,
        ne: Option<Box<Node>>,
        se: Option<Box<Node>>,
        sw: Option<Box<Node>>,
    },
}

pub open spec fn rect_valid(r: Rect) -> bool {
    r.x0 <= r.x1 && r.y0 <= r.y1
}

pub open spec fn rect_contains(r: Rect, x: int, y: int) -> bool {
    r.x0 <= x <= r.x1 && r.y0 <= y <= r.y1
}

/// Number of pixels a rectangle covers.
pub open spec fn rect_area(r: Rect) -> int {
    (r.x1 - r.x0 + 1) * (r.y1 - r.y0 + 1)
}

/// Midpoint used by the quadrant split: truncating mean of the two bounds.
pub open spec fn mid(lo: int, hi: int) -> int {
    (lo + hi) / 2
}

pub open spec fn node_rect(n: Node) -> Rect {
    match n {
        Node::Leaf { rect, .. } => rect,
        Node::Internal { rect, .. } => rect,
    }
}

/// A child slot is well-formed for the quadrant `[cx0, cy0]..[cx1, cy1]`:
/// present exactly when the quadrant is non-empty, and then a well-formed
/// node covering exactly that quadrant.
pub open spec fn child_wf(c: Option<Box<Node>>, cx0: int, cy0: int, cx1: int, cy1: int) -> bool
    decreases c,
{
    if cx0 <= cx1 && cy0 <= cy1 {
        match c {
            Some(b) => node_wf(*b) && node_rect(*b).x0 == cx0 && node_rect(*b).y0 == cy0
                && node_rect(*b).x1 == cx1 && node_rect(*b).y1 == cy1,
            None => false,
        }
    } else {
        c is None
    }
}

/// Well-formedness: valid rectangles throughout, internal nodes cover more
/// than one pixel, and every child slot holds exactly its midpoint-split
/// quadrant, recursively.
pub open spec fn node_wf(n: Node) -> bool
    decreases n,
{
    match n {
        Node::Leaf { rect, .. } => rect_valid(rect),
        Node::Internal { rect, nw, ne, se, sw } => {
            let mx = mid(rect.x0 as int, rect.x1 as int);
            let my = mid(rect.y0 as int, rect.y1 as int);
            &&& rect_valid(rect)
            &&& !(rect.x0 == rect.x1 && rect.y0 == rect.y1)
            &&& child_wf(nw, rect.x0 as int, rect.y0 as int, mx, my)
            &&& child_wf(ne, mx + 1, rect.y0 as int, rect.x1 as int, my)
            &&& child_wf(se, mx + 1, my + 1, rect.x1 as int, rect.y1 as int)
            &&& child_wf(sw, rect.x0 as int, my + 1, mx, rect.y1 as int)
        }
    }
}

pub open spec fn opt_wf(c: Option<Box<Node>>) -> bool {
    match c {
        None => true,
        Some(b) => node_wf(*b),
    }
}

/// The color a tree resolves for the pixel `(x, y)` of its rectangle: a
/// leaf's own color, or the color of the quadrant child the pixel falls in.
pub open spec fn color_at(n: Node, x: int, y: int) -> Color
    recommends
        node_wf(n),
        rect_contains(node_rect(n), x, y),
    decreases n,
{
    match n {
        Node::Leaf { color, .. } => color,
        Node::Internal { rect, nw, ne, se, sw } => {
            let mx = mid(rect.x0 as int, rect.x1 as int);
            let my = mid(rect.y0 as int, rect.y1 as int);
            if x <= mx && y <= my {
                opt_color_at(nw, x, y)
            } else if x > mx && y <= my {
                opt_color_at(ne, x, y)
            } else if x > mx && y > my {
                opt_color_at(se, x, y)
            } else {
                opt_color_at(sw, x, y)
            }
        }
    }
}

pub open spec fn opt_color_at(c: Option<Box<Node>>, x: int, y: int) -> Color
    decreases c,
{
    match c {
        None => Color { r: 0, g: 0, b: 0, a: 0 },
        Some(b) => color_at(*b, x, y),
    }
}

/// The whole region of `n` resolves to the single color `c`.
pub open spec fn uniform(n: Node, c: Color) -> bool {
    forall|x: int, y: int|
        rect_contains(node_rect(n), x, y) ==> #[trigger] color_at(n, x, y) == c
}

pub open spec fn max2(a: int, b: int) -> int {
    if a >= b {
        a
    } else {
        b
    }
}

/// Height of an absent subtree is -1, so a lone leaf has height 0.
pub open spec fn opt_height(c: Option<Box<Node>>) -> int
    decreases c,
{
    match c {
        None => -1,
        Some(b) => node_height(*b),
    }
}

/// Length of the longest path from `n` down to a leaf.
pub open spec fn node_height(n: Node) -> int
    decreases n,
{
    match n {
        Node::Leaf { .. } => 0,
        Node::Internal { nw, ne, se, sw, .. } => 1 + max2(
            max2(opt_height(nw), opt_height(ne)),
            max2(opt_height(se), opt_height(sw)),
        ),
    }
}

pub open spec fn opt_leaf_count(c: Option<Box<Node>>) -> nat
    decreases c,
{
    match c {
        None => 0,
        Some(b) => node_leaf_count(*b),
    }
}

/// Number of leaves in the tree.
pub open spec fn node_leaf_count(n: Node) -> nat
    decreases n,
{
    match n {
        Node::Leaf { .. } => 1,
        Node::Internal { nw, ne, se, sw, .. } => opt_leaf_count(nw) + opt_leaf_count(ne)
            + opt_leaf_count(se) + opt_leaf_count(sw),
    }
}

/// Colors the average-merge pass resolves for the present children, in the
/// fixed NW, NE, SE, SW order.
pub open spec fn opt_mean_seq(c: Option<Box<Node>>) -> Seq<Color>
    decreases c,
{
    match c {
        None => Seq::empty(),
        Some(b) => seq![node_mean(*b)],
    }
}

/// The single color the average-merge pass collapses `n` to: a leaf keeps its
/// color; an internal node takes the channel-wise truncating mean of the
/// colors its present children collapse to.
pub open spec fn node_mean(n: Node) -> Color
    decreases n,
{
    match n {
        Node::Leaf { color, .. } => color,
        Node::Internal { nw, ne, se, sw, .. } => mean_color(
            opt_mean_seq(nw) + opt_mean_seq(ne) + opt_mean_seq(se) + opt_mean_seq(sw),
        ),
    }
}

/// Bounds of the truncating midpoint: it lies in `[lo, hi]`, is below `hi`
/// whenever the range has at least two values, and advances past `lo` only
/// as the range allows.
pub proof fn lemma_mid_bounds(lo: int, hi: int)
    requires
        0 <= lo <= hi,
    ensures
        lo <= mid(lo, hi) <= hi,
        lo < hi ==> mid(lo, hi) < hi,
        mid(lo, hi) - lo <= hi - lo,
        lo < hi ==> mid(lo, hi) + 1 <= hi,
        mid(lo, hi) == lo + (hi - lo) / 2,
        lo == hi ==> mid(lo, hi) == lo,
{
    assert(lo <= (lo + hi) / 2 <= hi && (lo < hi ==> (lo + hi) / 2 < hi) && (lo + hi) / 2 == lo + (
    hi - lo) / 2) by (nonlinear_arith)
        requires
            0 <= lo <= hi,
    ;
}

/// A well-formed tree's height is non-negative and at most the sum of the
/// extents of its rectangle along the two axes.
pub proof fn lemma_height_bounds(n: Node)
    requires
        node_wf(n),
    ensures
        0 <= node_height(n),
        node_height(n) <= (node_rect(n).x1 - node_rect(n).x0) + (node_rect(n).y1
            - node_rect(n).y0),
    decreases n,
{
    match n {
        Node::Leaf { .. } => {},
        Node::Internal { rect, nw, ne, se, sw } => {
            let mx = mid(rect.x0 as int, rect.x1 as int);
            let my = mid(rect.y0 as int, rect.y1 as int);
            lemma_mid_bounds(rect.x0 as int, rect.x1 as int);
            lemma_mid_bounds(rect.y0 as int, rect.y1 as int);
            let ext = (rect.x1 - rect.x0) + (rect.y1 - rect.y0);
            if let Some(b) = nw {
                lemma_height_bounds(*b);
                assert(node_height(*b) <= ext - 1);
            }
            if let Some(b) = ne {
                lemma_height_bounds(*b);
                assert(node_height(*b) <= ext - 1);
            }
            if let Some(b) = se {
                lemma_height_bounds(*b);
                assert(node_height(*b) <= ext - 1);
            }
            if let Some(b) = sw {
                lemma_height_bounds(*b);
                assert(node_height(*b) <= ext - 1);
            }
        },
    }
}

/// Every leaf of the subtree covers exactly one pixel. Together with
/// `node_wf` this pins a tree over a given rectangle completely: internal
/// nodes are never single pixels, so the split goes all the way down and
/// the shape is determined by the rectangle alone.
pub open spec fn leaves_are_pixels(n: Node) -> bool
    decreases n,
{
    match n {
        Node::Leaf { rect, .. } => rect.x0 == rect.x1 && rect.y0 == rect.y1,
        Node::Internal { nw, ne, se, sw, .. } => {
            &&& (nw matches Some(b) ==> leaves_are_pixels(*b))
            &&& (ne matches Some(b) ==> leaves_are_pixels(*b))
            &&& (se matches Some(b) ==> leaves_are_pixels(*b))
            &&& (sw matches Some(b) ==> leaves_are_pixels(*b))
        },
    }
}

/// In a fully split tree the leaves are in bijection with the pixels: the
/// leaf count equals the area of the covered rectangle.
pub proof fn lemma_fully_split_leaf_count(n: Node)
    requires
        node_wf(n),
        leaves_are_pixels(n),
    ensures
        node_leaf_count(n) == rect_area(node_rect(n)),
    decreases n,
{
    match n {
        Node::Leaf { rect, .. } => {
            assert(rect_area(rect) == 1) by (nonlinear_arith)
                requires
                    rect.x0 == rect.x1 && rect.y0 == rect.y1,
            ;
        },
        Node::Internal { rect, nw, ne, se, sw } => {
            let mx = mid(rect.x0 as int, rect.x1 as int);
            let my = mid(rect.y0 as int, rect.y1 as int);
            lemma_mid_bounds(rect.x0 as int, rect.x1 as int);
            lemma_mid_bounds(rect.y0 as int, rect.y1 as int);
            let a1 = mx - rect.x0 + 1;
            let a2 = rect.x1 - mx;
            let b1 = my - rect.y0 + 1;
            let b2 = rect.y1 - my;
            let cnw = opt_leaf_count(nw) as int;
            let cne = opt_leaf_count(ne) as int;
            let cse = opt_leaf_count(se) as int;
            let csw = opt_leaf_count(sw) as int;
            if let Some(b) = nw {
                lemma_fully_split_leaf_count(*b);
                assert(cnw == a1 * b1);
            }
            if let Some(b) = ne {
                lemma_fully_split_leaf_count(*b);
                assert(cne == a2 * b1);
            } else {
                assert(cne == a2 * b1) by (nonlinear_arith)
                    requires
                        cne == 0 && a2 == 0,
                ;
            }
            if let Some(b) = se {
                lemma_fully_split_leaf_count(*b);
                assert(cse == a2 * b2);
            } else {
                assert(cse == a2 * b2) by (nonlinear_arith)
                    requires
                        cse == 0 && (a2 == 0 || b2 == 0),
                ;
            }
            if let Some(b) = sw {
                lemma_fully_split_leaf_count(*b);
                assert(csw == a1 * b2);
            } else {
                assert(csw == a1 * b2) by (nonlinear_arith)
                    requires
                        csw == 0 && b2 == 0,
                ;
            }
            assert(a1 * b1 + a2 * b1 + a2 * b2 + a1 * b2 == (a1 + a2) * (b1 + b2))
                by (nonlinear_arith);
            assert((a1 + a2) * (b1 + b2) == rect_area(rect));
            assert(node_leaf_count(n) == cnw + cne + cse + csw);
        },
    }
}

/// Number of binary halvings that bring a non-negative value to zero.
pub open spec fn bits(d: int) -> int
    decreases d,
{
    if d <= 0 {
        0
    } else {
        1 + bits(d / 2)
    }
}

pub proof fn lemma_bits_nonneg(d: int)
    ensures
        bits(d) >= 0,
    decreases d,
{
    if d > 0 {
        lemma_bits_nonneg(d / 2);
    }
}

pub proof fn lemma_bits_monotone(a: int, b: int)
    requires
        0 <= a <= b,
    ensures
        bits(a) <= bits(b),
    decreases b,
{
    lemma_bits_nonneg(b);
    if a > 0 {
        lemma_bits_monotone(a / 2, b / 2);
    }
}

pub proof fn lemma_bits_lt_pow(d: int, k: nat)
    requires
        0 <= d,
        d < pow2(k),
    ensures
        bits(d) <= k,
    decreases k,
{
    if d > 0 {
        assert(pow2(k) > 1);
        assert(k >= 1);
        assert(d / 2 < pow2((k - 1) as nat));
        lemma_bits_lt_pow(d / 2, (k - 1) as nat);
    }
}

pub open spec fn pow2(k: nat) -> int
    decreases k,
{
    if k == 0 {
        1
    } else {
        2 * pow2((k - 1) as nat)
    }
}

/// Any difference of two `u32` values has a bit length of at most 32.
pub proof fn lemma_bits_u32(d: int)
    requires
        0 <= d <= u32::MAX,
    ensures
        bits(d) <= 32,
{
    reveal_with_fuel(pow2, 33);
    assert(pow2(32) == 0x1_0000_0000);
    lemma_bits_lt_pow(d, 32);
}

/// A well-formed tree's height is logarithmic: bounded by the bit lengths
/// of its rectangle's extents along the two axes.
pub proof fn lemma_height_le_bits(n: Node)
    requires
        node_wf(n),
    ensures
        node_height(n) <= bits(node_rect(n).x1 - node_rect(n).x0) + bits(
            node_rect(n).y1 - node_rect(n).y0,
        ),
    decreases n,
{
    match n {
        Node::Leaf { rect, .. } => {
            lemma_bits_nonneg(rect.x1 - rect.x0);
            lemma_bits_nonneg(rect.y1 - rect.y0);
        },
        Node::Internal { rect, nw, ne, se, sw } => {
            let dx = rect.x1 - rect.x0;
            let dy = rect.y1 - rect.y0;
            let mx = mid(rect.x0 as int, rect.x1 as int);
            let my = mid(rect.y0 as int, rect.y1 as int);
            lemma_mid_bounds(rect.x0 as int, rect.x1 as int);
            lemma_mid_bounds(rect.y0 as int, rect.y1 as int);
            lemma_bits_nonneg(dx);
            lemma_bits_nonneg(dy);
            assert(mx - rect.x0 == dx / 2);
            assert(my - rect.y0 == dy / 2);
            lemma_bits_monotone(dx / 2, dx);
            lemma_bits_monotone(dy / 2, dy);
            if let Some(b) = nw {
                lemma_height_le_bits(*b);
                if dx >= 1 {
                    assert(bits(dx / 2) == bits(dx) - 1);
                    lemma_bits_monotone(dy / 2, dy);
                } else {
                    assert(dy >= 1);
                    assert(bits(dy / 2) == bits(dy) - 1);
                }
                assert(node_height(*b) <= bits(dx) + bits(dy) - 1);
            }
            if let Some(b) = ne {
                lemma_height_le_bits(*b);
                assert(dx >= 1);
                let dxx = rect.x1 - (mx + 1);
                assert(dxx <= dx / 2);
                lemma_bits_monotone(dxx, dx / 2);
                assert(bits(dx / 2) == bits(dx) - 1);
                assert(node_height(*b) <= bits(dxx) + bits(dy / 2));
                assert(node_height(*b) <= bits(dx) + bits(dy) - 1);
            }
            if let Some(b) = se {
                lemma_height_le_bits(*b);
                assert(dx >= 1 && dy >= 1);
                let dxx = rect.x1 - (mx + 1);
                let dyy = rect.y1 - (my + 1);
                assert(dxx <= dx / 2);
                assert(dyy <= dy / 2);
                lemma_bits_monotone(dxx, dx / 2);
                lemma_bits_monotone(dyy, dy / 2);
                assert(bits(dx / 2) == bits(dx) - 1);
                assert(node_height(*b) <= bits(dx) + bits(dy) - 1);
            }
            if let Some(b) = sw {
                lemma_height_le_bits(*b);
                assert(dy >= 1);
                let dyy = rect.y1 - (my + 1);
                assert(dyy <= dy / 2);
                lemma_bits_monotone(dyy, dy / 2);
                assert(bits(dy / 2) == bits(dy) - 1);
                assert(node_height(*b) <= bits(dx) + bits(dy) - 1);
            }
        },
    }
}

/// A well-formed tree's height is at most 64: at most 32 halvings along
/// each axis.
pub proof fn lemma_height_le_64(n: Node)
    requires
        node_wf(n),
    ensures
        0 <= node_height(n) <= 64,
{
    lemma_height_bounds(n);
    lemma_height_le_bits(n);
    lemma_bits_u32(node_rect(n).x1 - node_rect(n).x0);
    lemma_bits_u32(node_rect(n).y1 - node_rect(n).y0);
    lemma_bits_nonneg(node_rect(n).x1 - node_rect(n).x0);
    lemma_bits_nonneg(node_rect(n).y1 - node_rect(n).y0);
}

/// A well-formed tree has at least one leaf and no more leaves than its
/// rectangle has pixels.
pub proof fn lemma_leaf_count_bounds(n: Node)
    requires
        node_wf(n),
    ensures
        1 <= node_leaf_count(n) <= rect_area(node_rect(n)),
    decreases n,
{
    match n {
        Node::Leaf { rect, .. } => {
            assert(rect_area(rect) >= 1) by (nonlinear_arith)
                requires
                    rect.x0 <= rect.x1 && rect.y0 <= rect.y1,
            ;
        },
        Node::Internal { rect, nw, ne, se, sw } => {
            let mx = mid(rect.x0 as int, rect.x1 as int);
            let my = mid(rect.y0 as int, rect.y1 as int);
            lemma_mid_bounds(rect.x0 as int, rect.x1 as int);
            lemma_mid_bounds(rect.y0 as int, rect.y1 as int);
            let a1 = mx - rect.x0 + 1;
            let a2 = rect.x1 - mx;
            let b1 = my - rect.y0 + 1;
            let b2 = rect.y1 - my;
            let cnw = opt_leaf_count(nw) as int;
            let cne = opt_leaf_count(ne) as int;
            let cse = opt_leaf_count(se) as int;
            let csw = opt_leaf_count(sw) as int;
            if let Some(b) = nw {
                lemma_leaf_count_bounds(*b);
                assert(cnw <= a1 * b1);
            } else {
                assert(a1 * b1 >= 0) by (nonlinear_arith)
                    requires
                        a1 >= 0 && b1 >= 0,
                ;
            }
            if let Some(b) = ne {
                lemma_leaf_count_bounds(*b);
                assert(cne <= a2 * b1);
            } else {
                assert(cne == 0 && a2 * b1 >= 0) by (nonlinear_arith)
                    requires
                        cne == 0 && ((a2 >= 0 && b1 >= 0) || a2 == 0),
                ;
            }
            if let Some(b) = se {
                lemma_leaf_count_bounds(*b);
                assert(cse <= a2 * b2);
            } else {
                assert(cse == 0 && a2 * b2 >= 0) by (nonlinear_arith)
                    requires
                        cse == 0 && a2 >= 0 && b2 >= 0,
                ;
            }
            if let Some(b) = sw {
                lemma_leaf_count_bounds(*b);
                assert(csw <= a1 * b2);
            } else {
                assert(csw == 0 && a1 * b2 >= 0) by (nonlinear_arith)
                    requires
                        csw == 0 && a1 >= 0 && b2 >= 0,
                ;
            }
            assert(a1 * b1 + a2 * b1 + a2 * b2 + a1 * b2 == (a1 + a2) * (b1 + b2))
                by (nonlinear_arith);
            assert((a1 + a2) * (b1 + b2) == rect_area(rect));
        },
    }
}

} // verus!
