//! Reconstruction of a pixel grid from a quadtree: each leaf paints its
//! resolved color over its whole rectangle.

use vstd::prelude::*;

use crate::grid::Grid;
use crate::tree::{
    color_at, lemma_mid_bounds, mid, node_rect, node_wf, rect_contains, Node, Rect,
};

verus! {

/// Every pixel of the rectangle `r` of `out` equals the tree's resolved color.
pub open spec fn grid_matches_tree_on(out: Grid, n: Node, r: Rect) -> bool {
    forall|x: int, y: int|
        rect_contains(r, x, y) ==> #[trigger] out.color_at(x, y) == color_at(n, x, y)
}

/// Paints the tree into `out`, depth-first in the fixed order NW, NE, SE, SW:
/// pixels inside the tree's rectangle take its resolved colors, every other
/// pixel is kept.
pub fn aux_generate_image(out: &mut Grid, n: &Node)
    requires
        old(out).wf(),
        node_wf(*n),
        node_rect(*n).x1 < old(out).width,
        node_rect(*n).y1 < old(out).height,
    ensures
        final(out).wf(),
        final(out).width == old(out).width,
        final(out).height == old(out).height,
        grid_matches_tree_on(*final(out), *n, node_rect(*n)),
        forall|x: int, y: int|
            old(out).in_bounds(x, y) && !rect_contains(node_rect(*n), x, y)
                ==> #[trigger] final(out).color_at(x, y) == old(out).color_at(x, y),
    decreases n,
{
    match n {
        Node::Leaf { rect, color } => {
            let ghost out0 = *out;
            let rect = *rect;
            let color = *color;
            let mut x = rect.x0;
            while x <= rect.x1
                invariant
                    out.wf(),
                    out.width == out0.width,
                    out.height == out0.height,
                    rect.x0 <= x <= rect.x1 + 1,
                    rect.x1 < out0.width,
                    rect.y1 < out0.height,
                    rect.y0 <= rect.y1,
                    forall|xx: int, yy: int|
                        rect_contains(rect, xx, yy) && xx < x
                            ==> #[trigger] out.color_at(xx, yy) == color,
                    forall|xx: int, yy: int|
                        out0.in_bounds(xx, yy) && !(rect_contains(rect, xx, yy) && xx < x)
                            ==> #[trigger] out.color_at(xx, yy) == out0.color_at(xx, yy),
                decreases rect.x1 + 1 - x,
            {
                let mut y = rect.y0;
                while y <= rect.y1
                    invariant
                        out.wf(),
                        out.width == out0.width,
                        out.height == out0.height,
                        rect.x0 <= x <= rect.x1,
                        rect.y0 <= y <= rect.y1 + 1,
                        rect.x1 < out0.width,
                        rect.y1 < out0.height,
                        forall|xx: int, yy: int|
                            rect_contains(rect, xx, yy) && (xx < x || (xx == x && yy < y))
                                ==> #[trigger] out.color_at(xx, yy) == color,
                        forall|xx: int, yy: int|
                            out0.in_bounds(xx, yy) && !(rect_contains(rect, xx, yy) && (xx < x || (
                            xx == x && yy < y))) ==> #[trigger] out.color_at(xx, yy)
                                == out0.color_at(xx, yy),
                    decreases rect.y1 + 1 - y,
                {
                    out.put_pixel(x, y, color);
                    y = y + 1;
                }
                x = x + 1;
            }
        },
        Node::Internal { rect, nw, ne, se, sw } => {
            let rect = *rect;
            proof {
                lemma_mid_bounds(rect.x0 as int, rect.x1 as int);
                lemma_mid_bounds(rect.y0 as int, rect.y1 as int);
            }
            let ghost s0 = *out;
            if let Some(b) = nw {
                aux_generate_image(out, &**b);
            }
            let ghost s1 = *out;
            if let Some(b) = ne {
                aux_generate_image(out, &**b);
            }
            let ghost s2 = *out;
            if let Some(b) = se {
                aux_generate_image(out, &**b);
            }
            let ghost s3 = *out;
            if let Some(b) = sw {
                aux_generate_image(out, &**b);
            }
            proof {
                let mxi = mid(rect.x0 as int, rect.x1 as int);
                let myi = mid(rect.y0 as int, rect.y1 as int);
                let gnw = n->Internal_nw;
                let gne = n->Internal_ne;
                let gse = n->Internal_se;
                let gsw = n->Internal_sw;
                assert forall|x: int, y: int| rect_contains(rect, x, y) implies #[trigger] out.color_at(
                    x,
                    y,
                ) == color_at(*n, x, y) by {
                    if x <= mxi && y <= myi {
                        let b = gnw->Some_0;
                        assert(rect_contains(node_rect(*b), x, y));
                        assert(s1.color_at(x, y) == color_at(*b, x, y));
                        assert(s2.color_at(x, y) == s1.color_at(x, y));
                        assert(s3.color_at(x, y) == s2.color_at(x, y));
                        assert(out.color_at(x, y) == s3.color_at(x, y));
                        assert(color_at(*n, x, y) == color_at(*b, x, y));
                    } else if x > mxi && y <= myi {
                        let b = gne->Some_0;
                        assert(rect_contains(node_rect(*b), x, y));
                        assert(s2.color_at(x, y) == color_at(*b, x, y));
                        assert(s3.color_at(x, y) == s2.color_at(x, y));
                        assert(out.color_at(x, y) == s3.color_at(x, y));
                        assert(color_at(*n, x, y) == color_at(*b, x, y));
                    } else if x > mxi && y > myi {
                        let b = gse->Some_0;
                        assert(rect_contains(node_rect(*b), x, y));
                        assert(s3.color_at(x, y) == color_at(*b, x, y));
                        assert(out.color_at(x, y) == s3.color_at(x, y));
                        assert(color_at(*n, x, y) == color_at(*b, x, y));
                    } else {
                        let b = gsw->Some_0;
                        assert(rect_contains(node_rect(*b), x, y));
                        assert(out.color_at(x, y) == color_at(*b, x, y));
                        assert(color_at(*n, x, y) == color_at(*b, x, y));
                    }
                }
                assert forall|x: int, y: int|
                    s0.in_bounds(x, y) && !rect_contains(rect, x, y) implies #[trigger] out.color_at(
                    x,
                    y,
                ) == s0.color_at(x, y) by {
                    if gnw is Some {
                        assert(!rect_contains(node_rect(*gnw->Some_0), x, y));
                    }
                    if gne is Some {
                        assert(!rect_contains(node_rect(*gne->Some_0), x, y));
                    }
                    if gse is Some {
                        assert(!rect_contains(node_rect(*gse->Some_0), x, y));
                    }
                    if gsw is Some {
                        assert(!rect_contains(node_rect(*gsw->Some_0), x, y));
                    }
                    assert(s1.color_at(x, y) == s0.color_at(x, y));
                    assert(s2.color_at(x, y) == s1.color_at(x, y));
                    assert(s3.color_at(x, y) == s2.color_at(x, y));
                    assert(out.color_at(x, y) == s3.color_at(x, y));
                }
            }
        },
    }
}

} // verus!
