//! Recursive construction of a quadtree from a pixel grid.

use vstd::prelude::*;

use crate::grid::Grid;
use crate::tree::{
    color_at, leaves_are_pixels, lemma_mid_bounds, mid, node_rect, node_wf, rect_contains, Node,
    Rect,
};

verus! {

/// The tree resolves every pixel of the rectangle `r` to the grid's color.
pub open spec fn tree_matches_grid_on(n: Node, g: Grid, r: Rect) -> bool {
    forall|x: int, y: int|
        rect_contains(r, x, y) ==> #[trigger] color_at(n, x, y) == g.color_at(x, y)
}

/// Builds the quadtree of the sub-rectangle `[x0, y0]..[x1, y1]` of `grid`:
/// a single pixel becomes a leaf holding that pixel's color; anything larger
/// is split at the midpoints into its non-empty quadrants, recursively.
pub fn aux_initialize(grid: &Grid, x0: u32, y0: u32, x1: u32, y1: u32) -> (n: Node)
    requires
        grid.wf(),
        x0 <= x1 < grid.width,
        y0 <= y1 < grid.height,
    ensures
        node_wf(n),
        node_rect(n) == (Rect { x0, y0, x1, y1 }),
        leaves_are_pixels(n),
        tree_matches_grid_on(n, *grid, Rect { x0, y0, x1, y1 }),
    decreases (x1 - x0) + (y1 - y0),
{
    let rect = Rect { x0, y0, x1, y1 };
    if x0 == x1 && y0 == y1 {
        Node::Leaf { rect, color: grid.get_pixel(x0, y0) }
    } else {
        proof {
            lemma_mid_bounds(x0 as int, x1 as int);
            lemma_mid_bounds(y0 as int, y1 as int);
        }
        let mx = x0 + (x1 - x0) / 2;
        let my = y0 + (y1 - y0) / 2;
        assert(mx == mid(x0 as int, x1 as int) && my == mid(y0 as int, y1 as int));
        let nw = Some(Box::new(aux_initialize(grid, x0, y0, mx, my)));
        let ne = if mx < x1 {
            Some(Box::new(aux_initialize(grid, mx + 1, y0, x1, my)))
        } else {
            None
        };
        let se = if mx < x1 && my < y1 {
            Some(Box::new(aux_initialize(grid, mx + 1, my + 1, x1, y1)))
        } else {
            None
        };
        let sw = if my < y1 {
            Some(Box::new(aux_initialize(grid, x0, my + 1, mx, y1)))
        } else {
            None
        };
        let n = Node::Internal { rect, nw, ne, se, sw };
        proof {
            assert(node_wf(n));
            let gnw = n->Internal_nw;
            let gne = n->Internal_ne;
            let gse = n->Internal_se;
            let gsw = n->Internal_sw;
            assert forall|x: int, y: int| rect_contains(rect, x, y) implies #[trigger] color_at(
                n,
                x,
                y,
            ) == grid.color_at(x, y) by {
                let mxi = mid(x0 as int, x1 as int);
                let myi = mid(y0 as int, y1 as int);
                if x <= mxi && y <= myi {
                    let b = gnw->Some_0;
                    assert(rect_contains(node_rect(*b), x, y));
                    assert(color_at(*b, x, y) == grid.color_at(x, y));
                    assert(color_at(n, x, y) == color_at(*b, x, y));
                } else if x > mxi && y <= myi {
                    assert(mx < x1);
                    let b = gne->Some_0;
                    assert(rect_contains(node_rect(*b), x, y));
                    assert(color_at(*b, x, y) == grid.color_at(x, y));
                    assert(color_at(n, x, y) == color_at(*b, x, y));
                } else if x > mxi && y > myi {
                    assert(mx < x1 && my < y1);
                    let b = gse->Some_0;
                    assert(rect_contains(node_rect(*b), x, y));
                    assert(color_at(*b, x, y) == grid.color_at(x, y));
                    assert(color_at(n, x, y) == color_at(*b, x, y));
                } else {
                    assert(my < y1);
                    let b = gsw->Some_0;
                    assert(rect_contains(node_rect(*b), x, y));
                    assert(color_at(*b, x, y) == grid.color_at(x, y));
                    assert(color_at(n, x, y) == color_at(*b, x, y));
                }
            }
        }
        n
    }
}

} // verus!
