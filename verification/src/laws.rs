//! The library's global laws, stated and proved over the spec-level model:
//! the round trips through build, merge and render, and the partition
//! invariant of every internal node.

use vstd::prelude::*;

use crate::builder::tree_matches_grid_on;
use crate::grid::Grid;
use crate::merge::{lemma_dispatch, quadrant_of};
use crate::render::grid_matches_tree_on;
use crate::tree::{
    color_at, leaves_are_pixels, lemma_mid_bounds, mid, node_rect, node_wf, rect_contains, Node,
    Rect,
};

verus! {

/// Round trip without compression: when a tree resolves every pixel of a
/// grid (as `QuadTree::initialize` guarantees of its result) and an output
/// grid reproduces that tree (as rendering guarantees), the output agrees
/// with the source grid on every pixel of the source.
pub proof fn lemma_build_render_round_trip(g: Grid, n: Node, out: Grid)
    requires
        g.wf(),
        g.width >= 1,
        g.height >= 1,
        node_rect(n) == (Rect {
            x0: 0,
            y0: 0,
            x1: (g.width - 1) as u32,
            y1: (g.height - 1) as u32,
        }),
        tree_matches_grid_on(n, g, node_rect(n)),
        grid_matches_tree_on(out, n, node_rect(n)),
    ensures
        forall|x: int, y: int|
            g.in_bounds(x, y) ==> #[trigger] out.color_at(x, y) == g.color_at(x, y),
{
    assert forall|x: int, y: int| g.in_bounds(x, y) implies #[trigger] out.color_at(x, y)
        == g.color_at(x, y) by {
        assert(rect_contains(node_rect(n), x, y));
        assert(color_at(n, x, y) == g.color_at(x, y));
        assert(out.color_at(x, y) == color_at(n, x, y));
    }
}

/// Exact-merge losslessness: when additionally a merged tree resolves every
/// pixel as the built tree does (as the exact-match pass guarantees), an
/// output grid rendered from the merged tree still agrees with the source
/// grid on every pixel.
pub proof fn lemma_exact_merge_round_trip(g: Grid, n: Node, m: Node, out: Grid)
    requires
        g.wf(),
        g.width >= 1,
        g.height >= 1,
        node_rect(n) == (Rect {
            x0: 0,
            y0: 0,
            x1: (g.width - 1) as u32,
            y1: (g.height - 1) as u32,
        }),
        tree_matches_grid_on(n, g, node_rect(n)),
        node_rect(m) == node_rect(n),
        forall|x: int, y: int|
            rect_contains(node_rect(n), x, y) ==> #[trigger] color_at(m, x, y) == color_at(
                n,
                x,
                y,
            ),
        grid_matches_tree_on(out, m, node_rect(m)),
    ensures
        forall|x: int, y: int|
            g.in_bounds(x, y) ==> #[trigger] out.color_at(x, y) == g.color_at(x, y),
{
    assert forall|x: int, y: int| g.in_bounds(x, y) implies #[trigger] out.color_at(x, y)
        == g.color_at(x, y) by {
        assert(rect_contains(node_rect(n), x, y));
        assert(color_at(n, x, y) == g.color_at(x, y));
        assert(color_at(m, x, y) == color_at(n, x, y));
        assert(out.color_at(x, y) == color_at(m, x, y));
    }
}

/// Build determinism: a well-formed, fully split tree over a given
/// rectangle is determined by the colors it resolves. Since
/// `QuadTree::initialize` guarantees exactly these facts of its result, two
/// builds over pixel-identical grids yield structurally identical trees.
pub proof fn lemma_fully_split_unique(a: Node, b: Node)
    requires
        node_wf(a),
        node_wf(b),
        leaves_are_pixels(a),
        leaves_are_pixels(b),
        node_rect(a) == node_rect(b),
        forall|x: int, y: int|
            rect_contains(node_rect(a), x, y) ==> #[trigger] color_at(a, x, y) == color_at(
                b,
                x,
                y,
            ),
    ensures
        a == b,
    decreases a, 0int,
{
    let rect = node_rect(a);
    if a is Leaf {
        assert(rect.x0 == rect.x1 && rect.y0 == rect.y1);
        assert(b is Leaf);
        assert(rect_contains(rect, rect.x0 as int, rect.y0 as int));
        assert(color_at(a, rect.x0 as int, rect.y0 as int) == color_at(
            b,
            rect.x0 as int,
            rect.y0 as int,
        ));
    } else {
        assert(b is Internal);
        lemma_mid_bounds(rect.x0 as int, rect.x1 as int);
        lemma_mid_bounds(rect.y0 as int, rect.y1 as int);
        if child_slot(a, 0) is Some {
            lemma_child_slots_equal(a, b, 0);
        }
        if child_slot(a, 1) is Some {
            lemma_child_slots_equal(a, b, 1);
        }
        if child_slot(a, 2) is Some {
            lemma_child_slots_equal(a, b, 2);
        }
        if child_slot(a, 3) is Some {
            lemma_child_slots_equal(a, b, 3);
        }
        assert(a == b);
    }
}

/// The child slots of an internal node in the fixed NW, NE, SE, SW order.
pub open spec fn child_slot(n: Node, which: int) -> Option<Box<Node>>
    recommends
        n is Internal,
{
    if which == 0 {
        n->Internal_nw
    } else if which == 1 {
        n->Internal_ne
    } else if which == 2 {
        n->Internal_se
    } else {
        n->Internal_sw
    }
}

/// Helper for the determinism proof: corresponding present children of two
/// internal nodes that agree pointwise are themselves equal.
proof fn lemma_child_slots_equal(a: Node, b: Node, which: int)
    requires
        node_wf(a),
        node_wf(b),
        leaves_are_pixels(a),
        leaves_are_pixels(b),
        a is Internal,
        b is Internal,
        node_rect(a) == node_rect(b),
        forall|x: int, y: int|
            rect_contains(node_rect(a), x, y) ==> #[trigger] color_at(a, x, y) == color_at(
                b,
                x,
                y,
            ),
        child_slot(a, which) is Some,
    ensures
        child_slot(b, which) is Some,
        *child_slot(a, which)->Some_0 == *child_slot(b, which)->Some_0,
    decreases *child_slot(a, which)->Some_0, 1int,
{
    let rect = node_rect(a);
    lemma_mid_bounds(rect.x0 as int, rect.x1 as int);
    lemma_mid_bounds(rect.y0 as int, rect.y1 as int);
    let ca = *child_slot(a, which)->Some_0;
    assert(child_slot(b, which) is Some);
    let cb = *child_slot(b, which)->Some_0;
    assert(node_rect(ca) == node_rect(cb));
    assert forall|x: int, y: int|
        rect_contains(node_rect(ca), x, y) implies #[trigger] color_at(ca, x, y) == color_at(
        cb,
        x,
        y,
    ) by {
        assert(rect_contains(rect, x, y));
        lemma_dispatch(a, x, y);
        lemma_dispatch(b, x, y);
        assert(quadrant_of(a, x, y) == child_slot(a, which));
        assert(color_at(a, x, y) == color_at(ca, x, y));
        assert(color_at(b, x, y) == color_at(cb, x, y));
        assert(color_at(a, x, y) == color_at(b, x, y));
    }
    lemma_fully_split_unique(ca, cb);
}

/// Whether a child slot covers the pixel `(x, y)`.
pub open spec fn opt_contains(c: Option<Box<Node>>, x: int, y: int) -> bool {
    match c {
        None => false,
        Some(b) => rect_contains(node_rect(*b), x, y),
    }
}

/// The four child slots of an internal node exactly tile its rectangle:
/// each pixel of the rectangle lies in exactly one present child, and the
/// children lie nowhere else.
pub open spec fn children_tile(n: Node) -> bool
    recommends
        n is Internal,
{
    &&& forall|x: int, y: int|
        #[trigger] rect_contains(node_rect(n), x, y) <==> (opt_contains(n->Internal_nw, x, y)
            || opt_contains(n->Internal_ne, x, y) || opt_contains(n->Internal_se, x, y)
            || opt_contains(n->Internal_sw, x, y))
    &&& forall|x: int, y: int|
        #[trigger] opt_contains(n->Internal_nw, x, y) ==> !opt_contains(n->Internal_ne, x, y)
            && !opt_contains(n->Internal_se, x, y) && !opt_contains(n->Internal_sw, x, y)
    &&& forall|x: int, y: int|
        #[trigger] opt_contains(n->Internal_ne, x, y) ==> !opt_contains(n->Internal_se, x, y)
            && !opt_contains(n->Internal_sw, x, y)
    &&& forall|x: int, y: int|
        #[trigger] opt_contains(n->Internal_se, x, y) ==> !opt_contains(n->Internal_sw, x, y)
}

/// Every internal node of the subtree tiles exactly.
pub open spec fn partitioned(n: Node) -> bool
    decreases n,
{
    match n {
        Node::Leaf { .. } => true,
        Node::Internal { nw, ne, se, sw, .. } => {
            &&& children_tile(n)
            &&& (nw matches Some(b) ==> partitioned(*b))
            &&& (ne matches Some(b) ==> partitioned(*b))
            &&& (se matches Some(b) ==> partitioned(*b))
            &&& (sw matches Some(b) ==> partitioned(*b))
        },
    }
}

/// Partition invariant: in any well-formed tree (built, partially
/// compressed or fully compressed) the present children of every internal
/// node cover the parent's rectangle with no gap and no overlap.
pub proof fn lemma_partition(n: Node)
    requires
        node_wf(n),
    ensures
        partitioned(n),
    decreases n,
{
    match n {
        Node::Leaf { .. } => {},
        Node::Internal { rect, nw, ne, se, sw } => {
            lemma_mid_bounds(rect.x0 as int, rect.x1 as int);
            lemma_mid_bounds(rect.y0 as int, rect.y1 as int);
            if let Some(b) = nw {
                lemma_partition(*b);
            }
            if let Some(b) = ne {
                lemma_partition(*b);
            }
            if let Some(b) = se {
                lemma_partition(*b);
            }
            if let Some(b) = sw {
                lemma_partition(*b);
            }
            let mx = mid(rect.x0 as int, rect.x1 as int);
            let my = mid(rect.y0 as int, rect.y1 as int);
            assert forall|x: int, y: int| #[trigger]
                rect_contains(node_rect(n), x, y) implies (opt_contains(n->Internal_nw, x, y)
                || opt_contains(n->Internal_ne, x, y) || opt_contains(n->Internal_se, x, y)
                || opt_contains(n->Internal_sw, x, y)) by {
                if x <= mx && y <= my {
                    assert(opt_contains(n->Internal_nw, x, y));
                } else if x > mx && y <= my {
                    assert(opt_contains(n->Internal_ne, x, y));
                } else if x > mx && y > my {
                    assert(opt_contains(n->Internal_se, x, y));
                } else {
                    assert(opt_contains(n->Internal_sw, x, y));
                }
            }
        },
    }
}

} // verus!
