//! The two bottom-up merge passes. Both run post-order: the children are
//! fully compressed before the parent's own merge check, so a collapse can
//! cascade up several levels in a single pass.
//!
//! The exact pass collapses an internal node only when its (compressed)
//! children are all leaves of one color, so it never changes the colors the
//! tree resolves. The similarity check is scoped to the resolved colors
//! alone: sibling leaves always cover distinct rectangles, so a check over
//! whole leaf records (color and rectangle together) could never succeed and
//! the pass would collapse nothing.
//!
//! The average pass collapses whenever the compressed children are all
//! leaves, taking the channel-wise truncating mean of their colors; since
//! that holds at every level once it holds below, a single pass collapses
//! the whole tree to one leaf.

use vstd::prelude::*;

use crate::color::{average_color, Color};
use crate::tree::{
    color_at, lemma_height_bounds, lemma_leaf_count_bounds, lemma_mid_bounds, mid, node_height,
    node_leaf_count, node_mean, node_rect, node_wf, opt_leaf_count, opt_mean_seq, opt_wf,
    rect_contains, uniform, Node,
};

verus! {

/// Whether a child slot holds a leaf (an absent child is not a leaf).
pub open spec fn opt_is_leaf(c: Option<Box<Node>>) -> bool {
    match c {
        None => false,
        Some(b) => *b is Leaf,
    }
}

/// Whether a child slot holds a leaf node.
pub fn aux_is_leaf(c: &Option<Box<Node>>) -> (b: bool)
    ensures
        b == opt_is_leaf(*c),
{
    match c {
        None => false,
        Some(bx) => match &**bx {
            Node::Leaf { .. } => true,
            Node::Internal { .. } => false,
        },
    }
}

/// The resolved color of a child slot that holds a leaf.
pub open spec fn spec_leaf_color(c: Option<Box<Node>>) -> Option<Color> {
    match c {
        None => None,
        Some(b) => match *b {
            Node::Leaf { color, .. } => Some(color),
            Node::Internal { .. } => None,
        },
    }
}

fn child_leaf_color(c: &Option<Box<Node>>) -> (r: Option<Color>)
    ensures
        r == spec_leaf_color(*c),
{
    match c {
        None => None,
        Some(bx) => match &**bx {
            Node::Leaf { color, .. } => Some(*color),
            Node::Internal { .. } => None,
        },
    }
}

/// A child slot does not block an exact merge on color `col`: it is either
/// absent or a leaf resolved to exactly `col`.
pub open spec fn spec_merge_ok(c: Option<Box<Node>>, col: Color) -> bool {
    match c {
        None => true,
        Some(b) => *b == (Node::Leaf { rect: node_rect(*b), color: col }),
    }
}

fn child_merge_ok(c: &Option<Box<Node>>, col: Color) -> (b: bool)
    ensures
        b == spec_merge_ok(*c, col),
{
    match c {
        None => true,
        Some(bx) => match &**bx {
            Node::Leaf { color, .. } => *color == col,
            Node::Internal { .. } => false,
        },
    }
}

/// The exact pass's fixed point: no internal node anywhere in the tree has
/// a leaf NW child whose color every other child slot matches (each being
/// absent or a leaf of that color), so one more pass would merge nothing.
pub open spec fn exact_fixed_point(n: Node) -> bool
    decreases n,
{
    match n {
        Node::Leaf { .. } => true,
        Node::Internal { nw, ne, se, sw, .. } => {
            &&& (spec_leaf_color(nw) matches Some(col) ==> !(spec_merge_ok(ne, col)
                && spec_merge_ok(se, col) && spec_merge_ok(sw, col)))
            &&& opt_exact_fixed_point(nw)
            &&& opt_exact_fixed_point(ne)
            &&& opt_exact_fixed_point(se)
            &&& opt_exact_fixed_point(sw)
        },
    }
}

pub open spec fn opt_exact_fixed_point(c: Option<Box<Node>>) -> bool
    decreases c,
{
    match c {
        None => true,
        Some(b) => exact_fixed_point(*b),
    }
}

/// Exact-match merge of one child slot, post-order.
fn lossless_child(c: Option<Box<Node>>) -> (r: Option<Box<Node>>)
    requires
        opt_wf(c),
    ensures
        opt_wf(r),
        r is Some <==> c is Some,
        opt_leaf_count(r) <= opt_leaf_count(c),
        opt_exact_fixed_point(r),
        c matches Some(b) ==> (r matches Some(rb) && node_rect(*rb) == node_rect(*b)
            && node_height(*rb) <= node_height(*b) && (forall|x: int, y: int|
            rect_contains(node_rect(*b), x, y) ==> #[trigger] color_at(*rb, x, y) == color_at(
                *b,
                x,
                y,
            )) && (forall|cc: Color|
            uniform(*b, cc) ==> *rb == (Node::Leaf { rect: node_rect(*b), color: cc }))),
    decreases c,
{
    match c {
        None => None,
        Some(b) => Some(Box::new(aux_lossless_compression(*b))),
    }
}

/// The exact-match merge pass over a subtree, post-order.
///
/// The result covers the same rectangle, resolves every pixel to the same
/// color as before (the pass is lossless), is no taller than the input, and
/// only collapses: its leaf count never grows. It reaches the merged fixed
/// point in one call — no internal node is left whose children all ended as
/// leaves of one shared color — so a subtree whose whole region is one
/// single color always collapses to a single leaf of that color.
pub fn aux_lossless_compression(n: Node) -> (r: Node)
    requires
        node_wf(n),
    ensures
        node_wf(r),
        node_rect(r) == node_rect(n),
        forall|x: int, y: int|
            rect_contains(node_rect(n), x, y) ==> #[trigger] color_at(r, x, y) == color_at(
                n,
                x,
                y,
            ),
        node_height(r) <= node_height(n),
        node_leaf_count(r) <= node_leaf_count(n),
        exact_fixed_point(r),
        n is Leaf ==> r == n,
        forall|cc: Color|
            uniform(n, cc) ==> r == (Node::Leaf { rect: node_rect(n), color: cc }),
    decreases n,
{
    match n {
        Node::Leaf { rect, color } => {
            proof {
                assert forall|cc: Color| uniform(n, cc) implies n == (Node::Leaf {
                    rect,
                    color: cc,
                }) by {
                    assert(rect_contains(rect, rect.x0 as int, rect.y0 as int));
                    assert(color_at(n, rect.x0 as int, rect.y0 as int) == cc);
                }
            }
            n
        },
        Node::Internal { rect, nw, ne, se, sw } => {
            let ghost n0 = n;
            let ghost gnw = nw;
            let ghost gne = ne;
            let ghost gse = se;
            let ghost gsw = sw;
            proof {
                lemma_mid_bounds(rect.x0 as int, rect.x1 as int);
                lemma_mid_bounds(rect.y0 as int, rect.y1 as int);
            }
            let nw2 = lossless_child(nw);
            let ne2 = lossless_child(ne);
            let se2 = lossless_child(se);
            let sw2 = lossless_child(sw);
            let ghost mxi = mid(rect.x0 as int, rect.x1 as int);
            let ghost myi = mid(rect.y0 as int, rect.y1 as int);
            let decision: Option<Color> = match child_leaf_color(&nw2) {
                Some(col) => {
                    if child_merge_ok(&ne2, col) && child_merge_ok(&se2, col) && child_merge_ok(
                        &sw2,
                        col,
                    ) {
                        Some(col)
                    } else {
                        None
                    }
                },
                None => None,
            };
            proof {
                assert forall|x: int, y: int| rect_contains(rect, x, y) implies {
                    let b = quadrant_of(n0, x, y)->Some_0;
                    rect_contains(node_rect(*b), x, y) && color_at(n0, x, y) == color_at(*b, x, y)
                } by {
                    lemma_dispatch(n0, x, y);
                }
            }
            match decision {
                Some(col) => {
                    let r = Node::Leaf { rect, color: col };
                    proof {
                        lemma_height_bounds(*gnw->Some_0);
                        lemma_leaf_count_bounds(n0);
                        assert forall|x: int, y: int| rect_contains(rect, x, y) implies #[trigger]
                            color_at(r, x, y) == color_at(n0, x, y) by {
                            lemma_dispatch(n0, x, y);
                            let b = quadrant_of(n0, x, y)->Some_0;
                            let b2 = quadrant_of_merged(nw2, ne2, se2, sw2, n0, x, y)->Some_0;
                            assert(color_at(*b, x, y) == color_at(*b2, x, y));
                            assert(*b2 == (Node::Leaf { rect: node_rect(*b2), color: col }));
                            assert(color_at(*b2, x, y) == col);
                        }
                        assert forall|cc: Color| uniform(n0, cc) implies r == (Node::Leaf {
                            rect,
                            color: cc,
                        }) by {
                            assert(rect_contains(rect, rect.x0 as int, rect.y0 as int));
                            assert(color_at(n0, rect.x0 as int, rect.y0 as int) == cc);
                            assert(color_at(r, rect.x0 as int, rect.y0 as int) == col);
                        }
                    }
                    r
                },
                None => {
                    let r = Node::Internal { rect, nw: nw2, ne: ne2, se: se2, sw: sw2 };
                    proof {
                        assert(node_wf(r));
                        let gnw2 = r->Internal_nw;
                        let gne2 = r->Internal_ne;
                        let gse2 = r->Internal_se;
                        let gsw2 = r->Internal_sw;
                        assert forall|x: int, y: int| rect_contains(rect, x, y) implies #[trigger]
                            color_at(r, x, y) == color_at(n0, x, y) by {
                            lemma_dispatch(n0, x, y);
                            lemma_dispatch(r, x, y);
                            let b = quadrant_of(n0, x, y)->Some_0;
                            let b2 = quadrant_of(r, x, y)->Some_0;
                            assert(rect_contains(node_rect(*b), x, y));
                            assert(color_at(*b2, x, y) == color_at(*b, x, y));
                        }
                        assert forall|cc: Color| uniform(n0, cc) implies r == (Node::Leaf {
                            rect,
                            color: cc,
                        }) by {
                            lemma_uniform_children(n0, cc);
                            assert(*gnw2->Some_0 == (Node::Leaf {
                                rect: node_rect(*gnw->Some_0),
                                color: cc,
                            }));
                            assert(spec_leaf_color(nw2) == Some(cc));
                            assert(spec_merge_ok(ne2, cc));
                            assert(spec_merge_ok(se2, cc));
                            assert(spec_merge_ok(sw2, cc));
                            assert(false);
                        }
                        if let Some(col) = spec_leaf_color(gnw2) {
                            if spec_merge_ok(gne2, col) && spec_merge_ok(gse2, col)
                                && spec_merge_ok(gsw2, col) {
                                assert(false);
                            }
                        }
                        assert(exact_fixed_point(r));
                    }
                    r
                },
            }
        },
    }
}

/// Average merge of one child slot, post-order: the whole subtree collapses
/// to its average color.
fn average_child(c: Option<Box<Node>>) -> (r: Option<Color>)
    requires
        opt_wf(c),
    ensures
        r is Some <==> c is Some,
        c matches Some(b) ==> r == Some(node_mean(*b)),
    decreases c,
{
    match c {
        None => None,
        Some(b) => {
            let m = aux_average_compression(*b);
            if let Node::Leaf { color, .. } = m {
                Some(color)
            } else {
                proof {
                    assert(false);
                }
                None
            }
        },
    }
}

/// The average merge pass over a subtree, post-order.
///
/// Since the compressed children of every internal node are always leaves,
/// the whole subtree collapses to a single leaf over the same rectangle,
/// resolved to the tree's recursive channel-wise truncating mean. A tree
/// that is already a single leaf is returned unchanged, and a uniform
/// subtree keeps its color exactly.
pub fn aux_average_compression(n: Node) -> (r: Node)
    requires
        node_wf(n),
    ensures
        node_wf(r),
        node_rect(r) == node_rect(n),
        r == (Node::Leaf { rect: node_rect(n), color: node_mean(n) }),
        node_height(r) == 0,
        node_height(r) <= node_height(n),
        n is Leaf ==> r == n,
        forall|cc: Color|
            uniform(n, cc) ==> r == (Node::Leaf { rect: node_rect(n), color: cc }),
    decreases n,
{
    proof {
        lemma_height_bounds(n);
        assert forall|cc: Color| uniform(n, cc) implies node_mean(n) == cc by {
            lemma_uniform_mean(n, cc);
        }
    }
    match n {
        Node::Leaf { .. } => n,
        Node::Internal { rect, nw, ne, se, sw } => {
            let ghost n0 = n;
            let ghost gnw = nw;
            let ghost gne = ne;
            let ghost gse = se;
            let ghost gsw = sw;
            proof {
                lemma_mid_bounds(rect.x0 as int, rect.x1 as int);
                lemma_mid_bounds(rect.y0 as int, rect.y1 as int);
            }
            let mut colors: Vec<Color> = Vec::new();
            if let Some(col) = average_child(nw) {
                colors.push(col);
            }
            if let Some(col) = average_child(ne) {
                colors.push(col);
            }
            if let Some(col) = average_child(se) {
                colors.push(col);
            }
            if let Some(col) = average_child(sw) {
                colors.push(col);
            }
            proof {
                assert(colors@ =~= opt_mean_seq(gnw) + opt_mean_seq(gne) + opt_mean_seq(gse)
                    + opt_mean_seq(gsw));
                assert(colors@.len() >= 1);
                assert(colors@.len() <= 4);
            }
            let col = average_color(&colors);
            Node::Leaf { rect, color: col }
        },
    }
}

/// A well-formed tree whose whole region is one single color averages to
/// exactly that color: the truncating mean of equal values is that value.
pub proof fn lemma_uniform_mean(n: Node, c: Color)
    requires
        node_wf(n),
        uniform(n, c),
    ensures
        node_mean(n) == c,
    decreases n,
{
    match n {
        Node::Leaf { rect, color } => {
            assert(rect_contains(rect, rect.x0 as int, rect.y0 as int));
            assert(color_at(n, rect.x0 as int, rect.y0 as int) == c);
        },
        Node::Internal { rect, nw, ne, se, sw } => {
            lemma_uniform_children(n, c);
            if let Some(b) = nw {
                lemma_uniform_mean(*b, c);
            }
            if let Some(b) = ne {
                lemma_uniform_mean(*b, c);
            }
            if let Some(b) = se {
                lemma_uniform_mean(*b, c);
            }
            if let Some(b) = sw {
                lemma_uniform_mean(*b, c);
            }
            let s = opt_mean_seq(nw) + opt_mean_seq(ne) + opt_mean_seq(se) + opt_mean_seq(sw);
            lemma_mid_bounds(rect.x0 as int, rect.x1 as int);
            lemma_mid_bounds(rect.y0 as int, rect.y1 as int);
            assert(opt_mean_seq(nw).len() == 1);
            assert forall|j: int| 0 <= j < s.len() implies s[j] == c by {}
            crate::color::lemma_mean_constant(s, c);
        },
    }
}

/// The quadrant child slot of an internal node that covers `(x, y)`.
pub open spec fn quadrant_of(n: Node, x: int, y: int) -> Option<Box<Node>>
    recommends
        n is Internal,
{
    let rect = node_rect(n);
    let mx = mid(rect.x0 as int, rect.x1 as int);
    let my = mid(rect.y0 as int, rect.y1 as int);
    if x <= mx && y <= my {
        n->Internal_nw
    } else if x > mx && y <= my {
        n->Internal_ne
    } else if x > mx && y > my {
        n->Internal_se
    } else {
        n->Internal_sw
    }
}

/// Same selection applied to four already-merged child slots.
pub open spec fn quadrant_of_merged(
    nw2: Option<Box<Node>>,
    ne2: Option<Box<Node>>,
    se2: Option<Box<Node>>,
    sw2: Option<Box<Node>>,
    n: Node,
    x: int,
    y: int,
) -> Option<Box<Node>> {
    let rect = node_rect(n);
    let mx = mid(rect.x0 as int, rect.x1 as int);
    let my = mid(rect.y0 as int, rect.y1 as int);
    if x <= mx && y <= my {
        nw2
    } else if x > mx && y <= my {
        ne2
    } else if x > mx && y > my {
        se2
    } else {
        sw2
    }
}

/// For an in-bounds pixel of a well-formed internal node, the selected
/// quadrant child is present, covers the pixel, and resolves its color.
pub proof fn lemma_dispatch(n: Node, x: int, y: int)
    requires
        node_wf(n),
        n is Internal,
        rect_contains(node_rect(n), x, y),
    ensures
        quadrant_of(n, x, y) is Some,
        rect_contains(node_rect(*quadrant_of(n, x, y)->Some_0), x, y),
        color_at(n, x, y) == color_at(*quadrant_of(n, x, y)->Some_0, x, y),
{
    let rect = node_rect(n);
    lemma_mid_bounds(rect.x0 as int, rect.x1 as int);
    lemma_mid_bounds(rect.y0 as int, rect.y1 as int);
}

/// In a uniform well-formed internal node, every present child is uniform
/// with the same color.
pub proof fn lemma_uniform_children(n: Node, c: Color)
    requires
        node_wf(n),
        n is Internal,
        uniform(n, c),
    ensures
        n->Internal_nw matches Some(b) ==> uniform(*b, c),
        n->Internal_ne matches Some(b) ==> uniform(*b, c),
        n->Internal_se matches Some(b) ==> uniform(*b, c),
        n->Internal_sw matches Some(b) ==> uniform(*b, c),
{
    let rect = node_rect(n);
    lemma_mid_bounds(rect.x0 as int, rect.x1 as int);
    lemma_mid_bounds(rect.y0 as int, rect.y1 as int);
    if let Some(b) = n->Internal_nw {
        assert forall|x: int, y: int| rect_contains(node_rect(*b), x, y) implies #[trigger]
            color_at(*b, x, y) == c by {
            assert(rect_contains(rect, x, y));
            assert(color_at(n, x, y) == c);
            lemma_dispatch(n, x, y);
        }
    }
    if let Some(b) = n->Internal_ne {
        assert forall|x: int, y: int| rect_contains(node_rect(*b), x, y) implies #[trigger]
            color_at(*b, x, y) == c by {
            assert(rect_contains(rect, x, y));
            assert(color_at(n, x, y) == c);
            lemma_dispatch(n, x, y);
        }
    }
    if let Some(b) = n->Internal_se {
        assert forall|x: int, y: int| rect_contains(node_rect(*b), x, y) implies #[trigger]
            color_at(*b, x, y) == c by {
            assert(rect_contains(rect, x, y));
            assert(color_at(n, x, y) == c);
            lemma_dispatch(n, x, y);
        }
    }
    if let Some(b) = n->Internal_sw {
        assert forall|x: int, y: int| rect_contains(node_rect(*b), x, y) implies #[trigger]
            color_at(*b, x, y) == c by {
            assert(rect_contains(rect, x, y));
            assert(color_at(n, x, y) == c);
            lemma_dispatch(n, x, y);
        }
    }
}

} // verus!
