//! The quadtree that owns the root node and drives construction, the two
//! compression passes, the queries and the renderer.
//!
//! An empty tree (no root) is a well-defined no-op everywhere: its height is
//! -1, both compression passes leave it empty, and rendering it yields a
//! blank grid.

use vstd::prelude::*;

use crate::builder::{aux_initialize, tree_matches_grid_on};
use crate::color::Color;
use crate::grid::Grid;
use crate::merge::{aux_average_compression, aux_lossless_compression};
use crate::queries::{aux_byte_size, aux_height, lemma_byte_size_bound_from_area, LEAF_RECORD_BYTES};
use crate::render::{aux_generate_image, grid_matches_tree_on};
use crate::tree::{
    leaves_are_pixels, lemma_fully_split_leaf_count, node_height, node_leaf_count, node_mean,
    node_rect, opt_height, opt_leaf_count, opt_wf, rect_area, rect_contains, uniform, Node, Rect,
};

verus! {

/// A quadtree: the root node, if any, and the side length recorded at
/// construction (the source grid's width), used later to size the output
/// grid.
#[derive(Debug, PartialEq, Eq)]
pub struct QuadTree {
    pub root: Option<Box<Node>>,
    pub init_height: u32,
}

impl QuadTree {
    /// The root, when present, is a well-formed node.
    pub open spec fn wf(self) -> bool {
        opt_wf(self.root)
    }

    /// Height of the tree: -1 when empty.
    pub open spec fn spec_height(self) -> int {
        opt_height(self.root)
    }

    /// The tree's rectangle lies inside a `side x side` output grid.
    pub open spec fn fits(self, side: u32) -> bool {
        self.root matches Some(b) ==> node_rect(*b).x1 < side && node_rect(*b).y1 < side
    }

    /// An empty tree.
    pub fn new() -> (q: QuadTree)
        ensures
            q.wf(),
            q.root is None,
            q.init_height == 0,
    {
        QuadTree { root: None, init_height: 0 }
    }

    /// Builds the quadtree of the whole grid by recursive quadrant
    /// splitting; records the grid's width as the output side length.
    pub fn initialize(grid: &Grid) -> (q: QuadTree)
        requires
            grid.wf(),
            grid.width >= 1,
            grid.height >= 1,
        ensures
            q.wf(),
            q.init_height == grid.width,
            q.root matches Some(b) && node_rect(*b) == (Rect {
                x0: 0,
                y0: 0,
                x1: (grid.width - 1) as u32,
                y1: (grid.height - 1) as u32,
            }) && tree_matches_grid_on(*b, *grid, node_rect(*b)) && leaves_are_pixels(*b)
                && node_leaf_count(*b) == grid.width * grid.height,
    {
        let root = aux_initialize(grid, 0, 0, grid.width - 1, grid.height - 1);
        proof {
            lemma_fully_split_leaf_count(root);
        }
        QuadTree { root: Some(Box::new(root)), init_height: grid.width }
    }

    /// Length of the longest root-to-leaf path: -1 for an empty tree, 0 for
    /// a single leaf.
    pub fn height(&self) -> (h: isize)
        requires
            self.wf(),
        ensures
            h as int == self.spec_height(),
    {
        aux_height(&self.root)
    }

    /// Rough storage footprint: one resolved-color record per leaf.
    pub fn byte_size(&self) -> (s: usize)
        requires
            self.wf(),
            self.root matches Some(b) ==> rect_area(node_rect(*b)) * LEAF_RECORD_BYTES
                <= usize::MAX,
        ensures
            s == opt_leaf_count(self.root) * LEAF_RECORD_BYTES,
    {
        proof {
            lemma_byte_size_bound_from_area(self.root);
        }
        aux_byte_size(&self.root)
    }

    /// The exact-match merge pass, in place: lossless, never taller, only
    /// collapsing (the leaf count never grows), reaching the merged fixed
    /// point in one call; a uniformly colored tree collapses to a single
    /// leaf of that color.
    pub fn lossless_compression(&mut self)
        requires
            old(self).wf(),
        ensures
            final(self).wf(),
            final(self).init_height == old(self).init_height,
            final(self).root is Some <==> old(self).root is Some,
            old(self).root matches Some(b) ==> (final(self).root matches Some(rb) && node_rect(*rb)
                == node_rect(*b) && node_height(*rb) <= node_height(*b) && node_leaf_count(*rb)
                <= node_leaf_count(*b) && crate::merge::exact_fixed_point(*rb) && (forall|
                x: int,
                y: int,
            |
                rect_contains(node_rect(*b), x, y) ==> #[trigger] crate::tree::color_at(*rb, x, y)
                    == crate::tree::color_at(*b, x, y)) && (forall|cc: Color|
                uniform(*b, cc) ==> *rb == (Node::Leaf { rect: node_rect(*b), color: cc }))),
    {
        let root = self.root.take();
        match root {
            None => {},
            Some(b) => {
                let merged = aux_lossless_compression(*b);
                self.root = Some(Box::new(merged));
            },
        }
    }

    /// The average merge pass, in place: a non-empty tree collapses to a
    /// single leaf holding its recursive channel-wise truncating mean; a
    /// tree that is already a single leaf is left unchanged.
    pub fn average_compression(&mut self)
        requires
            old(self).wf(),
        ensures
            final(self).wf(),
            final(self).init_height == old(self).init_height,
            final(self).root is Some <==> old(self).root is Some,
            old(self).root matches Some(b) ==> (final(self).root matches Some(rb) && *rb == (
            Node::Leaf { rect: node_rect(*b), color: node_mean(*b) }) && node_height(*rb)
                <= node_height(*b) && (forall|cc: Color|
                uniform(*b, cc) ==> *rb == (Node::Leaf { rect: node_rect(*b), color: cc }))),
            old(self).root matches Some(b) ==> (*b is Leaf ==> (final(self).root matches Some(rb)
                && *rb == *b)),
    {
        let root = self.root.take();
        match root {
            None => {},
            Some(b) => {
                let merged = aux_average_compression(*b);
                self.root = Some(Box::new(merged));
            },
        }
    }

    /// Paints the tree into a fresh blank `side x side` grid: pixels inside
    /// the tree's rectangle take its resolved colors, every other pixel
    /// stays blank. An empty tree yields an all-blank grid.
    pub fn render(&self, side: u32) -> (out: Grid)
        requires
            self.wf(),
            self.fits(side),
            side as int * side as int <= usize::MAX,
        ensures
            out.wf(),
            out.width == side,
            out.height == side,
            self.root matches Some(b) ==> grid_matches_tree_on(out, *b, node_rect(*b)),
            self.root matches Some(b) ==> (forall|x: int, y: int|
                out.in_bounds(x, y) && !rect_contains(node_rect(*b), x, y)
                    ==> #[trigger] out.color_at(x, y) == (Color { r: 0, g: 0, b: 0, a: 0 })),
            self.root is None ==> (forall|x: int, y: int|
                out.in_bounds(x, y) ==> #[trigger] out.color_at(x, y) == (Color {
                    r: 0,
                    g: 0,
                    b: 0,
                    a: 0,
                })),
    {
        let mut out = Grid::new(side, side);
        match &self.root {
            None => {},
            Some(b) => {
                aux_generate_image(&mut out, &**b);
            },
        }
        out
    }

    /// The parenthesized textual form of the tree, for inspection; the tree
    /// must have a root.
    pub fn to_text(&self) -> (s: String)
        requires
            self.root is Some,
        ensures
            self.root matches Some(b) ==> s@ == crate::text::text_of(*b),
    {
        match &self.root {
            Some(b) => crate::text::aux_to_text(&**b),
            None => String::new(),
        }
    }

    /// Reconstructs the output grid sized by the recorded initial side
    /// length.
    pub fn generate_image(&self) -> (out: Grid)
        requires
            self.wf(),
            self.fits(self.init_height),
            self.init_height as int * self.init_height as int <= usize::MAX,
        ensures
            out.wf(),
            out.width == self.init_height,
            out.height == self.init_height,
            self.root matches Some(b) ==> grid_matches_tree_on(out, *b, node_rect(*b)),
            self.root matches Some(b) ==> (forall|x: int, y: int|
                out.in_bounds(x, y) && !rect_contains(node_rect(*b), x, y)
                    ==> #[trigger] out.color_at(x, y) == (Color { r: 0, g: 0, b: 0, a: 0 })),
            self.root is None ==> (forall|x: int, y: int|
                out.in_bounds(x, y) ==> #[trigger] out.color_at(x, y) == (Color {
                    r: 0,
                    g: 0,
                    b: 0,
                    a: 0,
                })),
    {
        self.render(self.init_height)
    }
}

} // verus!
