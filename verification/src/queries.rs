//! Read-only queries over a subtree: its height and the rough storage
//! footprint of its resolved colors.

use vstd::prelude::*;

use crate::tree::{
    lemma_height_le_64, lemma_leaf_count_bounds, max2, node_height, node_rect, opt_height,
    opt_leaf_count, opt_wf, rect_area, Node,
};

verus! {

/// Storage footprint of one resolved-color record: a four-channel color and
/// the four coordinates of its bounding rectangle.
pub const LEAF_RECORD_BYTES: usize = 20;

/// Length of the longest path from this subtree down to a leaf; an absent
/// subtree has height -1.
pub fn aux_height(c: &Option<Box<Node>>) -> (h: isize)
    requires
        opt_wf(*c),
    ensures
        h as int == opt_height(*c),
    decreases c,
{
    match c {
        None => -1,
        Some(b) => {
            proof {
                lemma_height_le_64(**b);
            }
            match &**b {
                Node::Leaf { .. } => 0,
                Node::Internal { nw, ne, se, sw, .. } => {
                    proof {
                        if let Some(cb) = nw {
                            lemma_height_le_64(**cb);
                        }
                        if let Some(cb) = ne {
                            lemma_height_le_64(**cb);
                        }
                        if let Some(cb) = se {
                            lemma_height_le_64(**cb);
                        }
                        if let Some(cb) = sw {
                            lemma_height_le_64(**cb);
                        }
                    }
                    let mut m = aux_height(nw);
                    let h_ne = aux_height(ne);
                    if h_ne > m {
                        m = h_ne;
                    }
                    let h_se = aux_height(se);
                    if h_se > m {
                        m = h_se;
                    }
                    let h_sw = aux_height(sw);
                    if h_sw > m {
                        m = h_sw;
                    }
                    proof {
                        assert(m as int == max2(
                            max2(opt_height(*nw), opt_height(*ne)),
                            max2(opt_height(*se), opt_height(*sw)),
                        ));
                        assert(node_height(**b) == 1 + m as int);
                    }
                    1 + m
                },
            }
        },
    }
}

/// Sum, over every leaf of the subtree, of the footprint of one
/// resolved-color record; internal-node and topology overhead is
/// intentionally left out.
pub fn aux_byte_size(c: &Option<Box<Node>>) -> (s: usize)
    requires
        opt_wf(*c),
        opt_leaf_count(*c) * LEAF_RECORD_BYTES <= usize::MAX,
    ensures
        s == opt_leaf_count(*c) * LEAF_RECORD_BYTES,
    decreases c,
{
    match c {
        None => 0,
        Some(b) => match &**b {
            Node::Leaf { .. } => LEAF_RECORD_BYTES,
            Node::Internal { nw, ne, se, sw, .. } => {
                let s_nw = aux_byte_size(nw);
                let s_ne = aux_byte_size(ne);
                let s_se = aux_byte_size(se);
                let s_sw = aux_byte_size(sw);
                s_nw + s_ne + s_se + s_sw
            },
        },
    }
}

/// The leaf count is bounded by the pixel count of the covered rectangle,
/// so the footprint bound follows from an area bound.
pub proof fn lemma_byte_size_bound_from_area(c: Option<Box<Node>>)
    requires
        opt_wf(c),
        c matches Some(b) ==> rect_area(node_rect(*b)) * LEAF_RECORD_BYTES <= usize::MAX,
    ensures
        opt_leaf_count(c) * LEAF_RECORD_BYTES <= usize::MAX,
{
    if let Some(b) = c {
        lemma_leaf_count_bounds(*b);
        let cnt = opt_leaf_count(c) as int;
        let area = rect_area(node_rect(*b));
        assert(cnt * LEAF_RECORD_BYTES <= area * LEAF_RECORD_BYTES) by (nonlinear_arith)
            requires
                0 <= cnt <= area,
        ;
    }
}

} // verus!
