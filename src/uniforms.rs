//! The flattened node table that the tracer reads.
use vstd::prelude::*;
use crate::bbox::Bbox;

verus! {

/// One entry of the node table: the children's ids (-1 for a leaf), the
/// primitive range, and the box.
#[derive(Clone, Copy, Debug, PartialEq, Eq, Structural)]
pub struct BvhNode {
    pub lc_ind: i32,
    pub rc_ind: i32,
    pub prim_start: i32,
    pub prim_end: i32,
    pub bbox: Bbox,
}

impl BvhNode {
    pub fn new(lc_ind: i32, rc_ind: i32, prim_start: i32, prim_end: i32, bbox: Bbox) -> (r: BvhNode)
        ensures
            r == (BvhNode { lc_ind, rc_ind, prim_start, prim_end, bbox }),
    {
        BvhNode { lc_ind, rc_ind, prim_start, prim_end, bbox }
    }
}

} // verus!
