//! Scene primitives as seen by the hierarchy builder.
use vstd::prelude::*;
use crate::bbox::{points_box, Bbox, Point3};

verus! {

/// A transformed triangle: the mesh and vertex indices it came from, its
/// material and instance, and its bounding box on the grid.
#[derive(Clone, Copy, Debug)]
pub struct Triangle {
    pub mesh_index: u32,
    pub index: u32,
    pub indices: [usize; 3],
    pub material: u32,
    pub trans_index: u32,
    pub bbox: Bbox,
}

impl Triangle {
    /// A triangle whose box is the tight box of its three (already
    /// transformed) vertex positions.
    pub fn new(
        mesh_index: u32,
        index: u32,
        indices: [usize; 3],
        material: u32,
        points: [Point3; 3],
        trans_index: u32,
    ) -> (r: Triangle)
        ensures
            r.mesh_index == mesh_index,
            r.index == index,
            r.indices == indices,
            r.material == material,
            r.trans_index == trans_index,
            r.bbox == points_box(points@),
    {
        let bbox = Bbox::from_points(points.as_slice());
        Triangle { mesh_index, index, indices, material, trans_index, bbox }
    }

    pub fn bbox(&self) -> (r: Bbox)
        ensures
            r == self.bbox,
    {
        self.bbox
    }
}

} // verus!
