//! Geometric model entities (B-Rep style): vertices, edges, faces, regions.
use vstd::prelude::*;

verus! {

/// A geometric vertex — a corner point where 3+ edges meet.
/// Dimension: 0 (point). Holds the mesh node at this point.
#[derive(Debug)]
pub struct GVertex {
    pub id: usize,
    /// Mesh node ID at this geometric point.
    pub node_id: u64,
}

impl GVertex {
    /// Topological dimension: 0 (point)
    pub fn dimension(&self) -> (d: u8)
        ensures
            d == 0,
    {
        0
    }
}

/// A geometric edge — a curve along a sharp feature boundary.
/// Dimension: 1 (curve). Bounded by two geometric vertices, except for
/// closed loops where `vertex_ids` holds no vertex.
#[derive(Debug)]
pub struct GEdge {
    pub id: usize,
    /// Start and end geometric vertex IDs. `None` for closed loops.
    pub vertex_ids: [Option<usize>; 2],
    /// Ordered mesh node IDs along this edge.
    pub node_ids: Vec<u64>,
}

impl GEdge {
    /// Topological dimension: 1 (curve)
    pub fn dimension(&self) -> (d: u8)
        ensures
            d == 1,
    {
        1
    }
}

/// A geometric face — a smooth surface region bounded by sharp edges.
/// Dimension: 2 (surface). Made of mesh face polygons (node ID sequences).
#[derive(Debug)]
pub struct GFace {
    pub id: usize,
    /// Bounding geometric edge IDs.
    pub edge_ids: Vec<usize>,
    /// Mesh face polygons making up this face (each polygon is a node ID sequence).
    pub mesh_faces: Vec<Vec<u64>>,
}

impl GFace {
    /// Topological dimension: 2 (surface)
    pub fn dimension(&self) -> (d: u8)
        ensures
            d == 2,
    {
        2
    }
}

/// A geometric region — a solid region of connected volume elements.
/// Dimension: 3 (volume).
#[derive(Debug)]
pub struct GRegion {
    pub id: usize,
    /// Bounding geometric face IDs.
    pub face_ids: Vec<usize>,
    /// Mesh element IDs belonging to this region.
    pub element_ids: Vec<u64>,
}

impl GRegion {
    /// Topological dimension: 3 (volume)
    pub fn dimension(&self) -> (d: u8)
        ensures
            d == 3,
    {
        3
    }
}

/// Selection of a geometric entity for highlighting.
#[derive(Debug, Clone, Copy, PartialEq, Eq, Structural)]
pub enum GSelection {
    Region(usize),
    Face(usize),
    Edge(usize),
    Vertex(usize),
}

/// Selects `target`, or clears the selection where `target` is already
/// selected.
pub fn toggle_topo_selection(selection: &mut Option<GSelection>, target: GSelection)
    ensures
        *final(selection) == if *old(selection) == Some(target) {
            None
        } else {
            Some(target)
        },
{
    if *selection == Some(target) {
        *selection = None;
    } else {
        *selection = Some(target);
    }
}

} // verus!
