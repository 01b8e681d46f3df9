use rmsh::element::ElementType;
use rmsh::topology::{toggle_topo_selection, GEdge, GFace, GRegion, GSelection, GVertex};

#[test]
fn geometric_entities_have_correct_dimensions() {
    // 0-Dimensional: GVertex
    let gvert = GVertex { id: 1, node_id: 100 };
    assert_eq!(gvert.dimension(), 0);

    // 1-Dimensional: GEdge
    let gedge = GEdge { id: 2, vertex_ids: [Some(1), Some(2)], node_ids: vec![100, 101, 102] };
    assert_eq!(gedge.dimension(), 1);

    // 2-Dimensional: GFace
    let gface = GFace {
        id: 3,
        edge_ids: vec![1, 2, 3],
        mesh_faces: vec![vec![100, 101, 102], vec![102, 103, 104]],
    };
    assert_eq!(gface.dimension(), 2);

    // 3-Dimensional: GRegion
    let gregion = GRegion { id: 4, face_ids: vec![1, 2, 3, 4, 5, 6], element_ids: vec![1000, 1001, 1002] };
    assert_eq!(gregion.dimension(), 3);
}

#[test]
fn selections_compare_by_kind_and_index() {
    assert_eq!(GSelection::Face(2), GSelection::Face(2));
    assert_ne!(GSelection::Face(2), GSelection::Edge(2));
    assert_ne!(GSelection::Region(1), GSelection::Region(2));
}

#[test]
fn dimension_containment_relationships() {
    // GVertex (0D) contains 1 node
    let gvert = GVertex { id: 1, node_id: 5 };
    assert_eq!(gvert.dimension(), 0);

    // GEdge (1D) contains ordered nodes from a Line2 chain
    let gedge = GEdge { id: 1, vertex_ids: [Some(1), Some(3)], node_ids: vec![5, 10, 11, 12] };
    assert_eq!(gedge.dimension(), 1);
    assert!(gedge.node_ids.len() >= 2);

    // GFace (2D) contains Triangle3/Quad4 node polygons
    let gface = GFace {
        id: 1,
        edge_ids: vec![1, 2, 3],
        mesh_faces: vec![vec![10, 11, 12], vec![12, 13, 14, 15]],
    };
    assert_eq!(gface.dimension(), 2);
    assert!(gface.mesh_faces.iter().all(|f| f.len() >= 3));

    // GRegion (3D) contains volume element IDs
    let gregion = GRegion { id: 1, face_ids: vec![1, 2, 3, 4, 5, 6], element_ids: vec![100, 101, 102] };
    assert_eq!(gregion.dimension(), 3);
    assert!(!gregion.element_ids.is_empty());
}

#[test]
fn toggling_a_selection_selects_or_clears_it() {
    let mut selection = None;
    toggle_topo_selection(&mut selection, GSelection::Face(3));
    assert_eq!(selection, Some(GSelection::Face(3)));
    toggle_topo_selection(&mut selection, GSelection::Edge(3));
    assert_eq!(selection, Some(GSelection::Edge(3)));
    toggle_topo_selection(&mut selection, GSelection::Edge(3));
    assert_eq!(selection, None);
}

#[test]
fn unknown_types_take_the_dimension_of_their_gmsh_family() {
    assert_eq!(ElementType::Unknown(15).dimension(), 0);
    for id in [8, 26, 27, 28] {
        assert_eq!(ElementType::Unknown(id).dimension(), 1);
    }
    for id in [9, 10, 16, 20, 25, 36, 51] {
        assert_eq!(ElementType::Unknown(id).dimension(), 2);
    }
    for id in [11, 12, 13, 14, 17, 18, 19, 29, 31, 90, 91, 92, 93, 118, 119] {
        assert_eq!(ElementType::Unknown(id).dimension(), 3);
    }
    for id in [0, 32, 99, -4] {
        assert_eq!(ElementType::Unknown(id).dimension(), 0);
    }
    assert_eq!(ElementType::from_gmsh_type_id(11).dimension(), 3);
}

#[test]
fn volume_faces_close_up_over_their_edges() {
    for t in [ElementType::Tetrahedron4, ElementType::Hexahedron8, ElementType::Prism6, ElementType::Pyramid5] {
        let faces = t.faces();
        let edges = t.edges();
        let joins = |e: &(usize, usize), a: usize, b: usize| (e.0 == a && e.1 == b) || (e.0 == b && e.1 == a);
        for f in &faces {
            for i in 0..f.len() {
                let (a, b) = (f[i], f[(i + 1) % f.len()]);
                assert!(edges.iter().any(|e| joins(e, a, b)));
            }
        }
        for e in &edges {
            let count = faces
                .iter()
                .filter(|f| (0..f.len()).any(|i| joins(e, f[i], f[(i + 1) % f.len()])))
                .count();
            assert_eq!(count, 2);
        }
        assert_eq!(t.node_count() + faces.len(), edges.len() + 2);
    }
}
