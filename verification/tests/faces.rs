use rmsh::classify::classify_volumes;
use rmsh::element::{Element, ElementType};
use rmsh::faces::{classification_faces, classify_faces, face_adjacency};
use rmsh::mesh::{Mesh, Node};

fn cube_faces() -> Vec<Vec<u64>> {
    vec![
        vec![1, 2, 3, 4],
        vec![5, 6, 7, 8],
        vec![1, 2, 6, 5],
        vec![2, 3, 7, 6],
        vec![3, 4, 8, 7],
        vec![4, 1, 5, 8],
    ]
}

fn flags(adj: &Vec<Vec<(usize, (u64, u64))>>, smooth: bool) -> Vec<Vec<bool>> {
    adj.iter().map(|a| vec![smooth; a.len()]).collect()
}

#[test]
fn cube_sides_are_met_in_order() {
    let (sides, lists, adj) = face_adjacency(&cube_faces());
    assert_eq!(
        sides,
        vec![(1, 2), (2, 3), (3, 4), (1, 4), (5, 6), (6, 7), (7, 8), (5, 8), (2, 6), (1, 5), (3, 7), (4, 8)]
    );
    assert_eq!(lists[0], vec![0, 2]);
    assert_eq!(lists[8], vec![2, 3]);
    assert_eq!(adj.len(), 6);
    assert!(adj.iter().all(|a| a.len() == 4));
    assert!(adj[0].contains(&(2, (1, 2))));
    assert!(adj[2].contains(&(0, (1, 2))));
}

#[test]
fn sharp_cube_has_six_faces_twelve_edges_eight_corners() {
    let faces = cube_faces();
    let (sides, lists, adj) = face_adjacency(&faces);
    let c = classify_faces(&faces, &sides, &lists, &adj, &flags(&adj, false));
    assert_eq!(c.faces.len(), 6);
    assert_eq!(c.edges.len(), 12);
    assert_eq!(c.vertices.len(), 8);
    for (t, f) in c.faces.iter().enumerate() {
        assert_eq!(f.id, t);
        assert_eq!(f.mesh_faces, vec![faces[t].clone()]);
    }
    assert_eq!(c.faces[0].edge_ids, vec![0, 1, 2, 3]);
    assert_eq!(c.faces[2].edge_ids, vec![0, 4, 8, 9]);
    assert_eq!(c.edges[8].node_ids, vec![2, 6]);
    assert_eq!(c.edges[8].vertex_ids, [Some(1), Some(5)]);
    let corners: Vec<u64> = c.vertices.iter().map(|v| v.node_id).collect();
    assert_eq!(corners, vec![1, 2, 3, 4, 5, 6, 7, 8]);
}

#[test]
fn smooth_cube_is_one_face_without_edges() {
    let faces = cube_faces();
    let (sides, lists, adj) = face_adjacency(&faces);
    let c = classify_faces(&faces, &sides, &lists, &adj, &flags(&adj, true));
    assert_eq!(c.faces.len(), 1);
    assert_eq!(c.faces[0].mesh_faces.len(), 6);
    assert_eq!(c.faces[0].mesh_faces[0], faces[0]);
    assert!(c.faces[0].edge_ids.is_empty());
    assert!(c.edges.is_empty());
    assert!(c.vertices.is_empty());
}

#[test]
fn open_square_has_a_boundary_loop_without_corners() {
    let faces = vec![vec![1, 2, 3], vec![1, 3, 4]];
    let (sides, lists, adj) = face_adjacency(&faces);
    let c = classify_faces(&faces, &sides, &lists, &adj, &flags(&adj, true));
    assert_eq!(c.faces.len(), 1);
    assert_eq!(c.edges.len(), 4);
    assert!(c.vertices.is_empty());
    let ends: Vec<Vec<u64>> = c.edges.iter().map(|e| e.node_ids.clone()).collect();
    assert_eq!(ends, vec![vec![1, 2], vec![2, 3], vec![3, 4], vec![1, 4]]);
    assert!(c.edges.iter().all(|e| e.vertex_ids == [None, None]));
    assert_eq!(c.faces[0].edge_ids, vec![0, 1, 2, 3]);
}

#[test]
fn classification_faces_of_volume_and_surface_meshes() {
    let mut tet = Mesh::new();
    for id in 1..=4 {
        tet.add_node(Node::new(id, "0".to_string(), "0".to_string(), "0".to_string()));
    }
    tet.add_element(Element::new(1, ElementType::Tetrahedron4, vec![1, 2, 3, 4]));
    tet.add_element(Element::new(2, ElementType::Triangle3, vec![1, 2, 3]));
    let faces = classification_faces(&tet);
    assert_eq!(faces.len(), 4);

    let mut surface = Mesh::new();
    surface.add_element(Element::new(1, ElementType::Triangle3, vec![1, 2, 3]));
    surface.add_element(Element::new(2, ElementType::Line2, vec![3, 4]));
    surface.add_element(Element::new(3, ElementType::Quad4, vec![3, 4, 5, 6]));
    assert_eq!(classification_faces(&surface), vec![vec![1, 2, 3], vec![3, 4, 5, 6]]);
}

#[test]
fn classification_of_a_mesh_names_only_its_nodes() {
    let mut mesh = Mesh::new();
    for id in 1..=5 {
        mesh.add_node(Node::new(id, "0".to_string(), "0".to_string(), "0".to_string()));
    }
    mesh.add_element(Element::new(1, ElementType::Tetrahedron4, vec![1, 2, 3, 4]));
    mesh.add_element(Element::new(2, ElementType::Tetrahedron4, vec![2, 3, 4, 5]));
    let faces = classification_faces(&mesh);
    assert_eq!(faces.len(), 6);
    let (sides, lists, adj) = face_adjacency(&faces);
    let c = classify_faces(&faces, &sides, &lists, &adj, &flags(&adj, false));
    assert_eq!(c.faces.len(), 6);
    for v in &c.vertices {
        assert!(mesh.nodes().iter().any(|n| n.id == v.node_id));
    }
    for e in &c.edges {
        for id in &e.node_ids {
            assert!(mesh.nodes().iter().any(|n| n.id == *id));
        }
        for v in e.vertex_ids.iter().flatten() {
            assert!(*v < c.vertices.len());
            assert!(e.node_ids.contains(&c.vertices[*v].node_id));
        }
    }
    for f in &c.faces {
        for e in &f.edge_ids {
            assert!(*e < c.edges.len());
        }
        for polygon in &f.mesh_faces {
            assert!(polygon.len() >= 3);
            for id in polygon {
                assert!(mesh.nodes().iter().any(|n| n.id == *id));
            }
        }
    }
}

#[test]
fn every_geometric_face_of_a_volume_mesh_bounds_a_region() {
    let mut mesh = Mesh::new();
    for id in 1..=9 {
        mesh.add_node(Node::new(id, "0".to_string(), "0".to_string(), "0".to_string()));
    }
    mesh.add_element(Element::new(1, ElementType::Tetrahedron4, vec![1, 2, 3, 4]));
    mesh.add_element(Element::new(2, ElementType::Tetrahedron4, vec![2, 3, 4, 5]));
    mesh.add_element(Element::new(3, ElementType::Tetrahedron4, vec![6, 7, 8, 9]));
    let faces = classification_faces(&mesh);
    let (sides, lists, adj) = face_adjacency(&faces);
    let c = classify_faces(&faces, &sides, &lists, &adj, &flags(&adj, true));
    assert_eq!(c.faces.len(), 2);
    let regions = classify_volumes(&mesh, &c.faces);
    assert_eq!(regions.len(), 2);
    for t in 0..c.faces.len() {
        assert!(regions.iter().any(|r| r.face_ids.contains(&t)));
    }
    assert_eq!(regions[0].element_ids, vec![1, 2]);
    assert_eq!(regions[1].element_ids, vec![3]);
    let first = c.faces.iter().position(|f| f.mesh_faces.iter().any(|p| p.contains(&1))).unwrap();
    assert_eq!(regions[0].face_ids, vec![first]);
    assert_eq!(regions[1].face_ids, vec![1 - first]);
}
