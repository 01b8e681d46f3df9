use rmsh::element::{Element, ElementType};
use rmsh::mesh::{Mesh, Node};
use rmsh::surface_loop::{boundary_loop_from_surface_mesh, BoundaryLoopError};

fn mesh_with_nodes(ids: &[u64]) -> Mesh {
    let mut mesh = Mesh::new();
    for &id in ids {
        mesh.add_node(Node::new(id, id.to_string(), "0".to_string(), "0".to_string()));
    }
    mesh
}

#[test]
fn square_of_two_triangles_has_its_four_corners_as_loop() {
    let mut mesh = mesh_with_nodes(&[1, 2, 3, 4]);
    mesh.add_element(Element::new(1, ElementType::Triangle3, vec![1, 2, 3]));
    mesh.add_element(Element::new(2, ElementType::Triangle3, vec![1, 3, 4]));
    assert_eq!(boundary_loop_from_surface_mesh(&mesh), Ok(vec![1, 2, 3, 4]));
}

#[test]
fn walk_starts_at_smallest_node_and_follows_first_sides() {
    let mut mesh = mesh_with_nodes(&[2, 5, 7, 9]);
    mesh.add_element(Element::new(1, ElementType::Quad4, vec![9, 7, 5, 2]));
    mesh.add_element(Element::new(2, ElementType::Line2, vec![2, 9]));
    assert_eq!(boundary_loop_from_surface_mesh(&mesh), Ok(vec![2, 5, 7, 9]));
}

#[test]
fn boundary_loop_errors() {
    let mut lines = mesh_with_nodes(&[1, 2, 3]);
    lines.add_element(Element::new(1, ElementType::Line2, vec![1, 2]));
    lines.add_element(Element::new(2, ElementType::Line2, vec![2, 3]));
    assert_eq!(boundary_loop_from_surface_mesh(&lines), Err(BoundaryLoopError::NoBoundary));

    let mut missing = mesh_with_nodes(&[1, 2]);
    missing.add_element(Element::new(1, ElementType::Triangle3, vec![1, 2, 3]));
    assert_eq!(boundary_loop_from_surface_mesh(&missing), Err(BoundaryLoopError::MissingNode(3)));

    let mut degenerate = mesh_with_nodes(&[1, 2, 3, 4, 5]);
    degenerate.add_element(Element::new(1, ElementType::Triangle3, vec![1, 1, 2]));
    degenerate.add_element(Element::new(2, ElementType::Triangle3, vec![3, 4, 5]));
    assert_eq!(boundary_loop_from_surface_mesh(&degenerate), Err(BoundaryLoopError::Degenerate));
}
