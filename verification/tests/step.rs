use rmsh::cad::StepError;
use rmsh::element::{Element, ElementType};
use rmsh::mesh::{Mesh, Node, Point3};
use rmsh::step::{brep_to_mesh, step_face_triangles, step_mesh};

fn node(id: u64) -> Node {
    Node::new(id, id.to_string(), "0".to_string(), "0".to_string())
}

fn point(x: f64) -> Point3 {
    Point3 { x: x.to_string(), y: "0".to_string(), z: "1".to_string() }
}

fn parse_message(r: Result<Vec<Vec<[usize; 3]>>, StepError>) -> String {
    match r {
        Err(StepError::Parse(m)) => m,
        other => panic!("expected a parse error, got {:?}", other),
    }
}

#[test]
fn faces_fan_each_polygon_over_sorted_node_indices() {
    let mut mesh = Mesh::new();
    for id in [40, 10, 30, 20] {
        mesh.add_node(node(id));
    }
    mesh.add_element(Element::new(1, ElementType::Quad4, vec![10, 20, 30, 40]));
    mesh.add_element(Element::new(2, ElementType::Line2, vec![10, 20]));
    mesh.add_element(Element::new(3, ElementType::Triangle3, vec![10, 99, 20]));
    mesh.add_element(Element::new(4, ElementType::Triangle3, vec![40, 30, 10]));
    mesh.add_element(Element::new(5, ElementType::Tetrahedron4, vec![20, 30, 40, 10]));
    let faces = step_face_triangles(&mesh).unwrap();
    assert_eq!(
        faces,
        vec![
            vec![[0, 1, 2], [0, 2, 3]],
            vec![[3, 2, 0]],
            vec![[1, 2, 3], [1, 3, 0]],
        ]
    );
}

#[test]
fn faces_of_unwritable_meshes_are_refused() {
    assert_eq!(parse_message(step_face_triangles(&Mesh::new())), "cannot write empty mesh to STEP");
    let mut lines = Mesh::new();
    lines.add_node(node(1));
    lines.add_node(node(2));
    lines.add_element(Element::new(1, ElementType::Line2, vec![1, 2]));
    assert_eq!(
        parse_message(step_face_triangles(&lines)),
        "no 2-D elements to write as STEP faces"
    );
}

#[test]
fn triangles_become_nodes_in_first_seen_order() {
    let points = vec![point(0.5), point(1.5), point(2.5)];
    let mesh = brep_to_mesh(&points, &vec![[2, 0, 1], [1, 2, 5]]);
    let ids: Vec<u64> = mesh.nodes().iter().map(|n| n.id).collect();
    assert_eq!(ids, vec![1, 2, 3]);
    assert_eq!(mesh.get_node(1).unwrap().position.x, "2.5");
    assert_eq!(mesh.get_node(2).unwrap().position.x, "0.5");
    assert_eq!(mesh.get_node(3).unwrap().position.x, "1.5");
    let es = mesh.elements();
    assert_eq!(es.len(), 2);
    assert_eq!(es[0].id, 1);
    assert_eq!(es[0].etype, ElementType::Triangle3);
    assert_eq!(es[0].node_ids, vec![1, 2, 3]);
    assert_eq!(es[1].id, 2);
    assert_eq!(es[1].node_ids, vec![3, 1, 4]);
}

#[test]
fn step_mesh_without_faces_is_refused() {
    match step_mesh(&vec![point(0.0)], &Vec::new()) {
        Err(StepError::Parse(m)) => assert_eq!(m, "No polygonal faces found in STEP data"),
        other => panic!("unexpected {:?}", other.map(|m| m.node_count())),
    }
    assert!(step_mesh(&vec![point(0.0), point(1.0), point(2.0)], &vec![[0, 1, 2]]).is_ok());
}

#[test]
fn write_empty_mesh_fails() {
    let mesh = Mesh::new();
    assert!(step_face_triangles(&mesh).is_err());
}
