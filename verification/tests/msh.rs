use rmsh::element::{Element, ElementType};
use rmsh::mesh::{Mesh, Node};
use rmsh::msh::{parse_msh, MshError};
use rmsh::msh_write::{gmsh_type_id, validate_mesh, write_msh_v2};
use rmsh::msh_write_v4::write_msh_v4;

fn coord(x: f64) -> String {
    x.to_string()
}

fn node(id: u64, x: f64, y: f64, z: f64) -> Node {
    Node::new(id, coord(x), coord(y), coord(z))
}

fn sample_mesh() -> Mesh {
    let mut mesh = Mesh::new();
    mesh.add_node(node(1, 0.0, 0.0, 0.0));
    mesh.add_node(node(2, 1.0, 0.0, 0.0));
    mesh.add_node(node(3, 0.0, 1.0, 0.0));
    mesh.add_node(node(4, 0.0, 0.0, 1.0));

    let mut tri = Element::new(1, ElementType::Triangle3, vec![1, 2, 3]);
    tri.physical_tag = Some(11);
    mesh.add_element(tri);
    mesh.add_element(Element::new(2, ElementType::Tetrahedron4, vec![1, 2, 3, 4]));
    mesh.insert_physical_name(2, 11, "surface".to_string());
    mesh
}

fn assert_mesh_core_eq(actual: &Mesh, expected: &Mesh) {
    assert_eq!(actual.node_count(), expected.node_count());
    assert_eq!(actual.element_count(), expected.element_count());
    let names_a: Vec<_> = actual.physical_names().iter().map(|p| (p.dim, p.tag, p.name.clone())).collect();
    let names_e: Vec<_> = expected.physical_names().iter().map(|p| (p.dim, p.tag, p.name.clone())).collect();
    assert_eq!(names_a, names_e);

    for (a, e) in actual.nodes().iter().zip(expected.nodes().iter()) {
        assert_eq!(a.id, e.id);
        assert_eq!(a.position.x, e.position.x);
        assert_eq!(a.position.y, e.position.y);
        assert_eq!(a.position.z, e.position.z);
    }

    let mut actual_elements: Vec<_> = actual.elements().iter().collect();
    actual_elements.sort_by_key(|element| element.id);
    let mut expected_elements: Vec<_> = expected.elements().iter().collect();
    expected_elements.sort_by_key(|element| element.id);
    for (a, e) in actual_elements.into_iter().zip(expected_elements) {
        assert_eq!(a.id, e.id);
        assert_eq!(a.etype, e.etype);
        assert_eq!(a.node_ids, e.node_ids);
    }
}

#[test]
fn msh_test_parse_simple_msh_v4() {
    let msh_data = r#"$MeshFormat
4.1 0 8
$EndMeshFormat
$Nodes
1 4 1 4
3 1 0 4
1
2
3
4
0.0 0.0 0.0
1.0 0.0 0.0
0.0 1.0 0.0
0.0 0.0 1.0
$EndNodes
$Elements
1 1 1 1
3 1 4 1
1 1 2 3 4
$EndElements
"#;
    let mesh = parse_msh(msh_data).unwrap();
    assert_eq!(mesh.node_count(), 4);
    assert_eq!(mesh.element_count(), 1);
    assert_eq!(mesh.elements()[0].etype, ElementType::Tetrahedron4);
}

#[test]
fn msh_test_parse_simple_msh_v2() {
    let msh_data = r#"$MeshFormat
2.2 0 8
$EndMeshFormat
$Nodes
4
1 0.0 0.0 0.0
2 1.0 0.0 0.0
3 0.0 1.0 0.0
4 0.0 0.0 1.0
$EndNodes
$Elements
2
1 2 2 0 1 1 2 3
2 4 2 0 1 1 2 3 4
$EndElements
"#;
    let mesh = parse_msh(msh_data).unwrap();
    assert_eq!(mesh.node_count(), 4);
    assert_eq!(mesh.element_count(), 2);
    assert_eq!(mesh.elements()[0].etype, ElementType::Triangle3);
    assert_eq!(mesh.elements()[1].etype, ElementType::Tetrahedron4);
    assert_eq!(mesh.elements()[0].node_ids, vec![1, 2, 3]);
    assert_eq!(mesh.elements()[1].node_ids, vec![1, 2, 3, 4]);
}

#[test]
fn test_write_roundtrip_msh_v2() {
    let mesh = sample_mesh();
    let output = write_msh_v2(&mesh).unwrap();
    let parsed = parse_msh(&output).unwrap();
    assert_mesh_core_eq(&parsed, &mesh);
}

#[test]
fn test_write_roundtrip_msh_v4() {
    let mesh = sample_mesh();
    let output = write_msh_v4(&mesh).unwrap();
    let parsed = parse_msh(&output).unwrap();
    assert_mesh_core_eq(&parsed, &mesh);
}

#[test]
fn v2_text_of_sample_mesh() {
    let text = write_msh_v2(&sample_mesh()).unwrap();
    let expected = "$MeshFormat\n2.2 0 8\n$EndMeshFormat\n$PhysicalNames\n1\n2 11 \"surface\"\n$EndPhysicalNames\n$Nodes\n4\n1 0 0 0\n2 1 0 0\n3 0 1 0\n4 0 0 1\n$EndNodes\n$Elements\n2\n1 2 2 11 0 1 2 3\n2 4 0 1 2 3 4\n$EndElements\n";
    assert_eq!(text, expected);
}

#[test]
fn v4_text_of_sample_mesh() {
    let text = write_msh_v4(&sample_mesh()).unwrap();
    let expected = "$MeshFormat\n4.1 0 8\n$EndMeshFormat\n$PhysicalNames\n1\n2 11 \"surface\"\n$EndPhysicalNames\n$Nodes\n1 4 1 4\n3 1 0 4\n1\n2\n3\n4\n0 0 0\n1 0 0\n0 1 0\n0 0 1\n$EndNodes\n$Elements\n2 2 1 2\n2 11 2 1\n1 1 2 3\n3 1 4 1\n2 1 2 3 4\n$EndElements\n";
    assert_eq!(text, expected);
}

#[test]
fn v4_of_empty_mesh_has_empty_sections() {
    let text = write_msh_v4(&Mesh::new()).unwrap();
    assert_eq!(
        text,
        "$MeshFormat\n4.1 0 8\n$EndMeshFormat\n$Nodes\n0 0 0 0\n$EndNodes\n$Elements\n0 0 0 0\n$EndElements\n"
    );
    let parsed = parse_msh(&text).unwrap();
    assert_eq!(parsed.node_count(), 0);
    assert_eq!(parsed.element_count(), 0);
}

#[test]
fn writers_sort_elements_by_id_and_group_v4_blocks() {
    let mut mesh = Mesh::new();
    for id in 1..=4 {
        mesh.add_node(node(id, id as f64, 0.5, -2.0));
    }
    mesh.add_element(Element::new(5, ElementType::Line2, vec![1, 2]));
    mesh.add_element(Element::new(3, ElementType::Triangle3, vec![1, 2, 3]));
    mesh.add_element(Element::new(4, ElementType::Line2, vec![3, 4]));
    let v2 = write_msh_v2(&mesh).unwrap();
    assert!(v2.contains("$Elements\n3\n3 2 0 1 2 3\n4 1 0 3 4\n5 1 0 1 2\n$EndElements\n"));
    assert!(v2.contains("1 1 0.5 -2\n"));
    let v4 = write_msh_v4(&mesh).unwrap();
    assert!(v4.contains("$Elements\n2 3 3 5\n1 1 1 2\n4 3 4\n5 1 2\n2 1 2 1\n3 1 2 3\n$EndElements\n"));
    assert!(v4.contains("2 1 0 4\n"));
    let back = parse_msh(&v4).unwrap();
    let ids: Vec<u64> = back.elements().iter().map(|e| e.id).collect();
    assert_eq!(ids, vec![4, 5, 3]);
}

#[test]
fn parse_rejects_unknown_version() {
    let r = parse_msh("$MeshFormat\n3.0 0 8\n$EndMeshFormat\n");
    assert!(matches!(r, Err(MshError::UnsupportedVersion(ref v)) if v == "3.0"));
}

#[test]
fn parse_reports_end_of_file_with_line() {
    let r = parse_msh("$MeshFormat\n2.2 0 8\n$EndMeshFormat\n$Nodes\n2\n1 0 0 0\n");
    match r {
        Err(MshError::Parse { line, message }) => {
            assert_eq!(line, 7);
            assert_eq!(message, "Unexpected end of file");
        }
        other => panic!("unexpected {:?}", other),
    }
}

#[test]
fn parse_reports_bad_node_tag() {
    let r = parse_msh("$MeshFormat\n2.2 0 8\n$EndMeshFormat\n$Nodes\n1\nx 0 0 0\n$EndNodes\n");
    assert!(matches!(r, Err(MshError::Parse { line: 6, .. })));
}

#[test]
fn parse_skips_unknown_sections_and_keeps_names() {
    let text = "$MeshFormat\n2.2 0 8\n$EndMeshFormat\n$Comments\nhello\n$EndComments\n$PhysicalNames\n1\n3 7 \"solid part\"\n$EndPhysicalNames\n";
    let mesh = parse_msh(text).unwrap();
    assert_eq!(mesh.physical_names().len(), 1);
    assert_eq!(mesh.physical_names()[0].dim, 3);
    assert_eq!(mesh.physical_names()[0].tag, 7);
    assert_eq!(mesh.physical_names()[0].name, "solid part");
}

#[test]
fn validate_reports_unsupported_type_and_missing_node() {
    let mut mesh = Mesh::new();
    mesh.add_node(node(1, 0.0, 0.0, 0.0));
    mesh.add_element(Element::new(1, ElementType::Point1, vec![1]));
    assert!(validate_mesh(&mesh).is_ok());
    mesh.add_element(Element::new(2, ElementType::Line2, vec![1, 9]));
    assert!(matches!(validate_mesh(&mesh), Err(MshError::MissingNode(9))));
    assert!(matches!(write_msh_v2(&mesh), Err(MshError::MissingNode(9))));
    let mut other = Mesh::new();
    other.add_element(Element::new(1, ElementType::Unknown(99), vec![]));
    assert!(matches!(
        write_msh_v4(&other),
        Err(MshError::UnsupportedElementType(ElementType::Unknown(99)))
    ));
}

#[test]
fn gmsh_type_ids_round_trip() {
    let all = [
        ElementType::Point1,
        ElementType::Line2,
        ElementType::Triangle3,
        ElementType::Quad4,
        ElementType::Tetrahedron4,
        ElementType::Hexahedron8,
        ElementType::Prism6,
        ElementType::Pyramid5,
    ];
    for t in all {
        let id = gmsh_type_id(t).unwrap();
        assert_eq!(ElementType::from_gmsh_type_id(id), t);
    }
    assert_eq!(gmsh_type_id(ElementType::Tetrahedron4).unwrap(), 4);
    assert_eq!(gmsh_type_id(ElementType::Point1).unwrap(), 15);
}
