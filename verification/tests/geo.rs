use rmsh::boundary::boundary_faces;
use rmsh::classify::classify_volumes;
use rmsh::element::{Element, ElementType};
use rmsh::extract::{face_triangle_indices, fan_triangulate, surface_faces, wireframe_edges};
use rmsh::mesh::{Mesh, Node, Point3};
use rmsh::topology::GFace;
use rmsh::meshing::Mesh3DError;
use rmsh::tetra::{
    build_tetra_mesh, collect_boundary_polygons, fan_polygons, next_node_id, tetra_surface,
    tetrahedralize_around, triangle_nodes,
};

fn coord(x: f64) -> String {
    x.to_string()
}

fn node(id: u64, x: f64, y: f64, z: f64) -> Node {
    Node::new(id, coord(x), coord(y), coord(z))
}

fn cube_surface() -> Mesh {
    let mut mesh = Mesh::new();
    let corners = [
        (1, [0.0, 0.0, 0.0]),
        (2, [1.0, 0.0, 0.0]),
        (3, [1.0, 1.0, 0.0]),
        (4, [0.0, 1.0, 0.0]),
        (5, [0.0, 0.0, 1.0]),
        (6, [1.0, 0.0, 1.0]),
        (7, [1.0, 1.0, 1.0]),
        (8, [0.0, 1.0, 1.0]),
    ];
    for (id, xyz) in corners {
        mesh.add_node(node(id, xyz[0], xyz[1], xyz[2]));
    }
    let quads = [
        (1, vec![1, 2, 3, 4]),
        (2, vec![5, 6, 7, 8]),
        (3, vec![1, 2, 6, 5]),
        (4, vec![2, 3, 7, 6]),
        (5, vec![3, 4, 8, 7]),
        (6, vec![4, 1, 5, 8]),
    ];
    for (id, nodes) in quads {
        mesh.add_element(Element::new(id, ElementType::Quad4, nodes));
    }
    mesh
}

fn two_tets() -> Mesh {
    let mut mesh = Mesh::new();
    for id in 1..=5 {
        mesh.add_node(node(id, id as f64, 0.0, 0.0));
    }
    mesh.add_element(Element::new(1, ElementType::Tetrahedron4, vec![1, 2, 3, 4]));
    mesh.add_element(Element::new(2, ElementType::Tetrahedron4, vec![2, 3, 4, 5]));
    mesh
}

#[test]
fn fan_triangulate_counts() {
    assert!(fan_triangulate(2).is_empty());
    assert_eq!(fan_triangulate(3), vec![[0, 1, 2]]);
    assert_eq!(fan_triangulate(5), vec![[0, 1, 2], [0, 2, 3], [0, 3, 4]]);
}

#[test]
fn boundary_faces_of_one_tetrahedron_in_key_order() {
    let mut mesh = Mesh::new();
    mesh.add_element(Element::new(1, ElementType::Tetrahedron4, vec![4, 3, 2, 1]));
    let faces = boundary_faces(&mesh).unwrap();
    assert_eq!(faces, vec![vec![3, 2, 1], vec![4, 2, 1], vec![4, 3, 1], vec![4, 3, 2]]);
}

#[test]
fn shared_faces_are_not_boundary() {
    let faces = boundary_faces(&two_tets()).unwrap();
    assert_eq!(
        faces,
        vec![vec![1, 2, 3], vec![1, 2, 4], vec![1, 3, 4], vec![2, 3, 5], vec![2, 4, 5], vec![3, 4, 5]]
    );
}

#[test]
fn inconsistent_volume_element_is_reported() {
    let mut mesh = two_tets();
    mesh.add_element(Element::new(7, ElementType::Hexahedron8, vec![1, 2, 3]));
    assert_eq!(boundary_faces(&mesh), Err(7));
    match collect_boundary_polygons(&mesh) {
        Err(Mesh3DError::Generation(m)) => {
            assert_eq!(m, "Element 7 face connectivity is inconsistent")
        }
        other => panic!("unexpected {:?}", other),
    }
}

#[test]
fn cube_surface_fills_with_twelve_tetrahedra() {
    let mesh = cube_surface();
    let polys = collect_boundary_polygons(&mesh).unwrap();
    assert_eq!(polys.len(), 6);
    assert_eq!(polys[5], vec![4, 1, 5, 8]);
    let tris = fan_polygons(&polys);
    assert_eq!(tris.len(), 12);
    assert_eq!(tris[0], [1, 2, 3]);
    assert_eq!(tris[1], [1, 3, 4]);
    let ids = triangle_nodes(&tris);
    assert_eq!(ids, vec![1, 2, 3, 4, 5, 6, 7, 8]);
    let centroid_id = next_node_id(&mesh);
    assert_eq!(centroid_id, 9);
    let centroid = Point3 { x: coord(0.5), y: coord(0.5), z: coord(0.5) };
    let keep = vec![true; tris.len()];
    let out = build_tetra_mesh(&mesh, &tris, &ids, centroid_id, centroid, &keep).unwrap();
    assert_eq!(out.elements_by_dimension(3).len(), 12);
    assert!(out.node_count() >= 9);
    assert_eq!(out.elements()[0].node_ids, vec![1, 2, 3, 9]);
    assert_eq!(out.elements()[11].id, 12);
}

#[test]
fn assembly_errors() {
    let mesh = cube_surface();
    let tris = vec![[1, 2, 3]];
    let centroid = || Point3 { x: coord(0.0), y: coord(0.0), z: coord(0.0) };
    match build_tetra_mesh(&mesh, &tris, &vec![1, 42], 9, centroid(), &vec![true]) {
        Err(Mesh3DError::Generation(m)) => assert_eq!(m, "Node 42 missing in source mesh"),
        other => panic!("unexpected {:?}", other),
    }
    match build_tetra_mesh(&mesh, &tris, &vec![1, 2, 3], 9, centroid(), &vec![false]) {
        Err(Mesh3DError::Generation(m)) => assert_eq!(m, "Generated tetrahedra are degenerate"),
        other => panic!("unexpected {:?}", other),
    }
    let kept = build_tetra_mesh(&mesh, &vec![[1, 2, 3], [1, 3, 4]], &vec![1, 2, 3, 4], 9, centroid(), &vec![false, true]).unwrap();
    assert_eq!(kept.element_count(), 1);
    assert_eq!(kept.elements()[0].id, 1);
    assert_eq!(kept.elements()[0].node_ids, vec![1, 3, 4, 9]);
    assert_eq!(kept.node_count(), 5);
    assert_eq!(next_node_id(&Mesh::new()), 1);
}

#[test]
fn surface_faces_list_boundary_then_surface_elements() {
    let mut mesh = Mesh::new();
    mesh.add_element(Element::new(1, ElementType::Triangle3, vec![7, 8, 9]));
    mesh.add_element(Element::new(2, ElementType::Tetrahedron4, vec![1, 2, 3, 4]));
    let faces = surface_faces(&mesh);
    assert_eq!(faces.len(), 5);
    assert_eq!(faces[4], vec![7, 8, 9]);
    assert_eq!(faces[0], vec![1, 2, 3]);
}

#[test]
fn index_buffer_of_faces() {
    assert_eq!(face_triangle_indices(&vec![3, 4, 2, 3]), vec![0, 1, 2, 3, 4, 5, 3, 5, 6, 7, 8, 9]);
    assert!(face_triangle_indices(&vec![]).is_empty());
}

#[test]
fn wireframe_skips_repeated_edges() {
    let mut mesh = Mesh::new();
    mesh.add_element(Element::new(1, ElementType::Triangle3, vec![1, 2, 3]));
    mesh.add_element(Element::new(2, ElementType::Line2, vec![3, 1]));
    mesh.add_element(Element::new(3, ElementType::Line2, vec![3, 4]));
    mesh.add_element(Element::new(4, ElementType::Tetrahedron4, vec![1, 2, 3, 5]));
    let edges = wireframe_edges(&mesh, &[1, 2]);
    assert_eq!(edges, vec![(1, 2), (2, 3), (3, 1), (3, 4)]);
    let only_lines = wireframe_edges(&mesh, &[1]);
    assert_eq!(only_lines, vec![(3, 1), (3, 4)]);
}

#[test]
fn classify_volumes_groups_elements_sharing_faces() {
    let mut mesh = Mesh::new();
    mesh.add_element(Element::new(1, ElementType::Tetrahedron4, vec![1, 2, 3, 4]));
    mesh.add_element(Element::new(2, ElementType::Tetrahedron4, vec![10, 11, 12, 13]));
    mesh.add_element(Element::new(3, ElementType::Tetrahedron4, vec![5, 4, 3, 2]));
    mesh.add_element(Element::new(4, ElementType::Triangle3, vec![7, 10, 11]));
    mesh.add_element(Element::new(5, ElementType::Tetrahedron4, vec![10, 11, 13, 20]));
    mesh.add_element(Element::new(6, ElementType::Tetrahedron4, vec![5, 30, 31, 32]));
    mesh.add_element(Element::new(7, ElementType::Tetrahedron4, vec![2, 3, 40, 41]));
    mesh.add_element(Element::new(8, ElementType::Hexahedron8, vec![50, 51, 52, 53, 54, 55, 56, 57]));
    mesh.add_element(Element::new(9, ElementType::Pyramid5, vec![53, 52, 51, 50, 60]));
    let regions = classify_volumes(&mesh, &Vec::new());
    assert_eq!(regions.len(), 5);
    for (j, r) in regions.iter().enumerate() {
        assert_eq!(r.id, j);
        assert!(r.face_ids.is_empty());
    }
    assert_eq!(regions[0].element_ids, vec![1, 3]);
    assert_eq!(regions[1].element_ids, vec![2, 5]);
    assert_eq!(regions[2].element_ids, vec![6]);
    assert_eq!(regions[3].element_ids, vec![7]);
    assert_eq!(regions[4].element_ids, vec![8, 9]);
}

#[test]
fn classify_volumes_does_not_join_through_an_edge_or_a_node() {
    let mut mesh = Mesh::new();
    mesh.add_element(Element::new(1, ElementType::Tetrahedron4, vec![1, 2, 3, 4]));
    mesh.add_element(Element::new(2, ElementType::Tetrahedron4, vec![1, 2, 5, 6]));
    mesh.add_element(Element::new(3, ElementType::Tetrahedron4, vec![4, 7, 8, 9]));
    let regions = classify_volumes(&mesh, &Vec::new());
    assert_eq!(regions.len(), 3);
    assert_eq!(regions[0].element_ids, vec![1]);
    assert_eq!(regions[1].element_ids, vec![2]);
    assert_eq!(regions[2].element_ids, vec![3]);
}

#[test]
fn classify_volumes_chains_through_shared_faces() {
    let mut mesh = Mesh::new();
    mesh.add_element(Element::new(1, ElementType::Tetrahedron4, vec![1, 2, 3, 4]));
    mesh.add_element(Element::new(2, ElementType::Tetrahedron4, vec![6, 7, 8, 5]));
    mesh.add_element(Element::new(3, ElementType::Tetrahedron4, vec![2, 3, 4, 5]));
    mesh.add_element(Element::new(4, ElementType::Tetrahedron4, vec![3, 4, 5, 6]));
    mesh.add_element(Element::new(5, ElementType::Tetrahedron4, vec![4, 5, 6, 7]));
    let regions = classify_volumes(&mesh, &Vec::new());
    assert_eq!(regions.len(), 1);
    assert_eq!(regions[0].element_ids, vec![1, 3, 4, 5, 2]);
}

#[test]
fn classify_volumes_keeps_an_element_with_missing_nodes_apart() {
    let mut mesh = Mesh::new();
    mesh.add_element(Element::new(1, ElementType::Tetrahedron4, vec![1, 2, 3, 4]));
    mesh.add_element(Element::new(2, ElementType::Tetrahedron4, vec![1, 2, 3]));
    let regions = classify_volumes(&mesh, &Vec::new());
    assert_eq!(regions.len(), 2);
    assert_eq!(regions[0].element_ids, vec![1]);
    assert_eq!(regions[1].element_ids, vec![2]);
}

#[test]
fn classify_volumes_without_volume_elements_is_empty() {
    assert!(classify_volumes(&cube_surface(), &Vec::new()).is_empty());
    let regions = classify_volumes(&two_tets(), &Vec::new());
    assert_eq!(regions.len(), 1);
    assert_eq!(regions[0].element_ids, vec![1, 2]);
}

fn gface(id: usize, polygons: Vec<Vec<u64>>) -> GFace {
    GFace { id, edge_ids: Vec::new(), mesh_faces: polygons }
}

#[test]
fn classify_volumes_lists_the_faces_that_bound_each_region() {
    let mut mesh = Mesh::new();
    mesh.add_element(Element::new(1, ElementType::Tetrahedron4, vec![1, 2, 3, 4]));
    mesh.add_element(Element::new(2, ElementType::Tetrahedron4, vec![2, 3, 4, 5]));
    mesh.add_element(Element::new(3, ElementType::Tetrahedron4, vec![10, 11, 12, 13]));
    let faces = vec![
        gface(0, vec![vec![13, 12, 10]]),
        gface(1, vec![vec![7, 8, 9]]),
        gface(2, vec![vec![3, 2, 1], vec![5, 3, 2]]),
        gface(3, vec![vec![4, 2, 5], vec![11, 13, 12]]),
        gface(4, vec![vec![1, 2, 5]]),
    ];
    let regions = classify_volumes(&mesh, &faces);
    assert_eq!(regions.len(), 2);
    assert_eq!(regions[0].element_ids, vec![1, 2]);
    assert_eq!(regions[0].face_ids, vec![2, 3]);
    assert_eq!(regions[1].element_ids, vec![3]);
    assert_eq!(regions[1].face_ids, vec![0, 3]);
}

#[test]
fn closed_surface_steps_around_the_centroid() {
    let mesh = cube_surface();
    let (tris, ids) = tetra_surface(&mesh).unwrap();
    assert_eq!(tris.len(), 12);
    assert_eq!(tris[11], [4, 5, 8]);
    assert_eq!(ids, vec![1, 2, 3, 4, 5, 6, 7, 8]);
    let centroid = Point3 { x: coord(0.5), y: coord(0.5), z: coord(0.5) };
    let mut keep = vec![true; tris.len()];
    keep[0] = false;
    let out = tetrahedralize_around(&mesh, &tris, &ids, centroid, &keep).unwrap();
    assert_eq!(out.element_count(), 11);
    assert_eq!(out.node_count(), 9);
    assert_eq!(out.elements()[0].node_ids, vec![1, 3, 4, 9]);
    assert_eq!(out.elements()[10].id, 11);
    assert_eq!(out.get_node(9).unwrap().position.x, coord(0.5));
}

#[test]
fn closed_surface_errors() {
    let message = |r: Result<(Vec<[u64; 3]>, Vec<u64>), Mesh3DError>| match r {
        Err(Mesh3DError::Generation(m)) => m,
        Ok(_) => panic!("expected an error"),
    };
    assert_eq!(message(tetra_surface(&Mesh::new())), "No boundary polygons found for 3D meshing");
    let mut lines = Mesh::new();
    lines.add_element(Element::new(1, ElementType::Line2, vec![1, 2]));
    assert_eq!(message(tetra_surface(&lines)), "No boundary polygons found for 3D meshing");
    let mut missing = Mesh::new();
    missing.add_node(node(3, 0.0, 0.0, 0.0));
    missing.add_element(Element::new(1, ElementType::Triangle3, vec![9, 3, 7]));
    assert_eq!(message(tetra_surface(&missing)), "Node 7 not found");
    let mut bad = two_tets();
    bad.add_element(Element::new(7, ElementType::Hexahedron8, vec![1, 2, 3]));
    assert_eq!(message(tetra_surface(&bad)), "Element 7 face connectivity is inconsistent");
}
