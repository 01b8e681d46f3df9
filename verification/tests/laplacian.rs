use rmsh::element::{Element, ElementType};
use rmsh::laplacian::{
    build_node_adjacency, collect_boundary_nodes, element_faces, LaplacianVariant,
};
use rmsh::mesh::{Mesh, Node};

fn coord(x: f64) -> String {
    x.to_string()
}

fn node(id: u64, x: f64, y: f64, z: f64) -> Node {
    Node::new(id, coord(x), coord(y), coord(z))
}

fn two_triangle_mesh() -> Mesh {
    let mut mesh = Mesh::new();
    mesh.add_node(node(1, 0.0, 0.0, 0.0));
    mesh.add_node(node(2, 1.0, 0.0, 0.0));
    mesh.add_node(node(3, 0.0, 1.0, 0.0));
    mesh.add_node(node(4, 1.0, 1.0, 0.0));
    mesh.add_element(Element::new(1, ElementType::Triangle3, vec![1, 2, 3]));
    mesh.add_element(Element::new(2, ElementType::Triangle3, vec![2, 4, 3]));
    mesh
}

#[test]
fn build_node_adjacency_two_triangles() {
    let mesh = two_triangle_mesh();
    let adj = build_node_adjacency(&mesh);
    // Node 3 should be adjacent to 1, 2, and 4 (shared between both tris).
    let mut n3 = adj[&3].clone();
    n3.sort();
    assert_eq!(n3, vec![1, 2, 4]);
}

#[test]
fn collect_boundary_nodes_two_triangles() {
    let mesh = two_triangle_mesh();
    let boundary = collect_boundary_nodes(&mesh);
    // All 4 nodes lie on at least one boundary face.
    assert_eq!(boundary.len(), 4);
}

#[test]
fn element_faces_tet4_returns_four_sorted_faces() {
    let faces = element_faces(&[10, 20, 30, 40]);
    assert_eq!(faces.len(), 4);
    // Each face must have its nodes sorted.
    for f in &faces {
        let mut s = *f;
        s.sort_unstable();
        assert_eq!(*f, s);
    }
    // Check specific faces present (sorted [10,20,30], [10,20,40], [10,30,40], [20,30,40]).
    let expected: std::collections::HashSet<[u64; 3]> =
        [[10, 20, 30], [10, 20, 40], [10, 30, 40], [20, 30, 40]].into();
    let got: std::collections::HashSet<[u64; 3]> = faces.into_iter().collect();
    assert_eq!(got, expected);
}

#[test]
fn element_faces_tri3_returns_one_sorted_face() {
    let faces = element_faces(&[5, 3, 7]);
    assert_eq!(faces.len(), 1);
    assert_eq!(faces[0], [3, 5, 7]);
}

#[test]
fn element_faces_degenerate_fallback() {
    // 1 node: empty
    assert!(element_faces(&[1]).is_empty());
    // 5 nodes: fallback to first 3
    let faces = element_faces(&[9, 7, 5, 3, 1]);
    assert_eq!(faces.len(), 1);
}

#[test]
fn element_faces_keep_element_order_of_faces() {
    let faces = element_faces(&[4, 3, 2, 1]);
    assert_eq!(faces, vec![[2, 3, 4], [1, 3, 4], [1, 2, 4], [1, 2, 3]]);
    assert_eq!(element_faces(&[9, 7, 5, 3, 1]), vec![[5, 7, 9]]);
    assert!(element_faces(&[2, 1]).is_empty());
}

#[test]
fn adjacency_is_symmetric_without_repeats() {
    let mut mesh = two_triangle_mesh();
    mesh.add_element(Element::new(3, ElementType::Line2, vec![1, 2]));
    mesh.add_element(Element::new(4, ElementType::Point1, vec![9]));
    let adj = build_node_adjacency(&mesh);
    assert_eq!(adj.len(), 4);
    assert!(!adj.contains_key(&9));
    for (a, ns) in &adj {
        let mut sorted = ns.clone();
        sorted.sort();
        sorted.dedup();
        assert_eq!(sorted.len(), ns.len());
        for b in ns {
            assert!(adj[b].contains(a));
        }
    }
    let mut n1 = adj[&1].clone();
    n1.sort();
    assert_eq!(n1, vec![2, 3]);
}

#[test]
fn boundary_nodes_of_two_tets_sharing_a_face() {
    let mut mesh = Mesh::new();
    for id in 1..=5 {
        mesh.add_node(node(id, id as f64, 0.0, 0.0));
    }
    mesh.add_element(Element::new(1, ElementType::Tetrahedron4, vec![1, 2, 3, 4]));
    mesh.add_element(Element::new(2, ElementType::Tetrahedron4, vec![2, 3, 4, 5]));
    let boundary = collect_boundary_nodes(&mesh);
    let mut ids: Vec<u64> = boundary.into_iter().collect();
    ids.sort();
    assert_eq!(ids, vec![1, 2, 3, 4, 5]);
    // A single triangle counted twice is internal.
    let mut flat = Mesh::new();
    flat.add_element(Element::new(1, ElementType::Triangle3, vec![1, 2, 3]));
    flat.add_element(Element::new(2, ElementType::Triangle3, vec![3, 1, 2]));
    assert!(collect_boundary_nodes(&flat).is_empty());
}

#[test]
fn laplacian_variant_defaults_to_uniform() {
    assert_eq!(LaplacianVariant::default(), LaplacianVariant::Uniform);
    let t = LaplacianVariant::Taubin { lambda: 500, mu_milli: -530 };
    assert_ne!(t, LaplacianVariant::Cotangent);
}
