use rmsh::element::{Element, ElementType};
use rmsh::merge::merge_meshes;
use rmsh::mesh::{Mesh, Node};

fn node(id: u64, x: f64) -> Node {
    Node::new(id, x.to_string(), "0".to_string(), "0".to_string())
}

#[test]
fn merged_nodes_and_elements_get_fresh_ids() {
    let mut base = Mesh::new();
    base.add_node(node(1, 0.0));
    base.add_node(node(5, 1.0));
    base.add_element(Element::new(3, ElementType::Line2, vec![1, 5]));
    base.add_element(Element::new(7, ElementType::Point1, vec![5]));

    let mut incoming = Mesh::new();
    incoming.add_node(node(9, 9.5));
    incoming.add_node(node(2, 2.5));
    incoming.add_node(node(4, 4.5));
    let mut tri = Element::new(1, ElementType::Triangle3, vec![2, 4, 9]);
    tri.physical_tag = Some(5);
    incoming.add_element(tri);
    incoming.add_element(Element::new(2, ElementType::Line2, vec![4, 100]));
    incoming.add_element(Element::new(3, ElementType::Line2, vec![9, 2]));

    merge_meshes(&mut base, &incoming);

    let ids: Vec<u64> = base.nodes().iter().map(|n| n.id).collect();
    assert_eq!(ids, vec![1, 5, 6, 7, 8]);
    assert_eq!(base.get_node(6).unwrap().position.x, "2.5");
    assert_eq!(base.get_node(7).unwrap().position.x, "4.5");
    assert_eq!(base.get_node(8).unwrap().position.x, "9.5");
    assert_eq!(base.get_node(1).unwrap().position.x, "0");

    let es = base.elements();
    assert_eq!(es.len(), 4);
    assert_eq!(es[2].id, 8);
    assert_eq!(es[2].etype, ElementType::Triangle3);
    assert_eq!(es[2].node_ids, vec![6, 7, 8]);
    assert_eq!(es[2].physical_tag, Some(5));
    assert_eq!(es[3].id, 9);
    assert_eq!(es[3].node_ids, vec![8, 6]);
    assert_eq!(es[3].physical_tag, None);
}

#[test]
fn merging_into_an_empty_mesh_numbers_from_one() {
    let mut base = Mesh::new();
    let mut incoming = Mesh::new();
    incoming.add_node(node(40, 1.0));
    incoming.add_node(node(30, 2.0));
    incoming.add_element(Element::new(12, ElementType::Line2, vec![40, 30]));
    merge_meshes(&mut base, &incoming);
    let ids: Vec<u64> = base.nodes().iter().map(|n| n.id).collect();
    assert_eq!(ids, vec![1, 2]);
    assert_eq!(base.get_node(1).unwrap().position.x, "2");
    assert_eq!(base.elements()[0].id, 1);
    assert_eq!(base.elements()[0].node_ids, vec![2, 1]);
}
