use rmsh::components::connected_components;

#[test]
fn components_start_at_their_smallest_node_in_order() {
    // 0 - 3 - 4, 1 - 5, 2 alone
    let g = vec![vec![3], vec![5], vec![], vec![0, 4], vec![3], vec![1]];
    assert_eq!(connected_components(&g), vec![vec![0, 3, 4], vec![1, 5], vec![2]]);
}

#[test]
fn breadth_first_order_within_a_component() {
    // 0 - 2, 0 - 1, 2 - 3, 1 - 3
    let g = vec![vec![2, 1], vec![0, 3], vec![0, 3], vec![2, 1]];
    assert_eq!(connected_components(&g), vec![vec![0, 2, 1, 3]]);
    assert!(connected_components(&Vec::new()).is_empty());
}
