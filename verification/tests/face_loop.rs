use rmsh::face_loop::{face_boundary_loop, FaceLoopError};
use rmsh::topology::GFace;

fn face(polygons: Vec<Vec<u64>>) -> GFace {
    GFace { id: 0, edge_ids: Vec::new(), mesh_faces: polygons }
}

#[test]
fn square_of_two_triangles_loops_from_its_smallest_node() {
    let f = face(vec![vec![1, 2, 3], vec![1, 3, 4]]);
    assert_eq!(face_boundary_loop(&f), Ok(vec![1, 2, 3, 4]));
}

#[test]
fn loop_goes_to_the_smaller_side_first() {
    // Boundary sides in order: (2,5), (2,7), (3,5), (3,7); from 2 the walk
    // takes (2,5) first.
    let f = face(vec![vec![7, 3, 5], vec![5, 2, 7]]);
    assert_eq!(face_boundary_loop(&f), Ok(vec![2, 5, 3, 7]));
}

#[test]
fn closed_surface_has_no_boundary_loop() {
    let tet = face(vec![vec![1, 2, 3], vec![1, 2, 4], vec![2, 3, 4], vec![1, 3, 4]]);
    assert_eq!(face_boundary_loop(&tet), Err(FaceLoopError::NoBoundary));
    assert_eq!(face_boundary_loop(&face(Vec::new())), Err(FaceLoopError::NoBoundary));
    assert_eq!(face_boundary_loop(&face(vec![vec![1, 2]])), Err(FaceLoopError::NoBoundary));
    assert_eq!(face_boundary_loop(&face(vec![vec![9]])), Err(FaceLoopError::NoBoundary));
}

#[test]
fn bow_tie_is_not_manifold() {
    let f = face(vec![vec![1, 2, 3], vec![1, 4, 5]]);
    assert_eq!(face_boundary_loop(&f), Err(FaceLoopError::NonManifold));
}

#[test]
fn loop_of_one_node_is_too_short() {
    let f = face(vec![vec![1, 1, 2]]);
    assert_eq!(face_boundary_loop(&f), Err(FaceLoopError::TooFew));
}

#[test]
fn only_the_loop_through_the_smallest_node_is_walked() {
    let f = face(vec![vec![4, 5, 6], vec![1, 2, 3]]);
    assert_eq!(face_boundary_loop(&f), Ok(vec![1, 2, 3]));
}
