use rmsh::hxt::{grid_coloring_3d, interleave_bits, Hxt3D, TetOwnership};
use rmsh::meshing::{
    bistellar_flip, recombine_triangle_pair, tri_has_edge, BistellarFlipType, MeshAlgoError,
    QualityMetric, QuadPaving2D, QuadStrategy,
};

#[test]
fn hxt_defaults_and_single_thread() {
    let h = Hxt3D::new();
    assert_eq!(h.num_threads, 0);
    assert_eq!(h.hilbert_order, 8);
    assert_eq!(h.conflict_buffer_size, 65_536);
    assert!(h.enable_refinement);
    let s = Hxt3D::default().single_threaded();
    assert_eq!(s.num_threads, 1);
    assert_eq!(s.hilbert_order, 8);
}

#[test]
fn grid_coloring_uses_parities() {
    let colors = grid_coloring_3d(3, 2, 2);
    assert_eq!(colors.len(), 12);
    assert_eq!(colors, vec![0, 1, 0, 2, 3, 2, 4, 5, 4, 6, 7, 6]);
}

#[test]
fn grid_coloring_neighbours_differ() {
    let (nx, ny, nz) = (4usize, 3usize, 3usize);
    let colors = grid_coloring_3d(nx, ny, nz);
    let idx = |x: usize, y: usize, z: usize| z * ny * nx + y * nx + x;
    for z in 0..nz {
        for y in 0..ny {
            for x in 0..nx {
                assert!(colors[idx(x, y, z)] < 8);
                for dz in 0..3usize {
                    for dy in 0..3usize {
                        for dx in 0..3usize {
                            if (dx, dy, dz) == (1, 1, 1) {
                                continue;
                            }
                            let (x2, y2, z2) = (x + dx, y + dy, z + dz);
                            if x2 < 1 || y2 < 1 || z2 < 1 || x2 > nx || y2 > ny || z2 > nz {
                                continue;
                            }
                            let other = colors[idx(x2 - 1, y2 - 1, z2 - 1)];
                            assert_ne!(colors[idx(x, y, z)], other);
                        }
                    }
                }
            }
        }
    }
    assert!(grid_coloring_3d(0, 5, 5).is_empty());
}

#[test]
fn interleaving_places_bits_in_turn() {
    assert_eq!(interleave_bits(1, 0, 0, 8), 1);
    assert_eq!(interleave_bits(0, 1, 0, 8), 2);
    assert_eq!(interleave_bits(0, 0, 1, 8), 4);
    assert_eq!(interleave_bits(2, 0, 0, 8), 8);
    assert_eq!(interleave_bits(3, 3, 3, 8), 63);
    // Bits beyond the order are dropped.
    assert_eq!(interleave_bits(2, 0, 0, 1), 0);
    // The order is capped at 20 bits.
    assert_eq!(interleave_bits(1 << 20, 0, 0, 30), 0);
    assert_eq!(interleave_bits(1 << 19, 0, 0, 30), 1 << 57);
    // Along the diagonal the key grows.
    assert!(interleave_bits(51, 51, 51, 8) > interleave_bits(25, 25, 25, 8));
}

#[test]
fn ownership_tokens_claim_once() {
    let t = TetOwnership::new();
    assert!(t.try_claim(0));
    assert!(!t.try_claim(1));
    t.release();
    assert!(t.try_claim(1));
}

#[test]
fn meshing_settings_defaults() {
    let q = QuadPaving2D::new();
    assert_eq!(q.strategy, QuadStrategy::PackingOfParallelograms);
    assert_eq!(q.cross_field_iterations, 100);
    assert!(!q.require_pure_quad);
    assert_eq!(QualityMetric::default(), QualityMetric::MinAngle);
    assert_eq!(QuadStrategy::default(), QuadStrategy::PackingOfParallelograms);
}

#[test]
fn triangle_edges_either_way() {
    let t = [3, 7, 9];
    assert!(tri_has_edge(t, 3, 7));
    assert!(tri_has_edge(t, 7, 3));
    assert!(tri_has_edge(t, 9, 3));
    assert!(tri_has_edge(t, 7, 9));
    assert!(!tri_has_edge(t, 3, 3));
    assert!(!tri_has_edge(t, 3, 8));
}

#[test]
fn recombining_two_triangles() {
    assert_eq!(recombine_triangle_pair([0, 1, 2], [2, 1, 3]), Some([0, 1, 3, 2]));
    assert_eq!(recombine_triangle_pair([0, 1, 2], [3, 4, 5]), None);
    assert_eq!(recombine_triangle_pair([0, 1, 2], [0, 1, 2]), None);
    assert_eq!(recombine_triangle_pair([0, 1, 2], [4, 2, 5]), None);
}

#[test]
fn bistellar_flip_is_not_implemented() {
    let mut tets = vec![[0, 1, 2, 3], [1, 2, 3, 4]];
    let r = bistellar_flip(&mut tets, BistellarFlipType::TwoToThree, &[1, 2, 3]);
    assert!(matches!(r, Err(MeshAlgoError::NotImplemented)));
    assert_eq!(tets, vec![[0, 1, 2, 3], [1, 2, 3, 4]]);
}
