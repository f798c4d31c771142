use greenfield_engine::topology::{cube_indices, push_face_quad, ring_strip_indices, uv_sphere_indices};

#[test]
fn a_face_is_two_triangles_on_four_corners() {
    let mut v = vec![99u32];
    push_face_quad(&mut v, 8);
    assert_eq!(v, vec![99, 8, 9, 10, 8, 10, 11]);
}

#[test]
fn cube_has_six_faces_of_two_triangles() {
    let idx = cube_indices();
    assert_eq!(idx.len(), 36);
    assert!(idx.iter().all(|&i| i < 24), "indices in range");
    assert_eq!(&idx[6..12], &[4, 5, 6, 4, 6, 7]);
}

#[test]
fn sphere_mesh_indices_are_valid() {
    let (rings, sectors) = (16usize, 24usize);
    let idx = uv_sphere_indices(rings, sectors);
    let verts = ((rings + 1) * (sectors + 1)) as u32;
    assert_eq!(idx.len(), 6 * rings * sectors);
    assert_eq!(idx.len() % 3, 0);
    assert!(idx.iter().all(|&i| i < verts), "indices in range");
    for tri in idx.chunks(3) {
        assert!(tri[0] != tri[1] && tri[1] != tri[2] && tri[0] != tri[2]);
    }
    // First quad: ring 0, sector 0; stride 25.
    assert_eq!(&idx[0..6], &[0, 1, 25, 1, 26, 25]);
}

#[test]
fn earth_cap_strips_join_each_ring_to_the_next() {
    let (rings, seg) = (5usize, 96usize);
    let idx = ring_strip_indices(rings, seg);
    assert_eq!(idx.len(), 6 * (rings - 1) * seg);
    assert!(idx.iter().all(|&i| (i as usize) < rings * seg), "indices in range");
    // The seam quad of the first strip wraps around the ring.
    let last = 6 * (seg - 1);
    assert_eq!(&idx[last..last + 6], &[95, 191, 96, 95, 96, 0]);
    assert!(ring_strip_indices(1, seg).is_empty());
}
