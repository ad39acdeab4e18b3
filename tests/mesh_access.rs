use bevy_mod_raycast::mesh::{Indices, MeshAccessor};

fn xz_quad_verts() -> Vec<[f32; 3]> {
    vec![
        [-1., 0., 0.],
        [0., 0., 1.],
        [1., 0., 0.],
        [1., 0., 0.],
        [0., 0., -1.],
        [-1., 0., 0.],
    ]
}

#[test]
fn test_get_tri() {
    let verts = xz_quad_verts();
    let mesh = MeshAccessor::new(verts.len(), None, None);
    let tri = mesh.get_triangle(0).unwrap();
    assert_eq!(
        [verts[tri[0]], verts[tri[1]], verts[tri[2]]],
        [[-1., 0., 0.], [0., 0., 1.], [1., 0., 0.]]
    );
}

#[test]
fn non_indexed_triangles_stop_at_the_end() {
    let mesh = MeshAccessor::new(7, None, None);
    assert_eq!(mesh.get_triangle(1), Some([3, 4, 5]));
    assert_eq!(mesh.get_triangle(2), None);
    assert_eq!(mesh.get_triangle(u32::MAX), None);
    assert_eq!(mesh.iter_triangles(), vec![0, 1]);
}

#[test]
fn indexed_triangles_read_the_index_buffer() {
    let mesh = MeshAccessor::new(4, None, Some(Indices::U16(vec![0, 1, 2, 2, 3, 0, 1])));
    assert_eq!(mesh.get_triangle(0), Some([0, 1, 2]));
    assert_eq!(mesh.get_triangle(1), Some([2, 3, 0]));
    // a trailing partial triangle is not a triangle
    assert_eq!(mesh.get_triangle(2), None);
    assert_eq!(mesh.iter_triangles(), vec![0, 1]);
}

#[test]
fn out_of_range_index_is_no_triangle() {
    let mesh = MeshAccessor::new(3, None, Some(Indices::U32(vec![0, 1, 2, 0, 1, 9, 2, 1, 0])));
    assert_eq!(mesh.get_triangle(0), Some([0, 1, 2]));
    assert_eq!(mesh.get_triangle(1), None);
    assert_eq!(mesh.get_triangle(2), Some([2, 1, 0]));
    // iteration stops at the first triangle that does not resolve
    assert_eq!(mesh.iter_triangles(), vec![0]);
}

#[test]
fn normals_follow_the_same_indices() {
    let mesh = MeshAccessor::new(4, Some(3), Some(Indices::U16(vec![0, 1, 2, 1, 2, 3])));
    assert_eq!(mesh.triangle_normals(0), Some([0, 1, 2]));
    assert_eq!(mesh.triangle_normals(1), None);
    assert_eq!(mesh.get_triangle(1), Some([1, 2, 3]));
    let without = MeshAccessor::new(3, None, None);
    assert_eq!(without.triangle_normals(0), None);
}

#[test]
fn empty_mesh_has_no_triangles() {
    let mesh = MeshAccessor::new(0, None, None);
    assert_eq!(mesh.get_triangle(0), None);
    assert!(mesh.iter_triangles().is_empty());
}

#[test]
fn indexed_cube_has_more_triangles_than_vertices() {
    // 8 corners, 12 triangles
    let indices: Vec<u16> = vec![
        0, 1, 2, 2, 3, 0, 4, 5, 6, 6, 7, 4, 0, 1, 5, 5, 4, 0, 2, 3, 7, 7, 6, 2, 0, 3, 7, 7, 4, 0,
        1, 2, 6, 6, 5, 1,
    ];
    let mesh = MeshAccessor::new(8, None, Some(Indices::U16(indices)));
    assert_eq!(mesh.triangle_count(), 12);
    assert_eq!(mesh.iter_triangles(), (0..12).collect::<Vec<u32>>());
    assert_eq!(mesh.get_triangle(11), Some([6, 5, 1]));
}
