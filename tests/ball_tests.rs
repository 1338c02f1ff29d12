use rigid_physics::ball::{generate_ball, BallVertex};

#[test]
fn ball_has_grid_vertices() {
    let (vertices, _) = generate_ball();
    assert_eq!(vertices.len(), 12 * 16);
    assert_eq!(vertices[0], BallVertex { ring: 0, segment: 0 });
    assert_eq!(vertices[17], BallVertex { ring: 1, segment: 1 });
    assert_eq!(vertices[191], BallVertex { ring: 11, segment: 15 });
}

#[test]
fn ball_indices_form_two_triangles_per_quad() {
    let (vertices, indices) = generate_ball();
    assert_eq!(indices.len(), 6 * 11 * 15);
    assert_eq!(&indices[0..6], &[0, 17, 16, 1, 17, 0]);
    // second quad of the second ring row
    let q = 15 + 1;
    assert_eq!(&indices[6 * q..6 * q + 6], &[17, 34, 33, 18, 34, 17]);
    assert_eq!(&indices[indices.len() - 6..], &[174, 191, 190, 175, 191, 174]);
    assert!(indices.iter().all(|&i| (i as usize) < vertices.len()));
}
