use slmsttaa::mesh::{cuboid_indices, lathe_indices, quad};

#[test]
fn a_quad_is_two_counter_clockwise_triangles() {
    let mut v = vec![7];
    quad(&mut v, 4);
    assert_eq!(v, vec![7, 4, 5, 6, 4, 6, 7]);
}

#[test]
fn a_box_has_six_separate_faces() {
    let idx = cuboid_indices();
    assert_eq!(idx.len(), 36);
    assert_eq!(&idx[..6], &[0, 1, 2, 0, 2, 3]);
    assert_eq!(&idx[30..], &[20, 21, 22, 20, 22, 23]);
    assert_eq!(*idx.iter().max().unwrap(), 23);
}

#[test]
fn a_sphere_drops_the_collapsed_triangle_at_each_pole() {
    let idx = lathe_indices(3, 3, &[false, false], true, true);
    assert_eq!(idx.len(), 2 * 3 * 3);
    assert_eq!(&idx[..3], &[0, 4, 5]);
    assert_eq!(&idx[9..12], &[4, 9, 5]);
}

#[test]
fn a_band_without_area_is_skipped() {
    let full = lathe_indices(3, 4, &[false, false], false, false);
    assert_eq!(full.len(), 2 * 4 * 6);
    let skipped = lathe_indices(3, 4, &[false, true], false, false);
    assert_eq!(skipped.len(), 4 * 6);
    assert_eq!(&skipped[..6], &[0, 5, 6, 0, 6, 1]);
    assert!(lathe_indices(1, 4, &[], true, true).is_empty());
}
