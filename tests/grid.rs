use blurhash_encode::{basis_normalization, clamp_component_count, component_order, PixelGrid};

#[test]
fn component_order_is_row_major() {
    assert_eq!(
        component_order(3, 2),
        vec![(0, 0), (1, 0), (2, 0), (0, 1), (1, 1), (2, 1)]
    );
    assert_eq!(component_order(1, 1), vec![(0, 0)]);
    assert_eq!(component_order(9, 9).len(), 81);
}

#[test]
fn only_the_dc_component_has_weight_one() {
    assert_eq!(basis_normalization(0, 0), 1);
    assert_eq!(basis_normalization(1, 0), 2);
    assert_eq!(basis_normalization(0, 1), 2);
    assert_eq!(basis_normalization(3, 2), 2);
}

#[test]
fn component_counts_are_clamped_to_one_through_nine() {
    assert_eq!(clamp_component_count(0), 1);
    assert_eq!(clamp_component_count(1), 1);
    assert_eq!(clamp_component_count(4), 4);
    assert_eq!(clamp_component_count(9), 9);
    assert_eq!(clamp_component_count(12), 9);
}

#[test]
fn pixel_grid_reads_rgba_by_coordinates() {
    let bytes = vec![1, 2, 3, 4, 5, 6, 7, 8, 9, 10, 11, 12, 13, 14, 15, 16, 17, 18, 19, 20, 21, 22, 23, 24];
    let grid = PixelGrid::from_rgba(3, 2, bytes).unwrap();
    assert_eq!(grid.width(), 3);
    assert_eq!(grid.height(), 2);
    assert_eq!(grid.pixel(0, 0), (1, 2, 3, 4));
    assert_eq!(grid.pixel(2, 0), (9, 10, 11, 12));
    assert_eq!(grid.pixel(1, 1), (17, 18, 19, 20));
}

#[test]
fn pixel_grid_rejects_bad_shapes() {
    assert!(PixelGrid::from_rgba(0, 1, vec![]).is_none());
    assert!(PixelGrid::from_rgba(1, 0, vec![]).is_none());
    assert!(PixelGrid::from_rgba(1, 1, vec![0, 0, 0]).is_none());
    assert!(PixelGrid::from_rgba(2, 1, vec![0; 4]).is_none());
    assert!(PixelGrid::from_rgba(1, 1, vec![0, 0, 0, 255]).is_some());
}
