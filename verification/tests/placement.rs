use esox::placement::{rotated_footprint, snaps_to_center, PlacementRotation};

#[test]
fn rotation_cycle() {
    let r = PlacementRotation::North;
    assert_eq!(r.rotate_cw().rotate_cw().rotate_cw().rotate_cw(), r);
    assert_eq!(r.rotate_ccw().rotate_ccw().rotate_ccw().rotate_ccw(), r);
    assert_eq!(r.rotate_cw(), PlacementRotation::East);
    assert_eq!(r.rotate_ccw(), PlacementRotation::West);
}

#[test]
fn rotation_default_and_inverse() {
    assert_eq!(PlacementRotation::default(), PlacementRotation::North);
    for r in [PlacementRotation::North, PlacementRotation::East, PlacementRotation::South, PlacementRotation::West] {
        assert_eq!(r.rotate_cw().rotate_ccw(), r);
        assert_eq!(r.rotate_ccw().rotate_cw(), r);
    }
}

#[test]
fn footprint_swaps_on_quarter_turns() {
    assert_eq!(rotated_footprint((2, 3), PlacementRotation::North), (2, 3));
    assert_eq!(rotated_footprint((2, 3), PlacementRotation::East), (3, 2));
    assert_eq!(rotated_footprint((2, 3), PlacementRotation::South), (2, 3));
    assert_eq!(rotated_footprint((2, 3), PlacementRotation::West), (3, 2));
}

#[test]
fn odd_footprints_snap_to_centers() {
    assert!(snaps_to_center(1));
    assert!(snaps_to_center(3));
    assert!(!snaps_to_center(2));
    assert!(!snaps_to_center(0));
}
