use ncube::planes::{PlaneError, PlaneMap};

#[test]
fn every_plane_has_an_entry() {
    let m = PlaneMap::new(4, (0.0f64, 0.0f64));
    assert_eq!(m.dimensions(), 4);
    assert_eq!(m.planes(), vec![(0, 1), (0, 2), (0, 3), (1, 2), (1, 3), (2, 3)]);
    for (a, b) in m.planes() {
        assert_eq!(m.get(a, b), Some((0.0, 0.0)));
    }
    assert_eq!(PlaneMap::new(9, 0u8).planes().len(), 36);
}

#[test]
fn keys_are_unordered_pairs() {
    let mut m = PlaneMap::new(5, (0.0f64, 0.0f64));
    assert!(m.set(3, 1, (0.25, 1.0)));
    assert_eq!(m.get(1, 3), Some((0.25, 1.0)));
    assert_eq!(m.get(3, 1), Some((0.25, 1.0)));
    assert_eq!(m.planes().len(), 10);
}

#[test]
fn planes_outside_the_cube_are_refused() {
    let mut m = PlaneMap::new(3, 7i32);
    assert!(!m.set(1, 1, 5));
    assert!(!m.set(0, 3, 5));
    assert_eq!(m.get(2, 2), None);
    assert_eq!(m.get(3, 0), None);
    assert_eq!(m.entries(), vec![(0, 1, 7), (0, 2, 7), (1, 2, 7)]);
}

#[test]
fn export_then_import_reproduces_entries() {
    let mut m = PlaneMap::new(5, (0.0f64, 0.0f64));
    m.set(1, 2, (0.5, 1.0));
    m.set(3, 0, (1.25, 0.5));
    m.set(4, 2, (6.0, -3.0));
    let exported = m.entries();
    let imported = PlaneMap::from_entries(5, &exported, (9.0, 9.0)).unwrap();
    assert_eq!(imported.entries(), exported);
    assert_eq!(imported.get(0, 3), Some((1.25, 0.5)));
}

#[test]
fn import_fills_missing_planes_and_keeps_the_last_entry() {
    let entries = vec![(1, 0, 2.0f64), (2, 3, 4.0), (0, 1, 5.0)];
    let m = PlaneMap::from_entries(4, &entries, 0.0).unwrap();
    assert_eq!(
        m.entries(),
        vec![(0, 1, 5.0), (0, 2, 0.0), (0, 3, 0.0), (1, 2, 0.0), (1, 3, 0.0), (2, 3, 4.0)]
    );
}

#[test]
fn import_refuses_malformed_records() {
    let good = vec![(0, 1, 1u8)];
    assert_eq!(PlaneMap::from_entries(2, &good, 0).unwrap_err(), PlaneError::DimensionOutOfRange);
    assert_eq!(PlaneMap::from_entries(10, &good, 0).unwrap_err(), PlaneError::DimensionOutOfRange);
    let same_axis = vec![(0, 1, 1u8), (2, 2, 1), (0, 9, 1)];
    assert_eq!(
        PlaneMap::from_entries(4, &same_axis, 0).unwrap_err(),
        PlaneError::InvalidPlane { index: 1 }
    );
    let out_of_range = vec![(0, 4, 1u8)];
    assert_eq!(
        PlaneMap::from_entries(4, &out_of_range, 0).unwrap_err(),
        PlaneError::InvalidPlane { index: 0 }
    );
}

#[test]
fn resize_keeps_shared_planes() {
    let mut m = PlaneMap::new(4, 0i32);
    m.set(0, 1, 1);
    m.set(1, 2, 2);
    m.set(2, 3, 3);
    let smaller = m.resize(3, -1);
    assert_eq!(smaller.entries(), vec![(0, 1, 1), (0, 2, 0), (1, 2, 2)]);
    let larger = smaller.resize(5, -1);
    assert_eq!(larger.get(0, 1), Some(1));
    assert_eq!(larger.get(1, 2), Some(2));
    assert_eq!(larger.get(2, 3), Some(-1));
    assert_eq!(larger.get(3, 4), Some(-1));
    assert_eq!(larger.planes().len(), 10);
}
