use curtain_motor::PositionStore;

#[test]
fn a_new_store_is_at_zero() {
    let store = PositionStore::new(4600);
    assert_eq!(store.read(), 0);
    assert_eq!(store.steps_to_fully_open(), 4600);
}

#[test]
fn a_position_within_the_travel_is_kept() {
    let mut store = PositionStore::new(4600);
    store.write(2300);
    assert_eq!(store.read(), 2300);
    store.write(0);
    assert_eq!(store.read(), 0);
    store.write(4600);
    assert_eq!(store.read(), 4600);
    assert_eq!(store.steps_to_fully_open(), 4600);
}

#[test]
fn a_position_outside_the_travel_is_clamped() {
    let mut store = PositionStore::new(4600);
    store.write(4601);
    assert_eq!(store.read(), 4600);
    store.write(-1);
    assert_eq!(store.read(), 0);
    store.write(i32::MAX);
    assert_eq!(store.read(), 4600);
    store.write(i32::MIN);
    assert_eq!(store.read(), 0);
}

#[test]
fn the_smallest_and_largest_travel() {
    let mut small = PositionStore::new(1);
    small.write(5);
    assert_eq!(small.read(), 1);
    let mut large = PositionStore::new(i16::MAX);
    large.write(40000);
    assert_eq!(large.read(), 32767);
    large.write(32766);
    assert_eq!(large.read(), 32766);
}
