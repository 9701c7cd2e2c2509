use life::board::{wrap, LifeBoard, LifeError};

fn sorted_live(b: &LifeBoard) -> Vec<(usize, usize)> {
    let mut v = b.live_cells();
    v.sort();
    v
}

#[test]
fn new_rejects_zero_dimensions() {
    match LifeBoard::new(0, 5) {
        Err(e) => assert_eq!(e, LifeError::InvalidDimensions),
        Ok(_) => panic!("a zero width must be rejected"),
    }
    match LifeBoard::new(5, 0) {
        Err(e) => assert_eq!(e, LifeError::InvalidDimensions),
        Ok(_) => panic!("a zero height must be rejected"),
    }
    match LifeBoard::new(0, 0) {
        Err(e) => assert_eq!(e, LifeError::InvalidDimensions),
        Ok(_) => panic!("zero dimensions must be rejected"),
    }
}

#[test]
fn new_board_is_all_dead() {
    let b = LifeBoard::new(4, 6).unwrap();
    assert_eq!(b.x_size, 4);
    assert_eq!(b.y_size, 6);
    for x in 0..4 {
        for y in 0..6 {
            assert!(!b.get(x as isize, y as isize));
        }
    }
    assert!(b.live_cells().is_empty());
}

#[test]
fn wrap_normalizes_any_integer() {
    assert_eq!(wrap(0, 5), 0);
    assert_eq!(wrap(4, 5), 4);
    assert_eq!(wrap(5, 5), 0);
    assert_eq!(wrap(7, 5), 2);
    assert_eq!(wrap(-1, 5), 4);
    assert_eq!(wrap(-5, 5), 0);
    assert_eq!(wrap(-12, 5), 3);
    assert_eq!(wrap(0, 1), 0);
    assert_eq!(wrap(isize::MIN, 3), isize::MIN.rem_euclid(3) as usize);
    assert_eq!(wrap(isize::MAX, 7), isize::MAX.rem_euclid(7) as usize);
}

#[test]
fn get_is_periodic_in_both_directions() {
    let mut b = LifeBoard::new(5, 7).unwrap();
    b.set(2, 3, true);
    for k in -3isize..=3 {
        assert!(b.get(2 + k * 5, 3));
        assert!(b.get(2, 3 + k * 7));
        assert!(b.get(2 + k * 5, 3 + k * 7));
        assert!(!b.get(3 + k * 5, 3 + k * 7));
    }
}

#[test]
fn get_handles_extreme_coordinates() {
    let mut b = LifeBoard::new(5, 7).unwrap();
    b.set(isize::MIN.rem_euclid(5), isize::MAX.rem_euclid(7), true);
    assert!(b.get(isize::MIN, isize::MAX));
    assert_eq!(
        b.get(isize::MIN, isize::MIN),
        b.get(isize::MIN.rem_euclid(5), isize::MIN.rem_euclid(7))
    );
}

#[test]
fn set_wraps_before_storing() {
    let mut b = LifeBoard::new(5, 7).unwrap();
    b.set(-1, -1, true);
    assert!(b.get(4, 6));
    assert_eq!(sorted_live(&b), vec![(4, 6)]);
    b.set(5, 7, true);
    assert!(b.get(0, 0));
    assert_eq!(sorted_live(&b), vec![(0, 0), (4, 6)]);
}

#[test]
fn write_idempotence_keeps_live_set() {
    let mut b = LifeBoard::new(6, 6).unwrap();
    b.set(1, 2, true);
    let first = sorted_live(&b);
    b.set(1, 2, true);
    assert_eq!(sorted_live(&b), first);
    b.set(1 + 6, 2 - 6, true);
    assert_eq!(sorted_live(&b), first);
    b.set(3, 3, false);
    assert_eq!(sorted_live(&b), first);
    b.set(1, 2, false);
    assert!(sorted_live(&b).is_empty());
    b.set(1, 2, false);
    assert!(sorted_live(&b).is_empty());
}

#[test]
fn live_cells_tracks_every_write() {
    let mut b = LifeBoard::new(4, 4).unwrap();
    b.set(0, 0, true);
    b.set(3, 1, true);
    b.set(2, 2, true);
    assert_eq!(sorted_live(&b), vec![(0, 0), (2, 2), (3, 1)]);
    b.set(3, 1, false);
    assert_eq!(sorted_live(&b), vec![(0, 0), (2, 2)]);
    assert!(b.get(0, 0) && b.get(2, 2) && !b.get(3, 1));
}
