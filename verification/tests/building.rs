use city_gen::building::Building;
use rand::SeedableRng;
use rand_chacha::ChaCha8Rng;

fn rect(x: i32, y: i32, width: i32, height: i32) -> Building {
    Building { door: (x, y), x, y, width, height, is_important: false, id: 0 }
}

#[test]
fn contains_takes_in_the_walls() {
    let b = rect(2, 3, 4, 5);
    assert!(b.contains((2, 3)));
    assert!(b.contains((6, 8)));
    assert!(b.contains((4, 5)));
    assert!(!b.contains((7, 8)));
    assert!(!b.contains((6, 9)));
    assert!(!b.contains((1, 3)));
    assert!(!b.contains((2, 2)));
}

#[test]
fn contains_at_the_ends_of_the_grid() {
    let b = rect(i32::MAX - 1, i32::MIN, 1, 3);
    assert!(b.contains((i32::MAX, i32::MIN)));
    assert!(b.contains((i32::MAX - 1, i32::MIN + 3)));
    assert!(!b.contains((i32::MAX - 2, i32::MIN)));
}

#[test]
fn overlaps_without_clearance() {
    let a = rect(0, 0, 4, 4);
    assert!(a.overlaps(&rect(3, 3, 4, 4), 0));
    assert!(a.overlaps(&rect(-3, -3, 4, 4), 0));
    // a shared edge is no overlap when nothing is added
    assert!(!a.overlaps(&rect(4, 0, 4, 4), 0));
    assert!(!a.overlaps(&rect(0, 4, 4, 4), 0));
    assert!(!a.overlaps(&rect(-4, 0, 4, 4), 0));
    assert!(!a.overlaps(&rect(10, 10, 1, 1), 0));
}

#[test]
fn overlaps_with_clearance() {
    let a = rect(0, 0, 4, 4);
    // eight cells of air are needed: a gap of seven is too little
    assert!(a.overlaps(&rect(11, 0, 2, 2), 8));
    assert!(!a.overlaps(&rect(12, 0, 2, 2), 8));
    assert!(a.overlaps(&rect(0, -9, 2, 2), 8));
    assert!(!a.overlaps(&rect(0, -10, 2, 2), 8));
    assert!(a.overlaps(&rect(6, 6, 2, 2), 3));
    assert!(!a.overlaps(&rect(7, 6, 2, 2), 3));
}

#[test]
fn overlaps_is_the_same_both_ways() {
    let shapes = [rect(0, 0, 4, 4), rect(5, 1, 2, 9), rect(-7, -2, 3, 3), rect(12, 0, 1, 1)];
    for a in &shapes {
        for b in &shapes {
            for offset in [0, 1, 3, 8] {
                assert_eq!(a.overlaps(b, offset), b.overlaps(a, offset));
            }
        }
    }
}

#[test]
fn overlaps_does_not_wrap_round() {
    let a = rect(i32::MAX - 2, i32::MAX - 2, 2, 2);
    let b = rect(i32::MIN, i32::MIN, 2, 2);
    assert!(!a.overlaps(&b, 8));
    assert!(!b.overlaps(&a, 8));
    assert!(a.overlaps(&a, 8));
}

#[test]
fn with_door_puts_the_door_where_it_is_told() {
    let north = Building::with_door(true, true, 12, 10, 20, 5, 7, 3);
    assert_eq!(north.door, (12, 20));
    let south = Building::with_door(true, false, 12, 10, 20, 5, 7, 3);
    assert_eq!(south.door, (12, 27));
    let east = Building::with_door(false, true, 23, 10, 20, 5, 7, 3);
    assert_eq!(east.door, (15, 23));
    let west = Building::with_door(false, false, 23, 10, 20, 5, 7, 3);
    assert_eq!(west.door, (10, 23));
    assert_eq!(
        west,
        Building { door: (10, 23), x: 10, y: 20, width: 5, height: 7, is_important: false, id: 3 }
    );
}

fn on_boundary(b: &Building) -> bool {
    b.contains(b.door)
        && (b.door.0 == b.x
            || b.door.0 == b.x + b.width
            || b.door.1 == b.y
            || b.door.1 == b.y + b.height)
}

#[test]
fn with_random_door_keeps_the_rectangle_and_finds_the_boundary() {
    for seed in 0..200u64 {
        let mut rng = ChaCha8Rng::seed_from_u64(seed);
        let b = Building::with_random_door(&mut rng, -3, 40, 6, 9, 17);
        assert_eq!((b.x, b.y, b.width, b.height, b.id), (-3, 40, 6, 9, 17));
        assert!(!b.is_important);
        assert!(on_boundary(&b));
    }
}

#[test]
fn with_random_door_uses_every_side_and_many_places() {
    let mut north = false;
    let mut south = false;
    let mut east = false;
    let mut west = false;
    let mut places = std::collections::HashSet::new();
    for seed in 0..200u64 {
        let mut rng = ChaCha8Rng::seed_from_u64(seed);
        let b = Building::with_random_door(&mut rng, 0, 0, 10, 10, 0);
        // the corner at the far end of each side is never drawn
        assert_ne!(b.door, (10, 10));
        north |= b.door.1 == 0 && b.door.0 < 10;
        south |= b.door.1 == 10;
        east |= b.door.0 == 10;
        west |= b.door.0 == 0 && b.door.1 > 0 && b.door.1 < 10;
        places.insert(b.door);
    }
    assert!(north && south && east && west);
    assert!(places.len() > 20);
}

#[test]
fn with_random_door_draws_the_same_from_the_same_stream() {
    let mut one = ChaCha8Rng::seed_from_u64(99);
    let mut two = ChaCha8Rng::seed_from_u64(99);
    for _ in 0..20 {
        let a = Building::with_random_door(&mut one, 5, 5, 30, 30, 1);
        let b = Building::with_random_door(&mut two, 5, 5, 30, 30, 1);
        assert_eq!(a, b);
    }
}

#[test]
fn with_random_door_on_the_smallest_building() {
    for seed in 0..50u64 {
        let mut rng = ChaCha8Rng::seed_from_u64(seed);
        let b = Building::with_random_door(&mut rng, 0, 0, 1, 1, 0);
        assert!(on_boundary(&b));
        assert_ne!(b.door, (1, 1));
    }
}

#[test]
fn make_important_changes_the_flag_only() {
    let b = Building { door: (1, 2), x: 1, y: 1, width: 3, height: 4, is_important: false, id: 9 };
    let important = b.make_important();
    assert!(important.is_important);
    assert_eq!(
        important,
        Building { door: (1, 2), x: 1, y: 1, width: 3, height: 4, is_important: true, id: 9 }
    );
    assert_eq!(important.make_important(), important);
}

#[test]
fn scaled_multiplies_corner_size_and_door() {
    let b = Building { door: (-2, 5), x: -2, y: 3, width: 4, height: 6, is_important: true, id: 0 };
    assert_eq!(
        b.scaled(3),
        Building { door: (-6, 15), x: -6, y: 9, width: 12, height: 18, is_important: true, id: 0 }
    );
    assert_eq!(b.scaled(1), b);
    assert!(on_boundary(&b.scaled(7)));
}

#[test]
fn scaled_keeps_buildings_apart() {
    let a = rect(0, 0, 4, 4);
    let b = rect(7, 0, 4, 4);
    assert!(!a.overlaps(&b, 3));
    for k in 1..10 {
        assert!(!a.scaled(k).overlaps(&b.scaled(k), 3));
    }
}
