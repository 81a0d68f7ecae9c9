use city_gen::building::Building;
use city_gen::city::{City, CITY_BOUNDS_OFFSET};
use city_gen::sorting::sorted_anchors;

fn rect(x: i32, y: i32, width: i32, height: i32) -> Building {
    Building { door: (x, y), x, y, width, height, is_important: false, id: 0 }
}

#[test]
fn the_margin_is_twenty() {
    assert_eq!(CITY_BOUNDS_OFFSET, 20);
}

#[test]
fn a_new_city_is_empty() {
    let city = City::new();
    assert!(city.buildings.is_empty());
    assert!(city.important_buildings.is_empty());
    assert!(city.roads.is_empty());
    assert_eq!(
        (city.min_x, city.min_y, city.max_x, city.max_y),
        (i32::MAX, i32::MAX, i32::MIN, i32::MIN)
    );
    let other = City::default();
    assert_eq!(
        (other.min_x, other.min_y, other.max_x, other.max_y),
        (i32::MAX, i32::MAX, i32::MIN, i32::MIN)
    );
    assert!(other.buildings.is_empty());
}

#[test]
fn update_borders_of_one_building() {
    let mut city = City::new();
    city.insert(rect(5, -7, 10, 4));
    city.update_borders();
    assert_eq!((city.min_x, city.min_y, city.max_x, city.max_y), (-15, -27, 35, 17));
}

#[test]
fn update_borders_of_several_buildings() {
    let mut city = City::new();
    city.insert(rect(5, -7, 10, 4));
    city.insert(rect(-30, 2, 3, 50));
    city.insert(rect(0, 0, 100, 1));
    city.update_borders();
    assert_eq!((city.min_x, city.min_y, city.max_x, city.max_y), (-50, -27, 120, 72));
}

#[test]
fn update_borders_far_towards_the_negative() {
    let mut city = City::new();
    city.insert(rect(-500, -400, 10, 10));
    city.update_borders();
    assert_eq!((city.min_x, city.min_y, city.max_x, city.max_y), (-520, -420, -470, -370));
}

#[test]
fn update_borders_from_new_building_widens_only() {
    let mut city = City::new();
    city.update_borders_from_new_building(&rect(5, -7, 10, 4));
    assert_eq!((city.min_x, city.min_y, city.max_x, city.max_y), (-15, -27, 35, 17));
    city.update_borders_from_new_building(&rect(6, 0, 2, 2));
    assert_eq!((city.min_x, city.min_y, city.max_x, city.max_y), (-15, -27, 35, 22));
    city.update_borders_from_new_building(&rect(-100, 100, 2, 2));
    assert_eq!((city.min_x, city.min_y, city.max_x, city.max_y), (-120, -27, 35, 122));
}

/// The bounds after the buildings came one by one, and the bounds
/// computed afresh from the same buildings.
fn widened_and_fresh(buildings: &[Building]) -> ((i32, i32, i32, i32), (i32, i32, i32, i32)) {
    let mut widened = City::new();
    let mut fresh = City::new();
    for b in buildings {
        widened.update_borders_from_new_building(b);
        widened.insert(*b);
        fresh.insert(*b);
    }
    fresh.update_borders();
    (
        (widened.min_x, widened.min_y, widened.max_x, widened.max_y),
        (fresh.min_x, fresh.min_y, fresh.max_x, fresh.max_y),
    )
}

#[test]
fn widening_and_computing_afresh_agree() {
    let buildings = [rect(5, -7, 10, 4), rect(-30, 2, 3, 50), rect(0, 0, 100, 1), rect(7, 7, 7, 7)];
    let (widened, fresh) = widened_and_fresh(&buildings);
    assert_eq!(widened, fresh);
    assert_eq!(fresh, (-50, -27, 120, 72));
    let turned = [buildings[3], buildings[1], buildings[0], buildings[2]];
    assert_eq!(widened_and_fresh(&turned).0, fresh);
}

#[test]
fn widening_agrees_where_every_building_is_far_towards_the_negative() {
    let (widened, fresh) = widened_and_fresh(&[rect(-100, -100, 10, 10)]);
    assert_eq!(widened, (-120, -120, -70, -70));
    assert_eq!(fresh, (-120, -120, -70, -70));
    let (widened, fresh) = widened_and_fresh(&[rect(-500, -400, 10, 10), rect(-300, -900, 5, 5)]);
    assert_eq!(widened, (-520, -920, -275, -370));
    assert_eq!(widened, fresh);
}

#[test]
fn insert_replaces_the_building_at_the_same_corner() {
    let mut city = City::new();
    assert_eq!(city.insert(rect(1, 1, 2, 2)), None);
    assert_eq!(city.insert(rect(5, 5, 2, 2)), None);
    assert_eq!(city.insert(rect(1, 1, 9, 9)), Some(rect(1, 1, 2, 2)));
    assert_eq!(city.buildings, vec![rect(1, 1, 9, 9), rect(5, 5, 2, 2)]);
}

#[test]
fn find_by_corner() {
    let mut city = City::new();
    city.insert(rect(1, 1, 2, 2));
    city.insert(rect(5, 5, 2, 2));
    assert_eq!(city.find((5, 5)), Some(1));
    assert_eq!(city.find((1, 1)), Some(0));
    assert_eq!(city.find((5, 1)), None);
    assert_eq!(City::new().find((0, 0)), None);
}

#[test]
fn is_door_looks_at_every_building() {
    let mut city = City::new();
    city.insert(Building { door: (3, 2), ..rect(1, 1, 2, 2) });
    city.insert(Building { door: (5, 6), ..rect(5, 5, 2, 2) });
    assert!(city.is_door((3, 2)));
    assert!(city.is_door((5, 6)));
    assert!(!city.is_door((1, 1)));
    assert!(!city.is_door((2, 3)));
}

#[test]
fn sorted_anchors_go_by_column_then_row() {
    let mut city = City::new();
    for (x, y) in [(5, 5), (-3, 9), (5, -5), (0, 0), (-3, -9), (100, 1)] {
        city.insert(rect(x, y, 1, 1));
    }
    assert_eq!(sorted_anchors(&city), vec![(-3, -9), (-3, 9), (0, 0), (5, -5), (5, 5), (100, 1)]);
    assert_eq!(sorted_anchors(&City::new()), vec![]);
}
