use city_gen::building::Building;
use city_gen::city::City;
use city_gen::city_generation::{
    after_attempt, CityGenerator, GenerationError, Verdict, DEFAULT_MAX_ATTEMPTS,
};
use city_gen::growth::{nearest_important, spawn_distance, steps};
use city_gen::seeding::shrunk;
use city_gen::layout::{collides, keeps_clear, mark_footprint};
use city_gen::occupancy::CellType;

fn generator(seed: u64) -> CityGenerator {
    CityGenerator::new(seed, 8..30, 8..30, 20..100, 500)
}

fn on_boundary(b: &Building) -> bool {
    b.contains(b.door)
        && (b.door.0 == b.x
            || b.door.0 == b.x + b.width
            || b.door.1 == b.y
            || b.door.1 == b.y + b.height)
}

/// What holds of every city that the generator returns.
fn check_layout(generator: &CityGenerator, city: &City) {
    for (i, a) in city.buildings.iter().enumerate() {
        assert!(a.width >= 1 && a.height >= 1);
        assert!(on_boundary(a));
        assert_eq!(generator.occupancy.tag_of(a.door), None);
        assert!(city.min_x <= a.x - 20 && a.x + a.width + 20 <= city.max_x);
        assert!(city.min_y <= a.y - 20 && a.y + a.height + 20 <= city.max_y);
        for (j, b) in city.buildings.iter().enumerate() {
            if i != j {
                assert_ne!((a.x, a.y), (b.x, b.y));
                if a.is_important && b.is_important {
                    assert!(!a.overlaps(b, 3));
                } else {
                    assert!(!a.overlaps(b, 8));
                }
            }
        }
    }
    for (k, anchor) in city.important_buildings.iter().enumerate() {
        assert_eq!((city.buildings[k].x, city.buildings[k].y), *anchor);
        assert!(city.buildings[k].is_important);
    }
    for b in &city.buildings[city.important_buildings.len()..] {
        assert!(!b.is_important);
    }
    for b in &city.buildings {
        for x in b.x..=b.x + b.width {
            for y in b.y..=b.y + b.height {
                if (x, y) != b.door {
                    assert_eq!(generator.occupancy.tag_of((x, y)), Some(CellType::Building));
                }
            }
        }
    }
    let seeds = city.important_buildings.len();
    let joining = city.roads.len() - (city.buildings.len() - seeds);
    assert_eq!(joining, seeds * (seeds - 1));
    for (r, road) in city.roads.iter().enumerate() {
        for pair in road.windows(2) {
            assert_eq!((pair[0].0 - pair[1].0).abs() + (pair[0].1 - pair[1].1).abs(), 1);
        }
        if let Some(first) = road.first() {
            if r < joining {
                let mut in_order: Vec<&Building> = city.buildings[..seeds].iter().collect();
                in_order.sort_by_key(|b| (b.x, b.y));
                assert_eq!(in_order[r / (seeds - 1)].door, *first);
            } else {
                assert_eq!(city.buildings[seeds + r - joining].door, *first);
            }
        }
        for cell in road {
            if city.is_door(*cell) {
                assert_eq!(generator.occupancy.tag_of(*cell), None);
            } else {
                assert_eq!(generator.occupancy.tag_of(*cell), Some(CellType::Road));
            }
            for b in &city.buildings {
                assert!(!b.contains(*cell) || b.door == *cell);
            }
        }
    }
}

/// Each road of a city that was generated at scale one over an empty
/// index stops at the first cell that was a road already or lies in the
/// building that the road was searched for.
fn check_ends(city: &City) {
    let seeds = city.important_buildings.len();
    let joining = seeds * (seeds - 1);
    let mut in_order: Vec<&Building> = city.buildings[..seeds].iter().collect();
    in_order.sort_by_key(|b| (b.x, b.y));
    let mut roads_so_far: Vec<(i32, i32)> = Vec::new();
    for (r, road) in city.roads.iter().enumerate() {
        let standing = if r < joining { seeds } else { seeds + r - joining + 1 };
        let target: &Building = if r < joining {
            let from = r / (seeds - 1);
            let nth = r % (seeds - 1);
            in_order[if nth >= from { nth + 1 } else { nth }]
        } else {
            let b = &city.buildings[standing - 1];
            &city.buildings[nearest_important(city, (b.x, b.y))]
        };
        if let Some(last) = road.last() {
            assert!(roads_so_far.contains(last) || target.contains(*last));
            for cell in &road[..road.len() - 1] {
                assert!(!roads_so_far.contains(cell) && !target.contains(*cell));
            }
        }
        for cell in road {
            if !city.buildings[..standing].iter().any(|b| b.door == *cell) {
                roads_so_far.push(*cell);
            }
        }
    }
}

#[test]
fn roads_stop_at_the_first_road_or_at_their_building() {
    for seed in [7, 31, 100, 101] {
        let mut g = generator(seed);
        let city = g.generate(15, 3, 1).unwrap();
        assert_eq!(city.roads.len(), 6 + 15);
        assert!(city.roads.iter().any(|road| road.len() > 1));
        check_ends(&city);
    }
}

#[test]
fn new_keeps_what_it_is_given() {
    let g = CityGenerator::new(7, 1..2, 3..4, 5..6, 77);
    assert_eq!(g.width_bound, 1..2);
    assert_eq!(g.height_bound, 3..4);
    assert_eq!(g.distance_bound, 5..6);
    assert_eq!(g.important_buildings_max_distance, 77);
    assert_eq!(g.max_attempts, DEFAULT_MAX_ATTEMPTS);
    assert_eq!(g.occupancy.tag_of((0, 0)), None);
}

#[test]
fn shrunk_is_the_quotient() {
    assert_eq!(shrunk(1, 1), 1);
    assert_eq!(shrunk(8, 1), 8);
    assert_eq!(shrunk(8, 2), 4);
    assert_eq!(shrunk(29, 4), 7);
    assert_eq!(shrunk(31, 4), 7);
    assert_eq!(shrunk(32, 4), 8);
    assert_eq!(shrunk(100, 100), 1);
    assert_eq!(shrunk(199, 100), 1);
    assert_eq!(shrunk(i32::MAX, 1), i32::MAX);
}

#[test]
fn after_attempt_places_retries_and_gives_up() {
    assert_eq!(after_attempt(0, 3, true), Verdict::Placed);
    assert_eq!(after_attempt(2, 3, true), Verdict::Placed);
    assert_eq!(after_attempt(0, 3, false), Verdict::Retry);
    assert_eq!(after_attempt(1, 3, false), Verdict::Retry);
    assert_eq!(after_attempt(2, 3, false), Verdict::GiveUp);
    assert_eq!(after_attempt(0, 1, false), Verdict::GiveUp);
    assert_eq!(after_attempt(0, 0, false), Verdict::GiveUp);
    assert_eq!(after_attempt(7, 3, false), Verdict::GiveUp);
    assert_eq!(after_attempt(usize::MAX, usize::MAX, false), Verdict::GiveUp);
    assert_eq!(after_attempt(usize::MAX - 2, usize::MAX, false), Verdict::Retry);
}

#[test]
fn anchor_at_counts_the_buildings_by_column_then_row() {
    let mut city = City::new();
    for (x, y) in [(5, 5), (-3, 9), (5, -5), (0, 0), (-3, -9)] {
        city.insert(Building { door: (x, y), x, y, width: 1, height: 1, is_important: true, id: 0 });
    }
    let corners: Vec<(i32, i32)> =
        (0..5).map(|drawn| CityGenerator::anchor_at(&city, drawn)).map(|b| (b.x, b.y)).collect();
    assert_eq!(corners, vec![(-3, -9), (-3, 9), (0, 0), (5, -5), (5, 5)]);
}

#[test]
fn spawn_corner_goes_to_the_side_that_it_is_told() {
    let anchor = Building { door: (0, 0), x: -7, y: 3, width: 9, height: 1, is_important: false, id: 4 };
    // the middle is (-3, 3)
    assert_eq!(CityGenerator::spawn_corner(&anchor, 60, true, true), (57, 63));
    assert_eq!(CityGenerator::spawn_corner(&anchor, 60, true, false), (57, -57));
    assert_eq!(CityGenerator::spawn_corner(&anchor, 60, false, true), (-63, 63));
    assert_eq!(CityGenerator::spawn_corner(&anchor, 60, false, false), (-63, -57));
    assert_eq!(CityGenerator::spawn_corner(&anchor, 0, false, true), (-3, 3));
}

#[test]
fn spawn_distance_falls_from_the_end_to_the_start() {
    assert_eq!(spawn_distance(&(20..100), 500, 500), 100);
    assert_eq!(spawn_distance(&(20..100), 250, 500), 60);
    assert_eq!(spawn_distance(&(20..100), 1, 500), 20);
    assert_eq!(spawn_distance(&(20..100), 7, 500), 21);
    assert_eq!(spawn_distance(&(20..100), 499, 500), 99);
    assert_eq!(spawn_distance(&(20..100), 1, 1), 100);
    assert_eq!(spawn_distance(&(20..100), 2, 3), 73);
    assert_eq!(spawn_distance(&(-10..-4), 1, 2), -7);
    assert_eq!(spawn_distance(&(5..5), 3, 9), 5);
}

#[test]
fn spawn_distance_with_the_largest_numbers() {
    assert_eq!(spawn_distance(&(i32::MIN..i32::MAX), usize::MAX, usize::MAX), i32::MAX);
    assert_eq!(spawn_distance(&(i32::MIN..i32::MAX), 1, usize::MAX), i32::MIN);
    assert_eq!(spawn_distance(&(0..i32::MAX), usize::MAX / 2, usize::MAX), i32::MAX / 2);
}

#[test]
fn steps_add_both_axes() {
    assert_eq!(steps((0, 0), (0, 0)), 0);
    assert_eq!(steps((1, 2), (4, -2)), 7);
    assert_eq!(steps((4, -2), (1, 2)), 7);
    assert_eq!(steps((i32::MIN, i32::MIN), (i32::MAX, i32::MAX)), 2 * (u32::MAX as i64));
}

#[test]
fn nearest_important_takes_the_first_of_the_nearest() {
    let mut city = City::new();
    city.important_buildings = vec![(10, 0), (0, 0), (0, 4), (4, 0), (-50, -50)];
    assert_eq!(nearest_important(&city, (2, 2)), 1);
    assert_eq!(nearest_important(&city, (9, 1)), 0);
    assert_eq!(nearest_important(&city, (3, 1)), 3);
    assert_eq!(nearest_important(&city, (-30, -30)), 4);
    assert_eq!(nearest_important(&city, (1, 3)), 2);
    city.important_buildings = vec![(3, 3)];
    assert_eq!(nearest_important(&city, (-1000, 1000)), 0);
}

#[test]
fn keeps_clear_and_collides() {
    let mut g = generator(1);
    let mut city = City::new();
    let b = Building { door: (0, 0), x: 0, y: 0, width: 4, height: 4, is_important: true, id: 0 };
    mark_footprint(&mut g.occupancy, &b);
    city.insert(b);
    let near = Building { door: (10, 0), x: 10, y: 0, width: 4, height: 4, is_important: false, id: 1 };
    let far = Building { door: (12, 0), x: 12, y: 0, width: 4, height: 4, is_important: false, id: 1 };
    assert!(keeps_clear(&city, &near, 3));
    assert!(!keeps_clear(&city, &near, 8));
    assert!(keeps_clear(&city, &far, 8));
    assert!(collides(&city, &g.occupancy, &near));
    assert!(!collides(&city, &g.occupancy, &far));
    // one taken cell on each edge in turn
    for cell in [(14, 0), (12, 4), (12, 2), (16, 3)] {
        g.occupancy.mark(cell, CellType::Road);
        assert!(collides(&city, &g.occupancy, &far));
        g.occupancy.unmark(cell);
    }
    // a taken cell inside is not looked at
    g.occupancy.mark((14, 2), CellType::Road);
    assert!(!collides(&city, &g.occupancy, &far));
    // nor one just outside
    g.occupancy.mark((17, 2), CellType::Road);
    g.occupancy.mark((11, 0), CellType::Road);
    assert!(!collides(&city, &g.occupancy, &far));
}

#[test]
fn can_generate_tells_what_generate_takes() {
    let g = generator(1);
    assert!(g.can_generate(500, 3, 1));
    assert!(g.can_generate(0, 1, 1));
    assert!(g.can_generate(5, 2, 4));
    // no important building
    assert!(!g.can_generate(5, 0, 1));
    // no scale
    assert!(!g.can_generate(5, 2, 0));
    assert!(!g.can_generate(5, 2, -3));
    // a scale that shrinks the smallest size to nothing
    assert!(g.can_generate(5, 2, 8));
    assert!(!g.can_generate(5, 2, 9));
    // a window without a cell
    assert!(CityGenerator::new(1, 300..400, 300..400, 20..100, 500).can_generate(5, 2, 250));
    assert!(!CityGenerator::new(1, 300..400, 300..400, 20..100, 500).can_generate(5, 2, 251));
    // more buildings than the grid can take
    assert!(!g.can_generate(20_000_000, 2, 1));
    assert!(!g.can_generate(usize::MAX, 2, 1));
    // empty or upturned ranges
    assert!(!CityGenerator::new(1, 8..8, 8..30, 20..100, 500).can_generate(0, 1, 1));
    assert!(!CityGenerator::new(1, 8..30, 30..8, 20..100, 500).can_generate(0, 1, 1));
    assert!(!CityGenerator::new(1, 8..30, 8..30, 100..20, 500).can_generate(1, 1, 1));
    assert!(CityGenerator::new(1, 8..30, 8..30, 100..20, 500).can_generate(0, 1, 1));
    // sizes of nothing
    assert!(CityGenerator::new(1, 1..30, 1..30, 20..100, 500).can_generate(1, 1, 1));
    assert!(!CityGenerator::new(1, 0..30, 8..30, 20..100, 500).can_generate(0, 1, 1));
    assert!(!CityGenerator::new(1, 8..30, -1..30, 20..100, 500).can_generate(0, 1, 1));
    // sizes too large for the machine
    assert!(CityGenerator::new(1, 8..30, 8..30, 20..100, i32::MAX).can_generate(0, 1, 1));
    assert!(!CityGenerator::new(1, 8..i32::MAX, 8..30, 20..100, i32::MAX).can_generate(0, 1, 1));
}

#[test]
fn one_important_building_alone() {
    let mut g = generator(42);
    let city = g.generate(0, 1, 1).unwrap();
    assert_eq!(city.buildings.len(), 1);
    assert_eq!(city.roads.len(), 0);
    assert_eq!(city.important_buildings.len(), 1);
    let b = city.buildings[0];
    assert!(b.is_important);
    assert_eq!(b.id, 0);
    assert_eq!(city.important_buildings[0], (b.x, b.y));
    assert_eq!(
        (city.min_x, city.min_y, city.max_x, city.max_y),
        (b.x - 20, b.y - 20, b.x + b.width + 20, b.y + b.height + 20)
    );
    assert!(-250 <= b.x && b.x < 250 && -250 <= b.y && b.y < 250);
    assert!(8 <= b.width && b.width < 30 && 8 <= b.height && b.height < 30);
    check_layout(&g, &city);
}

#[test]
fn one_important_building_alone_for_many_seeds() {
    for seed in 0..50 {
        let mut g = generator(seed);
        let city = g.generate(0, 1, 1).unwrap();
        assert_eq!(city.buildings.len(), 1);
        assert!(city.roads.is_empty());
        check_layout(&g, &city);
    }
}

#[test]
fn a_small_city() {
    let mut g = generator(7);
    let city = g.generate(20, 3, 1).unwrap();
    assert_eq!(city.buildings.len(), 23);
    assert_eq!(city.important_buildings.len(), 3);
    assert_eq!(city.roads.len(), 3 * 2 + 20);
    check_layout(&g, &city);
    // the ordinary buildings count down
    for (i, b) in city.buildings[3..].iter().enumerate() {
        assert_eq!(b.id, 20 - i);
        assert!(8 <= b.width && b.width < 30 && 8 <= b.height && b.height < 30);
    }
    // the bounds are the tightest with the margin
    let left = city.buildings.iter().map(|b| b.x).min().unwrap();
    let bottom = city.buildings.iter().map(|b| b.y + b.height).max().unwrap();
    assert_eq!(city.min_x, left - 20);
    assert_eq!(city.max_y, bottom + 20);
}

#[test]
fn a_city_of_the_usual_size() {
    let mut g = generator(31);
    let city = g.generate(500, 3, 1).unwrap();
    assert_eq!(city.buildings.len(), 503);
    assert_eq!(city.roads.len(), 506);
    check_layout(&g, &city);
}

#[test]
fn cities_of_many_seeds_are_laid_out() {
    for seed in 100..112 {
        let mut g = generator(seed);
        let city = g.generate(12, 2, 1).unwrap();
        assert_eq!(city.buildings.len(), 14);
        assert_eq!(city.roads.len(), 2 + 12);
        check_layout(&g, &city);
    }
}

#[test]
fn the_same_seed_gives_the_same_city() {
    let mut one = generator(2024);
    let mut two = generator(2024);
    let a = one.generate(25, 3, 2).unwrap();
    let b = two.generate(25, 3, 2).unwrap();
    assert_eq!(a.buildings, b.buildings);
    assert_eq!(a.important_buildings, b.important_buildings);
    assert_eq!(a.roads, b.roads);
    assert_eq!((a.min_x, a.min_y, a.max_x, a.max_y), (b.min_x, b.min_y, b.max_x, b.max_y));
    for x in a.min_x..a.max_x {
        for y in a.min_y..a.max_y {
            assert_eq!(one.occupancy.tag_of((x, y)), two.occupancy.tag_of((x, y)));
        }
    }
}

#[test]
fn another_seed_gives_another_city() {
    let a = generator(1).generate(5, 2, 1).unwrap();
    let b = generator(2).generate(5, 2, 1).unwrap();
    assert_ne!(a.buildings, b.buildings);
}

#[test]
fn important_buildings_at_scale() {
    for k in [1, 2, 3, 5] {
        let mut draft = generator(11);
        let mut whole = generator(11);
        let before = draft.place_important_buildings(4, k).unwrap();
        let after = whole.generate_important_buildings(4, k).unwrap();
        assert_eq!(after.buildings.len(), 4);
        assert_eq!(after.roads.len(), 12);
        for (b, scaled) in before.buildings.iter().zip(after.buildings.iter()) {
            assert_eq!(*scaled, b.scaled(k));
            assert_eq!((scaled.x, scaled.y), (b.x * k, b.y * k));
            assert_eq!((scaled.width, scaled.height), (b.width * k, b.height * k));
            assert_eq!(scaled.door, (b.door.0 * k, b.door.1 * k));
        }
        for (anchor, scaled) in before.important_buildings.iter().zip(after.important_buildings.iter()) {
            assert_eq!(*scaled, (anchor.0 * k, anchor.1 * k));
        }
        check_layout(&whole, &after);
    }
}

#[test]
fn a_city_grown_round_important_buildings_at_scale() {
    let mut g = generator(5);
    let city = g.generate(15, 3, 4).unwrap();
    assert_eq!(city.buildings.len(), 18);
    assert_eq!(city.roads.len(), 6 + 15);
    check_layout(&g, &city);
    for b in &city.buildings[..3] {
        assert_eq!(b.x % 4, 0);
        assert_eq!(b.width % 4, 0);
        assert_eq!(b.door.1 % 4, 0);
    }
}

#[test]
fn a_walled_in_building_gets_empty_roads() {
    // where the first important building of this seed stands
    let mut scout = generator(3);
    let found = scout.place_important_buildings(2, 1).unwrap();
    let b = found.buildings[0];

    // a ring round it, one cell off its walls
    let mut g = generator(3);
    for x in b.x - 2..=b.x + b.width + 2 {
        g.occupancy.mark((x, b.y - 2), CellType::Building);
        g.occupancy.mark((x, b.y + b.height + 2), CellType::Building);
    }
    for y in b.y - 2..=b.y + b.height + 2 {
        g.occupancy.mark((b.x - 2, y), CellType::Building);
        g.occupancy.mark((b.x + b.width + 2, y), CellType::Building);
    }
    let city = g.generate(5, 2, 1).unwrap();
    assert_eq!(city.buildings.len(), 7);
    assert_eq!(city.buildings[0], b);
    assert_eq!(city.roads.len(), 2 + 5);
    assert!(city.roads.iter().any(|road| road.is_empty()));
    // neither important building reaches the other
    assert!(city.roads[0].is_empty());
    assert!(city.roads[1].is_empty());
    check_layout(&g, &city);
}

#[test]
fn no_attempts_no_city() {
    let mut g = generator(1);
    g.max_attempts = 0;
    assert_eq!(g.generate(0, 1, 1).err(), Some(GenerationError::PlacementExhausted));
    assert_eq!(g.generate(5, 2, 1).err(), Some(GenerationError::PlacementExhausted));
    assert_eq!(g.generate_random_important_building(&City::new(), 1), None);
    assert_eq!(g.place_important_buildings(1, 1).err(), Some(GenerationError::PlacementExhausted));
    assert_eq!(
        g.generate_important_buildings(3, 2).err(),
        Some(GenerationError::PlacementExhausted)
    );
    // nothing was written
    assert_eq!(g.occupancy.tag_of((0, 0)), None);
}

#[test]
fn no_attempts_are_needed_for_no_buildings() {
    let mut g = generator(1);
    g.max_attempts = 0;
    assert!(g.place_important_buildings(0, 1).unwrap().buildings.is_empty());
    let city = g.generate_important_buildings(0, 1).unwrap();
    assert!(city.buildings.is_empty());
    assert!(city.roads.is_empty());
}

#[test]
fn no_attempts_no_growth() {
    let mut g = generator(9);
    let mut city = g.generate_important_buildings(2, 1).unwrap();
    let buildings = city.buildings.clone();
    let roads = city.roads.clone();
    g.max_attempts = 0;
    assert_eq!(g.generate_buildings(&mut city, 3), Err(GenerationError::PlacementExhausted));
    assert_eq!(city.buildings, buildings);
    assert_eq!(city.roads, roads);
}

#[test]
fn generate_buildings_of_none_takes_any_city() {
    let mut g = generator(7);
    let mut city = City::new();
    city.insert(Building { door: (0, 0), x: 0, y: 0, width: 10, height: 10, is_important: true, id: 0 });
    city.important_buildings = vec![(0, 0)];
    city.min_x = -20;
    city.min_y = -20;
    city.max_x = 30;
    city.max_y = 30;
    assert_eq!(g.generate_buildings(&mut city, 0), Ok(()));
    assert_eq!(city.buildings.len(), 1);
    assert!(city.roads.is_empty());
    assert_eq!(city.important_buildings, vec![(0, 0)]);
    assert_eq!((city.min_x, city.min_y, city.max_x, city.max_y), (-20, -20, 30, 30));
    assert_eq!(g.occupancy.tag_of((5, 5)), None);
}

#[test]
fn a_window_too_small_for_two() {
    // every corner lies in a window of two cells each way: a second
    // building always meets the first
    let mut g = CityGenerator::new(1, 8..30, 8..30, 20..100, 2);
    g.max_attempts = 50;
    assert!(g.can_generate(0, 2, 1));
    assert_eq!(g.generate(0, 2, 1).err(), Some(GenerationError::PlacementExhausted));
    assert_eq!(g.generate_random_important_building(&City::new(), 1).map(|b| b.is_important), Some(true));
}

#[test]
fn growth_that_never_fits() {
    // buildings spawn two cells from the middle of their anchor: always too close
    let mut g = CityGenerator::new(1, 8..30, 8..30, 2..2, 500);
    g.max_attempts = 100;
    assert!(g.can_generate(3, 1, 1));
    assert_eq!(g.generate(3, 1, 1).err(), Some(GenerationError::PlacementExhausted));
}

#[test]
fn generate_buildings_of_none_changes_nothing() {
    let mut g = generator(9);
    let mut city = g.generate_important_buildings(2, 1).unwrap();
    let buildings = city.buildings.clone();
    let roads = city.roads.clone();
    assert_eq!(g.generate_buildings(&mut city, 0), Ok(()));
    assert_eq!(city.buildings, buildings);
    assert_eq!(city.roads, roads);
}

#[test]
fn place_building_joins_the_nearest_important_building() {
    let mut g = generator(1);
    let mut city = City::new();
    let seed = Building { door: (2, 1), x: 0, y: 0, width: 2, height: 2, is_important: true, id: 0 };
    mark_footprint(&mut g.occupancy, &seed);
    city.important_buildings.push((0, 0));
    city.update_borders_from_new_building(&seed);
    city.insert(seed);
    let b = Building { door: (12, 1), x: 12, y: 0, width: 2, height: 2, is_important: false, id: 1 };
    assert!(!collides(&city, &g.occupancy, &b));
    g.place_building(&mut city, b);
    assert_eq!(city.buildings, vec![seed, b]);
    assert_eq!((city.min_x, city.min_y, city.max_x, city.max_y), (-20, -20, 34, 22));
    assert_eq!(city.roads.len(), 1);
    let road = &city.roads[0];
    assert_eq!(road.first(), Some(&(12, 1)));
    assert_eq!(road.last(), Some(&(2, 1)));
    assert_eq!(road.len(), 11);
    assert_eq!(g.occupancy.tag_of((12, 1)), None);
    assert_eq!(g.occupancy.tag_of((2, 1)), None);
    assert_eq!(g.occupancy.tag_of((11, 1)), Some(CellType::Road));
    assert_eq!(g.occupancy.tag_of((13, 1)), Some(CellType::Building));
    check_layout(&g, &city);
}

#[test]
fn sample_building_stands_next_to_a_building_of_the_city() {
    let mut g = generator(77);
    let mut city = City::new();
    let seed = Building { door: (0, 0), x: 0, y: 0, width: 10, height: 20, is_important: true, id: 0 };
    city.insert(seed);
    let mut corners = std::collections::HashSet::new();
    for _ in 0..100 {
        let b = g.sample_building(&city, 250, 500);
        assert_eq!(b.id, 250);
        assert!(!b.is_important);
        assert!(b.x == 5 + 60 || b.x == 5 - 60);
        assert!(b.y == 10 + 60 || b.y == 10 - 60);
        assert!(8 <= b.width && b.width < 30 && 8 <= b.height && b.height < 30);
        assert!(on_boundary(&b));
        corners.insert((b.x, b.y));
    }
    assert_eq!(corners.len(), 4);
}

#[test]
fn draw_anchor_draws_every_building_in_time() {
    let mut g = generator(5);
    let mut city = City::new();
    for i in 0..6 {
        city.insert(Building { door: (50 * i, 0), x: 50 * i, y: 0, width: 10, height: 10, is_important: true, id: 0 });
    }
    let mut drawn = std::collections::HashSet::new();
    for _ in 0..200 {
        let b = g.draw_anchor(&city);
        assert!(city.buildings.contains(&b));
        drawn.insert(b.x);
    }
    assert_eq!(drawn.len(), 6);
}

#[test]
fn spawn_next_to_keeps_the_distance_of_the_countdown() {
    let mut g = generator(6);
    let anchor = Building { door: (0, 0), x: -7, y: 3, width: 9, height: 1, is_important: false, id: 4 };
    for (remaining, distance) in [(10, 100), (5, 60), (1, 28)] {
        let b = g.spawn_next_to(&anchor, remaining, 10);
        assert_eq!(b.id, remaining);
        assert!(b.x == -3 + distance || b.x == -3 - distance);
        assert!(b.y == 3 + distance || b.y == 3 - distance);
        assert!(on_boundary(&b));
        assert_ne!(b.door, (b.x + b.width, b.y + b.height));
    }
}

#[test]
fn sample_building_draws_among_the_buildings() {
    let mut g = generator(78);
    let mut city = City::new();
    for i in 0..10 {
        city.insert(Building { door: (100 * i, 0), x: 100 * i, y: 0, width: 10, height: 10, is_important: true, id: 0 });
    }
    let mut anchors = std::collections::HashSet::new();
    for _ in 0..200 {
        let b = g.sample_building(&city, 1, 1);
        // a hundred from the middle of the anchor, to the left or to the right
        let middle = if (b.x - 105).rem_euclid(100) == 0 { b.x - 100 } else { b.x + 100 };
        assert_eq!((middle - 5) % 100, 0);
        anchors.insert(b.x);
    }
    assert!(anchors.len() > 5);
}

/// Build the city again from its buildings alone, step by step.
fn replay(city: &City, scale: i32) -> (CityGenerator, City) {
    let mut g = generator(0);
    let mut again = City::new();
    let seeds = city.important_buildings.len();
    for b in &city.buildings[..seeds] {
        let draft = Building {
            door: (b.door.0 / scale, b.door.1 / scale),
            x: b.x / scale,
            y: b.y / scale,
            width: b.width / scale,
            height: b.height / scale,
            ..*b
        };
        assert_eq!(draft.scaled(scale), *b);
        mark_footprint(&mut g.occupancy, &draft);
        again.important_buildings.push((draft.x, draft.y));
        again.update_borders_from_new_building(&draft);
        again.insert(draft);
    }
    g.connect_important_buildings(&mut again);
    if scale > 1 {
        g.rescale(&mut again, scale);
    }
    for b in &city.buildings[seeds..] {
        assert!(!collides(&again, &g.occupancy, b));
        g.place_building(&mut again, *b);
    }
    again.update_borders();
    (g, again)
}

#[test]
fn the_buildings_decide_the_city() {
    for (seed, scale) in [(1, 1), (2, 1), (3, 2), (4, 5)] {
        let mut g = generator(seed);
        let city = g.generate(15, 3, scale).unwrap();
        let (h, again) = replay(&city, scale);
        assert_eq!(again.buildings, city.buildings);
        assert_eq!(again.important_buildings, city.important_buildings);
        assert_eq!(again.roads, city.roads);
        assert_eq!(
            (again.min_x, again.min_y, again.max_x, again.max_y),
            (city.min_x, city.min_y, city.max_x, city.max_y)
        );
        for x in city.min_x - 5..city.max_x + 5 {
            for y in city.min_y - 5..city.max_y + 5 {
                assert_eq!(h.occupancy.tag_of((x, y)), g.occupancy.tag_of((x, y)));
            }
        }
    }
}
