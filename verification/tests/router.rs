use city_gen::building::Building;
use city_gen::city::City;
use city_gen::city_generation::CityGenerator;
use city_gen::layout::{mark_footprint, mark_road};
use city_gen::occupancy::CellType;
use city_gen::router::{floor_sqrt, FREE_CELL_PENALTY, STEP_COST};

fn generator() -> CityGenerator {
    CityGenerator::new(1, 8..30, 8..30, 20..100, 500)
}

fn house(x: i32, y: i32, door: (i32, i32)) -> Building {
    Building { door, x, y, width: 2, height: 2, is_important: false, id: 0 }
}

/// Two houses on one row, their doors facing each other, written into the
/// index; the bounds hold both with the margin.
fn two_houses() -> (CityGenerator, City, Building, Building) {
    let mut generator = generator();
    let mut city = City::new();
    let left = house(0, 0, (2, 1));
    let right = house(6, 0, (6, 1));
    for b in [left, right] {
        mark_footprint(&mut generator.occupancy, &b);
        city.insert(b);
    }
    city.update_borders();
    (generator, city, left, right)
}

#[test]
fn the_costs_are_ten_and_five_times_ten() {
    assert_eq!(STEP_COST, 10);
    assert_eq!(FREE_CELL_PENALTY, 5);
}

#[test]
fn floor_sqrt_rounds_down() {
    assert_eq!(floor_sqrt(0), 0);
    assert_eq!(floor_sqrt(1), 1);
    assert_eq!(floor_sqrt(3), 1);
    assert_eq!(floor_sqrt(4), 2);
    assert_eq!(floor_sqrt(99), 9);
    assert_eq!(floor_sqrt(100), 10);
    assert_eq!(floor_sqrt(101), 10);
    assert_eq!(floor_sqrt(1 << 40), 1 << 20);
    assert_eq!(floor_sqrt((1 << 40) - 1), (1 << 20) - 1);
    assert_eq!(floor_sqrt(u64::MAX), u32::MAX as u64);
}

#[test]
fn floor_sqrt_is_the_square_root_of_the_floats_cut_off() {
    for n in 0..20_000u64 {
        assert_eq!(floor_sqrt(n), (n as f64).sqrt() as u64);
    }
}

#[test]
fn heuristic_is_the_root_of_ten_times_the_way_to_the_far_corner() {
    let end = Building { door: (10, 10), x: 10, y: 10, width: 5, height: 7, is_important: true, id: 0 };
    // the far corner is (15, 17)
    assert_eq!(CityGenerator::heuristic(&end, (15, 17)), 0);
    assert_eq!(CityGenerator::heuristic(&end, (15, 16)), 3);
    assert_eq!(CityGenerator::heuristic(&end, (5, 17)), 10);
    assert_eq!(CityGenerator::heuristic(&end, (25, 27)), 14);
    assert_eq!(CityGenerator::heuristic(&end, (0, 0)), 17);
    assert_eq!(CityGenerator::heuristic(&end, (15, -23)), 20);
}

#[test]
fn heuristic_at_the_ends_of_the_grid() {
    let end = Building { door: (0, 0), x: i32::MAX - 1, y: i32::MAX - 1, width: 1, height: 1, is_important: true, id: 0 };
    // 2 * (2^32 - 1) steps, times ten
    assert_eq!(CityGenerator::heuristic(&end, (i32::MIN, i32::MIN)), 293_085);
}

#[test]
fn successors_on_free_ground() {
    let generator = generator();
    let mut city = City::new();
    city.insert(house(0, 0, (0, 0)));
    city.update_borders();
    assert_eq!(
        generator.successors(&city, (10, 10)),
        vec![((9, 10), 50), ((10, 9), 50), ((10, 11), 50), ((11, 10), 50)]
    );
}

#[test]
fn successors_stay_within_the_bounds() {
    let generator = generator();
    let mut city = City::new();
    city.insert(house(0, 0, (0, 0)));
    city.update_borders();
    assert_eq!((city.min_x, city.min_y, city.max_x, city.max_y), (-20, -20, 22, 22));
    // the left and top bounds are taken in, the right and bottom bounds are not
    assert_eq!(generator.successors(&city, (-20, -20)), vec![((-20, -19), 50), ((-19, -20), 50)]);
    assert_eq!(generator.successors(&city, (21, 21)), vec![((20, 21), 50), ((21, 20), 50)]);
    assert_eq!(generator.successors(&city, (22, 22)), vec![]);
    assert_eq!(generator.successors(&city, (22, 0)), vec![((21, 0), 50)]);
    assert_eq!(generator.successors(&city, (-21, 0)), vec![((-20, 0), 50)]);
    assert_eq!(generator.successors(&city, (100, 100)), vec![]);
}

#[test]
fn successors_at_the_ends_of_the_grid() {
    let generator = generator();
    let mut city = City::new();
    city.min_x = i32::MIN;
    city.min_y = i32::MIN;
    city.max_x = i32::MAX;
    city.max_y = i32::MAX;
    assert_eq!(
        generator.successors(&city, (i32::MIN, i32::MIN)),
        vec![((i32::MIN, i32::MIN + 1), 50), ((i32::MIN + 1, i32::MIN), 50)]
    );
    assert_eq!(generator.successors(&city, (i32::MAX, i32::MAX)), vec![]);
    assert_eq!(
        generator.successors(&city, (i32::MAX - 1, i32::MAX - 1)),
        vec![((i32::MAX - 2, i32::MAX - 1), 50), ((i32::MAX - 1, i32::MAX - 2), 50)]
    );
}

#[test]
fn successors_take_roads_cheaply_and_keep_out_of_walls() {
    let (mut generator, city, _, _) = two_houses();
    generator.occupancy.mark((3, 0), CellType::Road);
    // from (3, 1): the door of the left house is free; above is a road; below is free
    assert_eq!(
        generator.successors(&city, (3, 1)),
        vec![((2, 1), 50), ((3, 0), 10), ((3, 2), 50), ((4, 1), 50)]
    );
    // from (5, 0): to the right is the wall of the right house
    assert_eq!(generator.successors(&city, (5, 0)), vec![((4, 0), 50), ((5, -1), 50), ((5, 1), 50)]);
    // from the door of the left house: walls above, below and behind
    assert_eq!(generator.successors(&city, (2, 1)), vec![((3, 1), 50)]);
}

#[test]
fn successors_enter_a_building_cell_only_where_it_is_the_door() {
    let mut generator = generator();
    let mut city = City::new();
    let b = house(0, 0, (2, 1));
    city.insert(b);
    city.update_borders();
    // every cell of the footprint is tagged, the door too
    for x in 0..=2 {
        for y in 0..=2 {
            generator.occupancy.mark((x, y), CellType::Building);
        }
    }
    assert!(CityGenerator::is_entrance(&city, (2, 1)));
    assert!(!CityGenerator::is_entrance(&city, (0, 0)));
    assert!(!CityGenerator::is_entrance(&city, (3, 1)));
    // onto the door from outside, at the cost of a plain step
    assert_eq!(
        generator.successors(&city, (3, 1)),
        vec![((2, 1), 10), ((3, 0), 50), ((3, 2), 50), ((4, 1), 50)]
    );
    // not onto the corner, nor onto any other cell of the walls
    assert_eq!(generator.successors(&city, (-1, 0)), vec![((-2, 0), 50), ((-1, -1), 50), ((-1, 1), 50)]);
    assert_eq!(generator.successors(&city, (3, 0)), vec![((3, -1), 50), ((3, 1), 50), ((4, 0), 50)]);
}

#[test]
fn a_door_outside_its_building_is_no_entrance() {
    let mut city = City::new();
    city.insert(house(0, 0, (5, 5)));
    assert!(!CityGenerator::is_entrance(&city, (5, 5)));
}

#[test]
fn is_goal_on_roads_and_in_the_end_building() {
    let (mut generator, _, _, right) = two_houses();
    generator.occupancy.mark((3, 0), CellType::Road);
    assert!(generator.is_goal(&right, (3, 0)));
    assert!(generator.is_goal(&right, (6, 1)));
    assert!(generator.is_goal(&right, (8, 2)));
    assert!(!generator.is_goal(&right, (5, 1)));
    // a cell of another building is no goal
    assert!(!generator.is_goal(&right, (1, 1)));
}

#[test]
fn generate_road_goes_straight_from_door_to_door() {
    let (generator, city, left, right) = two_houses();
    let (path, cost) = generator.generate_road(&city, &left, &right).unwrap();
    assert_eq!(path, vec![(2, 1), (3, 1), (4, 1), (5, 1), (6, 1)]);
    assert_eq!(cost, 200);
}

#[test]
fn generate_road_ends_on_the_first_road_it_meets() {
    let (mut generator, city, left, right) = two_houses();
    generator.occupancy.mark((4, 1), CellType::Road);
    let (path, cost) = generator.generate_road(&city, &left, &right).unwrap();
    assert_eq!(path, vec![(2, 1), (3, 1), (4, 1)]);
    assert_eq!(cost, 60);
}

#[test]
fn generate_road_goes_round_a_wall() {
    let (mut generator, city, left, right) = two_houses();
    // a wall across the straight way, three cells high
    for y in 0..=2 {
        generator.occupancy.mark((4, y), CellType::Building);
    }
    let (path, cost) = generator.generate_road(&city, &left, &right).unwrap();
    assert_eq!(path.first(), Some(&(2, 1)));
    assert_eq!(path.last(), Some(&(6, 1)));
    assert_eq!(path.len(), 9);
    assert_eq!(cost, 400);
    for pair in path.windows(2) {
        assert_eq!((pair[0].0 - pair[1].0).abs() + (pair[0].1 - pair[1].1).abs(), 1);
    }
    for cell in &path {
        assert_ne!(generator.occupancy.tag_of(*cell), Some(CellType::Building));
    }
}

#[test]
fn generate_road_finds_no_way_out_of_a_closed_door() {
    let (mut generator, city, left, right) = two_houses();
    generator.occupancy.mark((3, 1), CellType::Building);
    assert_eq!(generator.generate_road(&city, &left, &right), None);
}

#[test]
fn generate_road_finds_no_way_into_a_ring() {
    let (mut generator, city, left, right) = two_houses();
    for x in 4..=10 {
        generator.occupancy.mark((x, -2), CellType::Building);
        generator.occupancy.mark((x, 4), CellType::Building);
    }
    for y in -2..=4 {
        generator.occupancy.mark((4, y), CellType::Building);
        generator.occupancy.mark((10, y), CellType::Building);
    }
    assert_eq!(generator.generate_road(&city, &left, &right), None);
    // and none out of it
    assert_eq!(generator.generate_road(&city, &right, &left), None);
}

#[test]
fn generate_road_stops_at_the_first_goal_and_adds_up_its_steps() {
    let (mut generator, city, left, right) = two_houses();
    // a road of three cells across the way: the search stops on its first cell
    for x in 4..=5 {
        generator.occupancy.mark((x, 1), CellType::Road);
    }
    generator.occupancy.mark((4, 2), CellType::Road);
    let (path, cost) = generator.generate_road(&city, &left, &right).unwrap();
    assert_eq!(path, vec![(2, 1), (3, 1), (4, 1)]);
    assert_eq!(cost, 50 + 10);
    for cell in &path[..path.len() - 1] {
        assert!(!generator.is_goal(&right, *cell));
    }
    assert!(generator.is_goal(&right, path[path.len() - 1]));
}

#[test]
fn generate_road_from_a_door_that_is_a_goal() {
    let (mut generator, city, left, right) = two_houses();
    generator.occupancy.mark((2, 1), CellType::Road);
    assert_eq!(generator.generate_road(&city, &left, &right), Some((vec![(2, 1)], 0)));
}

#[test]
fn lay_road_writes_the_road_but_not_the_doors() {
    let (mut generator, mut city, left, right) = two_houses();
    let outcome = generator.generate_road(&city, &left, &right);
    generator.lay_road(&mut city, outcome);
    assert_eq!(city.roads, vec![vec![(2, 1), (3, 1), (4, 1), (5, 1), (6, 1)]]);
    assert_eq!(generator.occupancy.tag_of((2, 1)), None);
    assert_eq!(generator.occupancy.tag_of((3, 1)), Some(CellType::Road));
    assert_eq!(generator.occupancy.tag_of((4, 1)), Some(CellType::Road));
    assert_eq!(generator.occupancy.tag_of((5, 1)), Some(CellType::Road));
    assert_eq!(generator.occupancy.tag_of((6, 1)), None);
    assert_eq!(generator.occupancy.tag_of((3, 2)), None);
}

#[test]
fn lay_road_lays_an_empty_road_where_there_is_no_way() {
    let (mut generator, mut city, _, _) = two_houses();
    generator.lay_road(&mut city, None);
    assert_eq!(city.roads, vec![vec![]]);
    assert_eq!(generator.occupancy.tag_of((3, 1)), None);
}

#[test]
fn mark_road_leaves_doors_free() {
    let (mut generator, city, _, _) = two_houses();
    mark_road(&mut generator.occupancy, &city, &vec![(2, 1), (3, 1), (3, 2), (1, 1)]);
    assert_eq!(generator.occupancy.tag_of((2, 1)), None);
    assert_eq!(generator.occupancy.tag_of((3, 1)), Some(CellType::Road));
    assert_eq!(generator.occupancy.tag_of((3, 2)), Some(CellType::Road));
    // a cell of a footprint that is no door is written over
    assert_eq!(generator.occupancy.tag_of((1, 1)), Some(CellType::Road));
}

#[test]
fn mark_footprint_takes_every_cell_but_the_door() {
    let mut generator = generator();
    let b = Building { door: (4, 2), x: 1, y: 2, width: 3, height: 2, is_important: false, id: 0 };
    generator.occupancy.mark((4, 2), CellType::Road);
    generator.occupancy.mark((0, 2), CellType::Road);
    mark_footprint(&mut generator.occupancy, &b);
    for x in 1..=4 {
        for y in 2..=4 {
            let expected = if (x, y) == (4, 2) { None } else { Some(CellType::Building) };
            assert_eq!(generator.occupancy.tag_of((x, y)), expected);
        }
    }
    assert_eq!(generator.occupancy.tag_of((0, 2)), Some(CellType::Road));
    assert_eq!(generator.occupancy.tag_of((5, 2)), None);
    assert_eq!(generator.occupancy.tag_of((1, 1)), None);
    assert_eq!(generator.occupancy.tag_of((1, 5)), None);
}
